# it

A small version-control tool, written as a Verus-verified library (`src/`) and a thin
command-line program around it (`app/`).

## Library (`src/`)

- `text`, `bytes`: characters, UTF-8, big-endian integers, and the string operations the
  tool relies on (trimming, prefixes, words, lines, joining, replacing), each with a
  specification.
- `index`: the staging index file (`DIRC`, version 2): reading and writing, and the law
  that reading gives back what writing wrote.
- `digest`, `object`: SHA-1 ids, stored objects (`"{kind} {len}\0"` and content), zlib
  compression, and the entry list of tree objects, with the laws that an object's body
  and a tree's entries read back as written.
- `write_tree`: one tree object per directory of the staged entries, names in ascending
  order, subtrees first.
- `tree_laws`: the trees depend only on the names and file entries of each directory, so
  the order of the staged entries, their flags and (below the top) the entries outside
  the directory leave them unchanged.
- `restore_laws`: restoring the top tree written for the staged entries gives every
  staged file back.
- `head`, `log`, `color_utils`, `error`: HEAD, the reference logs and their display, the
  coloured message lines, and the error messages.
- `branch`, `switch`: the two commands as state machines; the program performs the
  actions they ask for.

Calls into `sha1`, `hex`, `flate2` and `colored` go through small trusted wrappers whose
contracts state what those crates document.

## Program (`app/`)

Parses the command line with `clap` and does the file-system work: reading and writing
files under `.it`, and running the state machines of `branch` and `switch`.
