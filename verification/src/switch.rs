//! The `switch` command as a state machine: check the branch, find the tree of its
//! commit, restore the tree into the working directory, point HEAD to the branch. The
//! caller performs each action and reports what came of it.
use vstd::prelude::*;
use vstd::utf8::encode_utf8;
use crate::color_utils::{fg_code, paint, shown, Hue};
use crate::error::ItError;
use crate::head::{
    current_branch, head_after, head_branch_prefix, head_content_for, head_for_branch,
    law_current_branch_after_switch, plain_branch_name,
};
use crate::object::{hash_hex, items_view, read_tree, tree_items, TreeItem};
use crate::digest::hex_lower;
use crate::text::{
    chars_equal, chars_of, extend_str, has_char, lemma_find_from_at, lines, split_lines,
    starts_with, string_of, strip_cr, strip_prefix_chars, trim, trim_str, trim_ws,
};

verus! {

/// What the `switch` command waits for.
pub enum SwitchState {
    /// Whether the repository exists.
    AwaitRepository { name: String },
    /// Whether the branch exists.
    AwaitTarget { name: String },
    /// The content of HEAD.
    AwaitHead { name: String },
    /// The content of the branch's reference file.
    AwaitBranchRef { name: String },
    /// The text of the commit object.
    AwaitCommit { name: String, commit_hash: String },
    /// The tree has been restored.
    AwaitRestore { name: String },
    /// HEAD has been written.
    AwaitHeadWritten { name: String },
    /// Nothing more to do.
    Finished,
}

/// What the caller reports.
pub enum SwitchEvent {
    /// The answer to a check.
    Flag(bool),
    /// The content of a file, or the text of an object, that was read.
    Text(String),
    /// The action is done.
    Done,
}

/// What the caller is to do next.
pub enum SwitchAction {
    /// Check that `.it` exists and is a directory.
    CheckRepository,
    /// Check whether `refs/heads/{name}` exists.
    CheckBranchFile(String),
    /// Read `HEAD`.
    ReadHead,
    /// Read `refs/heads/{name}`.
    ReadBranchFile(String),
    /// Read the object with this id and report its text (see `read_object`).
    ReadObject(String),
    /// Restore the tree with this id into the working directory.
    RestoreTree(String),
    /// Write this content to `HEAD`.
    WriteHead(String),
    /// Print this line; the command is done.
    Print(String),
    /// Stop with this error.
    Fail(ItError),
}

/// Whether the event is the kind of answer the state waits for.
pub open spec fn switch_event_fits(s: SwitchState, e: SwitchEvent) -> bool {
    match s {
        SwitchState::AwaitRepository { .. } => e is Flag,
        SwitchState::AwaitTarget { .. } => e is Flag,
        SwitchState::AwaitHead { .. } => e is Text,
        SwitchState::AwaitBranchRef { .. } => e is Text,
        SwitchState::AwaitCommit { .. } => e is Text,
        SwitchState::AwaitRestore { .. } => e is Done,
        SwitchState::AwaitHeadWritten { .. } => e is Done,
        SwitchState::Finished => false,
    }
}

/// The text "tree ".
pub open spec fn tree_tag() -> Seq<char> {
    seq!['t', 'r', 'e', 'e', ' ']
}

/// The first line that starts with "tree ", if any.
pub open spec fn first_tree_line(ls: Seq<Seq<char>>) -> Option<Seq<char>>
    decreases ls.len(),
{
    if ls.len() == 0 {
        None
    } else if starts_with(ls[0], tree_tag()) {
        Some(ls[0])
    } else {
        first_tree_line(ls.drop_first())
    }
}

/// The tree that a commit's text names: what follows "tree " on its first line that
/// starts with it, trimmed.
pub open spec fn commit_tree(commit: Seq<char>) -> Option<Seq<char>> {
    match first_tree_line(lines(commit)) {
        Some(l) => Some(trim_ws(l.skip(5))),
        None => None,
    }
}

/// Whether `m` is a line that says "{words} {branch}": the words in yellow, the branch
/// in cyan.
pub open spec fn is_switch_line(m: Seq<char>, text: Seq<char>, name: Seq<char>) -> bool {
    exists|a: Seq<char>, b: Seq<char>|
        shown(a, text, fg_code(Hue::Yellow)) && shown(b, name, fg_code(Hue::Cyan)) && m == a
            + seq![' '] + b
}

/// The transition of the `switch` command.
pub open spec fn switch_transition(s: SwitchState, e: SwitchEvent, r: (SwitchState, SwitchAction)) -> bool {
    match s {
        SwitchState::AwaitRepository { name } => match e {
            SwitchEvent::Flag(false) => {
                &&& r.0 is Finished
                &&& r.1 matches SwitchAction::Fail(ItError::NotARepository)
            },
            _ => {
                &&& r.0 matches SwitchState::AwaitTarget { name: n } && n@ == name@
                &&& r.1 matches SwitchAction::CheckBranchFile(n) && n@ == name@
            },
        },
        SwitchState::AwaitTarget { name } => match e {
            SwitchEvent::Flag(false) => {
                &&& r.0 is Finished
                &&& r.1 matches SwitchAction::Fail(ItError::BranchNotFound(n)) && n@ == name@
            },
            _ => {
                &&& r.0 matches SwitchState::AwaitHead { name: n } && n@ == name@
                &&& r.1 is ReadHead
            },
        },
        SwitchState::AwaitHead { name } => match e {
            SwitchEvent::Text(head) => if head_after(head@, head_branch_prefix()) == name@ {
                &&& r.0 is Finished
                &&& r.1 matches SwitchAction::Print(m) && is_switch_line(m@, "already on"@, name@)
            } else {
                &&& r.0 matches SwitchState::AwaitBranchRef { name: n } && n@ == name@
                &&& r.1 matches SwitchAction::ReadBranchFile(n) && n@ == name@
            },
            _ => false,
        },
        SwitchState::AwaitBranchRef { name } => match e {
            SwitchEvent::Text(content) => {
                &&& r.0 matches SwitchState::AwaitCommit { name: n, commit_hash: h } && n@ == name@
                    && h@ == trim_ws(content@)
                &&& r.1 matches SwitchAction::ReadObject(h) && h@ == trim_ws(content@)
            },
            _ => false,
        },
        SwitchState::AwaitCommit { name, commit_hash } => match e {
            SwitchEvent::Text(commit) => match commit_tree(commit@) {
                Some(t) => {
                    &&& r.0 matches SwitchState::AwaitRestore { name: n } && n@ == name@
                    &&& r.1 matches SwitchAction::RestoreTree(t2) && t2@ == t
                },
                None => {
                    &&& r.0 is Finished
                    &&& r.1 matches SwitchAction::Fail(ItError::InvalidRef(h)) && h@ == commit_hash@
                },
            },
            _ => false,
        },
        SwitchState::AwaitRestore { name } => {
            &&& r.0 matches SwitchState::AwaitHeadWritten { name: n } && n@ == name@
            &&& r.1 matches SwitchAction::WriteHead(c) && c@ == head_content_for(name@)
        },
        SwitchState::AwaitHeadWritten { name } => {
            &&& r.0 is Finished
            &&& r.1 matches SwitchAction::Print(m) && is_switch_line(m@, "switched to branch"@, name@)
        },
        SwitchState::Finished => false,
    }
}

/// The first state and action of `switch`: check the repository.
pub fn switch_start(name: String) -> (r: (SwitchState, SwitchAction))
    ensures
        r.0 == (SwitchState::AwaitRepository { name }),
        r.1 is CheckRepository,
{
    (SwitchState::AwaitRepository { name }, SwitchAction::CheckRepository)
}

/// A copy of a string.
fn copy_string(s: &str) -> (r: String)
    ensures
        r@ == s@,
{
    string_of(chars_of(s).as_slice())
}

/// The line "{text} {name}", the text in yellow and the name in cyan.
fn switch_line(text: &str, name: &str) -> (r: String)
    ensures
        is_switch_line(r@, text@, name@),
{
    let a = paint(text, Hue::Yellow);
    let b = paint(name, Hue::Cyan);
    let mut v = chars_of(a.as_str());
    v.push(' ');
    extend_str(&mut v, b.as_str());
    assert(v@ =~= a@ + seq![' '] + b@);
    string_of(v.as_slice())
}

/// The tree named by the text of a commit.
pub fn find_commit_tree(commit: &str) -> (r: Option<String>)
    ensures
        r matches Some(t) ==> commit_tree(commit@) == Some(t@),
        r is None ==> commit_tree(commit@) is None,
{
    let c = chars_of(commit);
    let ls = split_lines(c.as_slice());
    let ghost lv = ls@.map_values(|w: Vec<char>| w@);
    let tag = chars_of("tree ");
    proof {
        reveal_strlit("tree ");
        assert(tag@ =~= tree_tag());
    }
    let mut i: usize = 0;
    assert(lv.skip(0) =~= lv);
    while i < ls.len()
        invariant
            i <= ls@.len(),
            lv == ls@.map_values(|w: Vec<char>| w@),
            lv == lines(commit@),
            tag@ == tree_tag(),
            first_tree_line(lv) == first_tree_line(lv.skip(i as int)),
        decreases ls.len() - i,
    {
        assert(lv[i as int] == ls@[i as int]@);
        assert(lv.skip(i as int)[0] == lv[i as int]);
        match strip_prefix_chars(ls[i].as_slice(), tag.as_slice()) {
            Some(rest) => {
                let t = trim(rest.as_slice());
                return Some(string_of(t.as_slice()));
            },
            None => {},
        }
        assert(lv.skip(i as int).drop_first() =~= lv.skip(i + 1));
        i = i + 1;
    }
    assert(lv.skip(i as int) =~= Seq::<Seq<char>>::empty());
    None
}

/// One step of the `switch` command.
pub fn switch_step(s: SwitchState, e: SwitchEvent) -> (r: (SwitchState, SwitchAction))
    requires
        switch_event_fits(s, e),
    ensures
        switch_transition(s, e, r),
{
    match s {
        SwitchState::AwaitRepository { name } => match e {
            SwitchEvent::Flag(false) => (SwitchState::Finished, SwitchAction::Fail(ItError::NotARepository)),
            _ => {
                let n2 = copy_string(name.as_str());
                (SwitchState::AwaitTarget { name }, SwitchAction::CheckBranchFile(n2))
            },
        },
        SwitchState::AwaitTarget { name } => match e {
            SwitchEvent::Flag(false) => (
                SwitchState::Finished,
                SwitchAction::Fail(ItError::BranchNotFound(name)),
            ),
            _ => (SwitchState::AwaitHead { name }, SwitchAction::ReadHead),
        },
        SwitchState::AwaitHead { name } => match e {
            SwitchEvent::Text(head) => {
                let current = current_branch(head.as_str());
                let cc = chars_of(current.as_str());
                let nc = chars_of(name.as_str());
                if chars_equal(cc.as_slice(), nc.as_slice()) {
                    let m = switch_line("already on", name.as_str());
                    (SwitchState::Finished, SwitchAction::Print(m))
                } else {
                    let n2 = copy_string(name.as_str());
                    (SwitchState::AwaitBranchRef { name }, SwitchAction::ReadBranchFile(n2))
                }
            },
            _ => {
                // an event that does not fit the state; the precondition excludes it
                proof {
                    assert(false);
                }
                (SwitchState::Finished, SwitchAction::Fail(ItError::NotARepository))
            },
        },
        SwitchState::AwaitBranchRef { name } => match e {
            SwitchEvent::Text(content) => {
                let h = trim_str(content.as_str());
                let h2 = copy_string(h.as_str());
                (SwitchState::AwaitCommit { name, commit_hash: h }, SwitchAction::ReadObject(h2))
            },
            _ => {
                // an event that does not fit the state; the precondition excludes it
                proof {
                    assert(false);
                }
                (SwitchState::Finished, SwitchAction::Fail(ItError::NotARepository))
            },
        },
        SwitchState::AwaitCommit { name, commit_hash } => match e {
            SwitchEvent::Text(commit) => match find_commit_tree(commit.as_str()) {
                Some(t) => (SwitchState::AwaitRestore { name }, SwitchAction::RestoreTree(t)),
                None => (SwitchState::Finished, SwitchAction::Fail(ItError::InvalidRef(commit_hash))),
            },
            _ => {
                // an event that does not fit the state; the precondition excludes it
                proof {
                    assert(false);
                }
                (SwitchState::Finished, SwitchAction::Fail(ItError::NotARepository))
            },
        },
        SwitchState::AwaitRestore { name } => {
            let c = head_for_branch(name.as_str());
            (SwitchState::AwaitHeadWritten { name }, SwitchAction::WriteHead(c))
        },
        SwitchState::AwaitHeadWritten { name } => {
            let m = switch_line("switched to branch", name.as_str());
            (SwitchState::Finished, SwitchAction::Print(m))
        },
        SwitchState::Finished => {
            // a finished command takes no event; the precondition excludes it
            proof {
                assert(false);
            }
            (SwitchState::Finished, SwitchAction::Fail(ItError::NotARepository))
        },
    }
}

/// Whether the id can be cut into its directory and file names: its UTF-8 bytes have
/// a character boundary at index 2, so there are at least two of them (the tool stops
/// with a panic on other ids).
pub open spec fn object_path_ok(hash: Seq<char>) -> bool {
    vstd::utf8::is_char_boundary(encode_utf8(hash), 2)
}

/// Whether the id can be cut into its directory and file names.
pub fn object_path_is_ok(hash: &str) -> (b: bool)
    ensures
        b == object_path_ok(hash@),
{
    hash.is_char_boundary(2)
}

/// Where an object is stored below `objects/`: the directory named by the first two
/// bytes of its id, and the file named by the rest.
pub fn object_path(hash: &str) -> (r: (String, String))
    requires
        object_path_ok(hash@),
    ensures
        encode_utf8(r.0@) == encode_utf8(hash@).subrange(0, 2),
        encode_utf8(r.1@) == encode_utf8(hash@).subrange(2, encode_utf8(hash@).len() as int),
{
    let (a, b) = hash.split_at(2);
    (a.to_owned(), b.to_owned())
}

/// What restoring does with one entry of a tree: a directory to create and fill from
/// the tree with this id, or a file to write from the blob with this id.
pub struct RestoreStep {
    pub is_dir: bool,
    pub name: String,
    pub id: String,
}

/// The restore steps of the entries of a decompressed tree object, one per entry in
/// stored order, each with the hexadecimal id of its object. The object must be
/// readable (`tree_is_readable`; the tool stops with a panic on the others).
pub fn restore_steps(raw_tree: &[u8]) -> (r: Vec<RestoreStep>)
    requires
        tree_items(raw_tree@) is Some,
    ensures
        r@.len() == tree_items(raw_tree@).unwrap().len(),
        forall|k: int|
            0 <= k < r@.len() ==> {
                let it = #[trigger] tree_items(raw_tree@).unwrap()[k];
                &&& r@[k].is_dir == it.is_dir
                &&& r@[k].name@ == it.name
                &&& r@[k].id@ == hex_lower(it.hash)
            },
{
    let items = read_tree(raw_tree);
    let ghost iv = items_view(items@);
    let mut steps: Vec<RestoreStep> = Vec::new();
    let mut i: usize = 0;
    while i < items.len()
        invariant
            i <= items@.len(),
            iv == items_view(items@),
            iv == tree_items(raw_tree@).unwrap(),
            steps@.len() == i,
            forall|k: int|
                0 <= k < i ==> {
                    let it = #[trigger] iv[k];
                    &&& steps@[k].is_dir == it.is_dir
                    &&& steps@[k].name@ == it.name
                    &&& steps@[k].id@ == hex_lower(it.hash)
                },
        decreases items.len() - i,
    {
        let it: &TreeItem = &items[i];
        assert(iv[i as int] == items@[i as int]@);
        let id = hash_hex(it.hash.as_slice());
        let name = copy_string(it.name.as_str());
        steps.push(RestoreStep { is_dir: it.is_dir, name, id });
        i = i + 1;
    }
    steps
}


/// Law of switching: once HEAD is read, `switch` stops with the "already on" line
/// exactly when the branch that HEAD names (what `current_branch` reads from it) is
/// the target; for any other target it goes on to read the target branch's file.
pub proof fn law_switch_stops_only_on_current(
    name: String,
    head: String,
    r: (SwitchState, SwitchAction),
)
    requires
        switch_transition(SwitchState::AwaitHead { name }, SwitchEvent::Text(head), r),
    ensures
        (r.0 is Finished) <==> head_after(head@, head_branch_prefix()) == name@,
        head_after(head@, head_branch_prefix()) == name@ ==> (r.1 matches SwitchAction::Print(m)
            && is_switch_line(m@, "already on"@, name@)),
        head_after(head@, head_branch_prefix()) != name@ ==> {
            &&& r.0 matches SwitchState::AwaitBranchRef { name: n } && n@ == name@
            &&& r.1 matches SwitchAction::ReadBranchFile(n) && n@ == name@
        },
{
}

/// Law of switching: when HEAD was last written to point to the branch `b` (as
/// `switch` writes it), switching to `name` stops with "already on" exactly when
/// `name` is `b`, for any branch name that reads back unchanged.
pub proof fn law_switch_after_switch(b: Seq<char>, name: String, head: String, r: (SwitchState, SwitchAction))
    requires
        plain_branch_name(b),
        head@ == head_content_for(b),
        switch_transition(SwitchState::AwaitHead { name }, SwitchEvent::Text(head), r),
    ensures
        (r.0 is Finished) <==> name@ == b,
        name@ != b ==> (r.1 matches SwitchAction::ReadBranchFile(n) && n@ == name@),
{
    law_current_branch_after_switch(b);
    law_switch_stops_only_on_current(name, head, r);
}


/// Splitting a text at its first line feed: the first line (without a carriage return
/// at its end) and the lines of the rest.
proof fn lemma_lines_first(l: Seq<char>, rest: Seq<char>)
    requires
        !has_char(l, '\n'),
    ensures
        lines(l + seq!['\n'] + rest) == seq![strip_cr(l)] + lines(rest),
{
    let s = l + seq!['\n'] + rest;
    assert forall|j: int| 0 <= j < l.len() implies s[j] != '\n' by {
        assert(s[j] == l[j]);
        if l[j] == '\n' {
            assert(has_char(l, '\n'));
        }
    }
    lemma_find_from_at(s, 0, l.len() as int, '\n');
    assert(s.take(l.len() as int) =~= l);
    assert(s.skip(l.len() as int + 1) =~= rest);
}

/// Law of commits: the tree of a commit is named on its first line that starts with
/// "tree ": a commit text that opens with "tree {t}" names the tree `t` (trimmed),
/// whatever follows.
pub proof fn law_commit_tree_first_line(t: Seq<char>, rest: Seq<char>)
    requires
        !has_char(t, '\n'),
        t.len() == 0 || t.last() != '\r',
    ensures
        commit_tree(tree_tag() + t + seq!['\n'] + rest) == Some(trim_ws(t)),
{
    let l = tree_tag() + t;
    assert(!has_char(l, '\n')) by {
        if has_char(l, '\n') {
            let j = choose|j: int| 0 <= j < l.len() && l[j] == '\n';
            if j >= 5 {
                assert(t[j - 5] == '\n');
            }
        }
    }
    lemma_lines_first(l, rest);
    assert(l.last() != '\r') by {
        if t.len() > 0 {
            assert(l.last() == t.last());
        }
    }
    assert(strip_cr(l) == l);
    assert(l.take(5) =~= tree_tag());
    assert(l.skip(5) =~= t);
}

/// Law of commits: a line that does not start with "tree " is passed over when looking
/// for the tree of a commit.
pub proof fn law_commit_tree_skips_other_lines(l: Seq<char>, rest: Seq<char>)
    requires
        !has_char(l, '\n'),
        !starts_with(l, tree_tag()),
    ensures
        commit_tree(l + seq!['\n'] + rest) == commit_tree(rest),
{
    lemma_lines_first(l, rest);
    let ls = seq![strip_cr(l)] + lines(rest);
    assert(!starts_with(strip_cr(l), tree_tag())) by {
        if starts_with(strip_cr(l), tree_tag()) {
            assert(l.take(5) =~= strip_cr(l).take(5));
        }
    }
    assert(ls.drop_first() =~= lines(rest));
}


/// Law of switching: once the tree is restored, HEAD is written to point to the target
/// branch, so that reading the current branch from it afterwards gives the target (for
/// a branch name that reads back unchanged).
pub proof fn law_switch_points_head_to_target(name: String, r: (SwitchState, SwitchAction))
    requires
        plain_branch_name(name@),
        switch_transition(SwitchState::AwaitRestore { name }, SwitchEvent::Done, r),
    ensures
        r.1 matches SwitchAction::WriteHead(c) && head_after(c@, head_branch_prefix()) == name@,
{
    law_current_branch_after_switch(name@);
}

} // verus!
