//! Turning the staged entries into tree objects: one tree per directory, its entries
//! in ascending name order, subtrees built (and listed) before the tree that holds
//! them.
use vstd::prelude::*;
use crate::digest::{sha1, sha1_digest};
use crate::error::ItError;
use crate::index::{entries_view, EntryView, IndexEntry};
use crate::object::{
    build_object, compress_data, encode_tree, item_storable, items_view, law_object_body_of_build_object,
    law_read_tree_after_encode_tree, lemma_object_nonempty, object_bytes, object_id, tree_content,
    tree_items, zlib_compressed, zlib_decoded, TreeItem, TreeItemView,
};
use crate::text::{
    before_char, before_first, chars_of, contains_char, extend_chars, has_char, strip_prefix,
    strip_prefix_chars, string_of, sub_vec,
};

verus! {

/// The path relative to the directory `prefix` ("" is the top directory): the path
/// itself at the top, otherwise what follows `prefix/`, if the path starts with that.
pub open spec fn relative(path: Seq<char>, prefix: Seq<char>) -> Option<Seq<char>> {
    if prefix.len() == 0 {
        Some(path)
    } else {
        strip_prefix(path, prefix + seq!['/'])
    }
}

/// Whether the entry lies under `prefix` with first component `name`.
pub open spec fn in_group(e: EntryView, prefix: Seq<char>, name: Seq<char>) -> bool {
    relative(e.path, prefix) matches Some(r) && before_char(r, '/') == name
}

/// The entries under `prefix` whose first component is `name`, in index order.
pub open spec fn group(es: Seq<EntryView>, prefix: Seq<char>, name: Seq<char>) -> Seq<EntryView>
    decreases es.len(),
{
    if es.len() == 0 {
        seq![]
    } else if in_group(es.last(), prefix, name) {
        group(es.drop_last(), prefix, name).push(es.last())
    } else {
        group(es.drop_last(), prefix, name)
    }
}

/// Whether `a` comes strictly before `b` (code point by code point, a proper prefix
/// first): the order of `String`.
pub open spec fn lex_lt(a: Seq<char>, b: Seq<char>) -> bool
    decreases a.len(),
{
    if a.len() == 0 {
        b.len() > 0
    } else if b.len() == 0 {
        false
    } else if a[0] != b[0] {
        (a[0] as u32) < (b[0] as u32)
    } else {
        lex_lt(a.drop_first(), b.drop_first())
    }
}

/// `names` with `n` added in its place, unless it is there already.
pub open spec fn insert_name(names: Seq<Seq<char>>, n: Seq<char>) -> Seq<Seq<char>>
    decreases names.len(),
{
    if names.len() == 0 {
        seq![n]
    } else if names[0] == n {
        names
    } else if lex_lt(n, names[0]) {
        seq![n] + names
    } else {
        seq![names[0]] + insert_name(names.drop_first(), n)
    }
}

/// The first components of the entries under `prefix`, each once, in ascending order.
pub open spec fn names_of(es: Seq<EntryView>, prefix: Seq<char>) -> Seq<Seq<char>>
    decreases es.len(),
{
    if es.len() == 0 {
        seq![]
    } else {
        let ns = names_of(es.drop_last(), prefix);
        match relative(es.last().path, prefix) {
            Some(r) => insert_name(ns, before_char(r, '/')),
            None => ns,
        }
    }
}

/// Whether a group stands for a file in its tree: a single entry with no further
/// directory below the prefix.
pub open spec fn is_file(g: Seq<EntryView>, prefix: Seq<char>) -> bool {
    &&& g.len() == 1
    &&& relative(g[0].path, prefix) matches Some(r) && !has_char(r, '/')
}

/// The directory one level below `prefix`.
pub open spec fn sub_prefix(prefix: Seq<char>, name: Seq<char>) -> Seq<char> {
    if prefix.len() == 0 {
        name
    } else {
        prefix + seq!['/'] + name
    }
}

/// The length of the longest path.
pub open spec fn max_len(es: Seq<EntryView>) -> nat
    decreases es.len(),
{
    if es.len() == 0 {
        0
    } else {
        let m = max_len(es.drop_last());
        if es.last().path.len() > m {
            es.last().path.len()
        } else {
            m
        }
    }
}

/// The kind of a tree object: "tree".
pub open spec fn tree_kind() -> Seq<char> {
    seq!['t', 'r', 'e', 'e']
}

/// The tree objects for the directory `prefix`, as (id, object bytes) pairs: those of
/// its subtrees in name order, each after its own subtrees, and last its own.
pub open spec fn tree_objects(es: Seq<EntryView>, prefix: Seq<char>) -> Seq<(Seq<char>, Seq<u8>)>
    decreases max_len(es) - prefix.len(), names_of(es, prefix).len() + 1,
{
    let (items, objs) = tree_entries(es, prefix, names_of(es, prefix));
    let obj = object_bytes(tree_kind(), tree_content(items));
    objs.push((object_id(obj), obj))
}

/// The entries of the tree of the directory `prefix` for the given names, with the
/// objects of the subtrees they need. A name whose group is a file is a file entry
/// with that entry's hash; any other name is a subtree entry with the digest of its
/// tree object (built where its directory is longer than `prefix` and no longer than
/// the longest path, which always holds for a buildable tree, see
/// `lemma_subtree_in_range`).
pub open spec fn tree_entries(es: Seq<EntryView>, prefix: Seq<char>, names: Seq<Seq<char>>) -> (
    Seq<TreeItemView>,
    Seq<(Seq<char>, Seq<u8>)>,
)
    decreases max_len(es) - prefix.len(), names.len(),
{
    if names.len() == 0 {
        (seq![], seq![])
    } else {
        let (items, objs) = tree_entries(es, prefix, names.drop_last());
        let name = names.last();
        let g = group(es, prefix, name);
        if is_file(g, prefix) {
            (items.push(TreeItemView { is_dir: false, name, hash: g[0].sha }), objs)
        } else {
            let sub = sub_prefix(prefix, name);
            if prefix.len() < sub.len() <= max_len(es) {
                let sub_objs = tree_objects(es, sub);
                (
                    items.push(
                        TreeItemView { is_dir: true, name, hash: sha1_digest(sub_objs.last().1) },
                    ),
                    objs + sub_objs,
                )
            } else {
                (items, objs)
            }
        }
    }
}

/// The entries of the tree of the directory `prefix`.
pub open spec fn dir_entries(es: Seq<EntryView>, prefix: Seq<char>) -> Seq<TreeItemView> {
    tree_entries(es, prefix, names_of(es, prefix)).0
}

/// Whether each of the objects has a 20-byte digest (as every digest that `sha1` gives
/// has; the objects that `build_tree` returns were each hashed so).
pub open spec fn digests_sized(objs: Seq<(Seq<char>, Seq<u8>)>) -> bool {
    forall|k: int| 0 <= k < objs.len() ==> (#[trigger] sha1_digest(objs[k].1)).len() == 20
}

/// Whether no staged path holds a NUL character.
pub open spec fn no_nul_paths(es: Seq<EntryView>) -> bool {
    forall|i: int| 0 <= i < es.len() ==> !has_char(#[trigger] es[i].path, '\0')
}

/// Whether the tree of the entries can be built: at the top, the entries whose first
/// component is empty (a path that is empty or starts with '/') form no directory
/// (building would recurse without end on such a directory).
pub open spec fn tree_buildable(es: Seq<EntryView>) -> bool {
    let g = group(es, seq![], seq![]);
    g.len() == 0 || is_file(g, seq![])
}

/// A tree object: its id and its bytes.
pub struct TreeObject {
    pub id: String,
    pub object: Vec<u8>,
}

impl View for TreeObject {
    type V = (Seq<char>, Seq<u8>);

    open spec fn view(&self) -> (Seq<char>, Seq<u8>) {
        (self.id@, self.object@)
    }
}

/// The values of a sequence of tree objects.
pub open spec fn objects_view(v: Seq<TreeObject>) -> Seq<(Seq<char>, Seq<u8>)> {
    v.map_values(|o: TreeObject| o@)
}

/// The values of a sequence of names.
pub open spec fn names_view(v: Seq<Vec<char>>) -> Seq<Seq<char>> {
    v.map_values(|n: Vec<char>| n@)
}

/// Whether `a` comes strictly before `b`.
fn lex_less(a: &[char], b: &[char]) -> (r: bool)
    ensures
        r == lex_lt(a@, b@),
{
    let mut i: usize = 0;
    assert(a@.skip(0) == a@);
    assert(b@.skip(0) == b@);
    while i < a.len() && i < b.len() && a[i] == b[i]
        invariant
            i <= a@.len(),
            i <= b@.len(),
            lex_lt(a@, b@) == lex_lt(a@.skip(i as int), b@.skip(i as int)),
        decreases a.len() - i,
    {
        assert(a@.skip(i as int).drop_first() =~= a@.skip(i + 1));
        assert(b@.skip(i as int).drop_first() =~= b@.skip(i + 1));
        i = i + 1;
    }
    if i == a.len() {
        i < b.len()
    } else if i == b.len() {
        false
    } else {
        (a[i] as u32) < (b[i] as u32)
    }
}

/// Adds `n` to the ascending, repetition-free `names`.
fn insert_sorted(names: &mut Vec<Vec<char>>, n: Vec<char>)
    ensures
        names_view(final(names)@) == insert_name(names_view(old(names)@), n@),
{
    let ghost v = names_view(names@);
    let mut j: usize = 0;
    assert(v.skip(0) == v);
    assert(v.take(0) + insert_name(v.skip(0), n@) =~= insert_name(v, n@));
    while j < names.len()
        invariant
            j <= names@.len(),
            names == old(names),
            v == names_view(names@),
            insert_name(v, n@) == v.take(j as int) + insert_name(v.skip(j as int), n@),
        decreases names.len() - j,
    {
        assert(v[j as int] == names@[j as int]@);
        if crate::text::chars_equal(names[j].as_slice(), n.as_slice()) {
            assert(v.take(j as int) + v.skip(j as int) =~= v);
            return;
        }
        if lex_less(n.as_slice(), names[j].as_slice()) {
            let ghost nv = n@;
            names.insert(j, n);
            assert(names_view(names@) =~= v.take(j as int) + (seq![nv] + v.skip(j as int)));
            return;
        }
        assert(v.skip(j as int).drop_first() =~= v.skip(j + 1));
        assert(v.take(j as int) + seq![v[j as int]] =~= v.take(j + 1));
        j = j + 1;
    }
    let ghost nv = n@;
    names.push(n);
    assert(v.skip(j as int) =~= Seq::<Seq<char>>::empty());
    assert(v.take(j as int) =~= v);
    assert(names_view(names@) =~= v.push(nv));
}

/// The path relative to `prefix`.
fn relative_path(path: &[char], prefix: &[char]) -> (r: Option<Vec<char>>)
    ensures
        r matches Some(t) ==> relative(path@, prefix@) == Some(t@),
        r is None ==> relative(path@, prefix@) is None,
{
    if prefix.len() == 0 {
        assert(path@.subrange(0, path@.len() as int) == path@);
        Some(sub_vec(path, 0, path.len()))
    } else {
        let mut p = sub_vec(prefix, 0, prefix.len());
        p.push('/');
        assert(prefix@.subrange(0, prefix@.len() as int) == prefix@);
        assert(p@ =~= prefix@ + seq!['/']);
        strip_prefix_chars(path, p.as_slice())
    }
}

/// The names under `prefix`, each once, ascending.
fn collect_names(entries: &[IndexEntry], prefix: &[char]) -> (r: Vec<Vec<char>>)
    ensures
        names_view(r@) == names_of(entries_view(entries@), prefix@),
{
    let ghost es = entries_view(entries@);
    let mut names: Vec<Vec<char>> = Vec::new();
    let mut i: usize = 0;
    assert(es.take(0) =~= Seq::<EntryView>::empty());
    assert(names_view(names@) =~= Seq::<Seq<char>>::empty());
    while i < entries.len()
        invariant
            i <= entries@.len(),
            es == entries_view(entries@),
            names_view(names@) == names_of(es.take(i as int), prefix@),
        decreases entries.len() - i,
    {
        let path = chars_of(entries[i].path.as_str());
        assert(es[i as int] == entries@[i as int]@);
        assert(es.take(i + 1).drop_last() =~= es.take(i as int));
        assert(es.take(i + 1).last() == es[i as int]);
        match relative_path(path.as_slice(), prefix) {
            Some(r) => {
                let c = before_first(r.as_slice(), '/');
                insert_sorted(&mut names, c);
            },
            None => {},
        }
        i = i + 1;
    }
    assert(es.take(entries@.len() as int) =~= es);
    names
}

/// The size of the group of `name` under `prefix`, and the position of its first entry.
fn group_info(entries: &[IndexEntry], prefix: &[char], name: &[char]) -> (r: (usize, usize))
    ensures
        r.0 == group(entries_view(entries@), prefix@, name@).len(),
        r.0 > 0 ==> r.1 < entries@.len() && entries@[r.1 as int]@ == group(
            entries_view(entries@),
            prefix@,
            name@,
        )[0],
{
    let ghost es = entries_view(entries@);
    let mut count: usize = 0;
    let mut first: usize = 0;
    let mut i: usize = 0;
    assert(es.take(0) =~= Seq::<EntryView>::empty());
    while i < entries.len()
        invariant
            i <= entries@.len(),
            es == entries_view(entries@),
            count == group(es.take(i as int), prefix@, name@).len(),
            count <= i,
            count > 0 ==> first < i && entries@[first as int]@ == group(
                es.take(i as int),
                prefix@,
                name@,
            )[0],
        decreases entries.len() - i,
    {
        let path = chars_of(entries[i].path.as_str());
        assert(es[i as int] == entries@[i as int]@);
        assert(es.take(i + 1).drop_last() =~= es.take(i as int));
        assert(es.take(i + 1).last() == es[i as int]);
        match relative_path(path.as_slice(), prefix) {
            Some(r) => {
                let c = before_first(r.as_slice(), '/');
                if crate::text::chars_equal(c.as_slice(), name) {
                    if count == 0 {
                        first = i;
                    }
                    count = count + 1;
                }
            },
            None => {},
        }
        i = i + 1;
    }
    assert(es.take(entries@.len() as int) =~= es);
    (count, first)
}

/// The directory one level below `prefix`.
fn sub_prefix_chars(prefix: &[char], name: &[char]) -> (r: Vec<char>)
    ensures
        r@ == sub_prefix(prefix@, name@),
{
    let mut r = sub_vec(prefix, 0, prefix.len());
    assert(prefix@.subrange(0, prefix@.len() as int) == prefix@);
    if prefix.len() > 0 {
        r.push('/');
    }
    extend_chars(&mut r, name);
    assert(r@ =~= sub_prefix(prefix@, name@));
    r
}

/// The length of the longest path, in characters.
fn longest_path(entries: &[IndexEntry]) -> (m: usize)
    ensures
        m == max_len(entries_view(entries@)),
{
    let ghost es = entries_view(entries@);
    let mut m: usize = 0;
    let mut i: usize = 0;
    assert(es.take(0) =~= Seq::<EntryView>::empty());
    while i < entries.len()
        invariant
            i <= entries@.len(),
            es == entries_view(entries@),
            m == max_len(es.take(i as int)),
        decreases entries.len() - i,
    {
        let path = chars_of(entries[i].path.as_str());
        assert(es[i as int] == entries@[i as int]@);
        assert(es.take(i + 1).drop_last() =~= es.take(i as int));
        assert(es.take(i + 1).last() == es[i as int]);
        if path.len() > m {
            m = path.len();
        }
        i = i + 1;
    }
    assert(es.take(entries@.len() as int) =~= es);
    m
}

/// The tree objects for the directory `prefix`, with the raw digest of the last one
/// (the tree of `prefix` itself).
fn build_tree_at(entries: &[IndexEntry], prefix: &[char], longest: usize) -> (r: (
    Vec<TreeObject>,
    Vec<u8>,
))
    requires
        longest == max_len(entries_view(entries@)),
        prefix@.len() > 0 || tree_buildable(entries_view(entries@)),
    ensures
        objects_view(r.0@) == tree_objects(entries_view(entries@), prefix@),
        r.1@ == sha1_digest(tree_objects(entries_view(entries@), prefix@).last().1),
        r.1@.len() == 20,
        digests_sized(objects_view(r.0@)),
        no_nul_paths(entries_view(entries@)) ==> tree_items(
            tree_objects(entries_view(entries@), prefix@).last().1,
        ) == Some(dir_entries(entries_view(entries@), prefix@)),
    decreases longest - prefix@.len(), names_of(entries_view(entries@), prefix@).len() + 1,
{
    let ghost es = entries_view(entries@);
    let names = collect_names(entries, prefix);
    let ghost ns = names_view(names@);
    let mut items: Vec<TreeItem> = Vec::new();
    let mut objs: Vec<TreeObject> = Vec::new();
    let mut k: usize = 0;
    assert(ns.take(0) =~= Seq::<Seq<char>>::empty());
    assert(objects_view(objs@) =~= Seq::<(Seq<char>, Seq<u8>)>::empty());
    assert(items_view(items@) =~= Seq::<TreeItemView>::empty());
    while k < names.len()
        invariant
            k <= names@.len(),
            es == entries_view(entries@),
            longest == max_len(es),
            prefix@.len() > 0 || tree_buildable(es),
            ns == names_view(names@),
            ns == names_of(es, prefix@),
            (items_view(items@), objects_view(objs@)) == tree_entries(es, prefix@, ns.take(k as int)),
            digests_sized(objects_view(objs@)),
            no_nul_paths(es) ==> forall|j: int|
                0 <= j < items@.len() ==> item_storable(#[trigger] items_view(items@)[j]),
        decreases names.len() - k,
    {
        let name = &names[k];
        assert(ns[k as int] == names@[k as int]@);
        assert(ns.take(k + 1).drop_last() =~= ns.take(k as int));
        assert(ns.take(k + 1).last() == ns[k as int]);
        let ghost nm = ns[k as int];
        proof {
            assert(ns.contains(nm));
            lemma_names_member(es, prefix@, nm);
        }
        let ghost wi = choose|i: int| 0 <= i < es.len() && in_group(es[i], prefix@, nm);
        proof {
            lemma_name_in_path(es[wi], prefix@, nm);
            lemma_max_len(es, wi);
            lemma_group_nonempty(es, prefix@, nm, wi);
        }
        let (count, first) = group_info(entries, prefix, name.as_slice());
        let mut file = false;
        if count == 1 {
            let path = chars_of(entries[first].path.as_str());
            match relative_path(path.as_slice(), prefix) {
                Some(r) => {
                    file = !contains_char(r.as_slice(), '/');
                },
                None => {},
            }
        }
        let ghost g = group(es, prefix@, nm);
        assert(file == is_file(g, prefix@));
        let ghost before_items = items_view(items@);
        let ghost before_objs = objects_view(objs@);
        if file {
            let item = TreeItem {
                is_dir: false,
                name: string_of(name.as_slice()),
                hash: sub_vec(&entries[first].sha, 0, 20),
            };
            assert(entries[first as int].sha@.subrange(0, 20) =~= entries[first as int].sha@);
            items.push(item);
            assert(items_view(items@) =~= before_items.push(item@));
        } else {
            let sub = sub_prefix_chars(prefix, name.as_slice());
            proof {
                if prefix@.len() == 0 && nm.len() == 0 {
                    assert(nm =~= Seq::<char>::empty());
                    assert(prefix@ =~= Seq::<char>::empty());
                }
            }
            assert(prefix@.len() < sub@.len() <= max_len(es));
            let (sub_objs, digest) = build_tree_at(entries, sub.as_slice(), longest);
            let item = TreeItem { is_dir: true, name: string_of(name.as_slice()), hash: digest };
            items.push(item);
            assert(items_view(items@) =~= before_items.push(item@));
            let mut sub_objs = sub_objs;
            objs.append(&mut sub_objs);
            assert(objects_view(objs@) =~= before_objs + tree_objects(es, sub@));
            proof {
                let ov = objects_view(objs@);
                assert forall|j: int| 0 <= j < ov.len() implies (#[trigger] sha1_digest(ov[j].1)).len()
                    == 20 by {
                    if j < before_objs.len() {
                        assert(ov[j] == before_objs[j]);
                    } else {
                        assert(ov[j] == tree_objects(es, sub@)[j - before_objs.len()]);
                    }
                }
            }
        }
        proof {
            if no_nul_paths(es) {
                assert(!has_char(es[wi].path, '\0'));
                assert forall|j: int| 0 <= j < items@.len() implies item_storable(
                    #[trigger] items_view(items@)[j],
                ) by {
                    if j < items@.len() - 1 {
                        assert(items_view(items@)[j] == before_items[j]);
                    }
                }
            }
        }
        k = k + 1;
    }
    assert(ns.take(names@.len() as int) =~= ns);
    let content = encode_tree(items.as_slice());
    let obj = build_object(content.as_slice(), "tree");
    proof {
        reveal_strlit("tree");
        assert("tree"@ =~= tree_kind());
    }
    let digest = sha1(obj.as_slice());
    let id = crate::digest::hex_encode(digest.as_slice());
    let ghost before_objs = objects_view(objs@);
    let ghost objv = obj@;
    objs.push(TreeObject { id, object: obj });
    assert(objects_view(objs@) =~= before_objs.push((object_id(objv), objv)));
    proof {
        let ov = objects_view(objs@);
        assert forall|j: int| 0 <= j < ov.len() implies (#[trigger] sha1_digest(ov[j].1)).len() == 20 by {
            if j < before_objs.len() {
                assert(ov[j] == before_objs[j]);
            }
        }
    }
    proof {
        if no_nul_paths(es) {
            let iv = items_view(items@);
            law_read_tree_after_encode_tree(iv);
            assert(!has_char(tree_kind(), '\0')) by {
                if has_char(tree_kind(), '\0') {
                    let j = choose|j: int| 0 <= j < tree_kind().len() && tree_kind()[j] == '\0';
                    assert(tree_kind()[j] != '\0');
                }
            }
            law_object_body_of_build_object(tree_kind(), tree_content(iv));
            assert(objv.len() > 0) by {
                assert(objv == object_bytes(tree_kind(), tree_content(iv)));
                lemma_object_nonempty(tree_kind(), tree_content(iv));
            }
        }
    }
    (objs, digest)
}

/// Whether the tree of the entries can be built (see `tree_buildable`).
pub fn tree_is_buildable(entries: &[IndexEntry]) -> (b: bool)
    ensures
        b == tree_buildable(entries_view(entries@)),
{
    let empty: Vec<char> = Vec::new();
    let (count, first) = group_info(entries, empty.as_slice(), empty.as_slice());
    if count == 0 {
        return true;
    }
    if count != 1 {
        return false;
    }
    let path = chars_of(entries[first].path.as_str());
    match relative_path(path.as_slice(), empty.as_slice()) {
        Some(r) => !contains_char(r.as_slice(), '/'),
        None => false,
    }
}

/// The tree objects for the directory `prefix` of the staged entries: those of its
/// subtrees, each after its own subtrees, and last its own. At the top (`prefix` empty)
/// the entries must form a buildable tree.
pub fn build_tree(entries: &[IndexEntry], prefix: &str) -> (r: Vec<TreeObject>)
    requires
        prefix@.len() == 0 ==> tree_buildable(entries_view(entries@)),
    ensures
        objects_view(r@) == tree_objects(entries_view(entries@), prefix@),
        digests_sized(objects_view(r@)),
        no_nul_paths(entries_view(entries@)) ==> tree_items(r@.last().object@) == Some(
            dir_entries(entries_view(entries@), prefix@),
        ),
{
    let longest = longest_path(entries);
    let p = chars_of(prefix);
    let (objs, _) = build_tree_at(entries, p.as_slice(), longest);
    assert(objs@.last()@ == objects_view(objs@).last());
    objs
}

/// Adding a name to a list keeps the names it had and adds that one, nothing else.
proof fn lemma_insert_name_contains(ns: Seq<Seq<char>>, n: Seq<char>, x: Seq<char>)
    ensures
        insert_name(ns, n).contains(x) <==> (ns.contains(x) || x == n),
    decreases ns.len(),
{
    if ns.len() == 0 {
        assert(insert_name(ns, n)[0] == n);
    } else if ns[0] == n {
    } else if lex_lt(n, ns[0]) {
        let r = seq![n] + ns;
        assert(r[0] == n);
        if ns.contains(x) {
            let i = choose|i: int| 0 <= i < ns.len() && ns[i] == x;
            assert(r[i + 1] == x);
        }
        if r.contains(x) {
            let i = choose|i: int| 0 <= i < r.len() && r[i] == x;
            if i > 0 {
                assert(ns[i - 1] == x);
            }
        }
    } else {
        let rest = ns.drop_first();
        lemma_insert_name_contains(rest, n, x);
        let r = seq![ns[0]] + insert_name(rest, n);
        if ns.contains(x) {
            let i = choose|i: int| 0 <= i < ns.len() && ns[i] == x;
            if i == 0 {
                assert(r[0] == x);
            } else {
                assert(rest[i - 1] == x);
                let j = choose|j: int| 0 <= j < insert_name(rest, n).len() && insert_name(rest, n)[j] == x;
                assert(r[j + 1] == x);
            }
        }
        if x == n {
            let j = choose|j: int| 0 <= j < insert_name(rest, n).len() && insert_name(rest, n)[j] == x;
            assert(r[j + 1] == x);
        }
        if r.contains(x) {
            let i = choose|i: int| 0 <= i < r.len() && r[i] == x;
            if i == 0 {
                assert(ns[0] == x);
            } else {
                assert(insert_name(rest, n)[i - 1] == x);
                if rest.contains(x) {
                    let j = choose|j: int| 0 <= j < rest.len() && rest[j] == x;
                    assert(ns[j + 1] == x);
                }
            }
        }
    }
}

/// Every name of a directory is the first component of some entry under it.
pub(crate) proof fn lemma_names_member(es: Seq<EntryView>, prefix: Seq<char>, name: Seq<char>)
    requires
        names_of(es, prefix).contains(name),
    ensures
        exists|i: int| 0 <= i < es.len() && in_group(es[i], prefix, name),
    decreases es.len(),
{
    if es.len() > 0 {
        let ns = names_of(es.drop_last(), prefix);
        let e = es.last();
        match relative(e.path, prefix) {
            Some(r) => {
                lemma_insert_name_contains(ns, crate::text::before_char(r, '/'), name);
                if name == crate::text::before_char(r, '/') {
                    assert(in_group(es[es.len() - 1], prefix, name));
                } else {
                    lemma_names_member(es.drop_last(), prefix, name);
                    let i = choose|i: int| 0 <= i < es.drop_last().len() && in_group(es.drop_last()[i], prefix, name);
                    assert(es[i] == es.drop_last()[i]);
                }
            },
            None => {
                lemma_names_member(es.drop_last(), prefix, name);
                let i = choose|i: int| 0 <= i < es.drop_last().len() && in_group(es.drop_last()[i], prefix, name);
                assert(es[i] == es.drop_last()[i]);
            },
        }
    }
}

/// A group with a member is not empty.
pub(crate) proof fn lemma_group_nonempty(es: Seq<EntryView>, prefix: Seq<char>, name: Seq<char>, i: int)
    requires
        0 <= i < es.len(),
        in_group(es[i], prefix, name),
    ensures
        group(es, prefix, name).len() > 0,
    decreases es.len(),
{
    if i < es.len() - 1 {
        assert(es.drop_last()[i] == es[i]);
        lemma_group_nonempty(es.drop_last(), prefix, name, i);
    }
}

/// No path is longer than the longest.
pub(crate) proof fn lemma_max_len(es: Seq<EntryView>, i: int)
    requires
        0 <= i < es.len(),
    ensures
        es[i].path.len() <= max_len(es),
    decreases es.len(),
{
    if i < es.len() - 1 {
        assert(es.drop_last()[i] == es[i]);
        lemma_max_len(es.drop_last(), i);
    }
}

/// The directory of a name reached from an entry is no longer than the entry's path,
/// and the name's characters are characters of the path.
pub(crate) proof fn lemma_name_in_path(e: EntryView, prefix: Seq<char>, name: Seq<char>)
    requires
        in_group(e, prefix, name),
    ensures
        sub_prefix(prefix, name).len() <= e.path.len(),
        prefix.len() > 0 ==> sub_prefix(prefix, name).len() > prefix.len(),
        prefix.len() == 0 ==> sub_prefix(prefix, name).len() == name.len(),
        has_char(name, '\0') ==> has_char(e.path, '\0'),
{
    let r = relative(e.path, prefix).unwrap();
    crate::text::lemma_find_from(r, 0, '/');
    assert(name.len() <= r.len());
    let off = if prefix.len() == 0 {
        0
    } else {
        prefix.len() + 1
    };
    assert(r =~= e.path.skip(off as int));
    assert forall|j: int| 0 <= j < name.len() implies name[j] == e.path[off + j] by {
        assert(name[j] == r[j]);
    }
    if has_char(name, '\0') {
        let j = choose|j: int| 0 <= j < name.len() && name[j] == '\0';
        assert(e.path[off + j] == '\0');
    }
}

/// For a buildable tree, every name that is not a file gets its subtree: the subtree's
/// directory is longer than its parent's and no longer than the longest path.
pub proof fn lemma_subtree_in_range(es: Seq<EntryView>, prefix: Seq<char>, name: Seq<char>)
    requires
        prefix.len() > 0 || tree_buildable(es),
        names_of(es, prefix).contains(name),
        !is_file(group(es, prefix, name), prefix),
    ensures
        prefix.len() < sub_prefix(prefix, name).len() <= max_len(es),
{
    lemma_names_member(es, prefix, name);
    let i = choose|i: int| 0 <= i < es.len() && in_group(es[i], prefix, name);
    lemma_name_in_path(es[i], prefix, name);
    lemma_max_len(es, i);
    lemma_group_nonempty(es, prefix, name, i);
    if prefix.len() == 0 && name.len() == 0 {
        assert(name =~= Seq::<char>::empty());
        assert(prefix =~= Seq::<char>::empty());
    }
}

/// The order of texts is transitive.
pub proof fn lemma_lex_transitive(a: Seq<char>, b: Seq<char>, c: Seq<char>)
    requires
        lex_lt(a, b),
        lex_lt(b, c),
    ensures
        lex_lt(a, c),
    decreases a.len(),
{
    if a.len() > 0 && b.len() > 0 && c.len() > 0 {
        if a[0] == b[0] && b[0] == c[0] {
            lemma_lex_transitive(a.drop_first(), b.drop_first(), c.drop_first());
        } else if a[0] != b[0] && b[0] == c[0] {
        } else if a[0] == b[0] && b[0] != c[0] {
        } else {
            if a[0] == c[0] {
                assert((a[0] as u32) == (c[0] as u32));
            }
        }
    }
}

/// Of two different texts, one comes strictly before the other.
pub proof fn lemma_lex_total(a: Seq<char>, b: Seq<char>)
    requires
        a != b,
    ensures
        lex_lt(a, b) || lex_lt(b, a),
    decreases a.len(),
{
    if a.len() > 0 && b.len() > 0 {
        if a[0] == b[0] {
            if a.drop_first() == b.drop_first() {
                assert(a =~= seq![a[0]] + a.drop_first());
                assert(b =~= seq![b[0]] + b.drop_first());
            }
            lemma_lex_total(a.drop_first(), b.drop_first());
        } else {
            if (a[0] as u32) == (b[0] as u32) {
                vstd::utf8::char_u32_cast(a[0], a[0] as u32);
                vstd::utf8::char_u32_cast(b[0], b[0] as u32);
            }
        }
    } else if a.len() == 0 && b.len() == 0 {
        assert(a =~= b);
    }
}

/// Whether the names are in strictly ascending order (hence each occurs once).
pub open spec fn strictly_sorted(ns: Seq<Seq<char>>) -> bool {
    forall|i: int, j: int| 0 <= i < j < ns.len() ==> lex_lt(#[trigger] ns[i], #[trigger] ns[j])
}

/// Adding a name keeps the names in strictly ascending order.
proof fn lemma_insert_sorted(ns: Seq<Seq<char>>, n: Seq<char>)
    requires
        strictly_sorted(ns),
    ensures
        strictly_sorted(insert_name(ns, n)),
    decreases ns.len(),
{
    if ns.len() == 0 {
    } else if ns[0] == n {
    } else if lex_lt(n, ns[0]) {
        let r = seq![n] + ns;
        assert forall|i: int, j: int| 0 <= i < j < r.len() implies lex_lt(#[trigger] r[i], #[trigger] r[j]) by {
            if i == 0 {
                if j > 1 {
                    assert(r[j] == ns[j - 1]);
                    assert(lex_lt(ns[0], ns[j - 1]));
                    lemma_lex_transitive(n, ns[0], ns[j - 1]);
                }
            } else {
                assert(r[i] == ns[i - 1] && r[j] == ns[j - 1]);
            }
        }
    } else {
        lemma_lex_total(n, ns[0]);
        let rest = ns.drop_first();
        assert(strictly_sorted(rest)) by {
            assert forall|i: int, j: int| 0 <= i < j < rest.len() implies lex_lt(#[trigger] rest[i], #[trigger] rest[j]) by {
                assert(rest[i] == ns[i + 1] && rest[j] == ns[j + 1]);
            }
        }
        lemma_insert_sorted(rest, n);
        let ins = insert_name(rest, n);
        let r = seq![ns[0]] + ins;
        assert forall|i: int, j: int| 0 <= i < j < r.len() implies lex_lt(#[trigger] r[i], #[trigger] r[j]) by {
            if i == 0 {
                let x = ins[j - 1];
                assert(r[j] == x);
                assert(ins.contains(x));
                lemma_insert_name_contains(rest, n, x);
                if x != n {
                    let k = choose|k: int| 0 <= k < rest.len() && rest[k] == x;
                    assert(ns[k + 1] == x);
                }
            } else {
                assert(r[i] == ins[i - 1] && r[j] == ins[j - 1]);
            }
        }
    }
}

/// Law of trees: the names of a directory's tree are in strictly ascending order (so
/// each occurs once), and they are exactly the first components of the entries under
/// the directory.
pub proof fn law_tree_names(es: Seq<EntryView>, prefix: Seq<char>)
    ensures
        strictly_sorted(names_of(es, prefix)),
        forall|x: Seq<char>|
            #[trigger] names_of(es, prefix).contains(x) <==> exists|i: int|
                0 <= i < es.len() && in_group(es[i], prefix, x),
    decreases es.len(),
{
    if es.len() > 0 {
        let rest = es.drop_last();
        law_tree_names(rest, prefix);
        let ns = names_of(rest, prefix);
        let e = es.last();
        match relative(e.path, prefix) {
            Some(r) => {
                lemma_insert_sorted(ns, crate::text::before_char(r, '/'));
            },
            None => {},
        }
        assert forall|x: Seq<char>|
            #[trigger] names_of(es, prefix).contains(x) <==> exists|i: int|
                0 <= i < es.len() && in_group(es[i], prefix, x) by {
            if let Some(r) = relative(e.path, prefix) {
                lemma_insert_name_contains(ns, crate::text::before_char(r, '/'), x);
            }
            if names_of(es, prefix).contains(x) {
                lemma_names_member(es, prefix, x);
            }
            if exists|i: int| 0 <= i < es.len() && in_group(es[i], prefix, x) {
                let i = choose|i: int| 0 <= i < es.len() && in_group(es[i], prefix, x);
                if i < es.len() - 1 {
                    assert(rest[i] == es[i]);
                    assert(ns.contains(x));
                }
            }
        }
    }
}

/// A compressed object ready to be stored under its id.
pub struct StoredObject {
    pub id: String,
    pub compressed: Vec<u8>,
}

impl View for StoredObject {
    type V = (Seq<char>, Seq<u8>);

    open spec fn view(&self) -> (Seq<char>, Seq<u8>) {
        (self.id@, self.compressed@)
    }
}

/// The values of a sequence of stored objects.
pub open spec fn stored_view(v: Seq<StoredObject>) -> Seq<(Seq<char>, Seq<u8>)> {
    v.map_values(|o: StoredObject| o@)
}

/// The objects with their bytes compressed; `None` if any compression fails.
pub open spec fn compressed_objects(objs: Seq<(Seq<char>, Seq<u8>)>) -> Option<
    Seq<(Seq<char>, Seq<u8>)>,
>
    decreases objs.len(),
{
    if objs.len() == 0 {
        Some(seq![])
    } else {
        match (compressed_objects(objs.drop_last()), zlib_compressed(objs.last().1)) {
            (Some(p), Some(c)) => Some(p.push((objs.last().0, c))),
            _ => None,
        }
    }
}

/// What writing the tree gives: the id of the top tree, and every tree object to
/// store, in the order they are stored (subtrees first, the top tree last).
pub struct TreeWrite {
    pub id: String,
    pub stored: Vec<StoredObject>,
}

/// Builds the tree objects of the staged entries and compresses them for storage.
/// Fails with `NothingToCommit` exactly when there are no entries, and with an I/O
/// error exactly when a compression fails.
pub fn write_tree(entries: &[IndexEntry]) -> (r: Result<TreeWrite, ItError>)
    requires
        tree_buildable(entries_view(entries@)),
    ensures
        entries@.len() == 0 <==> r matches Err(ItError::NothingToCommit),
        entries@.len() > 0 ==> (r is Ok <==> compressed_objects(
            tree_objects(entries_view(entries@), seq![]),
        ) is Some),
        r matches Ok(tw) ==> {
            let objs = tree_objects(entries_view(entries@), seq![]);
            &&& tw.id@ == objs.last().0
            &&& compressed_objects(objs) == Some(stored_view(tw.stored@))
            &&& forall|k: int|
                0 <= k < tw.stored@.len() ==> zlib_decoded(#[trigger] tw.stored@[k].compressed@)
                    == Some(objs[k].1)
            &&& no_nul_paths(entries_view(entries@)) ==> tree_items(
                zlib_decoded(tw.stored@.last().compressed@).unwrap(),
            ) == Some(dir_entries(entries_view(entries@), seq![]))
        },
        r matches Err(e) ==> e is NothingToCommit || e is Io,
{
    if entries.len() == 0 {
        return Err(ItError::NothingToCommit);
    }
    let objs = build_tree(entries, "");
    proof {
        reveal_strlit("");
        assert(""@ =~= Seq::<char>::empty());
        assert(objs@.last()@ == objects_view(objs@).last());
    }
    let ghost ov = objects_view(objs@);
    let mut stored: Vec<StoredObject> = Vec::new();
    let mut i: usize = 0;
    assert(ov.take(0) =~= Seq::<(Seq<char>, Seq<u8>)>::empty());
    assert(stored_view(stored@) =~= Seq::<(Seq<char>, Seq<u8>)>::empty());
    while i < objs.len()
        invariant
            i <= objs@.len(),
            ov == objects_view(objs@),
            ov == tree_objects(entries_view(entries@), seq![]),
            entries@.len() > 0,
            compressed_objects(ov.take(i as int)) == Some(stored_view(stored@)),
            stored@.len() == i,
            forall|k: int|
                0 <= k < stored@.len() ==> zlib_decoded(#[trigger] stored@[k].compressed@) == Some(
                    ov[k].1,
                ),
            no_nul_paths(entries_view(entries@)) ==> tree_items(ov.last().1) == Some(
                dir_entries(entries_view(entries@), seq![]),
            ),
        decreases objs.len() - i,
    {
        assert(ov[i as int] == objs@[i as int]@);
        assert(ov.take(i + 1).drop_last() =~= ov.take(i as int));
        assert(ov.take(i + 1).last() == ov[i as int]);
        let compressed = match compress_data(objs[i].object.as_slice()) {
            Ok(c) => c,
            Err(e) => {
                proof {
                    lemma_compressed_prefix_fails(ov, i as int + 1);
                }
                return Err(e);
            },
        };
        let ghost before = stored_view(stored@);
        let id = objs[i].id.clone();
        let so = StoredObject { id, compressed };
        stored.push(so);
        assert(stored_view(stored@) =~= before.push(so@));
        assert(compressed_objects(ov.take(i + 1)) == Some(stored_view(stored@)));
        i = i + 1;
    }
    assert(ov.take(objs@.len() as int) =~= ov);
    let top = objs.len() - 1;
    let id = objs[top].id.clone();
    assert(ov.last() == objs@[top as int]@);
    assert(stored@.len() == ov.len());
    Ok(TreeWrite { id, stored })
}

/// When compressing a prefix of the objects fails, compressing all of them fails.
proof fn lemma_compressed_prefix_fails(objs: Seq<(Seq<char>, Seq<u8>)>, k: int)
    requires
        0 <= k <= objs.len(),
        compressed_objects(objs.take(k)) is None,
    ensures
        compressed_objects(objs) is None,
    decreases objs.len() - k,
{
    if k < objs.len() {
        assert(objs.take(k + 1).drop_last() =~= objs.take(k));
        lemma_compressed_prefix_fails(objs, k + 1);
    } else {
        assert(objs.take(k) =~= objs);
    }
}

} // verus!
