//! Restoring a tree: what the `switch` command writes for each staged path when it
//! restores the top tree built from the staged entries, and the law that it gives
//! every staged file back.
use vstd::prelude::*;
use crate::digest::{hex_lower, sha1_digest};
use crate::index::EntryView;
use crate::object::{
    item_storable, law_object_body_of_build_object, law_read_tree_after_encode_tree,
    lemma_object_nonempty, object_body, object_bytes, object_id, tree_content, tree_items,
    TreeItemView,
};
use crate::text::{before_char, find_from, has_char, lemma_find_from, starts_with};
use crate::tree_laws::lemma_lex_irreflexive;
use crate::write_tree::{
    digests_sized, group, in_group, is_file, law_tree_names, lemma_group_nonempty,
    lemma_name_in_path, lemma_names_member, lemma_subtree_in_range, lex_lt, names_of, no_nul_paths,
    relative, sub_prefix, tree_buildable, tree_entries, tree_kind, tree_objects,
};

verus! {

/// The first entry of a tree with the given name.
pub open spec fn find_item(items: Seq<TreeItemView>, name: Seq<char>) -> Option<TreeItemView>
    decreases items.len(),
{
    if items.len() == 0 {
        None
    } else if items[0].name == name {
        Some(items[0])
    } else {
        find_item(items.drop_first(), name)
    }
}

/// What restoring the tree with id `id` from `store` (ids to decompressed objects)
/// writes at the relative path `rel`: the tree's entry named by the path's first
/// component is followed into its subtree (a directory entry) while the path goes on,
/// and for the last component a file entry gives the content of its blob. `None` where
/// nothing is written there.
pub open spec fn restored_file(store: Map<Seq<char>, Seq<u8>>, id: Seq<char>, rel: Seq<char>) -> Option<Seq<u8>>
    decreases rel.len(),
{
    if !store.dom().contains(id) {
        None
    } else {
        match tree_items(store[id]) {
            None => None,
            Some(items) => match find_from(rel, 0, '/') {
                None => match find_item(items, rel) {
                    Some(it) => {
                        let h = hex_lower(it.hash);
                        if !it.is_dir && store.dom().contains(h) && store[h].len() > 0 {
                            Some(object_body(store[h]))
                        } else {
                            None
                        }
                    },
                    None => None,
                },
                Some(k) => {
                    proof {
                        lemma_find_from(rel, 0, '/');
                    }
                    match find_item(items, rel.take(k)) {
                        Some(it) => if it.is_dir {
                            restored_file(store, hex_lower(it.hash), rel.skip(k + 1))
                        } else {
                            None
                        },
                        None => None,
                    }
                },
            },
        }
    }
}

/// Whether `store` holds each of the objects under its id.
pub open spec fn stores_objects(store: Map<Seq<char>, Seq<u8>>, objs: Seq<(Seq<char>, Seq<u8>)>) -> bool {
    forall|k: int| 0 <= k < objs.len() ==> store.dom().contains(#[trigger] objs[k].0) && store[objs[k].0] == objs[k].1
}

/// Whether each of `a` occurs in `b`.
pub open spec fn contained(a: Seq<(Seq<char>, Seq<u8>)>, b: Seq<(Seq<char>, Seq<u8>)>) -> bool {
    forall|j: int| 0 <= j < a.len() ==> b.contains(#[trigger] a[j])
}

/// Whether no two staged entries have the same path.
pub open spec fn distinct_paths(es: Seq<EntryView>) -> bool {
    forall|i: int, j: int| 0 <= i < es.len() && 0 <= j < es.len() && i != j ==> #[trigger] es[i].path != #[trigger] es[j].path
}

/// Whether no staged path is a directory of another (lies before a '/' in it).
pub open spec fn no_dir_paths(es: Seq<EntryView>) -> bool {
    forall|i: int, j: int| 0 <= i < es.len() && 0 <= j < es.len() ==> !starts_with(#[trigger] es[j].path, #[trigger] es[i].path + seq!['/'])
}

/// Whether every staged hash is 20 bytes long.
pub open spec fn shas_sized(es: Seq<EntryView>) -> bool {
    forall|i: int| 0 <= i < es.len() ==> (#[trigger] es[i]).sha.len() == 20
}

/// What the tree of `prefix` holds for the name `name`, with `objs` the objects built
/// for its subtrees.
pub open spec fn item_fits(
    es: Seq<EntryView>,
    prefix: Seq<char>,
    name: Seq<char>,
    it: TreeItemView,
    objs: Seq<(Seq<char>, Seq<u8>)>,
) -> bool {
    let g = group(es, prefix, name);
    let sub = sub_prefix(prefix, name);
    &&& it.name == name
    &&& it.is_dir == !is_file(g, prefix)
    &&& !it.is_dir ==> it.hash == g[0].sha
    &&& it.is_dir ==> it.hash == sha1_digest(tree_objects(es, sub).last().1) && contained(
        tree_objects(es, sub),
        objs,
    ) && prefix.len() < sub.len()
}


/// The entries of the tree of `prefix` for the given names, one per name, as
/// `item_fits` says.
pub(crate) proof fn lemma_entries_shape(es: Seq<EntryView>, prefix: Seq<char>, names: Seq<Seq<char>>)
    requires
        prefix.len() > 0 || tree_buildable(es),
        forall|k: int| 0 <= k < names.len() ==> names_of(es, prefix).contains(#[trigger] names[k]),
    ensures
        tree_entries(es, prefix, names).0.len() == names.len(),
        forall|k: int|
            0 <= k < names.len() ==> item_fits(
                es,
                prefix,
                names[k],
                #[trigger] tree_entries(es, prefix, names).0[k],
                tree_entries(es, prefix, names).1,
            ),
    decreases names.len(),
{
    if names.len() > 0 {
        let init = names.drop_last();
        assert forall|k: int| 0 <= k < init.len() implies names_of(es, prefix).contains(#[trigger] init[k]) by {
            assert(init[k] == names[k]);
        }
        lemma_entries_shape(es, prefix, init);
        let (items0, objs0) = tree_entries(es, prefix, init);
        let name = names.last();
        assert(names_of(es, prefix).contains(names[names.len() - 1]));
        let g = group(es, prefix, name);
        let (items, objs) = tree_entries(es, prefix, names);
        if is_file(g, prefix) {
            assert(items == items0.push(TreeItemView { is_dir: false, name, hash: g[0].sha }));
            assert(objs == objs0);
            assert forall|k: int| 0 <= k < names.len() implies item_fits(es, prefix, names[k], #[trigger] items[k], objs) by {
                if k < init.len() {
                    assert(items[k] == items0[k]);
                    assert(names[k] == init[k]);
                }
            }
        } else {
            let sub = sub_prefix(prefix, name);
            lemma_subtree_in_range(es, prefix, name);
            let so = tree_objects(es, sub);
            assert(items == items0.push(TreeItemView { is_dir: true, name, hash: sha1_digest(so.last().1) }));
            assert(objs == objs0 + so);
            assert forall|j: int| 0 <= j < so.len() implies objs.contains(#[trigger] so[j]) by {
                assert(objs[objs0.len() + j] == so[j]);
            }
            assert forall|k: int| 0 <= k < names.len() implies item_fits(es, prefix, names[k], #[trigger] items[k], objs) by {
                if k < init.len() {
                    assert(items[k] == items0[k]);
                    assert(names[k] == init[k]);
                    let sk = sub_prefix(prefix, names[k]);
                    if items[k].is_dir {
                        assert forall|j: int| 0 <= j < tree_objects(es, sk).len() implies objs.contains(
                            #[trigger] tree_objects(es, sk)[j],
                        ) by {
                            assert(objs0.contains(tree_objects(es, sk)[j]));
                            let m = choose|m: int| 0 <= m < objs0.len() && objs0[m] == tree_objects(es, sk)[j];
                            assert(objs[m] == objs0[m]);
                        }
                    }
                }
            }
        }
    }
}


/// The members of a group are entries of the list that belong to it.
proof fn lemma_group_members(es: Seq<EntryView>, prefix: Seq<char>, name: Seq<char>, j: int)
    requires
        0 <= j < group(es, prefix, name).len(),
    ensures
        es.contains(group(es, prefix, name)[j]),
        in_group(group(es, prefix, name)[j], prefix, name),
    decreases es.len(),
{
    let a = es.drop_last();
    let g0 = group(a, prefix, name);
    if in_group(es.last(), prefix, name) && j == g0.len() {
        assert(group(es, prefix, name) == g0.push(es.last()));
        assert(es[es.len() - 1] == es.last());
    } else {
        if in_group(es.last(), prefix, name) {
            assert(group(es, prefix, name) == g0.push(es.last()));
            assert(group(es, prefix, name)[j] == g0[j]);
        }
        lemma_group_members(a, prefix, name, j);
        let m = choose|m: int| 0 <= m < a.len() && a[m] == g0[j];
        assert(es[m] == a[m]);
    }
}

/// A tree object built for `prefix` reads back as the entries of `prefix`.
proof fn lemma_tree_items_at(es: Seq<EntryView>, prefix: Seq<char>)
    requires
        prefix.len() > 0 || tree_buildable(es),
        no_nul_paths(es),
        shas_sized(es),
        digests_sized(tree_objects(es, prefix)),
    ensures
        tree_items(tree_objects(es, prefix).last().1) == Some(tree_entries(es, prefix, names_of(es, prefix)).0),
{
    let ns = names_of(es, prefix);
    assert forall|k: int| 0 <= k < ns.len() implies ns.contains(#[trigger] ns[k]) by {}
    lemma_entries_shape(es, prefix, ns);
    let (items, objs) = tree_entries(es, prefix, ns);
    let all = tree_objects(es, prefix);
    assert(all == objs.push((object_id(object_bytes(tree_kind(), tree_content(items))), object_bytes(
        tree_kind(),
        tree_content(items),
    ))));
    assert forall|k: int| 0 <= k < items.len() implies item_storable(#[trigger] items[k]) by {
        let name = ns[k];
        assert(item_fits(es, prefix, name, items[k], objs));
        lemma_names_member(es, prefix, name);
        let i = choose|i: int| 0 <= i < es.len() && in_group(es[i], prefix, name);
        lemma_name_in_path(es[i], prefix, name);
        assert(!has_char(es[i].path, '\0'));
        let g = group(es, prefix, name);
        if !items[k].is_dir {
            lemma_group_members(es, prefix, name, 0);
            let m = choose|m: int| 0 <= m < es.len() && es[m] == g[0];
            assert(es[m].sha.len() == 20);
        } else {
            let so = tree_objects(es, sub_prefix(prefix, name));
            assert(so.len() > 0);
            assert(objs.contains(so[so.len() - 1]));
            let m = choose|m: int| 0 <= m < objs.len() && objs[m] == so[so.len() - 1];
            assert(all[m] == objs[m]);
            assert(sha1_digest(all[m].1).len() == 20);
        }
    }
    law_read_tree_after_encode_tree(items);
    assert(!has_char(tree_kind(), '\0')) by {
        if has_char(tree_kind(), '\0') {
            let j = choose|j: int| 0 <= j < tree_kind().len() && tree_kind()[j] == '\0';
            assert(tree_kind()[j] != '\0');
        }
    }
    law_object_body_of_build_object(tree_kind(), tree_content(items));
    lemma_object_nonempty(tree_kind(), tree_content(items));
}


/// The first entry with a name is found by it.
proof fn lemma_find_item(items: Seq<TreeItemView>, name: Seq<char>, k: int)
    requires
        0 <= k < items.len(),
        items[k].name == name,
        forall|j: int| 0 <= j < k ==> (#[trigger] items[j]).name != name,
    ensures
        find_item(items, name) == Some(items[k]),
    decreases k,
{
    if k > 0 {
        assert(items[0].name != name);
        let rest = items.drop_first();
        assert forall|j: int| 0 <= j < k - 1 implies (#[trigger] rest[j]).name != name by {
            assert(rest[j] == items[j + 1]);
        }
        lemma_find_item(rest, name, k - 1);
    }
}

/// The text before `prefix`'s part of a path: nothing at the top, else `prefix/`.
pub open spec fn lead(prefix: Seq<char>) -> Seq<char> {
    if prefix.len() == 0 {
        seq![]
    } else {
        prefix + seq!['/']
    }
}

/// A path is its directory's lead followed by its relative path.
proof fn lemma_relative_split(path: Seq<char>, prefix: Seq<char>)
    requires
        relative(path, prefix) is Some,
    ensures
        path == lead(prefix) + relative(path, prefix).unwrap(),
{
    if prefix.len() == 0 {
        assert(path =~= Seq::<char>::empty() + path);
    } else {
        let l = prefix + seq!['/'];
        assert(path =~= path.take(l.len() as int) + path.skip(l.len() as int));
    }
}

/// Going down one directory: the rest of the relative path, after its first component.
proof fn lemma_relative_step(path: Seq<char>, prefix: Seq<char>, k: int)
    requires
        relative(path, prefix) matches Some(r) && find_from(r, 0, '/') == Some(k),
        prefix.len() > 0 || k > 0,
    ensures
        relative(path, prefix) matches Some(r) && relative(path, sub_prefix(prefix, r.take(k))) == Some(
            r.skip(k + 1),
        ),
{
    let r = relative(path, prefix).unwrap();
    lemma_find_from(r, 0, '/');
    lemma_relative_split(path, prefix);
    let c = r.take(k);
    let sub = sub_prefix(prefix, c);
    let l = sub + seq!['/'];
    assert(lead(prefix) + c == sub);
    assert(r =~= c + seq!['/'] + r.skip(k + 1));
    assert(path =~= l + r.skip(k + 1));
    assert(path.take(l.len() as int) =~= l);
    assert(path.skip(l.len() as int) =~= r.skip(k + 1));
    assert(sub.len() > 0);
}

/// A member of the list that belongs to a group is in it.
proof fn lemma_group_has(es: Seq<EntryView>, prefix: Seq<char>, name: Seq<char>, i: int)
    requires
        0 <= i < es.len(),
        in_group(es[i], prefix, name),
    ensures
        group(es, prefix, name).contains(es[i]),
    decreases es.len(),
{
    let a = es.drop_last();
    let g0 = group(a, prefix, name);
    if i == es.len() - 1 {
        assert(group(es, prefix, name) == g0.push(es.last()));
        assert(group(es, prefix, name)[g0.len() as int] == es[i]);
    } else {
        assert(a[i] == es[i]);
        lemma_group_has(a, prefix, name, i);
        let m = choose|m: int| 0 <= m < g0.len() && g0[m] == es[i];
        if in_group(es.last(), prefix, name) {
            assert(group(es, prefix, name)[m] == g0[m]);
        }
    }
}

/// Where no other entry shares a path with, or lies below, the entry `i`, the group of
/// its last component holds it alone.
proof fn lemma_group_single(es: Seq<EntryView>, prefix: Seq<char>, i: int)
    requires
        0 <= i < es.len(),
        distinct_paths(es),
        no_dir_paths(es),
        relative(es[i].path, prefix) matches Some(r) && !has_char(r, '/'),
    ensures
        group(es, prefix, relative(es[i].path, prefix).unwrap()) == seq![es[i]],
{
    let r = relative(es[i].path, prefix).unwrap();
    lemma_find_from(r, 0, '/');
    assert(find_from(r, 0, '/') is None) by {
        if find_from(r, 0, '/') is Some {
            let k = find_from(r, 0, '/').unwrap();
            assert(r[k] == '/');
        }
    }
    assert(before_char(r, '/') == r);
    assert(in_group(es[i], prefix, r));
    lemma_relative_split(es[i].path, prefix);
    assert forall|j: int| 0 <= j < es.len() && in_group(es[j], prefix, r) implies j == i by {
        let rj = relative(es[j].path, prefix).unwrap();
        lemma_relative_split(es[j].path, prefix);
        lemma_find_from(rj, 0, '/');
        match find_from(rj, 0, '/') {
            None => {
                assert(rj == r);
                assert(es[j].path == es[i].path);
            },
            Some(k) => {
                assert(rj.take(k) == r);
                assert(k == r.len());
                let p = es[i].path + seq!['/'];
                assert(p =~= lead(prefix) + (r + seq!['/']));
                assert(es[j].path.take(p.len() as int) =~= lead(prefix) + rj.take(k + 1));
                assert(rj.take(k + 1) =~= r + seq!['/']);
                assert(starts_with(es[j].path, es[i].path + seq!['/']));
            },
        }
    }
    lemma_group_only(es, prefix, r, i);
}

/// A group that only `i` belongs to is `i` alone.
proof fn lemma_group_only(es: Seq<EntryView>, prefix: Seq<char>, name: Seq<char>, i: int)
    requires
        0 <= i < es.len(),
        in_group(es[i], prefix, name),
        forall|j: int| 0 <= j < es.len() && in_group(es[j], prefix, name) ==> j == i,
    ensures
        group(es, prefix, name) == seq![es[i]],
    decreases es.len(),
{
    let a = es.drop_last();
    if i == es.len() - 1 {
        assert forall|j: int| 0 <= j < a.len() implies !in_group(#[trigger] a[j], prefix, name) by {
            assert(a[j] == es[j]);
        }
        lemma_group_none(a, prefix, name);
        assert(group(es, prefix, name) =~= seq![es[i]]);
    } else {
        assert(!in_group(es[es.len() - 1], prefix, name));
        assert(a[i] == es[i]);
        assert forall|j: int| 0 <= j < a.len() && in_group(a[j], prefix, name) implies j == i by {
            assert(a[j] == es[j]);
        }
        lemma_group_only(a, prefix, name, i);
    }
}

/// A group that no entry belongs to is empty.
proof fn lemma_group_none(es: Seq<EntryView>, prefix: Seq<char>, name: Seq<char>)
    requires
        forall|j: int| 0 <= j < es.len() ==> !in_group(#[trigger] es[j], prefix, name),
    ensures
        group(es, prefix, name) == Seq::<EntryView>::empty(),
    decreases es.len(),
{
    if es.len() > 0 {
        let a = es.drop_last();
        assert forall|j: int| 0 <= j < a.len() implies !in_group(#[trigger] a[j], prefix, name) by {
            assert(a[j] == es[j]);
        }
        assert(!in_group(es[es.len() - 1], prefix, name));
        lemma_group_none(a, prefix, name);
    }
}


/// Restoring the tree of `prefix` writes, at the path of the entry `i` relative to
/// `prefix`, the content of that entry's blob.
proof fn lemma_restore_walk(
    es: Seq<EntryView>,
    prefix: Seq<char>,
    store: Map<Seq<char>, Seq<u8>>,
    i: int,
)
    requires
        prefix.len() > 0 || tree_buildable(es),
        no_nul_paths(es),
        shas_sized(es),
        distinct_paths(es),
        no_dir_paths(es),
        digests_sized(tree_objects(es, prefix)),
        stores_objects(store, tree_objects(es, prefix)),
        0 <= i < es.len(),
        relative(es[i].path, prefix) is Some,
        store.dom().contains(hex_lower(es[i].sha)),
        store[hex_lower(es[i].sha)].len() > 0,
    ensures
        restored_file(store, tree_objects(es, prefix).last().0, relative(es[i].path, prefix).unwrap())
            == Some(object_body(store[hex_lower(es[i].sha)])),
    decreases relative(es[i].path, prefix).unwrap().len(),
{
    let r = relative(es[i].path, prefix).unwrap();
    let all = tree_objects(es, prefix);
    let ns = names_of(es, prefix);
    let (items, objs) = tree_entries(es, prefix, ns);
    assert(all == objs.push((object_id(object_bytes(tree_kind(), tree_content(items))), object_bytes(
        tree_kind(),
        tree_content(items),
    ))));
    let top = all.last();
    assert(top == all[all.len() - 1]);
    assert(store.dom().contains(top.0) && store[top.0] == top.1);
    lemma_tree_items_at(es, prefix);
    assert(tree_items(store[top.0]) == Some(items));
    assert forall|k: int| 0 <= k < ns.len() implies ns.contains(#[trigger] ns[k]) by {}
    lemma_entries_shape(es, prefix, ns);
    // the entry named by the first component
    let c = before_char(r, '/');
    assert(in_group(es[i], prefix, c));
    law_tree_names(es, prefix);
    assert(ns.contains(c));
    let kc = choose|kc: int| 0 <= kc < ns.len() && ns[kc] == c;
    assert(item_fits(es, prefix, c, items[kc], objs));
    assert forall|j: int| 0 <= j < kc implies (#[trigger] items[j]).name != c by {
        assert(item_fits(es, prefix, ns[j], items[j], objs));
        assert(lex_lt(ns[j], ns[kc]));
        lemma_lex_irreflexive(c);
    }
    lemma_find_item(items, c, kc);
    let it = items[kc];
    lemma_find_from(r, 0, '/');
    lemma_group_has(es, prefix, c, i);
    let g = group(es, prefix, c);
    match find_from(r, 0, '/') {
        None => {
            assert(before_char(r, '/') == r);
            assert(!has_char(r, '/'));
            lemma_group_single(es, prefix, i);
            assert(g == seq![es[i]]);
            assert(is_file(g, prefix));
            assert(!it.is_dir && it.hash == es[i].sha);
        },
        Some(k) => {
            assert(c == r.take(k));
            assert(has_char(r, '/'));
            assert(!is_file(g, prefix)) by {
                if g.len() == 1 {
                    let m = choose|m: int| 0 <= m < g.len() && g[m] == es[i];
                    assert(g[0] == es[i]);
                }
            }
            let sub = sub_prefix(prefix, c);
            let so = tree_objects(es, sub);
            assert(it.is_dir);
            assert(prefix.len() < sub.len());
            assert(prefix.len() > 0 || k > 0);
            lemma_relative_step(es[i].path, prefix, k);
            assert(relative(es[i].path, sub) == Some(r.skip(k + 1)));
            // the subtree's objects are among the stored ones
            assert(contained(so, objs));
            assert forall|j: int| 0 <= j < so.len() implies store.dom().contains(#[trigger] so[j].0)
                && store[so[j].0] == so[j].1 && sha1_digest(so[j].1).len() == 20 by {
                assert(objs.contains(so[j]));
                let m = choose|m: int| 0 <= m < objs.len() && objs[m] == so[j];
                assert(all[m] == objs[m]);
            }
            assert forall|j: int| 0 <= j < so.len() implies (#[trigger] sha1_digest(so[j].1)).len() == 20 by {
                assert(store.dom().contains(so[j].0));
            }
            assert(digests_sized(so));
            assert(stores_objects(store, so));
            // the subtree's id
            let sl = so.last();
            assert(so == tree_entries(es, sub, names_of(es, sub)).1.push(
                (object_id(object_bytes(tree_kind(), tree_content(tree_entries(es, sub, names_of(es, sub)).0))),
                object_bytes(tree_kind(), tree_content(tree_entries(es, sub, names_of(es, sub)).0))),
            ));
            assert(sl.0 == object_id(sl.1));
            assert(hex_lower(it.hash) == sl.0);
            lemma_restore_walk(es, sub, store, i);
        },
    }
}

/// Law of restoring: restoring the top tree that the staged entries are written to
/// gives every staged file back; following its path through the trees reaches a file
/// entry whose blob holds the file's content. This holds for staged entries with
/// distinct paths, none of them a directory of another and none holding a NUL, with
/// 20-byte hashes, that form a buildable tree (`tree_is_buildable`), when the store
/// holds the tree objects (whose digests are 20 bytes, as `build_tree` states of the
/// objects it returns) and each staged file's blob.
pub proof fn law_restore_gives_files_back(es: Seq<EntryView>, store: Map<Seq<char>, Seq<u8>>, i: int)
    requires
        tree_buildable(es),
        no_nul_paths(es),
        shas_sized(es),
        distinct_paths(es),
        no_dir_paths(es),
        digests_sized(tree_objects(es, seq![])),
        stores_objects(store, tree_objects(es, seq![])),
        0 <= i < es.len(),
        store.dom().contains(hex_lower(es[i].sha)),
        store[hex_lower(es[i].sha)].len() > 0,
    ensures
        restored_file(store, tree_objects(es, seq![]).last().0, es[i].path) == Some(
            object_body(store[hex_lower(es[i].sha)]),
        ),
{
    assert(relative(es[i].path, seq![]) == Some(es[i].path));
    lemma_restore_walk(es, seq![], store, i);
}

} // verus!
