//! What the tree objects of the staged entries depend on: the names and the file
//! entries of each directory, and nothing else. So the order of the entries, their
//! flags, and (below the top) the entries outside the directory leave the trees as
//! they are.
use vstd::prelude::*;
use crate::index::EntryView;
use crate::text::starts_with;
use crate::restore_laws::{item_fits, lemma_entries_shape};
use crate::write_tree::{
    dir_entries, group, in_group, is_file, law_tree_names, lemma_lex_transitive, lemma_max_len,
    lemma_name_in_path, lemma_names_member, lex_lt, names_of, relative, strictly_sorted, sub_prefix,
    tree_buildable, tree_entries, tree_objects,
};

verus! {

/// Whether the directory `p` is `prefix` or lies below it (every directory lies below
/// the top, "").
pub open spec fn below(p: Seq<char>, prefix: Seq<char>) -> bool {
    prefix.len() == 0 || p == prefix || starts_with(p, prefix + seq!['/'])
}

/// Whether two lists of entries give the directory `p` the same names, and give the
/// name `n` there a file entry in both or in neither, with the same hash.
pub open spec fn agree_at(es1: Seq<EntryView>, es2: Seq<EntryView>, p: Seq<char>, n: Seq<char>) -> bool {
    &&& names_of(es1, p) == names_of(es2, p)
    &&& (is_file(group(es1, p, n), p) <==> is_file(group(es2, p, n), p))
    &&& (is_file(group(es1, p, n), p) ==> group(es1, p, n)[0].sha == group(es2, p, n)[0].sha)
}

/// Whether two lists of entries agree in every directory at or below `prefix`.
pub open spec fn agree_below(es1: Seq<EntryView>, es2: Seq<EntryView>, prefix: Seq<char>) -> bool {
    forall|p: Seq<char>, n: Seq<char>| below(p, prefix) ==> #[trigger] agree_at(es1, es2, p, n)
}

/// A directory one level below a directory at or below `prefix` is below `prefix`.
proof fn lemma_below_sub(p: Seq<char>, prefix: Seq<char>, n: Seq<char>)
    requires
        below(p, prefix),
        p.len() < sub_prefix(p, n).len(),
    ensures
        below(sub_prefix(p, n), prefix),
{
    if prefix.len() > 0 {
        let s = sub_prefix(p, n);
        let k = prefix.len() + 1;
        assert(p.len() > 0);
        assert(s =~= p + seq!['/'] + n);
        if p == prefix {
            assert(s.take(k as int) =~= prefix + seq!['/']);
        } else {
            assert(s.take(k as int) =~= p.take(k as int));
        }
    }
}

/// Lying below is transitive.
proof fn lemma_below_trans(q: Seq<char>, s: Seq<char>, prefix: Seq<char>)
    requires
        below(q, s),
        below(s, prefix),
    ensures
        below(q, prefix),
{
    if prefix.len() > 0 && q != s {
        if s.len() == 0 {
            assert(s != prefix);
            assert(!starts_with(s, prefix + seq!['/']));
        } else {
            assert(starts_with(q, s + seq!['/']));
            let k = prefix.len() + 1;
            if s == prefix {
                assert(q.take(k as int) =~= (s + seq!['/']).take(k as int));
            } else {
                assert(q.take(k as int) =~= q.take((s.len() + 1) as int).take(k as int));
                assert((s + seq!['/']).take(k as int) =~= s.take(k as int));
            }
        }
    }
}

/// Where a name of `p` has no file entry, its directory is within reach of the longest
/// path of the entries.
proof fn lemma_sub_in_reach(es: Seq<EntryView>, p: Seq<char>, n: Seq<char>)
    requires
        names_of(es, p).contains(n),
    ensures
        sub_prefix(p, n).len() <= crate::write_tree::max_len(es),
{
    lemma_names_member(es, p, n);
    let i = choose|i: int| 0 <= i < es.len() && in_group(es[i], p, n);
    lemma_name_in_path(es[i], p, n);
    lemma_max_len(es, i);
}

/// Lists that agree at and below `prefix` give it the same tree entries and objects,
/// for any of its names.
proof fn lemma_entries_agree(es1: Seq<EntryView>, es2: Seq<EntryView>, prefix: Seq<char>, names: Seq<Seq<char>>)
    requires
        agree_below(es1, es2, prefix),
        forall|k: int| 0 <= k < names.len() ==> names_of(es1, prefix).contains(#[trigger] names[k]),
    ensures
        tree_entries(es1, prefix, names) == tree_entries(es2, prefix, names),
    decreases crate::write_tree::max_len(es1) - prefix.len(), names.len(),
{
    if names.len() > 0 {
        let init = names.drop_last();
        assert forall|k: int| 0 <= k < init.len() implies names_of(es1, prefix).contains(#[trigger] init[k]) by {
            assert(init[k] == names[k]);
        }
        lemma_entries_agree(es1, es2, prefix, init);
        let name = names.last();
        assert(names_of(es1, prefix).contains(names[names.len() - 1]));
        assert(agree_at(es1, es2, prefix, name));
        if !is_file(group(es1, prefix, name), prefix) {
            let sub = sub_prefix(prefix, name);
            lemma_sub_in_reach(es1, prefix, name);
            lemma_sub_in_reach(es2, prefix, name);
            if prefix.len() < sub.len() {
                lemma_below_sub(prefix, prefix, name);
                assert forall|q: Seq<char>, m: Seq<char>| below(q, sub) implies #[trigger] agree_at(
                    es1,
                    es2,
                    q,
                    m,
                ) by {
                    lemma_below_trans(q, sub, prefix);
                }
                lemma_objects_agree(es1, es2, sub);
            }
        }
    }
}

/// Lists that agree at and below `prefix` give it the same tree objects.
proof fn lemma_objects_agree(es1: Seq<EntryView>, es2: Seq<EntryView>, prefix: Seq<char>)
    requires
        agree_below(es1, es2, prefix),
    ensures
        tree_objects(es1, prefix) == tree_objects(es2, prefix),
        dir_entries(es1, prefix) == dir_entries(es2, prefix),
    decreases crate::write_tree::max_len(es1) - prefix.len(), names_of(es1, prefix).len() + 1,
{
    assert(agree_at(es1, es2, prefix, seq![]));
    let ns = names_of(es1, prefix);
    assert forall|k: int| 0 <= k < ns.len() implies ns.contains(#[trigger] ns[k]) by {}
    lemma_entries_agree(es1, es2, prefix, ns);
}


/// Whether two lists of entries have the same paths and hashes, position by position
/// (their flags may differ).
pub open spec fn same_paths_and_ids(es1: Seq<EntryView>, es2: Seq<EntryView>) -> bool {
    &&& es1.len() == es2.len()
    &&& forall|i: int| 0 <= i < es1.len() ==> (#[trigger] es1[i]).path == es2[i].path && es1[i].sha == es2[i].sha
}

/// Lists with the same paths and hashes have the same names and groups of the same
/// paths and hashes.
proof fn lemma_same_paths_groups(es1: Seq<EntryView>, es2: Seq<EntryView>, p: Seq<char>, n: Seq<char>)
    requires
        same_paths_and_ids(es1, es2),
    ensures
        names_of(es1, p) == names_of(es2, p),
        same_paths_and_ids(group(es1, p, n), group(es2, p, n)),
    decreases es1.len(),
{
    if es1.len() > 0 {
        let a = es1.drop_last();
        let b = es2.drop_last();
        assert forall|i: int| 0 <= i < a.len() implies (#[trigger] a[i]).path == b[i].path && a[i].sha
            == b[i].sha by {
            assert(a[i] == es1[i] && b[i] == es2[i]);
        }
        lemma_same_paths_groups(a, b, p, n);
        assert(es1.last() == es1[es1.len() - 1] && es2.last() == es2[es2.len() - 1]);
        let g1 = group(a, p, n);
        let g2 = group(b, p, n);
        if in_group(es1.last(), p, n) {
            assert forall|i: int| 0 <= i < g1.len() + 1 implies (#[trigger] g1.push(es1.last())[i]).path
                == g2.push(es2.last())[i].path && g1.push(es1.last())[i].sha == g2.push(es2.last())[i].sha by {
                if i < g1.len() {
                    assert(g1.push(es1.last())[i] == g1[i] && g2.push(es2.last())[i] == g2[i]);
                }
            }
        }
    }
}

/// Law of trees: the flags of the staged entries do not change the trees; entries with
/// the same paths and hashes, in the same order, give every directory the same tree
/// objects and the same entries.
pub proof fn law_trees_ignore_flags(es1: Seq<EntryView>, es2: Seq<EntryView>, prefix: Seq<char>)
    requires
        same_paths_and_ids(es1, es2),
    ensures
        tree_objects(es1, prefix) == tree_objects(es2, prefix),
        dir_entries(es1, prefix) == dir_entries(es2, prefix),
{
    assert forall|q: Seq<char>, m: Seq<char>| below(q, prefix) implies #[trigger] agree_at(es1, es2, q, m) by {
        lemma_same_paths_groups(es1, es2, q, m);
        let g1 = group(es1, q, m);
        let g2 = group(es2, q, m);
        if g1.len() == 1 {
            assert(g1[0].path == g2[0].path);
        }
    }
    lemma_objects_agree(es1, es2, prefix);
}


/// Whether an entry lies inside the directory `prefix`.
pub open spec fn inside(prefix: Seq<char>) -> spec_fn(EntryView) -> bool {
    |e: EntryView| relative(e.path, prefix) is Some
}

/// A path relative to a directory below `prefix` lies inside `prefix`.
proof fn lemma_relative_below(path: Seq<char>, p: Seq<char>, prefix: Seq<char>)
    requires
        prefix.len() > 0,
        below(p, prefix),
        relative(path, p) is Some,
    ensures
        relative(path, prefix) is Some,
{
    if p != prefix {
        let k = prefix.len() + 1;
        assert(starts_with(path, p + seq!['/']));
        assert(path.take(k as int) =~= path.take((p.len() + 1) as int).take(k as int));
        assert((p + seq!['/']).take(k as int) =~= p.take(k as int));
    }
}

/// In a directory below `prefix` only the entries inside `prefix` count.
proof fn lemma_inside_groups(es: Seq<EntryView>, prefix: Seq<char>, p: Seq<char>, n: Seq<char>)
    requires
        prefix.len() > 0,
        below(p, prefix),
    ensures
        names_of(es, p) == names_of(es.filter(inside(prefix)), p),
        group(es, p, n) == group(es.filter(inside(prefix)), p, n),
    decreases es.len(),
{
    if es.len() > 0 {
        let a = es.drop_last();
        let e = es.last();
        lemma_inside_groups(a, prefix, p, n);
        assert(es =~= a.push(e));
        a.lemma_filter_push(e, inside(prefix));
        assert(es.filter(inside(prefix)) == if inside(prefix)(e) {
            a.filter(inside(prefix)).push(e)
        } else {
            a.filter(inside(prefix))
        });
        if relative(e.path, p) is Some {
            lemma_relative_below(e.path, p, prefix);
            let f = a.filter(inside(prefix)).push(e);
            assert(f.drop_last() =~= a.filter(inside(prefix)));
            assert(f.last() == e);
        } else {
            if inside(prefix)(e) {
                let f = a.filter(inside(prefix)).push(e);
                assert(f.drop_last() =~= a.filter(inside(prefix)));
                assert(f.last() == e);
            }
        }
    }
}

/// Law of trees: below the top, only the entries inside the directory count; lists
/// with the same entries inside `prefix`, in the same order, give it the same tree
/// objects and the same entries, whatever other entries they hold.
pub proof fn law_trees_only_inside(es1: Seq<EntryView>, es2: Seq<EntryView>, prefix: Seq<char>)
    requires
        prefix.len() > 0,
        es1.filter(inside(prefix)) == es2.filter(inside(prefix)),
    ensures
        tree_objects(es1, prefix) == tree_objects(es2, prefix),
        dir_entries(es1, prefix) == dir_entries(es2, prefix),
{
    assert forall|q: Seq<char>, m: Seq<char>| below(q, prefix) implies #[trigger] agree_at(es1, es2, q, m) by {
        lemma_inside_groups(es1, prefix, q, m);
        lemma_inside_groups(es2, prefix, q, m);
    }
    lemma_objects_agree(es1, es2, prefix);
}


/// No text comes strictly before itself.
pub(crate) proof fn lemma_lex_irreflexive(a: Seq<char>)
    ensures
        !lex_lt(a, a),
    decreases a.len(),
{
    if a.len() > 0 {
        lemma_lex_irreflexive(a.drop_first());
    }
}

/// Two strictly ascending lists of names with the same members are equal.
proof fn lemma_sorted_unique(a: Seq<Seq<char>>, b: Seq<Seq<char>>)
    requires
        strictly_sorted(a),
        strictly_sorted(b),
        forall|x: Seq<char>| a.contains(x) <==> b.contains(x),
    ensures
        a == b,
    decreases a.len(),
{
    if a.len() == 0 {
        if b.len() > 0 {
            assert(b.contains(b[0]));
        }
        assert(a =~= b);
    } else {
        assert(a.contains(a[0]));
        let j = choose|j: int| 0 <= j < b.len() && b[j] == a[0];
        assert(b.contains(b[0]));
        let k = choose|k: int| 0 <= k < a.len() && a[k] == b[0];
        if j > 0 {
            assert(lex_lt(b[0], b[j]));
            lemma_lex_irreflexive(a[0]);
            if k > 0 {
                assert(lex_lt(a[0], a[k]));
                lemma_lex_transitive(a[0], a[k], a[0]);
            }
            assert(false);
        }
        let a1 = a.drop_first();
        let b1 = b.drop_first();
        assert forall|x: Seq<char>| a1.contains(x) <==> b1.contains(x) by {
            if a1.contains(x) {
                let i = choose|i: int| 0 <= i < a1.len() && a1[i] == x;
                assert(a[i + 1] == x);
                assert(lex_lt(a[0], a[i + 1]));
                lemma_lex_irreflexive(x);
                assert(b.contains(x));
                let m = choose|m: int| 0 <= m < b.len() && b[m] == x;
                assert(m != 0);
                assert(b1[m - 1] == x);
            }
            if b1.contains(x) {
                let i = choose|i: int| 0 <= i < b1.len() && b1[i] == x;
                assert(b[i + 1] == x);
                assert(lex_lt(b[0], b[i + 1]));
                lemma_lex_irreflexive(x);
                assert(a.contains(x));
                let m = choose|m: int| 0 <= m < a.len() && a[m] == x;
                assert(m != 0);
                assert(a1[m - 1] == x);
            }
        }
        assert forall|i: int, l: int| 0 <= i < l < a1.len() implies lex_lt(#[trigger] a1[i], #[trigger] a1[l]) by {
            assert(a1[i] == a[i + 1] && a1[l] == a[l + 1]);
        }
        assert forall|i: int, l: int| 0 <= i < l < b1.len() implies lex_lt(#[trigger] b1[i], #[trigger] b1[l]) by {
            assert(b1[i] == b[i + 1] && b1[l] == b[l + 1]);
        }
        lemma_sorted_unique(a1, b1);
        assert(a =~= seq![a[0]] + a1);
        assert(b =~= seq![b[0]] + b1);
    }
}

/// How often an entry occurs in a group: as often as in the list, if it belongs to
/// the group, else never.
proof fn lemma_group_count(es: Seq<EntryView>, p: Seq<char>, n: Seq<char>, x: EntryView)
    ensures
        group(es, p, n).to_multiset().count(x) == if in_group(x, p, n) {
            es.to_multiset().count(x)
        } else {
            0
        },
    decreases es.len(),
{
    broadcast use vstd::seq_lib::group_to_multiset_ensures, vstd::multiset::group_multiset_axioms;

    if es.len() == 0 {
        assert(!group(es, p, n).contains(x));
        assert(!es.contains(x));
    } else {
        let a = es.drop_last();
        let e = es.last();
        lemma_group_count(a, p, n, x);
        assert(es =~= a.push(e));
        if in_group(e, p, n) {
            assert(group(es, p, n) == group(a, p, n).push(e));
        }
    }
}

/// Law of trees: the order of the staged entries does not change the trees; lists
/// with the same entries, each as often, give every directory the same tree objects
/// and the same entries.
pub proof fn law_trees_any_order(es1: Seq<EntryView>, es2: Seq<EntryView>, prefix: Seq<char>)
    requires
        es1.to_multiset() == es2.to_multiset(),
    ensures
        tree_objects(es1, prefix) == tree_objects(es2, prefix),
        dir_entries(es1, prefix) == dir_entries(es2, prefix),
{
    broadcast use vstd::seq_lib::group_to_multiset_ensures, vstd::multiset::group_multiset_axioms;

    assert forall|q: Seq<char>, m: Seq<char>| below(q, prefix) implies #[trigger] agree_at(es1, es2, q, m) by {
        // the same names
        law_tree_names(es1, q);
        law_tree_names(es2, q);
        assert forall|x: Seq<char>| names_of(es1, q).contains(x) <==> names_of(es2, q).contains(x) by {
            if names_of(es1, q).contains(x) {
                let i = choose|i: int| 0 <= i < es1.len() && in_group(es1[i], q, x);
                assert(es1.contains(es1[i]));
                assert(es2.to_multiset().count(es1[i]) > 0);
                let j = choose|j: int| 0 <= j < es2.len() && es2[j] == es1[i];
                assert(in_group(es2[j], q, x));
            }
            if names_of(es2, q).contains(x) {
                let i = choose|i: int| 0 <= i < es2.len() && in_group(es2[i], q, x);
                assert(es2.contains(es2[i]));
                assert(es1.to_multiset().count(es2[i]) > 0);
                let j = choose|j: int| 0 <= j < es1.len() && es1[j] == es2[i];
                assert(in_group(es1[j], q, x));
            }
        }
        lemma_sorted_unique(names_of(es1, q), names_of(es2, q));
        // the same groups, up to order
        let g1 = group(es1, q, m);
        let g2 = group(es2, q, m);
        assert forall|x: EntryView| g1.to_multiset().count(x) == g2.to_multiset().count(x) by {
            lemma_group_count(es1, q, m, x);
            lemma_group_count(es2, q, m, x);
        }
        assert(g1.to_multiset() =~= g2.to_multiset());
        vstd::seq_lib::to_multiset_len(g1);
        vstd::seq_lib::to_multiset_len(g2);
        if g1.len() == 1 {
            assert(g1.contains(g1[0]));
            assert(g2.to_multiset().count(g1[0]) > 0);
            let j = choose|j: int| 0 <= j < g2.len() && g2[j] == g1[0];
            assert(g2[0] == g1[0]);
        }
    }
    lemma_objects_agree(es1, es2, prefix);
}


/// The ascending order of `String` (and of `str`), said directly: `a` comes before `b`
/// when `a` is a proper prefix of `b`, or when, at the first position where they
/// differ, `a`'s character has the smaller code point.
pub open spec fn string_before(a: Seq<char>, b: Seq<char>) -> bool {
    ||| a.len() < b.len() && b.take(a.len() as int) == a
    ||| exists|i: int|
        0 <= i < a.len() && i < b.len() && #[trigger] a.take(i) == b.take(i) && (a[i] as u32) < (
        b[i] as u32)
}

/// Law of names: the order in which tree names are kept is the order of `String`.
pub proof fn law_lex_lt_is_string_order(a: Seq<char>, b: Seq<char>)
    ensures
        lex_lt(a, b) <==> string_before(a, b),
    decreases a.len(),
{
    if a.len() == 0 {
        assert(b.take(0) =~= a);
    } else if b.len() == 0 {
    } else if a[0] != b[0] {
        if a.len() < b.len() && b.take(a.len() as int) == a {
            assert(b.take(a.len() as int)[0] == b[0]);
        }
        if (a[0] as u32) < (b[0] as u32) {
            assert(a.take(0) =~= b.take(0));
        }
        if exists|i: int|
            0 <= i < a.len() && i < b.len() && #[trigger] a.take(i) == b.take(i) && (a[i] as u32) < (
            b[i] as u32) {
            let i = choose|i: int|
                0 <= i < a.len() && i < b.len() && #[trigger] a.take(i) == b.take(i) && (a[i] as u32) < (
                b[i] as u32);
            if i > 0 {
                assert(a.take(i)[0] == b.take(i)[0]);
            }
        }
    } else {
        let a1 = a.drop_first();
        let b1 = b.drop_first();
        law_lex_lt_is_string_order(a1, b1);
        // the prefix case
        if a.len() < b.len() && b.take(a.len() as int) == a {
            assert(b1.take(a1.len() as int) =~= b.take(a.len() as int).drop_first());
        }
        if a1.len() < b1.len() && b1.take(a1.len() as int) == a1 {
            assert(b.take(a.len() as int) =~= seq![b[0]] + b1.take(a1.len() as int));
            assert(a =~= seq![a[0]] + a1);
        }
        // the case of a first difference
        if exists|i: int|
            0 <= i < a.len() && i < b.len() && #[trigger] a.take(i) == b.take(i) && (a[i] as u32) < (
            b[i] as u32) {
            let i = choose|i: int|
                0 <= i < a.len() && i < b.len() && #[trigger] a.take(i) == b.take(i) && (a[i] as u32) < (
                b[i] as u32);
            assert(i > 0);
            assert(a1.take(i - 1) =~= a.take(i).drop_first());
            assert(b1.take(i - 1) =~= b.take(i).drop_first());
            assert(a1[i - 1] == a[i] && b1[i - 1] == b[i]);
        }
        if exists|i: int|
            0 <= i < a1.len() && i < b1.len() && #[trigger] a1.take(i) == b1.take(i) && (a1[i] as u32) < (
            b1[i] as u32) {
            let i = choose|i: int|
                0 <= i < a1.len() && i < b1.len() && #[trigger] a1.take(i) == b1.take(i) && (a1[i] as u32)
                    < (b1[i] as u32);
            assert(a.take(i + 1) =~= seq![a[0]] + a1.take(i));
            assert(b.take(i + 1) =~= seq![b[0]] + b1.take(i));
            assert(a[i + 1] == a1[i] && b[i + 1] == b1[i]);
        }
    }
}

/// Law of trees: the names of a directory's tree, and the entries of its tree object,
/// come in the ascending order of `String`; in particular a name comes before every
/// longer name it is a prefix of.
pub proof fn law_tree_entries_in_string_order(es: Seq<EntryView>, prefix: Seq<char>)
    requires
        prefix.len() > 0 || tree_buildable(es),
    ensures
        forall|i: int, j: int|
            0 <= i < j < names_of(es, prefix).len() ==> string_before(
                #[trigger] names_of(es, prefix)[i],
                #[trigger] names_of(es, prefix)[j],
            ),
        forall|i: int, j: int|
            0 <= i < j < dir_entries(es, prefix).len() ==> string_before(
                #[trigger] dir_entries(es, prefix)[i].name,
                #[trigger] dir_entries(es, prefix)[j].name,
            ),
{
    let ns = names_of(es, prefix);
    law_tree_names(es, prefix);
    assert forall|i: int, j: int| 0 <= i < j < ns.len() implies string_before(#[trigger] ns[i], #[trigger] ns[j]) by {
        law_lex_lt_is_string_order(ns[i], ns[j]);
    }
    assert forall|k: int| 0 <= k < ns.len() implies ns.contains(#[trigger] ns[k]) by {}
    lemma_entries_shape(es, prefix, ns);
    let items = dir_entries(es, prefix);
    assert forall|i: int, j: int| 0 <= i < j < items.len() implies string_before(
        #[trigger] items[i].name,
        #[trigger] items[j].name,
    ) by {
        let objs = tree_entries(es, prefix, ns).1;
        assert(item_fits(es, prefix, ns[i], items[i], objs));
        assert(item_fits(es, prefix, ns[j], items[j], objs));
        assert(string_before(ns[i], ns[j]));
    }
}

} // verus!
