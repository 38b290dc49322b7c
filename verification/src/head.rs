//! Reading the HEAD file: the reference it points to, and the current branch.
use vstd::prelude::*;
use crate::text::{
    chars_of, is_white_space, starts_with, string_of, trim, trim_end_ws, trim_start_matches,
    trim_start_matching, trim_start_ws, trim_ws,
};

verus! {

/// What remains of the HEAD file once every leading `prefix` and the surrounding
/// whitespace are removed.
pub open spec fn head_after(head: Seq<char>, prefix: Seq<char>) -> Seq<char> {
    trim_ws(trim_start_matches(head, prefix))
}

/// The text "ref:".
pub open spec fn ref_colon() -> Seq<char> {
    seq!['r', 'e', 'f', ':']
}

/// The text "ref: ".
pub open spec fn ref_colon_space() -> Seq<char> {
    ref_colon() + seq![' ']
}

/// The text "refs/heads/".
pub open spec fn heads_dir() -> Seq<char> {
    seq!['r', 'e', 'f', 's', '/', 'h', 'e', 'a', 'd', 's', '/']
}

/// The text "ref: refs/heads/".
pub open spec fn head_branch_prefix() -> Seq<char> {
    ref_colon_space() + heads_dir()
}

/// The HEAD file's content without leading `prefix`es and surrounding whitespace.
pub fn strip_head(head: &str, prefix: &str) -> (r: String)
    ensures
        r@ == head_after(head@, prefix@),
{
    let h = chars_of(head);
    let p = chars_of(prefix);
    let t = trim_start_matching(h.as_slice(), p.as_slice());
    let u = trim(t.as_slice());
    string_of(u.as_slice())
}

/// The path of the current branch's reference, from HEAD ("ref: refs/heads/main"
/// gives "refs/heads/main"): what follows "ref:", trimmed.
pub fn current_ref_path(head: &str) -> (r: String)
    ensures
        r@ == head_after(head@, ref_colon()),
{
    let r = strip_head(head, "ref:");
    proof {
        reveal_strlit("ref:");
        assert("ref:"@ =~= ref_colon());
    }
    r
}

/// The reference that HEAD names: what follows "ref: ", trimmed.
pub fn current_ref(head: &str) -> (r: String)
    ensures
        r@ == head_after(head@, ref_colon_space()),
{
    let r = strip_head(head, "ref: ");
    proof {
        reveal_strlit("ref: ");
        assert("ref: "@ =~= ref_colon_space());
    }
    r
}

/// The name of the current branch: what follows "ref: refs/heads/", trimmed.
pub fn current_branch(head: &str) -> (r: String)
    ensures
        r@ == head_after(head@, head_branch_prefix()),
{
    let r = strip_head(head, "ref: refs/heads/");
    proof {
        reveal_strlit("ref: refs/heads/");
        assert("ref: refs/heads/"@ =~= head_branch_prefix());
    }
    r
}

/// The content HEAD gets when it is made to point to a branch:
/// "ref: refs/heads/{branch}" and a line feed.
pub open spec fn head_content_for(branch: Seq<char>) -> Seq<char> {
    head_branch_prefix() + branch + seq!['\n']
}

/// The content to write to HEAD to make it point to `branch`.
pub fn head_for_branch(branch: &str) -> (r: String)
    ensures
        r@ == head_content_for(branch@),
{
    let mut v = chars_of("ref: refs/heads/");
    crate::text::extend_str(&mut v, branch);
    v.push('\n');
    proof {
        reveal_strlit("ref: refs/heads/");
        assert(v@ =~= head_content_for(branch@));
    }
    string_of(v.as_slice())
}

/// Whether a branch name reads back unchanged from HEAD: no whitespace at either end,
/// and it does not itself start with "ref: refs/heads/".
pub open spec fn plain_branch_name(b: Seq<char>) -> bool {
    &&& b.len() > 0 ==> !is_white_space(b[0]) && !is_white_space(b.last())
    &&& !starts_with(b, head_branch_prefix())
}

/// Stripping a non-empty pattern from text that opens with it once, and not twice,
/// leaves the rest.
proof fn lemma_trim_start_matches_once(p: Seq<char>, x: Seq<char>)
    requires
        p.len() > 0,
        !starts_with(x, p),
    ensures
        trim_start_matches(p + x, p) == x,
{
    assert((p + x).take(p.len() as int) =~= p);
    assert((p + x).skip(p.len() as int) =~= x);
    assert(trim_start_matches(x, p) == x);
}

/// Trimming a text with no whitespace at its ends, followed by a line feed, gives the
/// text.
proof fn lemma_trim_line(b: Seq<char>)
    requires
        b.len() > 0 ==> !is_white_space(b[0]) && !is_white_space(b.last()),
    ensures
        trim_ws(b + seq!['\n']) == b,
{
    let t = b + seq!['\n'];
    assert(is_white_space('\n'));
    if b.len() == 0 {
        assert(t.drop_first() =~= Seq::<char>::empty());
        assert(t[0] == '\n');
        assert(trim_start_ws(Seq::<char>::empty()) == Seq::<char>::empty());
        assert(trim_start_ws(t) == Seq::<char>::empty());
        assert(trim_end_ws(Seq::<char>::empty()) == Seq::<char>::empty());
        assert(b =~= Seq::<char>::empty());
    } else {
        assert(t[0] == b[0]);
        assert(trim_start_ws(t) == t);
        assert(t.drop_last() =~= b);
        assert(trim_end_ws(b) == b);
    }
}

/// Law of HEAD: once HEAD is written to point to a branch, the current branch read
/// from it is that branch, for any branch name that reads back unchanged.
pub proof fn law_current_branch_after_switch(b: Seq<char>)
    requires
        plain_branch_name(b),
    ensures
        head_after(head_content_for(b), head_branch_prefix()) == b,
{
    let p = head_branch_prefix();
    assert(head_content_for(b) =~= p + (b + seq!['\n']));
    assert(!starts_with(b + seq!['\n'], p)) by {
        if starts_with(b + seq!['\n'], p) {
            if p.len() <= b.len() {
                assert((b + seq!['\n']).take(p.len() as int) =~= b.take(p.len() as int));
            } else {
                assert(p[b.len() as int] == (b + seq!['\n'])[b.len() as int]);
                assert(p[b.len() as int] != '\n');
            }
        }
    }
    lemma_trim_start_matches_once(p, b + seq!['\n']);
    lemma_trim_line(b);
}

/// Law of HEAD: once HEAD is written to point to a branch, the reference read from it
/// (after "ref: ", or after "ref:") is "refs/heads/" and the branch, for any branch name
/// without whitespace at its end.
pub proof fn law_current_ref_after_switch(b: Seq<char>)
    requires
        b.len() > 0 ==> !is_white_space(b.last()),
    ensures
        head_after(head_content_for(b), ref_colon_space()) == heads_dir() + b,
        head_after(head_content_for(b), ref_colon()) == heads_dir() + b,
{
    let x = heads_dir() + b;
    assert(head_content_for(b) =~= ref_colon_space() + (x + seq!['\n']));
    assert(head_content_for(b) =~= ref_colon() + (seq![' '] + x + seq!['\n']));
    assert(!starts_with(x + seq!['\n'], ref_colon_space())) by {
        assert((x + seq!['\n'])[3] == 's');
        assert(ref_colon_space()[3] == ':');
        if starts_with(x + seq!['\n'], ref_colon_space()) {
            assert((x + seq!['\n']).take(5)[3] == (x + seq!['\n'])[3]);
        }
    }
    assert(!starts_with(seq![' '] + x + seq!['\n'], ref_colon())) by {
        if starts_with(seq![' '] + x + seq!['\n'], ref_colon()) {
            assert((seq![' '] + x + seq!['\n']).take(4)[0] == ' ');
        }
    }
    lemma_trim_start_matches_once(ref_colon_space(), x + seq!['\n']);
    lemma_trim_start_matches_once(ref_colon(), seq![' '] + x + seq!['\n']);
    assert(x.last() == (if b.len() > 0 {
        b.last()
    } else {
        '/'
    }));
    lemma_trim_line(x);
    let y = seq![' '] + x + seq!['\n'];
    assert(is_white_space(' '));
    assert(y.drop_first() =~= x + seq!['\n']);
    assert(trim_start_ws(y) == trim_start_ws(x + seq!['\n']));
    assert(trim_ws(y) == trim_ws(x + seq!['\n']));
}

} // verus!
