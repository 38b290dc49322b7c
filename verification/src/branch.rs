//! The `branch` command as a state machine: listing the branches, or creating one from
//! the current commit. The caller performs each action (checks, reads, writes) and
//! reports what came of it; the machine decides what comes next.
use vstd::prelude::*;
use crate::color_utils::{
    bold_code, fg_code, paint, paint_bold, paint_strong, painted, shown, strong_code, Hue,
};
use crate::error::ItError;
use crate::head::{current_branch, current_ref, head_after, head_branch_prefix, ref_colon_space};
use crate::text::{chars_of, extend_str, string_of};

verus! {

/// What the `branch` command waits for.
#[allow(inconsistent_fields)]
pub enum BranchState {
    /// Whether the repository exists (`name` is the branch to create, if any).
    AwaitRepository { name: Option<String> },
    /// Whether the branch to create exists already.
    AwaitTarget { name: String },
    /// The content of HEAD, to create a branch.
    AwaitHeadForCreate { name: String },
    /// Whether the reference that HEAD names exists.
    AwaitRef { name: String, current_ref: String },
    /// The content of that reference.
    AwaitRefContent { name: String, current_ref: String },
    /// The new branch's file has been written.
    AwaitWrite { name: String },
    /// The creation has been logged.
    AwaitLog { name: String },
    /// The branches' directory has been opened, to list the branches.
    AwaitBranchDir,
    /// The content of HEAD, to list the branches.
    AwaitHeadForList,
    /// Nothing more to do.
    Finished,
}

/// What the caller reports.
pub enum BranchEvent {
    /// The answer to a check.
    Flag(bool),
    /// The content of a file that was read.
    Text(String),
    /// The action is done.
    Done,
}

/// What the caller is to do next.
pub enum BranchAction {
    /// Check that `.it` exists and is a directory.
    CheckRepository,
    /// Check whether `refs/heads/{name}` exists.
    CheckBranchFile(String),
    /// Read `HEAD`.
    ReadHead,
    /// Open the directory `refs/heads` for listing.
    OpenBranchDir,
    /// Check whether the reference file at this path exists.
    CheckRefFile(String),
    /// Read the reference file at this path.
    ReadRefFile(String),
    /// Write this content to `refs/heads/{name}`.
    WriteBranchFile(String, String),
    /// Record the creation of this branch in the logs.
    LogBranch(String),
    /// List the branches of the opened directory, marking the current one (see
    /// `branch_list_line`).
    ListBranches(String),
    /// Print this line; the command is done.
    Print(String),
    /// Stop with this error.
    Fail(ItError),
}

/// Whether the event is the kind of answer the state waits for.
pub open spec fn branch_event_fits(s: BranchState, e: BranchEvent) -> bool {
    match s {
        BranchState::AwaitRepository { .. } => e is Flag,
        BranchState::AwaitTarget { .. } => e is Flag,
        BranchState::AwaitHeadForCreate { .. } => e is Text,
        BranchState::AwaitRef { .. } => e is Flag,
        BranchState::AwaitRefContent { .. } => e is Text,
        BranchState::AwaitWrite { .. } => e is Done,
        BranchState::AwaitLog { .. } => e is Done,
        BranchState::AwaitBranchDir => e is Done,
        BranchState::AwaitHeadForList => e is Text,
        BranchState::Finished => false,
    }
}

/// Whether `m` is the line printed once a branch is created: "branch" in green, a
/// space, then bold "'", the name in cyan and "' created", then a space.
pub open spec fn is_created_line(m: Seq<char>, name: Seq<char>) -> bool {
    exists|a: Seq<char>, b: Seq<char>, c: Seq<char>|
        shown(a, "branch"@, fg_code(Hue::Green)) && shown(c, name, fg_code(Hue::Cyan)) && shown(
            b,
            seq!['\''] + c + "' created"@,
            strong_code(),
        ) && m == a + seq![' '] + b + seq![' ']
}

/// The transition of the `branch` command: from the state and the event, the next
/// state and the action.
pub open spec fn branch_transition(s: BranchState, e: BranchEvent, r: (BranchState, BranchAction)) -> bool {
    match s {
        BranchState::AwaitRepository { name } => match e {
            BranchEvent::Flag(false) => {
                &&& r.0 is Finished
                &&& r.1 matches BranchAction::Fail(ItError::NotARepository)
            },
            _ => match name {
                Some(n) => {
                    &&& r.0 matches BranchState::AwaitTarget { name: n2 } && n2@ == n@
                    &&& r.1 matches BranchAction::CheckBranchFile(n3) && n3@ == n@
                },
                None => r.0 is AwaitBranchDir && r.1 is OpenBranchDir,
            },
        },
        BranchState::AwaitTarget { name } => match e {
            BranchEvent::Flag(true) => {
                &&& r.0 is Finished
                &&& r.1 matches BranchAction::Fail(ItError::BranchExists(n)) && n@ == name@
            },
            _ => {
                &&& r.0 matches BranchState::AwaitHeadForCreate { name: n } && n@ == name@
                &&& r.1 is ReadHead
            },
        },
        BranchState::AwaitHeadForCreate { name } => match e {
            BranchEvent::Text(head) => {
                &&& r.0 matches BranchState::AwaitRef { name: n, current_ref: c } && n@ == name@ && c@
                    == head_after(head@, ref_colon_space())
                &&& r.1 matches BranchAction::CheckRefFile(c2) && c2@ == head_after(
                    head@,
                    ref_colon_space(),
                )
            },
            _ => false,
        },
        BranchState::AwaitRef { name, current_ref } => match e {
            BranchEvent::Flag(false) => {
                &&& r.0 is Finished
                &&& r.1 matches BranchAction::Fail(ItError::InvalidRef(c)) && c@ == current_ref@
            },
            _ => {
                &&& r.0 matches BranchState::AwaitRefContent { name: n, current_ref: c } && n@
                    == name@ && c@ == current_ref@
                &&& r.1 matches BranchAction::ReadRefFile(c2) && c2@ == current_ref@
            },
        },
        BranchState::AwaitRefContent { name, .. } => match e {
            BranchEvent::Text(content) => {
                &&& r.0 matches BranchState::AwaitWrite { name: n } && n@ == name@
                &&& r.1 matches BranchAction::WriteBranchFile(n2, c) && n2@ == name@ && c@ == content@
            },
            _ => false,
        },
        BranchState::AwaitWrite { name } => {
            &&& r.0 matches BranchState::AwaitLog { name: n } && n@ == name@
            &&& r.1 matches BranchAction::LogBranch(n2) && n2@ == name@
        },
        BranchState::AwaitLog { name } => {
            &&& r.0 is Finished
            &&& r.1 matches BranchAction::Print(m) && is_created_line(m@, name@)
        },
        BranchState::AwaitBranchDir => r.0 is AwaitHeadForList && r.1 is ReadHead,
        BranchState::AwaitHeadForList => match e {
            BranchEvent::Text(head) => {
                &&& r.0 is Finished
                &&& r.1 matches BranchAction::ListBranches(c) && c@ == head_after(
                    head@,
                    head_branch_prefix(),
                )
            },
            _ => false,
        },
        BranchState::Finished => false,
    }
}

/// The first state and action of `branch`: check the repository.
pub fn branch_start(name: Option<String>) -> (r: (BranchState, BranchAction))
    ensures
        r.0 == (BranchState::AwaitRepository { name }),
        r.1 is CheckRepository,
{
    (BranchState::AwaitRepository { name }, BranchAction::CheckRepository)
}

/// A copy of a string.
fn copy_string(s: &str) -> (r: String)
    ensures
        r@ == s@,
{
    string_of(chars_of(s).as_slice())
}

/// The line printed once a branch is created.
fn created_line(name: &str) -> (r: String)
    ensures
        is_created_line(r@, name@),
{
    let a = paint("branch", Hue::Green);
    let c = paint(name, Hue::Cyan);
    let mut inner = chars_of("'");
    extend_str(&mut inner, c.as_str());
    extend_str(&mut inner, "' created");
    let inner_s = string_of(inner.as_slice());
    proof {
        reveal_strlit("'");
        assert(inner_s@ =~= seq!['\''] + c@ + "' created"@);
    }
    let b = paint_strong(inner_s.as_str());
    let mut v = chars_of(a.as_str());
    v.push(' ');
    extend_str(&mut v, b.as_str());
    v.push(' ');
    assert(v@ =~= a@ + seq![' '] + b@ + seq![' ']);
    string_of(v.as_slice())
}

/// One step of the `branch` command.
pub fn branch_step(s: BranchState, e: BranchEvent) -> (r: (BranchState, BranchAction))
    requires
        branch_event_fits(s, e),
    ensures
        branch_transition(s, e, r),
{
    match s {
        BranchState::AwaitRepository { name } => {
            match e {
                BranchEvent::Flag(false) => (
                    BranchState::Finished,
                    BranchAction::Fail(ItError::NotARepository),
                ),
                _ => match name {
                    Some(n) => {
                        let n2 = copy_string(n.as_str());
                        (BranchState::AwaitTarget { name: n }, BranchAction::CheckBranchFile(n2))
                    },
                    None => (BranchState::AwaitBranchDir, BranchAction::OpenBranchDir),
                },
            }
        },
        BranchState::AwaitTarget { name } => {
            match e {
                BranchEvent::Flag(true) => (
                    BranchState::Finished,
                    BranchAction::Fail(ItError::BranchExists(name)),
                ),
                _ => (BranchState::AwaitHeadForCreate { name }, BranchAction::ReadHead),
            }
        },
        BranchState::AwaitHeadForCreate { name } => {
            match e {
                BranchEvent::Text(head) => {
                    let c = current_ref(head.as_str());
                    let c2 = copy_string(c.as_str());
                    (
                        BranchState::AwaitRef { name, current_ref: c },
                        BranchAction::CheckRefFile(c2),
                    )
                },
                _ => {
                    // an event that does not fit the state; the precondition excludes it
                    proof {
                        assert(false);
                    }
                    (BranchState::Finished, BranchAction::Fail(ItError::NothingToCommit))
                },
            }
        },
        BranchState::AwaitRef { name, current_ref } => {
            match e {
                BranchEvent::Flag(false) => (
                    BranchState::Finished,
                    BranchAction::Fail(ItError::InvalidRef(current_ref)),
                ),
                _ => {
                    let c2 = copy_string(current_ref.as_str());
                    (
                        BranchState::AwaitRefContent { name, current_ref },
                        BranchAction::ReadRefFile(c2),
                    )
                },
            }
        },
        BranchState::AwaitRefContent { name, current_ref } => {
            match e {
                BranchEvent::Text(content) => {
                    let n2 = copy_string(name.as_str());
                    (BranchState::AwaitWrite { name }, BranchAction::WriteBranchFile(n2, content))
                },
                _ => {
                    // an event that does not fit the state; the precondition excludes it
                    proof {
                        assert(false);
                    }
                    (BranchState::Finished, BranchAction::Fail(ItError::NothingToCommit))
                },
            }
        },
        BranchState::AwaitWrite { name } => {
            let n2 = copy_string(name.as_str());
            (BranchState::AwaitLog { name }, BranchAction::LogBranch(n2))
        },
        BranchState::AwaitLog { name } => {
            let m = created_line(name.as_str());
            (BranchState::Finished, BranchAction::Print(m))
        },
        BranchState::AwaitBranchDir => (BranchState::AwaitHeadForList, BranchAction::ReadHead),
        BranchState::AwaitHeadForList => {
            match e {
                BranchEvent::Text(head) => {
                    let c = current_branch(head.as_str());
                    (BranchState::Finished, BranchAction::ListBranches(c))
                },
                _ => {
                    // an event that does not fit the state; the precondition excludes it
                    proof {
                        assert(false);
                    }
                    (BranchState::Finished, BranchAction::Fail(ItError::NothingToCommit))
                },
            }
        },
        BranchState::Finished => {
            // a finished command takes no event; the precondition excludes it
            proof {
                assert(false);
            }
            (BranchState::Finished, BranchAction::Fail(ItError::NothingToCommit))
        },
    }
}

/// Whether `r` is the listing line of a branch: "*" in green, a space and the name
/// bold cyan for the current branch; two spaces and the name in white for another.
pub open spec fn is_list_line(r: Seq<char>, current: Seq<char>, name: Seq<char>) -> bool {
    if current == name {
        exists|a: Seq<char>, b: Seq<char>|
            shown(a, "*"@, fg_code(Hue::Green)) && shown(b, name, bold_code(Hue::Cyan)) && r == a
                + seq![' '] + b
    } else {
        exists|b: Seq<char>| shown(b, name, fg_code(Hue::White)) && r == seq![' ', ' '] + b
    }
}

/// The listing line of the branch `name`, given the current branch.
pub fn branch_list_line(current: &str, name: &str) -> (r: String)
    ensures
        is_list_line(r@, current@, name@),
{
    let c = chars_of(current);
    let n = chars_of(name);
    if crate::text::chars_equal(c.as_slice(), n.as_slice()) {
        let a = paint("*", Hue::Green);
        let b = paint_bold(name, Hue::Cyan);
        let mut v = chars_of(a.as_str());
        v.push(' ');
        extend_str(&mut v, b.as_str());
        assert(v@ =~= a@ + seq![' '] + b@);
        string_of(v.as_slice())
    } else {
        let b = paint(name, Hue::White);
        let mut v: Vec<char> = Vec::new();
        v.push(' ');
        v.push(' ');
        extend_str(&mut v, b.as_str());
        assert(v@ =~= seq![' ', ' '] + b@);
        string_of(v.as_slice())
    }
}


/// Law of the branch listing: a branch's line is marked as the current branch (it
/// opens with the "*", plain or coloured) exactly when its name equals the current
/// branch's name; any other branch's line is two spaces and the name, plain or white.
pub proof fn law_list_line_marks_only_current(r: Seq<char>, current: Seq<char>, name: Seq<char>)
    requires
        is_list_line(r, current, name),
    ensures
        (r.len() >= 2 && r[0] == ' ' && r[1] == ' ') <==> current != name,
        current == name ==> r.len() > 0 && (r[0] == '*' || r[0] == '\x1b'),
        current != name ==> exists|b: Seq<char>|
            (b == name || b == painted(name, fg_code(Hue::White))) && r == seq![' ', ' '] + b,
{
    if current == name {
        let (a, b) = choose|a: Seq<char>, b: Seq<char>|
            shown(a, "*"@, fg_code(Hue::Green)) && shown(b, name, bold_code(Hue::Cyan)) && r == a
                + seq![' '] + b;
        reveal_strlit("*");
        assert(a.len() > 0 && (a[0] == '*' || a[0] == '\x1b'));
        assert(r[0] == a[0]);
    } else {
        let b = choose|b: Seq<char>| shown(b, name, fg_code(Hue::White)) && r == seq![' ', ' '] + b;
        assert(r[0] == ' ' && r[1] == ' ');
    }
}


/// Law of branch creation: the new branch records exactly what the current branch's
/// reference file holds, that is, the commit the current branch is on.
pub proof fn law_new_branch_copies_current_commit(
    name: String,
    current_ref: String,
    content: String,
    r: (BranchState, BranchAction),
)
    requires
        branch_transition(
            BranchState::AwaitRefContent { name, current_ref },
            BranchEvent::Text(content),
            r,
        ),
    ensures
        r.1 matches BranchAction::WriteBranchFile(n, c) && n@ == name@ && c@ == content@,
{
}

/// Law of branch creation: a branch is looked up by the reference that HEAD names
/// (what follows "ref: "); when HEAD was written to point to the branch `b`, that is
/// `refs/heads/b`.
pub proof fn law_new_branch_reads_current_ref(
    b: Seq<char>,
    name: String,
    head: String,
    r: (BranchState, BranchAction),
)
    requires
        b.len() > 0 ==> !crate::text::is_white_space(b.last()),
        head@ == crate::head::head_content_for(b),
        branch_transition(BranchState::AwaitHeadForCreate { name }, BranchEvent::Text(head), r),
    ensures
        r.1 matches BranchAction::CheckRefFile(c) && c@ == crate::head::heads_dir() + b,
{
    crate::head::law_current_ref_after_switch(b);
}


/// Law of the branch listing: the branch marked current is the one HEAD points to;
/// when HEAD was written to point to the branch `b`, the listing is given `b` as the
/// current branch (for a branch name that reads back unchanged).
pub proof fn law_listing_current_is_head_branch(b: Seq<char>, head: String, r: (BranchState, BranchAction))
    requires
        crate::head::plain_branch_name(b),
        head@ == crate::head::head_content_for(b),
        branch_transition(BranchState::AwaitHeadForList, BranchEvent::Text(head), r),
    ensures
        r.1 matches BranchAction::ListBranches(c) && c@ == b,
{
    crate::head::law_current_branch_after_switch(b);
}

} // verus!
