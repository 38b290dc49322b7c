//! The errors of the repository commands.
use vstd::prelude::*;
use crate::color_utils::{bold_code, paint_bold, shown, Hue};
use crate::text::{extend_str, string_of};

verus! {

/// `std::io::Error`, carried through as an opaque value.
#[verifier::external_type_specification]
#[verifier::external_body]
pub struct ExIoError(std::io::Error);

/// What can go wrong in a repository command.
#[derive(Debug)]
pub enum ItError {
    /// The working directory holds no `.it` repository.
    NotARepository,
    /// A branch of that name exists already.
    BranchExists(String),
    /// A reference that should name a commit does not.
    InvalidRef(String),
    /// No branch of that name exists.
    BranchNotFound(String),
    /// Reading, writing or (de)compressing failed.
    Io(std::io::Error),
    /// The index holds no entries.
    NothingToCommit,
}

impl From<std::io::Error> for ItError {
    fn from(err: std::io::Error) -> (r: ItError) {
        ItError::Io(err)
    }
}

impl vstd::std_specs::convert::FromSpecImpl<std::io::Error> for ItError {
    open spec fn obeys_from_spec() -> bool {
        true
    }

    open spec fn from_spec(err: std::io::Error) -> ItError {
        ItError::Io(err)
    }
}

/// `<std::io::Error as Display>::to_string`: the error's description. Nothing is
/// stated of the text: it can come from the operating system.
#[verifier::external_body]
fn io_error_text(e: &std::io::Error) -> (r: String) {
    e.to_string()
}

/// The text of an error other than an I/O error, before colouring.
pub open spec fn error_text(e: ItError) -> Seq<char> {
    match e {
        ItError::NotARepository => "fatal: not a it repository. Run 'it init' to create a new repository."@,
        ItError::BranchExists(name) => " fatal: A branch named '"@ + name@ + "' already exists."@,
        ItError::InvalidRef(r) => "fatal: not a valid ref '"@ + r@ + "'"@,
        ItError::BranchNotFound(name) => "fatal: branch '"@ + name@ + "' does not exist"@,
        ItError::NothingToCommit => "NothingToCommit"@,
        ItError::Io(_) => "fatal: "@,
    }
}

/// The message that reports an I/O error with the given description: "fatal: " and
/// the description, bold red.
pub fn io_error_message(description: &str) -> (r: String)
    ensures
        shown(r@, "fatal: "@ + description@, bold_code(Hue::Red)),
{
    let mut v: Vec<char> = Vec::new();
    extend_str(&mut v, "fatal: ");
    extend_str(&mut v, description);
    let text = string_of(v.as_slice());
    paint_bold(text.as_str(), Hue::Red)
}

impl ItError {
    /// The message that reports the error, bold red: for an I/O error, the message of
    /// `io_error_message` for the error's own description (which comes from the
    /// operating system, so only its form is stated here).
    pub fn message(&self) -> (r: String)
        ensures
            !(self is Io) ==> shown(r@, error_text(*self), bold_code(Hue::Red)),
            self is Io ==> exists|t: Seq<char>| shown(r@, "fatal: "@ + t, bold_code(Hue::Red)),
    {
        let mut v: Vec<char> = Vec::new();
        match self {
            ItError::NotARepository => {
                extend_str(&mut v, "fatal: not a it repository. Run 'it init' to create a new repository.");
            },
            ItError::BranchExists(name) => {
                extend_str(&mut v, " fatal: A branch named '");
                extend_str(&mut v, name.as_str());
                extend_str(&mut v, "' already exists.");
            },
            ItError::InvalidRef(r) => {
                extend_str(&mut v, "fatal: not a valid ref '");
                extend_str(&mut v, r.as_str());
                extend_str(&mut v, "'");
            },
            ItError::BranchNotFound(name) => {
                extend_str(&mut v, "fatal: branch '");
                extend_str(&mut v, name.as_str());
                extend_str(&mut v, "' does not exist");
            },
            ItError::Io(e) => {
                let t = io_error_text(e);
                return io_error_message(t.as_str());
            },
            ItError::NothingToCommit => {
                extend_str(&mut v, "NothingToCommit");
            },
        }
        let text = string_of(v.as_slice());
        paint_bold(text.as_str(), Hue::Red)
    }
}

} // verus!
