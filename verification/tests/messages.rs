use it::color_utils::{branch_name, commit_hash, error, file_path, info, step, success, warning};
use it::error::ItError;

fn plain() {
    colored::control::set_override(false);
}

#[test]
fn plain_message_lines() {
    plain();
    assert_eq!(success("done"), "\u{2713} done");
    assert_eq!(error("bad"), "\u{2717} bad");
    assert_eq!(info("note"), "i note");
    assert_eq!(warning("careful"), "\u{26a0} careful");
    assert_eq!(step(2, 5, "copying"), "[2/5] copying");
    assert_eq!(commit_hash("abc"), "abc");
    assert_eq!(branch_name("main"), "main");
    assert_eq!(file_path("a/b"), "a/b");
}

#[test]
fn error_messages() {
    plain();
    assert_eq!(
        ItError::NotARepository.message(),
        "fatal: not a it repository. Run 'it init' to create a new repository."
    );
    assert_eq!(
        ItError::BranchExists("dev".to_string()).message(),
        " fatal: A branch named 'dev' already exists."
    );
    assert_eq!(ItError::InvalidRef("refs/heads/x".to_string()).message(), "fatal: not a valid ref 'refs/heads/x'");
    assert_eq!(ItError::BranchNotFound("x".to_string()).message(), "fatal: branch 'x' does not exist");
    assert_eq!(ItError::NothingToCommit.message(), "NothingToCommit");
    let io = std::io::Error::new(std::io::ErrorKind::Other, "disk on fire");
    assert_eq!(ItError::from(io).message(), "fatal: disk on fire");
}

#[test]
fn io_error_message_text() {
    plain();
    assert_eq!(it::error::io_error_message("disk on fire"), "fatal: disk on fire");
}
