use it::log::{
    branch_created_message, commit_message, form_commit_log, log, log_branch, log_commit,
    no_commits_message, CommitArgs,
};

fn plain() {
    colored::control::set_override(false);
}

const ZEROS: &str = "0000000000000000000000000000000000000000";

#[test]
fn commit_log_line_layout() {
    let line = form_commit_log(CommitArgs {
        new_commit_hash: "abc123",
        parent_commit_hash: Some("def456".to_string()),
        dir_name: "/home/u/proj",
        time: 1700000000,
        message: "commit : first".to_string(),
    });
    assert_eq!(line, "abc123 def456 /home/u/proj 1700000000 +5:30 commit : first\n");
}

#[test]
fn first_commit_has_zero_parent() {
    let line = form_commit_log(CommitArgs {
        new_commit_hash: "abc",
        parent_commit_hash: None,
        dir_name: "/d",
        time: 0,
        message: String::new(),
    });
    assert_eq!(line, format!("abc {} /d 0 +5:30 \n", ZEROS));
}

#[test]
fn plain_messages() {
    plain();
    assert_eq!(commit_message("fix"), "commit : fix");
    assert_eq!(branch_created_message("dev", "main"), "BRANCH FROM main -> dev");
}

#[test]
fn log_shows_fields() {
    plain();
    let content = format!("h1 {} /d 17 +5:30 commit : hello  world\nshort line\n", ZEROS);
    let shown = log(&content);
    let expected = format!("h1 \n{} \n17 +5:30 \n/d \ncommit : hello world \n\nshort line\n", ZEROS);
    assert_eq!(shown, expected);
}

#[test]
fn log_of_formed_line() {
    plain();
    let line = form_commit_log(CommitArgs {
        new_commit_hash: "aaa",
        parent_commit_hash: Some("bbb".to_string()),
        dir_name: "/w",
        time: 42,
        message: commit_message("msg"),
    });
    assert_eq!(log(&line), "aaa \nbbb \n42 +5:30 \n/w \ncommit : msg \n\n");
}

#[test]
fn log_of_crlf_and_empty() {
    plain();
    assert_eq!(log(""), "");
    assert_eq!(log("a b\r\nc"), "a b\nc\n");
}

#[test]
fn log_commit_line_and_file() {
    plain();
    let a = log_commit("ref: refs/heads/main\n", "new", None, "m", "/w", 5);
    assert_eq!(a.path, vec!["logs/".to_string(), "refs/heads/main".to_string()]);
    assert_eq!(a.line, format!("new {} /w 5 +5:30 commit : m\n", ZEROS));
}

#[test]
fn log_branch_line_and_file() {
    plain();
    let a = log_branch("ref: refs/heads/main\n", "c0ffee\n", "dev", "/w", 9);
    assert_eq!(a.path, vec!["logs/refs/heads".to_string(), "dev".to_string()]);
    assert_eq!(a.line, format!("c0ffee {} /w 9 +5:30 BRANCH FROM main -> dev\n", ZEROS));
}

#[test]
fn no_commits_yet() {
    plain();
    assert_eq!(
        no_commits_message(),
        "\u{2139} No commits yet. Make your first commit with: it commit -m \"message\""
    );
}
