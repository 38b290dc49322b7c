// Every test in this file forces colours on, so they may run in parallel.
use it::color_utils::{commit_hash, file_path, step, success};
use it::log::{branch_created_message, commit_message, log};

fn coloured() {
    colored::control::set_override(true);
}

const ZEROS: &str = "0000000000000000000000000000000000000000";

#[test]
fn coloured_message_lines() {
    coloured();
    assert_eq!(success("done"), "\x1b[1;32m\u{2713}\x1b[0m \x1b[32mdone\x1b[0m");
    assert_eq!(commit_hash("abc"), "\x1b[1;92mabc\x1b[0m");
    assert_eq!(step(1, 3, "go"), "[1/3] \x1b[36mgo\x1b[0m");
    // an inner reset keeps the outer colour afterwards
    assert_eq!(file_path("a\x1b[0mb"), "\x1b[37ma\x1b[0m\x1b[37mb\x1b[0m");
}

#[test]
fn coloured_messages() {
    coloured();
    assert_eq!(commit_message("fix"), "\x1b[1;94mcommit :\x1b[0m \x1b[1;37mfix\x1b[0m");
    assert_eq!(
        branch_created_message("dev", "main"),
        "\x1b[1;96mBRANCH FROM\x1b[0m \x1b[33mmain\x1b[0m -> \x1b[1;32mdev\x1b[0m"
    );
}

#[test]
fn coloured_log_keeps_message_phrases_white() {
    coloured();
    let content = format!("h1 {} /d 17 +5:30 commit : hi BRANCH FROM x\n", ZEROS);
    let expected = format!(
        "\x1b[1;92mh1\x1b[0m \n\x1b[2m{}\x1b[0m \n\x1b[35m17\x1b[0m \x1b[33m+5:30\x1b[0m \n\x1b[36m/d\x1b[0m \n\x1b[37mcommit : hi BRANCH FROM x\x1b[0m \n\n",
        ZEROS
    );
    assert_eq!(log(&content), expected);
}

#[test]
fn coloured_log_of_other_parent() {
    coloured();
    let shown = log("a b /d 1 z m\n");
    assert_eq!(
        shown,
        "\x1b[1;92ma\x1b[0m \n\x1b[33mb\x1b[0m \n\x1b[35m1\x1b[0m \x1b[33mz\x1b[0m \n\x1b[36m/d\x1b[0m \n\x1b[37mm\x1b[0m \n\n"
    );
}
