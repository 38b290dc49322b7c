use it::head::{current_branch, current_ref, current_ref_path, head_for_branch, strip_head};
use it::text::{decimal_string, trim_str};

#[test]
fn decimals() {
    assert_eq!(decimal_string(0), "0");
    assert_eq!(decimal_string(7), "7");
    assert_eq!(decimal_string(10), "10");
    assert_eq!(decimal_string(1700000000), "1700000000");
    assert_eq!(decimal_string(u64::MAX), "18446744073709551615");
}

#[test]
fn trimming() {
    assert_eq!(trim_str("  a b \n"), "a b");
    assert_eq!(trim_str("\u{3000}x\u{a0}"), "x");
    assert_eq!(trim_str(" \t\r\n"), "");
}

#[test]
fn head_reading() {
    let head = "ref: refs/heads/main\n";
    assert_eq!(current_branch(head), "main");
    assert_eq!(current_ref(head), "refs/heads/main");
    assert_eq!(current_ref_path(head), "refs/heads/main");
}

#[test]
fn head_prefix_is_stripped_repeatedly() {
    assert_eq!(strip_head("ref:ref:x", "ref:"), "x");
    assert_eq!(current_branch("ref: refs/heads/ref: refs/heads/dev"), "dev");
    assert_eq!(current_branch("detached"), "detached");
}

#[test]
fn head_after_switch_names_the_branch() {
    for b in ["main", "feature/x", "a b"] {
        let head = head_for_branch(b);
        assert_eq!(head, format!("ref: refs/heads/{}\n", b));
        assert_eq!(current_branch(&head), b);
        assert_eq!(current_ref(&head), format!("refs/heads/{}", b));
    }
}
