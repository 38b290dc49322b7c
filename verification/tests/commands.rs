use it::branch::{branch_list_line, branch_start, branch_step, BranchAction, BranchEvent, BranchState};
use it::error::ItError;
use it::switch::{
    find_commit_tree, object_path, object_path_is_ok, restore_steps, switch_start, switch_step,
    SwitchAction, SwitchEvent, SwitchState,
};
use it::object::{build_object, encode_tree, TreeItem};

fn plain() {
    colored::control::set_override(false);
}

#[test]
fn branch_create_runs_through() {
    plain();
    let (s, a) = branch_start(Some("dev".to_string()));
    assert!(matches!(a, BranchAction::CheckRepository));
    let (s, a) = branch_step(s, BranchEvent::Flag(true));
    match &a {
        BranchAction::CheckBranchFile(n) => assert_eq!(n, "dev"),
        _ => panic!("expected a check of the branch file"),
    }
    let (s, a) = branch_step(s, BranchEvent::Flag(false));
    assert!(matches!(a, BranchAction::ReadHead));
    let (s, a) = branch_step(s, BranchEvent::Text("ref: refs/heads/main\n".to_string()));
    match &a {
        BranchAction::CheckRefFile(r) => assert_eq!(r, "refs/heads/main"),
        _ => panic!("expected a check of the current ref"),
    }
    let (s, a) = branch_step(s, BranchEvent::Flag(true));
    match &a {
        BranchAction::ReadRefFile(r) => assert_eq!(r, "refs/heads/main"),
        _ => panic!("expected a read of the current ref"),
    }
    let (s, a) = branch_step(s, BranchEvent::Text("abc\n".to_string()));
    match &a {
        BranchAction::WriteBranchFile(n, c) => {
            assert_eq!(n, "dev");
            assert_eq!(c, "abc\n");
        }
        _ => panic!("expected a write of the new branch"),
    }
    let (s, a) = branch_step(s, BranchEvent::Done);
    match &a {
        BranchAction::LogBranch(n) => assert_eq!(n, "dev"),
        _ => panic!("expected logging"),
    }
    let (s, a) = branch_step(s, BranchEvent::Done);
    assert!(matches!(s, BranchState::Finished));
    match &a {
        BranchAction::Print(m) => assert_eq!(m, "branch 'dev' created "),
        _ => panic!("expected the created line"),
    }
}

#[test]
fn branch_errors() {
    let (s, _) = branch_start(None);
    let (_, a) = branch_step(s, BranchEvent::Flag(false));
    assert!(matches!(a, BranchAction::Fail(ItError::NotARepository)));

    let (s, _) = branch_start(Some("dev".to_string()));
    let (s, _) = branch_step(s, BranchEvent::Flag(true));
    let (_, a) = branch_step(s, BranchEvent::Flag(true));
    match a {
        BranchAction::Fail(ItError::BranchExists(n)) => assert_eq!(n, "dev"),
        _ => panic!("expected BranchExists"),
    }

    let (s, _) = branch_start(Some("dev".to_string()));
    let (s, _) = branch_step(s, BranchEvent::Flag(true));
    let (s, _) = branch_step(s, BranchEvent::Flag(false));
    let (s, _) = branch_step(s, BranchEvent::Text("ref: refs/heads/gone".to_string()));
    let (_, a) = branch_step(s, BranchEvent::Flag(false));
    match a {
        BranchAction::Fail(ItError::InvalidRef(r)) => assert_eq!(r, "refs/heads/gone"),
        _ => panic!("expected InvalidRef"),
    }
}

#[test]
fn branch_listing() {
    plain();
    let (s, _) = branch_start(None);
    let (s, a) = branch_step(s, BranchEvent::Flag(true));
    assert!(matches!(a, BranchAction::OpenBranchDir));
    let (s, a) = branch_step(s, BranchEvent::Done);
    assert!(matches!(a, BranchAction::ReadHead));
    let (_, a) = branch_step(s, BranchEvent::Text("ref: refs/heads/main\n".to_string()));
    match &a {
        BranchAction::ListBranches(c) => assert_eq!(c, "main"),
        _ => panic!("expected listing"),
    }
    assert_eq!(branch_list_line("main", "main"), "* main");
    assert_eq!(branch_list_line("main", "dev"), "  dev");
}

#[test]
fn switch_runs_through() {
    plain();
    let (s, a) = switch_start("dev".to_string());
    assert!(matches!(a, SwitchAction::CheckRepository));
    let (s, _) = switch_step(s, SwitchEvent::Flag(true));
    let (s, a) = switch_step(s, SwitchEvent::Flag(true));
    assert!(matches!(a, SwitchAction::ReadHead));
    let (s, a) = switch_step(s, SwitchEvent::Text("ref: refs/heads/main\n".to_string()));
    match &a {
        SwitchAction::ReadBranchFile(n) => assert_eq!(n, "dev"),
        _ => panic!("expected a read of the branch"),
    }
    let (s, a) = switch_step(s, SwitchEvent::Text("  0123abcd\n".to_string()));
    match &a {
        SwitchAction::ReadObject(h) => assert_eq!(h, "0123abcd"),
        _ => panic!("expected a read of the commit"),
    }
    let (s, a) = switch_step(s, SwitchEvent::Text("tree  ffee \nparent 00\n".to_string()));
    match &a {
        SwitchAction::RestoreTree(t) => assert_eq!(t, "ffee"),
        _ => panic!("expected a restore"),
    }
    let (s, a) = switch_step(s, SwitchEvent::Done);
    match &a {
        SwitchAction::WriteHead(c) => assert_eq!(c, "ref: refs/heads/dev\n"),
        _ => panic!("expected a write of HEAD"),
    }
    let (s, a) = switch_step(s, SwitchEvent::Done);
    assert!(matches!(s, SwitchState::Finished));
    match &a {
        SwitchAction::Print(m) => assert_eq!(m, "switched to branch dev"),
        _ => panic!("expected the switched line"),
    }
}

#[test]
fn switch_to_current_branch() {
    plain();
    let (s, _) = switch_start("main".to_string());
    let (s, _) = switch_step(s, SwitchEvent::Flag(true));
    let (s, _) = switch_step(s, SwitchEvent::Flag(true));
    let (s, a) = switch_step(s, SwitchEvent::Text("ref: refs/heads/main\n".to_string()));
    assert!(matches!(s, SwitchState::Finished));
    match &a {
        SwitchAction::Print(m) => assert_eq!(m, "already on main"),
        _ => panic!("expected the already-on line"),
    }
}

#[test]
fn switch_errors() {
    let (s, _) = switch_start("x".to_string());
    let (_, a) = switch_step(s, SwitchEvent::Flag(false));
    assert!(matches!(a, SwitchAction::Fail(ItError::NotARepository)));

    let (s, _) = switch_start("x".to_string());
    let (s, _) = switch_step(s, SwitchEvent::Flag(true));
    let (_, a) = switch_step(s, SwitchEvent::Flag(false));
    match a {
        SwitchAction::Fail(ItError::BranchNotFound(n)) => assert_eq!(n, "x"),
        _ => panic!("expected BranchNotFound"),
    }

    let (s, _) = switch_start("x".to_string());
    let (s, _) = switch_step(s, SwitchEvent::Flag(true));
    let (s, _) = switch_step(s, SwitchEvent::Flag(true));
    let (s, _) = switch_step(s, SwitchEvent::Text("ref: refs/heads/main".to_string()));
    let (s, _) = switch_step(s, SwitchEvent::Text("c1".to_string()));
    let (_, a) = switch_step(s, SwitchEvent::Text("parent 00\nauthor me\n".to_string()));
    match a {
        SwitchAction::Fail(ItError::InvalidRef(h)) => assert_eq!(h, "c1"),
        _ => panic!("expected InvalidRef"),
    }
}

#[test]
fn commit_tree_lines() {
    assert_eq!(find_commit_tree("tree abc\n"), Some("abc".to_string()));
    assert_eq!(find_commit_tree("parent p\ntree t2\ntree t3\n"), Some("t2".to_string()));
    assert_eq!(find_commit_tree("treeless\n"), None);
    assert_eq!(find_commit_tree(""), None);
}

#[test]
fn object_paths() {
    assert!(object_path_is_ok("ab"));
    assert!(!object_path_is_ok("a"));
    assert!(!object_path_is_ok("x\u{e9}"));
    assert!(object_path_is_ok("\u{e9}x"));
    assert_eq!(object_path("abcdef"), ("ab".to_string(), "cdef".to_string()));
    assert_eq!(object_path("ab"), ("ab".to_string(), String::new()));
}

#[test]
fn restore_steps_of_a_tree() {
    let items = vec![
        TreeItem { is_dir: true, name: "src".to_string(), hash: vec![0xab; 20] },
        TreeItem { is_dir: false, name: "a.txt".to_string(), hash: vec![0x01; 20] },
    ];
    let obj = build_object(&encode_tree(&items), "tree");
    let steps = restore_steps(&obj);
    assert_eq!(steps.len(), 2);
    assert!(steps[0].is_dir);
    assert_eq!(steps[0].name, "src");
    assert_eq!(steps[0].id, "ab".repeat(20));
    assert!(!steps[1].is_dir);
    assert_eq!(steps[1].name, "a.txt");
    assert_eq!(steps[1].id, "01".repeat(20));
}
