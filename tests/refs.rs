use hit::error::Error;
use hit::history::{branch, list_branches, BranchAction};
use hit::refs::{
    branch_ref_path, check_branch_name, create_branch, current_branch_name, head_for_branch,
    initial_head, parse_head, ref_target, ref_text, resolve_head, trim_text, Head,
};

#[test]
fn init_head_is_symbolic_master_and_unborn() {
    let head = initial_head();
    assert_eq!(head, "ref: refs/heads/master");
    match parse_head(&head) {
        Head::Symbolic(p) => assert_eq!(p, "refs/heads/master"),
        Head::Detached(_) => panic!("expected a symbolic HEAD"),
    }
    assert_eq!(resolve_head(&head, Some("")), None);
    assert_eq!(resolve_head(&head, None), None);
    assert_eq!(current_branch_name(&head), Some("master".to_string()));
}

#[test]
fn resolve_symbolic_and_detached() {
    let id = "b6fc4c620b67d95f953a5c1c1230aaab5db5a1b0";
    assert_eq!(
        resolve_head("ref: refs/heads/master\n", Some(&format!("{}\n", id))),
        Some(id.to_string())
    );
    assert_eq!(resolve_head(&format!("{}\n", id), None), Some(id.to_string()));
    assert_eq!(resolve_head("  \n", None), None);
    assert_eq!(current_branch_name(&format!("{}\n", id)), None);
    assert_eq!(ref_target(Some("   ")), None);
    assert_eq!(ref_target(Some(" abc \r\n")), Some("abc".to_string()));
}

#[test]
fn trimming() {
    assert_eq!(trim_text("\t a b \n"), "a b");
    assert_eq!(trim_text("   "), "");
    assert_eq!(trim_text(""), "");
}

#[test]
fn head_and_ref_texts() {
    assert_eq!(head_for_branch("feature"), "ref: refs/heads/feature\n");
    assert_eq!(branch_ref_path("feature"), "refs/heads/feature");
    assert_eq!(ref_text("abc"), "abc\n");
    match parse_head(&head_for_branch("feature")) {
        Head::Symbolic(p) => assert_eq!(p, "refs/heads/feature"),
        Head::Detached(_) => panic!("expected a symbolic HEAD"),
    }
}

#[test]
fn branch_names() {
    assert_eq!(check_branch_name("feature"), Ok(()));
    assert_eq!(check_branch_name(""), Err(Error::InvalidInput));
    assert_eq!(check_branch_name("   "), Err(Error::InvalidInput));
    assert_eq!(check_branch_name("a/b"), Err(Error::InvalidInput));
    assert_eq!(check_branch_name("a\\b"), Err(Error::InvalidInput));
}

#[test]
fn creating_branches() {
    assert_eq!(create_branch("feature", false, Some("abc")), Ok("abc\n".to_string()));
    assert_eq!(create_branch("feature", true, Some("abc")), Err(Error::AlreadyExists));
    assert_eq!(create_branch("a/b", false, Some("abc")), Err(Error::InvalidInput));
    assert_eq!(create_branch("new", false, None), Ok("\n".to_string()));
}

#[test]
fn listing_marks_current_branch() {
    let names = vec!["feature".to_string(), "master".to_string()];
    let l = list_branches(&names, "ref: refs/heads/master\n");
    assert_eq!(l.branches, vec![("feature".to_string(), false), ("master".to_string(), true)]);
    assert_eq!(l.detached, None);
    let d = list_branches(&names, "abc123\n");
    assert!(d.branches.iter().all(|b| !b.1));
    assert_eq!(d.detached, Some("abc123".to_string()));
}

#[test]
fn branch_dispatch() {
    let names = vec!["master".to_string()];
    match branch(Some("feature"), false, "ref: refs/heads/master", Some("abc"), &names) {
        Ok(BranchAction::Create(t)) => assert_eq!(t, "abc\n"),
        _ => panic!("expected a new branch"),
    }
    assert!(matches!(branch(None, false, "ref: refs/heads/master", None, &names), Ok(BranchAction::List(_))));
    assert_eq!(
        branch(Some("master"), true, "ref: refs/heads/master", None, &names).err(),
        Some(Error::AlreadyExists)
    );
}
