use submission_router::cleanup::{cleanup_plan, EntryDirListing, OutSubtree};

fn entry(name: &str, children: &[&str]) -> EntryDirListing {
    EntryDirListing {
        name: name.to_string(),
        children: children.iter().map(|s| s.to_string()).collect(),
    }
}

fn subtree(name: &str, entries: Vec<EntryDirListing>) -> OutSubtree {
    OutSubtree { name: name.to_string(), entries }
}

fn path(op: &[&str]) -> Vec<String> {
    op.iter().map(|s| s.to_string()).collect()
}

#[test]
fn junk_removed_submission_untouched() {
    let tree = vec![subtree("cs101", vec![entry("alice", &["__MACOSX", "proj"])])];
    let ops = cleanup_plan(&tree).unwrap();
    assert_eq!(ops.len(), 2);
    assert_eq!(ops[0].path, path(&["cs101", "alice", "__MACOSX"]));
    assert_eq!(ops[1].path, path(&["cs101", "alice", "proj", "out"]));
    for op in &ops {
        let last = op.path.last().unwrap();
        assert!(last == "__MACOSX" || last == "out");
    }
}

#[test]
fn two_remaining_children_is_fatal() {
    let tree = vec![subtree("cs101", vec![entry("alice", &["proj", "extra"])])];
    let err = cleanup_plan(&tree).unwrap_err();
    assert_eq!(err.subtree, "cs101".to_string());
    assert_eq!(err.entry, "alice".to_string());
    assert_eq!(err.extra, "extra".to_string());
}

#[test]
fn junk_does_not_count_against_the_limit() {
    let tree = vec![subtree("cs101", vec![entry("bob", &["proj", "__MACOSX"])])];
    let ops = cleanup_plan(&tree).unwrap();
    assert_eq!(ops.len(), 2);
    assert_eq!(ops[0].path, path(&["cs101", "bob", "__MACOSX"]));
    assert_eq!(ops[1].path, path(&["cs101", "bob", "proj", "out"]));
}

#[test]
fn empty_entry_plans_nothing() {
    let tree = vec![subtree("cs101", vec![entry("carol", &[])])];
    let ops = cleanup_plan(&tree).unwrap();
    assert!(ops.is_empty());
}

#[test]
fn only_junk_plans_only_its_removal() {
    let tree = vec![subtree("cs101", vec![entry("dan", &["__MACOSX"])])];
    let ops = cleanup_plan(&tree).unwrap();
    assert_eq!(ops.len(), 1);
    assert_eq!(ops[0].path, path(&["cs101", "dan", "__MACOSX"]));
}

#[test]
fn junk_pass_runs_before_out_pass() {
    let tree = vec![subtree(
        "cs101",
        vec![
            entry("alice", &["__MACOSX", "projA"]),
            entry("bob", &["projB", "__MACOSX"]),
        ],
    )];
    let ops = cleanup_plan(&tree).unwrap();
    assert_eq!(ops.len(), 4);
    assert_eq!(ops[0].path, path(&["cs101", "alice", "__MACOSX"]));
    assert_eq!(ops[1].path, path(&["cs101", "bob", "__MACOSX"]));
    assert_eq!(ops[2].path, path(&["cs101", "alice", "projA", "out"]));
    assert_eq!(ops[3].path, path(&["cs101", "bob", "projB", "out"]));
}

#[test]
fn empty_tree_plans_nothing() {
    let ops = cleanup_plan(&Vec::new()).unwrap();
    assert!(ops.is_empty());
}
