use submission_router::router::{
    route, ExtractAction, FileEntry, LabEntry, RouteError, SubmissionDir,
};

fn file(name: &str) -> FileEntry {
    FileEntry { name: name.to_string(), is_dir: false }
}

fn subdir(name: &str, files: Vec<FileEntry>) -> SubmissionDir {
    SubmissionDir { name: name.to_string(), is_dir: true, files }
}

fn lab(name: &str, subs: Vec<SubmissionDir>) -> LabEntry {
    LabEntry { name: name.to_string(), is_dir: true, subs }
}

fn filters(xs: &[&str]) -> Vec<String> {
    xs.iter().map(|s| s.to_string()).collect()
}

fn action_tuple(a: &ExtractAction) -> (String, String, String, String) {
    (
        a.lab_name.clone(),
        a.sub_name.clone(),
        a.file_name.clone(),
        a.entry.clone(),
    )
}

#[test]
fn scenario_one_match_one_unmatched() {
    let labs = vec![lab(
        "lab1",
        vec![
            subdir("alice_group", vec![file("zzz.zip")]),
            subdir("charlie_group", vec![file("yyy.zip")]),
        ],
    )];
    let plan = route(&labs, filters(&["alice", "bob"])).unwrap();
    assert_eq!(plan.actions.len(), 1);
    assert_eq!(
        action_tuple(&plan.actions[0]),
        (
            "lab1".to_string(),
            "alice_group".to_string(),
            "zzz.zip".to_string(),
            "alice".to_string()
        )
    );
    assert_eq!(plan.unmatched, filters(&["bob"]));
}

#[test]
fn scenario_two_files_is_fatal() {
    let labs = vec![lab(
        "lab1",
        vec![subdir("alice_group", vec![file("a.zip"), file("b.zip")])],
    )];
    let err = route(&labs, filters(&["alice"])).unwrap_err();
    match err {
        RouteError::NotOneFile { lab_name, sub_name, found } => {
            assert_eq!(lab_name, "lab1".to_string());
            assert_eq!(sub_name, "alice_group".to_string());
            assert_eq!(found, 2);
        }
        _ => panic!("expected a not-one-file violation"),
    }
}

#[test]
fn scenario_empty_submission_is_fatal() {
    let labs = vec![lab("lab1", vec![subdir("alice_group", vec![])])];
    let err = route(&labs, filters(&["alice"])).unwrap_err();
    match err {
        RouteError::NotOneFile { found, .. } => assert_eq!(found, 0),
        _ => panic!("expected a not-one-file violation"),
    }
}

#[test]
fn scenario_uppercase_zip_accepted() {
    let labs = vec![lab("lab1", vec![subdir("alice_group", vec![file("work.ZIP")])])];
    let plan = route(&labs, filters(&["alice"])).unwrap();
    assert_eq!(plan.actions.len(), 1);
    assert_eq!(plan.actions[0].file_name, "work.ZIP".to_string());
    assert!(plan.unmatched.is_empty());
}

#[test]
fn non_zip_file_is_fatal() {
    let labs = vec![lab("lab1", vec![subdir("alice_group", vec![file("notes.txt")])])];
    let err = route(&labs, filters(&["alice"])).unwrap_err();
    match err {
        RouteError::NotZip { lab_name, sub_name, file_name } => {
            assert_eq!(lab_name, "lab1".to_string());
            assert_eq!(sub_name, "alice_group".to_string());
            assert_eq!(file_name, "notes.txt".to_string());
        }
        _ => panic!("expected a not-a-zip violation"),
    }
}

#[test]
fn lab_level_file_is_fatal() {
    let labs = vec![LabEntry { name: "stray.txt".to_string(), is_dir: false, subs: vec![] }];
    let err = route(&labs, filters(&[])).unwrap_err();
    match err {
        RouteError::LabNotDir { name } => assert_eq!(name, "stray.txt".to_string()),
        _ => panic!("expected a lab-not-a-directory violation"),
    }
}

#[test]
fn submission_level_file_is_fatal() {
    let labs = vec![lab(
        "lab1",
        vec![SubmissionDir { name: "stray.zip".to_string(), is_dir: false, files: vec![] }],
    )];
    let err = route(&labs, filters(&[])).unwrap_err();
    match err {
        RouteError::SubNotDir { lab_name, name } => {
            assert_eq!(lab_name, "lab1".to_string());
            assert_eq!(name, "stray.zip".to_string());
        }
        _ => panic!("expected a submission-not-a-directory violation"),
    }
}

#[test]
fn first_entry_in_list_order_wins() {
    let labs = vec![lab("lab1", vec![subdir("alice_group", vec![file("z.zip")])])];
    let plan = route(&labs, filters(&["li", "alice"])).unwrap();
    assert_eq!(plan.actions.len(), 1);
    assert_eq!(plan.actions[0].entry, "li".to_string());
    assert_eq!(plan.unmatched, filters(&["alice"]));
}

#[test]
fn no_match_produces_no_output() {
    let labs = vec![lab("lab1", vec![subdir("charlie_group", vec![file("y.zip")])])];
    let plan = route(&labs, filters(&["alice", "bob"])).unwrap();
    assert!(plan.actions.is_empty());
    assert_eq!(plan.unmatched, filters(&["alice", "bob"]));
}

#[test]
fn entry_consumed_at_most_once() {
    let labs = vec![lab(
        "lab1",
        vec![
            subdir("alice_group", vec![file("a.zip")]),
            subdir("alice_solo", vec![file("b.zip")]),
        ],
    )];
    let plan = route(&labs, filters(&["alice"])).unwrap();
    assert_eq!(plan.actions.len(), 1);
    assert_eq!(plan.actions[0].sub_name, "alice_group".to_string());
    assert!(plan.unmatched.is_empty());
}

#[test]
fn duplicate_entries_give_no_duplicate_output() {
    let labs = vec![lab(
        "lab1",
        vec![
            subdir("alice_group", vec![file("a.zip")]),
            subdir("alice_solo", vec![file("b.zip")]),
        ],
    )];
    let plan = route(&labs, filters(&["alice", "alice"])).unwrap();
    assert_eq!(plan.actions.len(), 1);
    assert_eq!(plan.actions[0].entry, "alice".to_string());
    assert!(plan.unmatched.is_empty());
}

#[test]
fn consumption_spans_lab_directories() {
    let labs = vec![
        lab("lab1", vec![subdir("alice_group", vec![file("a.zip")])]),
        lab("lab2", vec![subdir("alice_again", vec![file("b.zip")])]),
    ];
    let plan = route(&labs, filters(&["alice"])).unwrap();
    assert_eq!(plan.actions.len(), 1);
    assert_eq!(plan.actions[0].lab_name, "lab1".to_string());
    assert!(plan.unmatched.is_empty());
}

#[test]
fn empty_workspace_leaves_all_unmatched() {
    let plan = route(&Vec::new(), filters(&["alice", "bob"])).unwrap();
    assert!(plan.actions.is_empty());
    assert_eq!(plan.unmatched, filters(&["alice", "bob"]));
}
