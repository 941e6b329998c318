use std::collections::HashMap;
use submission_router::expand::{expand_plan, EntryMeta, FsOp};

fn components(xs: &[&str]) -> Vec<String> {
    xs.iter().map(|s| s.to_string()).collect()
}

fn dir_entry(p: &[&str]) -> EntryMeta {
    EntryMeta { rel_path: Some(components(p)), is_dir: true, mode_bits: None }
}

fn file_entry(p: &[&str], mode_bits: Option<u32>) -> EntryMeta {
    EntryMeta { rel_path: Some(components(p)), is_dir: false, mode_bits }
}

#[test]
fn plan_of_dir_and_file() {
    let entries = vec![
        dir_entry(&["d"]),
        file_entry(&["d", "f.txt"], Some(0o755)),
    ];
    let ops = expand_plan(&entries).unwrap();
    assert_eq!(ops.len(), 4);
    match &ops[0] {
        FsOp::MakeDirs { rel_path } => assert_eq!(*rel_path, components(&["d"])),
        _ => panic!("expected a directory creation"),
    }
    match &ops[1] {
        FsOp::MakeDirs { rel_path } => assert_eq!(*rel_path, components(&["d"])),
        _ => panic!("expected the parent's creation"),
    }
    match &ops[2] {
        FsOp::WriteFile { rel_path, entry_index } => {
            assert_eq!(*rel_path, components(&["d", "f.txt"]));
            assert_eq!(*entry_index, 1);
        }
        _ => panic!("expected the file write"),
    }
    match &ops[3] {
        FsOp::SetMode { rel_path, mode_bits } => {
            assert_eq!(*rel_path, components(&["d", "f.txt"]));
            assert_eq!(*mode_bits, 0o755);
        }
        _ => panic!("expected the permission step"),
    }
}

#[test]
fn unsafe_path_rejected_with_its_position() {
    let entries = vec![
        dir_entry(&["d"]),
        EntryMeta { rel_path: None, is_dir: false, mode_bits: None },
    ];
    let err = expand_plan(&entries).unwrap_err();
    assert_eq!(err.index, 1);
}

#[test]
fn empty_archive_plans_nothing() {
    let ops = expand_plan(&Vec::new()).unwrap();
    assert!(ops.is_empty());
}

#[test]
fn top_level_file_gets_empty_parent() {
    let entries = vec![file_entry(&["readme.txt"], None)];
    let ops = expand_plan(&entries).unwrap();
    assert_eq!(ops.len(), 2);
    match &ops[0] {
        FsOp::MakeDirs { rel_path } => assert!(rel_path.is_empty()),
        _ => panic!("expected the parent's creation"),
    }
    match &ops[1] {
        FsOp::WriteFile { rel_path, entry_index } => {
            assert_eq!(*rel_path, components(&["readme.txt"]));
            assert_eq!(*entry_index, 0);
        }
        _ => panic!("expected the file write"),
    }
}

/// Executing the plan against a simulated filesystem reproduces the
/// archive: each stored file ends up at its own path with its own entry's
/// contents (by entry index), and each recorded permission is applied.
#[test]
fn simulated_execution_round_trips() {
    let entries = vec![
        dir_entry(&["lab1"]),
        file_entry(&["lab1", "a.txt"], None),
        file_entry(&["lab1", "run.sh"], Some(0o755)),
        file_entry(&["top.txt"], None),
    ];
    let ops = expand_plan(&entries).unwrap();

    let mut contents: HashMap<Vec<String>, usize> = HashMap::new();
    let mut modes: HashMap<Vec<String>, u32> = HashMap::new();
    for op in &ops {
        match op {
            FsOp::MakeDirs { .. } => {}
            FsOp::WriteFile { rel_path, entry_index } => {
                contents.insert(rel_path.clone(), *entry_index);
            }
            FsOp::SetMode { rel_path, mode_bits } => {
                modes.insert(rel_path.clone(), *mode_bits);
            }
        }
    }

    assert_eq!(contents.len(), 3);
    for (i, e) in entries.iter().enumerate() {
        if !e.is_dir {
            let p = e.rel_path.as_ref().unwrap();
            assert_eq!(contents.get(p), Some(&i));
            match e.mode_bits {
                Some(m) => assert_eq!(modes.get(p), Some(&m)),
                None => assert_eq!(modes.get(p), None),
            }
        }
    }
}
