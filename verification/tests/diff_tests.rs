use dirmirror::engine::diff_tree;
use dirmirror::level::make_diff;
use dirmirror::record::{ActionKind, FileRecord, Timestamp};

fn ts(seconds: i64) -> Timestamp {
    Timestamp { seconds, nanos: 0 }
}

fn rec(path: &[&str], size: u64, mtime: Timestamp, is_dir: bool) -> FileRecord {
    let components: Vec<String> = path.iter().map(|c| c.to_string()).collect();
    let name = path.last().expect("path must have a component").to_string();
    let absolute = format!("/scan/{}", path.join("/"));
    FileRecord {
        relative_name: name,
        relative_path: components,
        absolute_path: absolute,
        access_time: mtime,
        modified_time: mtime,
        size,
        is_directory: is_dir,
    }
}

#[test]
fn scenario_copy_into_empty_destination() {
    let source = vec![rec(&["a.txt"], 10, ts(100), false)];
    let actions = diff_tree(source, Vec::new());
    assert_eq!(actions.len(), 1);
    assert_eq!(actions[0].kind, ActionKind::CopyFile);
    assert_eq!(actions[0].target.relative_name, "a.txt");
    assert_eq!(actions[0].target.size, 10);
    assert!(!actions[0].is_directory);
}

#[test]
fn scenario_update_stale_destination() {
    let source = vec![rec(&["a.txt"], 10, ts(200), false)];
    let destination = vec![rec(&["a.txt"], 10, ts(100), false)];
    let actions = diff_tree(source, destination);
    assert_eq!(actions.len(), 1);
    assert_eq!(actions[0].kind, ActionKind::UpdateFile);
    assert_eq!(actions[0].target.relative_name, "a.txt");
    assert_eq!(actions[0].target.modified_time, ts(200));
}

#[test]
fn scenario_directory_copy_precedes_child_copy() {
    let source = vec![
        rec(&["dir"], 0, ts(100), true),
        rec(&["dir", "b.txt"], 5, ts(100), false),
    ];
    let actions = diff_tree(source, Vec::new());
    assert_eq!(actions.len(), 2);
    assert_eq!(actions[0].kind, ActionKind::CopyFile);
    assert_eq!(actions[0].target.relative_path, vec!["dir".to_string()]);
    assert!(actions[0].is_directory);
    assert_eq!(actions[1].kind, ActionKind::CopyFile);
    assert_eq!(
        actions[1].target.relative_path,
        vec!["dir".to_string(), "b.txt".to_string()]
    );
    assert!(!actions[1].is_directory);
}

#[test]
fn scenario_delete_entry_missing_from_source() {
    let destination = vec![rec(&["old.txt"], 7, ts(50), false)];
    let actions = diff_tree(Vec::new(), destination);
    assert_eq!(actions.len(), 1);
    assert_eq!(actions[0].kind, ActionKind::DeleteFile);
    assert_eq!(actions[0].target.relative_name, "old.txt");
}

#[test]
fn equal_size_and_time_needs_no_action() {
    let source = vec![rec(&["a.txt"], 10, ts(100), false)];
    let destination = vec![rec(&["a.txt"], 10, ts(100), false)];
    let actions = diff_tree(source, destination);
    assert!(actions.is_empty());
}

#[test]
fn newer_destination_is_left_alone() {
    let source = vec![rec(&["a.txt"], 10, ts(100), false)];
    let destination = vec![rec(&["a.txt"], 10, ts(300), false)];
    let actions = diff_tree(source, destination);
    assert!(actions.is_empty());
}

#[test]
fn size_mismatch_without_newer_source_is_left_alone() {
    let source = vec![rec(&["a.txt"], 12, ts(100), false)];
    let destination = vec![rec(&["a.txt"], 10, ts(100), false)];
    let actions = diff_tree(source, destination);
    assert!(actions.is_empty());
}

#[test]
fn nanosecond_tie_break_counts_as_newer() {
    let newer = Timestamp { seconds: 100, nanos: 5 };
    let older = Timestamp { seconds: 100, nanos: 1 };
    let source = vec![rec(&["a.txt"], 10, newer, false)];
    let destination = vec![rec(&["a.txt"], 10, older, false)];
    let actions = diff_tree(source, destination);
    assert_eq!(actions.len(), 1);
    assert_eq!(actions[0].kind, ActionKind::UpdateFile);
}

#[test]
fn stale_child_of_shared_directory_is_deleted() {
    let source = vec![rec(&["dir"], 0, ts(100), true)];
    let destination = vec![
        rec(&["dir"], 0, ts(100), true),
        rec(&["dir", "gone.txt"], 3, ts(80), false),
    ];
    let actions = diff_tree(source, destination);
    assert_eq!(actions.len(), 1);
    assert_eq!(actions[0].kind, ActionKind::DeleteFile);
    assert_eq!(
        actions[0].target.relative_path,
        vec!["dir".to_string(), "gone.txt".to_string()]
    );
}

#[test]
fn mixed_levels_emit_in_breadth_first_order() {
    let source = vec![
        rec(&["dir"], 0, ts(100), true),
        rec(&["top.txt"], 4, ts(100), false),
        rec(&["dir", "new.txt"], 6, ts(100), false),
    ];
    let destination = vec![
        rec(&["dir"], 0, ts(100), true),
        rec(&["stale.txt"], 9, ts(90), false),
        rec(&["dir", "old.txt"], 2, ts(70), false),
    ];
    let actions = diff_tree(source, destination);
    assert_eq!(actions.len(), 4);
    assert_eq!(actions[0].kind, ActionKind::CopyFile);
    assert_eq!(actions[0].target.relative_name, "top.txt");
    assert_eq!(actions[1].kind, ActionKind::DeleteFile);
    assert_eq!(actions[1].target.relative_name, "stale.txt");
    assert_eq!(actions[2].kind, ActionKind::CopyFile);
    assert_eq!(actions[2].target.relative_name, "new.txt");
    assert_eq!(actions[3].kind, ActionKind::DeleteFile);
    assert_eq!(actions[3].target.relative_name, "old.txt");
}

fn sample_tree() -> Vec<FileRecord> {
    vec![
        rec(&["dir"], 0, ts(100), true),
        rec(&["a.txt"], 10, ts(100), false),
        rec(&["dir", "b.txt"], 5, ts(100), false),
    ]
}

#[test]
fn identical_trees_converge_to_empty_list() {
    let actions = diff_tree(sample_tree(), sample_tree());
    assert!(actions.is_empty());
}

#[test]
fn level_diff_reports_stale_records_and_subdirectories() {
    let source = vec![
        rec(&["dir"], 0, ts(100), true),
        rec(&["a.txt"], 10, ts(100), false),
    ];
    let destination = vec![
        rec(&["a.txt"], 10, ts(100), false),
        rec(&["old.txt"], 2, ts(60), false),
    ];
    let (stale, actions, subdirs) = make_diff(source, destination);
    assert_eq!(stale.len(), 1);
    assert_eq!(stale[0].relative_name, "old.txt");
    assert_eq!(actions.len(), 1);
    assert_eq!(actions[0].kind, ActionKind::CopyFile);
    assert_eq!(actions[0].target.relative_name, "dir");
    assert_eq!(subdirs, vec![vec!["dir".to_string()]]);
}

#[test]
fn timestamp_comparison_is_strict() {
    let a = Timestamp { seconds: 5, nanos: 0 };
    let b = Timestamp { seconds: 5, nanos: 0 };
    assert!(!a.newer_than(&b));
    let c = Timestamp { seconds: 6, nanos: 0 };
    assert!(c.newer_than(&a));
    assert!(!a.newer_than(&c));
}
