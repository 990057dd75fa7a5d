use dirsync::executor::{cleanup_order, SyncExecutor};
use dirsync::file_entry::{u64_to_dec, FileChangeAction, FileEntry};
use dirsync::paths::{join, parent_dir, relative_to};
use dirsync::scanner::{make_entry, Scanner};

fn entry(root: &str, rel: &str, hash: &str, size: u64) -> FileEntry {
    let name = match rel.rfind('/') {
        Some(i) => &rel[i + 1..],
        None => rel,
    };
    FileEntry {
        file_name: name.to_string(),
        absolute_path: format!("{}/{}", root, rel),
        relative_path: rel.to_string(),
        hash: hash.to_string(),
        size,
    }
}

fn scanner(source: Vec<FileEntry>, target: Vec<FileEntry>) -> Scanner {
    Scanner::new(source, target, &"target".to_string())
}

/// Case 1: No source file - No target file
#[test]
fn test_scanner_calc_diff_suit_1_case_1() {
    let s = scanner(vec![], vec![]);
    assert_eq!(s.calculate_diff().len(), 0);
}

/// Case 2: One source file - No target file
#[test]
fn test_scanner_calc_diff_suit_1_case_2() {
    let s = scanner(vec![entry("source", "a.txt", "h1", 10)], vec![]);
    let diff = s.calculate_diff();
    assert_eq!(diff.len(), 1);
    assert_eq!(diff[0].action, FileChangeAction::Copy);
    assert_eq!(diff[0].source_path, "source/a.txt");
    assert_eq!(diff[0].target_path, "target/a.txt");
}

/// Case 3: No source file - One target file
#[test]
fn test_scanner_calc_diff_suit_1_case_3() {
    let s = scanner(vec![], vec![entry("target", "a.txt", "h1", 10)]);
    let diff = s.calculate_diff();
    assert_eq!(diff.len(), 1);
    assert_eq!(diff[0].action, FileChangeAction::Delete);
    assert_eq!(diff[0].source_path, "target/a.txt");
    assert_eq!(diff[0].target_path, "target/a.txt");
}

/// Case 4: One source file - One matching target file
#[test]
fn test_scanner_calc_diff_suit_1_case_4() {
    let s = scanner(
        vec![entry("source", "a.txt", "h1", 10)],
        vec![entry("target", "a.txt", "h1", 10)],
    );
    assert_eq!(s.calculate_diff().len(), 0);
}

/// Case 5: One source file - One non-matching target file (absolute path)
#[test]
fn test_scanner_calc_diff_suit_1_case_5() {
    let s = scanner(
        vec![entry("source", "a.txt", "h1", 10)],
        vec![entry("target", "a.txt", "h2", 10)],
    );
    let diff = s.calculate_diff();
    assert_eq!(diff.len(), 2);
    assert_eq!(diff[0].action, FileChangeAction::Copy);
    assert_eq!(diff[0].source_path, "source/a.txt");
    assert_eq!(diff[0].target_path, "target/a.txt");
    assert_eq!(diff[1].action, FileChangeAction::Delete);
    assert_eq!(diff[1].target_path, "target/a.txt");
}

#[test]
fn copy_for_new_source_file() {
    let s = scanner(vec![entry("source", "a.txt", "h1", 3)], vec![]);
    let diff = s.calculate_diff();
    assert_eq!(diff.len(), 1);
    assert_eq!(diff[0].action, FileChangeAction::Copy);
    assert_eq!(diff[0].source_path, "source/a.txt");
    assert_eq!(diff[0].target_path, "target/a.txt");
}

#[test]
fn delete_for_orphaned_nested_target_file() {
    let s = scanner(vec![], vec![entry("target", "x/b.txt", "h2", 3)]);
    let diff = s.calculate_diff();
    assert_eq!(diff.len(), 1);
    assert_eq!(diff[0].action, FileChangeAction::Delete);
    assert_eq!(diff[0].source_path, "target/x/b.txt");
    assert_eq!(diff[0].target_path, "target/x/b.txt");
}

#[test]
fn changed_content_becomes_delete_plus_copy() {
    let s = scanner(
        vec![entry("source", "c.txt", "h1", 5)],
        vec![entry("target", "c.txt", "h2", 5)],
    );
    let diff = s.calculate_diff();
    assert_eq!(diff.len(), 2);
    let copies: Vec<_> = diff
        .iter()
        .filter(|c| c.action == FileChangeAction::Copy)
        .collect();
    let deletes: Vec<_> = diff
        .iter()
        .filter(|c| c.action == FileChangeAction::Delete)
        .collect();
    assert_eq!(copies.len(), 1);
    assert_eq!(copies[0].source_path, "source/c.txt");
    assert_eq!(copies[0].target_path, "target/c.txt");
    assert_eq!(deletes.len(), 1);
    assert_eq!(deletes[0].target_path, "target/c.txt");
}

#[test]
fn same_content_at_different_paths_is_not_a_move() {
    let s = scanner(
        vec![entry("source", "d.txt", "h3", 7)],
        vec![entry("target", "old/d.txt", "h3", 7)],
    );
    let diff = s.calculate_diff();
    assert_eq!(diff.len(), 2);
    let copies: Vec<_> = diff
        .iter()
        .filter(|c| c.action == FileChangeAction::Copy)
        .collect();
    let deletes: Vec<_> = diff
        .iter()
        .filter(|c| c.action == FileChangeAction::Delete)
        .collect();
    assert_eq!(copies.len(), 1);
    assert_eq!(copies[0].source_path, "source/d.txt");
    assert_eq!(copies[0].target_path, "target/d.txt");
    assert_eq!(deletes.len(), 1);
    assert_eq!(deletes[0].target_path, "target/old/d.txt");
}

#[test]
fn identical_mappings_give_empty_diff_and_plan() {
    let source = vec![
        entry("source", "a.txt", "h1", 1),
        entry("source", "x/b.txt", "h2", 2),
    ];
    let target = vec![
        entry("target", "a.txt", "h1", 1),
        entry("target", "x/b.txt", "h2", 2),
    ];
    let s = scanner(clone_entries(&source), clone_entries(&target));
    assert_eq!(s.calculate_diff().len(), 0);
    let ex = SyncExecutor::new(source, target, &"target".to_string());
    assert_eq!(ex.execute().len(), 0);
}

fn clone_entries(v: &[FileEntry]) -> Vec<FileEntry> {
    v.iter()
        .map(|e| FileEntry {
            file_name: e.file_name.clone(),
            absolute_path: e.absolute_path.clone(),
            relative_path: e.relative_path.clone(),
            hash: e.hash.clone(),
            size: e.size,
        })
        .collect()
}

#[test]
fn plan_puts_every_delete_before_every_copy() {
    let ex = SyncExecutor::new(
        vec![
            entry("source", "new1.txt", "h1", 1),
            entry("source", "new2.txt", "h2", 2),
        ],
        vec![
            entry("target", "old1.txt", "h3", 3),
            entry("target", "old2.txt", "h4", 4),
        ],
        &"target".to_string(),
    );
    let plan = ex.execute();
    assert_eq!(plan.len(), 4);
    assert_eq!(plan[0].action, FileChangeAction::Delete);
    assert_eq!(plan[1].action, FileChangeAction::Delete);
    assert_eq!(plan[2].action, FileChangeAction::Copy);
    assert_eq!(plan[3].action, FileChangeAction::Copy);
    assert_eq!(plan[0].target_path, "target/old1.txt");
    assert_eq!(plan[2].source_path, "source/new1.txt");
    assert_eq!(plan[2].target_path, "target/new1.txt");
}

#[test]
fn mapping_keeps_last_record_under_a_repeated_key() {
    let first = entry("source", "a.txt", "h1", 1);
    let mut second = entry("source", "a.txt", "h1", 99);
    second.file_name = "renamed".to_string();
    let s = scanner(vec![first, second], vec![]);
    assert_eq!(s.source_files.len(), 1);
    assert_eq!(s.source_files[0].size, 99);
    assert_eq!(s.source_files[0].file_name, "renamed");
}

#[test]
fn make_entry_builds_the_record() {
    let contents: Vec<u8> = b"hello world".to_vec();
    let e = make_entry(
        "root",
        "root/sub/f.txt",
        "f.txt".to_string(),
        11,
        &contents,
    )
    .unwrap();
    assert_eq!(e.file_name, "f.txt");
    assert_eq!(e.absolute_path, "root/sub/f.txt");
    assert_eq!(e.relative_path, "sub/f.txt");
    assert_eq!(e.size, 11);
    assert_eq!(e.hash, blake3::hash(b"hello world").to_hex().to_string());
}

#[test]
fn make_entry_hash_distinguishes_contents() {
    let a = make_entry("r", "r/f", "f".to_string(), 1, &b"a".to_vec()).unwrap();
    let b = make_entry("r", "r/f", "f".to_string(), 1, &b"b".to_vec()).unwrap();
    let a2 = make_entry("r", "r/f", "f".to_string(), 1, &b"a".to_vec()).unwrap();
    assert_ne!(a.hash, b.hash);
    assert_eq!(a.hash, a2.hash);
}

#[test]
fn make_entry_rejects_a_path_outside_the_root() {
    let contents: Vec<u8> = vec![1, 2, 3];
    assert!(make_entry("root", "other/f.txt", "f.txt".to_string(), 3, &contents).is_none());
    assert!(make_entry("root", "root", "root".to_string(), 3, &contents).is_none());
}

#[test]
fn relative_to_strips_the_root_prefix() {
    assert_eq!(
        relative_to("base", "base/a/b.txt").unwrap(),
        "a/b.txt".to_string()
    );
    assert!(relative_to("base", "basement/a").is_none());
    assert!(relative_to("base", "base").is_none());
}

#[test]
fn join_inserts_one_separator() {
    assert_eq!(
        join(&"target".to_string(), &"x/y.txt".to_string()),
        "target/x/y.txt".to_string()
    );
}

#[test]
fn parent_dir_cuts_at_the_last_separator() {
    assert_eq!(parent_dir("a/b/c.txt").unwrap(), "a/b".to_string());
    assert_eq!(parent_dir("a/b/").unwrap(), "a/b".to_string());
    assert!(parent_dir("c.txt").is_none());
}

#[test]
fn cleanup_order_reverses_the_walk() {
    let dirs = vec![
        "target/a".to_string(),
        "target/a/b".to_string(),
        "target/a/b/c".to_string(),
    ];
    let ordered = cleanup_order(dirs);
    assert_eq!(
        ordered,
        vec![
            "target/a/b/c".to_string(),
            "target/a/b".to_string(),
            "target/a".to_string(),
        ]
    );
}

#[test]
fn decimal_rendering_is_exact() {
    assert_eq!(u64_to_dec(0), "0".to_string());
    assert_eq!(u64_to_dec(7), "7".to_string());
    assert_eq!(u64_to_dec(42), "42".to_string());
    assert_eq!(u64_to_dec(1024), "1024".to_string());
    assert_eq!(u64_to_dec(u64::MAX), "18446744073709551615".to_string());
}

#[test]
fn display_string_lists_every_field() {
    let e = entry("source", "sub/a.txt", "deadbeef", 3402);
    assert_eq!(
        e.display_string(),
        "\nFile: a.txt\nRelative path: sub/a.txt\nAbsolute path: source/sub/a.txt\nHash: deadbeef\nSize: 3402 bytes"
            .to_string()
    );
}

#[test]
fn applying_the_plan_converges_target_keys_to_source_keys() {
    let source = vec![
        entry("source", "kept.txt", "h1", 1),
        entry("source", "new.txt", "h2", 2),
        entry("source", "changed.txt", "h5", 5),
    ];
    let target = vec![
        entry("target", "kept.txt", "h1", 1),
        entry("target", "gone.txt", "h3", 3),
        entry("target", "changed.txt", "h4", 4),
    ];
    let ex = SyncExecutor::new(clone_entries(&source), clone_entries(&target), &"target".to_string());
    let plan = ex.execute();

    // Replay the plan against an in-memory picture of the target tree.
    let mut state: Vec<(String, String)> = target
        .iter()
        .map(|e| (e.relative_path.clone(), e.hash.clone()))
        .collect();
    for change in plan.iter() {
        match change.action {
            FileChangeAction::Delete => {
                let full = change.target_path.clone();
                state.retain(|(rel, _)| format!("target/{}", rel) != full);
            }
            FileChangeAction::Copy => {
                let src_record = source
                    .iter()
                    .find(|e| e.absolute_path == change.source_path)
                    .unwrap();
                state.push((src_record.relative_path.clone(), src_record.hash.clone()));
            }
        }
    }

    let mut got: Vec<(String, String)> = state;
    let mut want: Vec<(String, String)> = source
        .iter()
        .map(|e| (e.relative_path.clone(), e.hash.clone()))
        .collect();
    got.sort();
    want.sort();
    assert_eq!(got, want);
}
