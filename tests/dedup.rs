use file_dedup::deletion::{plan_deletion, DeletionOutcome};
use file_dedup::grouping::{build_report, find_duplicates, DuplicateReport};
use file_dedup::record::{process_file, FileInfo};

const HELLO_SHA256: &str = "2cf24dba5fb0a30e26e83b2ac5b9e29e1b161e5c1fa7425e73043362938b9824";
const EMPTY_SHA256: &str = "e3b0c44298fc1c149afbf4c8996fb92427ae41e4649b934ca495991b7852b855";

fn record(path: &str, contents: &[u8]) -> Option<FileInfo> {
    process_file(path.to_string(), contents.len() as u64, contents)
}

fn rec(path: &str, size: u64, hash: &str) -> FileInfo {
    FileInfo { path: path.to_string(), size, hash: hash.to_string() }
}

fn paths(files: &[FileInfo]) -> Vec<String> {
    files.iter().map(|f| f.path.clone()).collect()
}

fn scan(entries: &[(&str, &[u8])]) -> Vec<FileInfo> {
    entries.iter().filter_map(|(p, c)| record(p, c)).collect()
}

fn same_report(a: &DuplicateReport, b: &DuplicateReport) -> bool {
    a.total_wasted_bytes == b.total_wasted_bytes
        && a.total_duplicate_count == b.total_duplicate_count
        && a.groups.len() == b.groups.len()
        && a.groups.iter().zip(b.groups.iter()).all(|(x, y)| {
            x.hash == y.hash && x.size == y.size && paths(&x.files) == paths(&y.files)
        })
}

#[test]
fn process_file_hashes_content() {
    let r = record("a.txt", b"hello").unwrap();
    assert_eq!(r.path, "a.txt");
    assert_eq!(r.size, 5);
    assert_eq!(r.hash, HELLO_SHA256);
}

#[test]
fn process_file_skips_empty_file() {
    assert!(record("empty.txt", b"").is_none());
}

#[test]
fn process_file_uses_given_size() {
    let r = process_file("x".to_string(), 3, b"").unwrap();
    assert_eq!(r.size, 3);
    assert_eq!(r.hash, EMPTY_SHA256);
    assert_eq!(r.hash.len(), 64);
}

#[test]
fn hello_hello_world_scenario() {
    let files = scan(&[("a.txt", b"hello"), ("b.txt", b"hello"), ("c.txt", b"world")]);
    let report = build_report(&files);
    assert_eq!(report.groups.len(), 1);
    let g = &report.groups[0];
    assert_eq!(g.hash, HELLO_SHA256);
    assert_eq!(g.size, 5);
    assert_eq!(paths(&g.files), vec!["a.txt", "b.txt"]);
    assert_eq!(report.total_duplicate_count, 1);
    assert_eq!(report.total_wasted_bytes, 5);
}

#[test]
fn empty_file_and_unique_file_give_no_groups() {
    let files = scan(&[("empty.txt", b""), ("note.txt", b"content")]);
    assert_eq!(files.len(), 1);
    let report = build_report(&files);
    assert!(report.is_empty());
    assert_eq!(report.total_duplicate_count, 0);
    assert_eq!(report.total_wasted_bytes, 0);
}

#[test]
fn unreadable_file_leaves_no_record() {
    // The unreadable file is never handed to the library: only the readable one is.
    let files = scan(&[("unique.txt", b"only one")]);
    let report = build_report(&files);
    assert!(report.groups.is_empty());
    assert!(report.groups.iter().all(|g| g.files.iter().all(|f| f.path != "unique.txt")));
}

#[test]
fn no_records_give_empty_report() {
    let report = build_report(&Vec::new());
    assert!(report.is_empty());
    assert_eq!(report.total_wasted_bytes, 0);
}

#[test]
fn shared_records_fall_in_exactly_one_group() {
    let files = vec![
        rec("a", 3, "h1"),
        rec("b", 4, "h2"),
        rec("c", 3, "h1"),
        rec("d", 9, "h3"),
        rec("e", 4, "h2"),
        rec("f", 3, "h1"),
    ];
    let groups = find_duplicates(&files);
    assert_eq!(groups.len(), 2);
    assert_eq!(groups[0].hash, "h1");
    assert_eq!(paths(&groups[0].files), vec!["a", "c", "f"]);
    assert_eq!(groups[1].hash, "h2");
    assert_eq!(paths(&groups[1].files), vec!["b", "e"]);
    for f in &files {
        let n = groups.iter().filter(|g| g.files.iter().any(|m| m.path == f.path)).count();
        let shared = files.iter().filter(|o| o.hash == f.hash).count() >= 2;
        assert_eq!(n, if shared { 1 } else { 0 });
    }
}

#[test]
fn totals_sum_over_non_first_members() {
    let files = vec![
        rec("a", 10, "h1"),
        rec("b", 7, "h2"),
        rec("c", 10, "h1"),
        rec("d", 7, "h2"),
        rec("e", 10, "h1"),
    ];
    let report = build_report(&files);
    assert_eq!(report.total_duplicate_count, 3);
    assert_eq!(report.total_wasted_bytes, 27);
}

#[test]
fn totals_saturate_at_largest_u64() {
    let files = vec![
        rec("a", u64::MAX, "h"),
        rec("b", u64::MAX, "h"),
        rec("c", u64::MAX, "h"),
    ];
    let report = build_report(&files);
    assert_eq!(report.total_duplicate_count, 2);
    assert_eq!(report.total_wasted_bytes, u64::MAX);
}

#[test]
fn report_is_repeatable() {
    let entries: [(&str, &[u8]); 4] =
        [("a", b"x1"), ("b", b"x2"), ("c", b"x1"), ("d", b"x2")];
    let first = build_report(&scan(&entries));
    let second = build_report(&scan(&entries));
    assert!(same_report(&first, &second));
    assert_eq!(first.groups.len(), 2);
}

#[test]
fn plan_keeps_first_members() {
    let files = vec![rec("a", 1, "h1"), rec("b", 1, "h1"), rec("c", 2, "h2"), rec("d", 2, "h2")];
    let report = build_report(&files);
    let plan = plan_deletion(&report, true);
    assert_eq!(paths(&plan), vec!["b", "d"]);
    for g in &report.groups {
        assert!(plan.iter().all(|p| p.path != g.files[0].path));
    }
}

#[test]
fn plan_without_confirmation_is_empty() {
    let files = vec![rec("a", 1, "h1"), rec("b", 1, "h1")];
    let report = build_report(&files);
    assert!(plan_deletion(&report, false).is_empty());
}

#[test]
fn rescan_after_removal_finds_nothing() {
    let files = scan(&[("a", b"dup"), ("b", b"dup"), ("c", b"solo"), ("d", b"dup")]);
    let report = build_report(&files);
    let plan = plan_deletion(&report, true);
    let gone = paths(&plan);
    let rest: Vec<FileInfo> =
        files.iter().filter(|f| !gone.contains(&f.path)).map(|f| f.duplicate()).collect();
    assert_eq!(paths(&rest), vec!["a", "c"]);
    assert!(build_report(&rest).is_empty());
}

#[test]
fn outcome_tallies_removals_and_failures() {
    let mut outcome = DeletionOutcome::new();
    assert_eq!(outcome.deleted_count, 0);
    outcome.record(&rec("b", 5, "h"), Ok(()));
    outcome.record(&rec("c", 7, "h"), Err("permission denied".to_string()));
    outcome.record(&rec("d", 3, "h"), Ok(()));
    assert_eq!(outcome.deleted_count, 2);
    assert_eq!(outcome.freed_bytes, 8);
    assert_eq!(outcome.failures, vec![("c".to_string(), "permission denied".to_string())]);
}

#[test]
fn outcome_freed_bytes_saturate() {
    let mut outcome = DeletionOutcome::new();
    outcome.record(&rec("b", u64::MAX, "h"), Ok(()));
    outcome.record(&rec("c", 2, "h"), Ok(()));
    assert_eq!(outcome.freed_bytes, u64::MAX);
    assert_eq!(outcome.deleted_count, 2);
}
