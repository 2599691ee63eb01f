use twoway::FileType;
use twoway::Outcome;
use twoway::RawMeta;
use twoway::ReportEntry;
use twoway::ScanError;
use twoway::ScanItem;
use twoway::Snapshot;
use twoway::build_snapshot;
use twoway::reconcile;

fn meta(mtime: i64, perms: u32, size: u64, is_dir: bool, is_symlink: bool) -> RawMeta {
    RawMeta { mod_time: mtime, permissions: perms, size, is_dir, is_symlink }
}

fn file_item(path: &str, mtime: i64, size: u64) -> ScanItem {
    ScanItem { path: path.to_string(), meta: Ok(meta(mtime, 0o644, size, false, false)) }
}

fn dir_item(path: &str, mtime: i64) -> ScanItem {
    ScanItem { path: path.to_string(), meta: Ok(meta(mtime, 0o755, 0, true, false)) }
}

fn snap(root: &str, items: Vec<ScanItem>) -> Snapshot {
    let (s, warnings) = build_snapshot(root.to_string(), 1000, items).unwrap();
    assert!(warnings.is_empty());
    s
}

fn outcomes(r: &Vec<ReportEntry>) -> Vec<(String, Outcome)> {
    r.iter().map(|e| (e.path.clone(), e.outcome)).collect()
}

#[test]
fn missing_from_b() {
    let a = snap("/a", vec![file_item("f.txt", 100, 5)]);
    let b = snap("/b", vec![]);
    let r = reconcile(&a, &b);
    assert_eq!(outcomes(&r), vec![("f.txt".to_string(), Outcome::MissingFromB)]);
}

#[test]
fn identical_metadata() {
    let a = snap("/a", vec![file_item("f.txt", 100, 5)]);
    let b = snap("/b", vec![file_item("f.txt", 100, 5)]);
    let r = reconcile(&a, &b);
    assert_eq!(outcomes(&r), vec![("f.txt".to_string(), Outcome::Identical)]);
}

#[test]
fn a_newer() {
    let a = snap("/a", vec![file_item("f.txt", 200, 7)]);
    let b = snap("/b", vec![file_item("f.txt", 100, 5)]);
    let r = reconcile(&a, &b);
    assert_eq!(outcomes(&r), vec![("f.txt".to_string(), Outcome::ANewer)]);
}

#[test]
fn b_newer() {
    let a = snap("/a", vec![file_item("f.txt", 100, 5)]);
    let b = snap("/b", vec![file_item("f.txt", 200, 7)]);
    let r = reconcile(&a, &b);
    assert_eq!(outcomes(&r), vec![("f.txt".to_string(), Outcome::BNewer)]);
}

#[test]
fn conflict_same_mtime_different_size() {
    let a = snap("/a", vec![file_item("f.txt", 100, 5)]);
    let b = snap("/b", vec![file_item("f.txt", 100, 9)]);
    let r = reconcile(&a, &b);
    assert_eq!(outcomes(&r), vec![("f.txt".to_string(), Outcome::Conflict)]);
}

#[test]
fn missing_from_a_directory() {
    let a = snap("/a", vec![]);
    let b = snap("/b", vec![dir_item("only-in-b", 50)]);
    let r = reconcile(&a, &b);
    assert_eq!(outcomes(&r), vec![("only-in-b".to_string(), Outcome::MissingFromA)]);
}

#[test]
fn type_mismatch_is_conflict_when_times_equal() {
    let a = snap("/a", vec![dir_item("x", 100)]);
    let b = snap("/b", vec![ScanItem {
        path: "x".to_string(),
        meta: Ok(meta(100, 0o755, 0, false, false)),
    }]);
    let r = reconcile(&a, &b);
    assert_eq!(outcomes(&r), vec![("x".to_string(), Outcome::Conflict)]);
}

#[test]
fn report_sorted_by_path_and_deterministic() {
    let a = snap("/a", vec![
        file_item("z.txt", 10, 1),
        file_item("a.txt", 10, 1),
        file_item("m/n.txt", 10, 1),
    ]);
    let b = snap("/b", vec![file_item("m/n.txt", 10, 1), file_item("b.txt", 10, 1)]);
    let r1 = reconcile(&a, &b);
    let r2 = reconcile(&a, &b);
    assert_eq!(outcomes(&r1), outcomes(&r2));
    let paths: Vec<String> = r1.iter().map(|e| e.path.clone()).collect();
    let mut sorted = paths.clone();
    sorted.sort();
    sorted.dedup();
    assert_eq!(paths, sorted);
    assert_eq!(paths, vec!["a.txt", "b.txt", "m/n.txt", "z.txt"]);
}

#[test]
fn partition_covers_every_path_exactly_once() {
    let a = snap("/a", vec![file_item("p", 1, 1), file_item("q", 2, 2)]);
    let b = snap("/b", vec![file_item("q", 2, 2), file_item("r", 3, 3)]);
    let r = reconcile(&a, &b);
    let paths: Vec<String> = r.iter().map(|e| e.path.clone()).collect();
    assert_eq!(paths, vec!["p", "q", "r"]);
}

#[test]
fn symmetry_flips_outcomes() {
    let a = snap("/a", vec![
        file_item("both-equal", 5, 5),
        file_item("newer-in-a", 9, 1),
        file_item("only-in-a", 1, 1),
        file_item("same-time", 4, 1),
    ]);
    let b = snap("/b", vec![
        file_item("both-equal", 5, 5),
        file_item("newer-in-a", 3, 1),
        file_item("only-in-b", 1, 1),
        file_item("same-time", 4, 2),
    ]);
    let fwd = reconcile(&a, &b);
    let bwd = reconcile(&b, &a);
    assert_eq!(fwd.len(), bwd.len());
    for (f, g) in fwd.iter().zip(bwd.iter()) {
        assert_eq!(f.path, g.path);
        let flipped = match f.outcome {
            Outcome::Identical => Outcome::Identical,
            Outcome::ANewer => Outcome::BNewer,
            Outcome::BNewer => Outcome::ANewer,
            Outcome::Conflict => Outcome::Conflict,
            Outcome::MissingFromA => Outcome::MissingFromB,
            Outcome::MissingFromB => Outcome::MissingFromA,
        };
        assert_eq!(g.outcome, flipped);
    }
}

#[test]
fn scan_warning_for_unreadable_entry() {
    let items = vec![
        file_item("ok.txt", 100, 5),
        ScanItem { path: "secret.txt".to_string(), meta: Err("permission denied".to_string()) },
    ];
    let (s, warnings) = build_snapshot("/a".to_string(), 1000, items).unwrap();
    assert!(s.get("secret.txt").is_none());
    assert!(s.get("ok.txt").is_some());
    assert_eq!(warnings.len(), 1);
    assert_eq!(warnings[0].path, "secret.txt");
    assert_eq!(warnings[0].cause, "permission denied");
}

#[test]
fn all_entries_failed_is_an_error() {
    let items = vec![
        ScanItem { path: "".to_string(), meta: Ok(meta(1, 0o755, 0, true, false)) },
        ScanItem { path: "x".to_string(), meta: Err("io error".to_string()) },
        ScanItem { path: "y".to_string(), meta: Err("io error".to_string()) },
    ];
    let r = build_snapshot("/a".to_string(), 1000, items);
    assert!(matches!(r, Err(ScanError::AllEntriesFailed)));
}

#[test]
fn empty_tree_is_not_an_error() {
    let items = vec![ScanItem { path: "".to_string(), meta: Ok(meta(1, 0o755, 0, true, false)) }];
    let (s, warnings) = build_snapshot("/a".to_string(), 1000, items).unwrap();
    assert_eq!(s.entries.len(), 0);
    assert!(warnings.is_empty());
}

#[test]
fn root_entry_is_excluded_and_duplicates_replace() {
    let items = vec![
        ScanItem { path: "".to_string(), meta: Ok(meta(1, 0o755, 0, true, false)) },
        file_item("f", 100, 5),
        file_item("f", 200, 6),
    ];
    let (s, _) = build_snapshot("/a".to_string(), 1000, items).unwrap();
    assert_eq!(s.entries.len(), 1);
    let e = s.get("f").unwrap();
    assert_eq!(e.mod_time, 200);
    assert_eq!(e.size, 6);
}

#[test]
fn idempotent_build_from_equal_scans() {
    let items = || vec![file_item("b", 2, 2), file_item("a", 1, 1), dir_item("d", 3)];
    let (s1, _) = build_snapshot("/a".to_string(), 1000, items()).unwrap();
    let (s2, _) = build_snapshot("/a".to_string(), 2000, items()).unwrap();
    assert_eq!(s1.entries.len(), s2.entries.len());
    for (x, y) in s1.entries.iter().zip(s2.entries.iter()) {
        assert_eq!(x.path, y.path);
        assert_eq!(x.entry, y.entry);
    }
    assert_eq!(s1.scan_time, 1000);
    assert_eq!(s2.scan_time, 2000);
}

#[test]
fn entries_are_sorted_by_path() {
    let (s, _) = build_snapshot(
        "/a".to_string(),
        7,
        vec![file_item("c", 1, 1), file_item("a", 1, 1), file_item("b", 1, 1)],
    )
    .unwrap();
    let paths: Vec<String> = s.entries.iter().map(|e| e.path.clone()).collect();
    assert_eq!(paths, vec!["a", "b", "c"]);
}

#[test]
fn symlink_and_directory_types_recorded() {
    let items = vec![
        dir_item("d", 1),
        ScanItem { path: "l".to_string(), meta: Ok(meta(1, 0o777, 0, false, true)) },
        file_item("f", 1, 9),
    ];
    let (s, _) = build_snapshot("/a".to_string(), 7, items).unwrap();
    assert_eq!(s.get("d").unwrap().ftype, FileType::Directory);
    assert_eq!(s.get("l").unwrap().ftype, FileType::Symlink);
    assert_eq!(s.get("f").unwrap().ftype, FileType::File);
}
