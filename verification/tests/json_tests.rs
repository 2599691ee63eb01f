use twoway::FileType;
use twoway::RawMeta;
use twoway::ScanItem;
use twoway::Snapshot;
use twoway::build_snapshot;
use twoway::from_json;
use twoway::to_json;

fn item(path: &str, mtime: i64, perms: u32, size: u64, is_dir: bool, is_symlink: bool) -> ScanItem {
    ScanItem {
        path: path.to_string(),
        meta: Ok(RawMeta { mod_time: mtime, permissions: perms, size, is_dir, is_symlink }),
    }
}

fn sample() -> Snapshot {
    let items = vec![
        item("docs", 500, 0o755, 0, true, false),
        item("docs/readme.txt", 400, 0o644, 123, false, false),
        item("link", -7, 0o777, 0, false, true),
        item("weird \"name\"\\with\nescapes\t!", 1, 2, 3, false, false),
    ];
    build_snapshot("/some/root".to_string(), 4242, items).unwrap().0
}

fn assert_same(a: &Snapshot, b: &Snapshot) {
    assert_eq!(a.scan_time, b.scan_time);
    assert_eq!(a.root, b.root);
    assert_eq!(a.entries.len(), b.entries.len());
    for (x, y) in a.entries.iter().zip(b.entries.iter()) {
        assert_eq!(x.path, y.path);
        assert_eq!(x.entry, y.entry);
    }
}

#[test]
fn round_trip_preserves_everything() {
    let s = sample();
    let text = to_json(&s);
    let t = from_json(text.as_str()).unwrap();
    assert_same(&s, &t);
}

#[test]
fn round_trip_of_empty_snapshot() {
    let s = build_snapshot("/r".to_string(), 1, vec![]).unwrap().0;
    let t = from_json(to_json(&s).as_str()).unwrap();
    assert_same(&s, &t);
}

#[test]
fn canonical_shape_of_rendering() {
    let s = build_snapshot(
        "/r".to_string(),
        9,
        vec![item("f", -5, 420, 17, false, false)],
    )
    .unwrap()
    .0;
    let text = to_json(&s);
    assert_eq!(
        text,
        "{\"scanTime\":9,\"root\":\"/r\",\"entries\":{\"f\":{\"modTime\":-5,\"permissions\":420,\"size\":17,\"type\":\"File\"}}}"
    );
}

#[test]
fn fields_accepted_in_any_order() {
    let text = "{\"entries\":{\"f\":{\"type\":\"Directory\",\"size\":0,\"permissions\":493,\"modTime\":7}},\"root\":\"/r\",\"scanTime\":3}";
    let s = from_json(text).unwrap();
    assert_eq!(s.scan_time, 3);
    assert_eq!(s.root, "/r");
    let e = s.get("f").unwrap();
    assert_eq!(e.mod_time, 7);
    assert_eq!(e.permissions, 493);
    assert_eq!(e.ftype, FileType::Directory);
}

#[test]
fn unknown_fields_are_tolerated() {
    let text = "{\"scanTime\":1,\"future\":[1,{\"a\":\"}\"},null],\"root\":\"/r\",\"entries\":{\"f\":{\"modTime\":1,\"note\":\"x\",\"permissions\":1,\"size\":1,\"type\":\"File\"}},\"more\":\"later\"}";
    let s = from_json(text).unwrap();
    assert_eq!(s.scan_time, 1);
    assert!(s.get("f").is_some());
}

#[test]
fn whitespace_is_tolerated() {
    let text = " {\n  \"scanTime\" : 5 ,\n  \"root\" : \"/r\" ,\n  \"entries\" : {\n    \"f\" : { \"modTime\" : 1 , \"permissions\" : 2 , \"size\" : 3 , \"type\" : \"Symlink\" }\n  }\n} ";
    let s = from_json(text).unwrap();
    assert_eq!(s.scan_time, 5);
    assert_eq!(s.get("f").unwrap().ftype, FileType::Symlink);
}

#[test]
fn missing_required_field_is_rejected() {
    assert!(from_json("{\"scanTime\":1,\"root\":\"/r\"}").is_err());
    assert!(from_json("{\"scanTime\":1,\"entries\":{}}").is_err());
    assert!(from_json("{\"root\":\"/r\",\"entries\":{}}").is_err());
    assert!(
        from_json("{\"scanTime\":1,\"root\":\"/r\",\"entries\":{\"f\":{\"modTime\":1,\"permissions\":2,\"size\":3}}}").is_err()
    );
}

#[test]
fn malformed_payloads_are_rejected() {
    assert!(from_json("").is_err());
    assert!(from_json("null").is_err());
    assert!(from_json("{\"scanTime\":1,\"root\":\"/r\",\"entries\":{}").is_err());
    assert!(from_json("{\"scanTime\":99999999999999999999,\"root\":\"/r\",\"entries\":{}}").is_err());
    assert!(
        from_json("{\"scanTime\":1,\"root\":\"/r\",\"entries\":{\"f\":{\"modTime\":1,\"permissions\":2,\"size\":3,\"type\":\"Folder\"}}}").is_err()
    );
    assert!(from_json("{\"scanTime\":1,\"root\":\"/r\",\"entries\":{}}trailing").is_err());
}

#[test]
fn negative_and_extreme_numbers_survive() {
    let items = vec![
        item("min", i64::MIN, 0, 0, false, false),
        item("max", i64::MAX, u32::MAX, u64::MAX, false, false),
    ];
    let s = build_snapshot("/r".to_string(), u64::MAX, items).unwrap().0;
    let t = from_json(to_json(&s).as_str()).unwrap();
    assert_same(&s, &t);
    assert_eq!(t.get("min").unwrap().mod_time, i64::MIN);
    assert_eq!(t.get("max").unwrap().size, u64::MAX);
}

#[test]
fn escaped_paths_survive() {
    let tricky = "tab\there \"quoted\" back\\slash \u{1} control";
    let s = build_snapshot(
        "/r \"x\"".to_string(),
        2,
        vec![item(tricky, 1, 2, 3, false, false)],
    )
    .unwrap()
    .0;
    let text = to_json(&s);
    let t = from_json(text.as_str()).unwrap();
    assert_eq!(t.root, "/r \"x\"");
    assert!(t.get(tricky).is_some());
}

#[test]
fn short_escapes_are_accepted_on_input() {
    let text = "{\"scanTime\":1,\"root\":\"a\\n\\t\\r\\b\\f\\/\\\\\\\"z\",\"entries\":{}}";
    let s = from_json(text).unwrap();
    assert_eq!(s.root, "a\n\t\r\u{8}\u{c}/\\\"z");
}

#[test]
fn unicode_escape_is_accepted_on_input() {
    let text = "{\"scanTime\":1,\"root\":\"a\\u0041\\u00e9\",\"entries\":{}}";
    let s = from_json(text).unwrap();
    assert_eq!(s.root, "aA\u{e9}");
}

#[test]
fn rendering_is_valid_json_for_serde() {
    let s = sample();
    let text = to_json(&s);
    let v: serde_json::Value = serde_json::from_str(&text).unwrap();
    assert_eq!(v["scanTime"], serde_json::Value::from(4242u64));
    assert_eq!(v["root"], serde_json::Value::from("/some/root"));
    assert_eq!(v["entries"]["docs/readme.txt"]["size"], serde_json::Value::from(123u64));
    assert_eq!(v["entries"]["docs"]["type"], serde_json::Value::from("Directory"));
    assert_eq!(v["entries"]["link"]["modTime"], serde_json::Value::from(-7i64));
    // text rewritten by another JSON library still reads back equal
    let text2 = serde_json::to_string(&v).unwrap();
    let t = from_json(text2.as_str()).unwrap();
    assert_same(&s, &t);
}

#[test]
fn duplicate_entry_keys_last_wins() {
    let text = "{\"scanTime\":1,\"root\":\"/r\",\"entries\":{\"f\":{\"modTime\":1,\"permissions\":1,\"size\":1,\"type\":\"File\"},\"f\":{\"modTime\":2,\"permissions\":2,\"size\":2,\"type\":\"File\"}}}";
    let s = from_json(text).unwrap();
    assert_eq!(s.entries.len(), 1);
    assert_eq!(s.get("f").unwrap().mod_time, 2);
}
