use oxio::codec::{encode_triple, encode_triple_bytes, read_record, RecordRead};
use oxio::entities::{group_items, Item};
use oxio::store::{
    apply_create, create_item, find_item, get_all_group, get_all_items, get_item, index,
    is_valid_name, read_item, read_items,
};
use oxio::result::Error;

fn item(group: &str, name: &str, value: &str) -> Item {
    let plan = create_item(&Vec::new(), group, name, value);
    plan.item
}

#[test]
fn round_trip_triple() {
    let bytes = encode_triple_bytes("work", "mail", "s3cret");
    assert_eq!(bytes, b"work\x00mail\x00s3cret\x00".to_vec());
    let it = read_item(&bytes, "somefile", "somepath").unwrap();
    assert_eq!(it.group, "work");
    assert_eq!(it.name, "mail");
    assert_eq!(it.value, "s3cret");
    assert_eq!(it.filename, "somefile");
}

#[test]
fn round_trip_empty_value() {
    let bytes = encode_triple_bytes("g", "n", "");
    let it = read_item(&bytes, "f", "p").unwrap();
    assert_eq!(it.group, "g");
    assert_eq!(it.name, "n");
    assert_eq!(it.value, "");
}

#[test]
fn round_trip_unicode() {
    let bytes = encode_triple_bytes("grüße", "café", "pâté valüe\nsecond line");
    let it = read_item(&bytes, "f", "p").unwrap();
    assert_eq!(it.group, "grüße");
    assert_eq!(it.name, "café");
    assert_eq!(it.value, "pâté valüe\nsecond line");
}

#[test]
fn record_reader_reports_positions() {
    let s = encode_triple("a", "bb", "ccc");
    match read_record(s.as_str(), 0) {
        RecordRead::Value(g, n, v, next) => {
            assert_eq!(g, "a");
            assert_eq!(n, "bb");
            assert_eq!(v, "ccc");
            assert_eq!(next, 9);
        }
        _ => panic!("expected a full record"),
    }
    assert!(matches!(read_record(s.as_str(), 9), RecordRead::End));
}

#[test]
fn missing_terminator_is_corrupt() {
    let r = read_item(b"group\x00name\x00value-without-nul", "f", "the/path");
    match r {
        Err(Error::CorruptEntry(p)) => assert_eq!(p, "the/path"),
        _ => panic!("expected a corrupt entry"),
    }
}

#[test]
fn invalid_utf8_is_corrupt() {
    let r = read_item(&[0xff, 0xfe, 0x00], "f", "bad/path");
    match r {
        Err(Error::CorruptEntry(p)) => assert_eq!(p, "bad/path"),
        _ => panic!("expected a corrupt entry"),
    }
}

#[test]
fn index_rebuild_is_idempotent() {
    let items = vec![item("a", "one", "1"), item("b", "two", "2"), item("a", "three", "3")];
    let first = index(&items);
    let second = index(&items);
    assert_eq!(first, second);
}

#[test]
fn index_round_trips_summaries() {
    let items = vec![item("grp", "alpha", "va"), item("grp2", "beta", "vb")];
    let bytes = index(&items);
    let loaded = get_all_items(Some(bytes.as_slice()), ".index").unwrap();
    assert_eq!(loaded.len(), 2);
    assert_eq!(loaded[0].group, "grp");
    assert_eq!(loaded[0].name, "alpha");
    assert_eq!(loaded[0].filename, items[0].filename);
    assert_eq!(loaded[0].value, "");
    assert_eq!(loaded[1].group, "grp2");
    assert_eq!(loaded[1].name, "beta");
    assert_eq!(loaded[1].filename, items[1].filename);
}

#[test]
fn missing_index_is_empty_store() {
    let loaded = get_all_items(None, ".index").unwrap();
    assert!(loaded.is_empty());
}

#[test]
fn short_index_record_is_corrupt() {
    let r = get_all_items(Some(b"group\x00name-without-rest\x00".as_slice()), ".index");
    match r {
        Err(Error::CorruptEntry(p)) => assert_eq!(p, ".index"),
        _ => panic!("expected a corrupt entry"),
    }
}

#[test]
fn read_items_stops_at_first_corrupt_file() {
    let good = encode_triple_bytes("g", "n", "v");
    let files = vec![
        ("good-file".to_string(), good),
        ("bad-file".to_string(), b"no terminator at all".to_vec()),
    ];
    match read_items(&files) {
        Err(Error::CorruptEntry(p)) => assert_eq!(p, "bad-file"),
        _ => panic!("expected a corrupt entry"),
    }
}

#[test]
fn create_addresses_by_digest() {
    let plan = create_item(&Vec::new(), "work", "MAIL", "s3cret");
    assert_eq!(plan.item.name, "mail");
    assert_eq!(plan.contents, b"work\x00mail\x00s3cret\x00".to_vec());
    assert_eq!(plan.item.filename, "8df29e7007e59dc422c3c0afef481c4c37c0b089");
    assert!(plan.replaced.is_none());
}

#[test]
fn create_known_digest() {
    let plan = create_item(&Vec::new(), "g", "n", "v");
    assert_eq!(plan.item.filename, "df864a0f59f0aa0d789b946610853746d95b5e22");
}

#[test]
fn create_replaces_existing_key() {
    let old = item("work", "mail", "old-secret");
    let old_filename = old.filename.clone();
    let other = item("work", "other", "kept");
    let items = vec![old, other];
    let plan = create_item(&items, "work", "mail", "new-secret");
    let replaced = plan.replaced.as_ref().expect("prior holder of the key");
    assert_eq!(replaced.filename, old_filename);
    let after = apply_create(&items, &plan);
    let live: Vec<&Item> =
        after.iter().filter(|i| i.group == "work" && i.name == "mail").collect();
    assert_eq!(live.len(), 1);
    assert_eq!(live[0].value, "new-secret");
    assert_ne!(live[0].filename, old_filename);
    assert!(after.iter().all(|i| i.filename != old_filename));
    assert!(after.iter().any(|i| i.name == "other"));
}

#[test]
fn get_item_matches_exactly() {
    let items = vec![item("work", "mail", "a"), item("home", "mail", "b")];
    let found = get_item(&items, "home", "mail").expect("exact match");
    assert_eq!(found.value, "b");
    assert!(get_item(&items, "home", "Mail").is_none());
    assert!(get_item(&items, "gone", "mail").is_none());
}

#[test]
fn get_all_group_filters() {
    let items = vec![item("a", "x", "1"), item("b", "y", "2"), item("a", "z", "3")];
    let grp = get_all_group(&items, "a");
    assert_eq!(grp.len(), 2);
    assert_eq!(grp[0].name, "x");
    assert_eq!(grp[1].name, "z");
    assert!(get_all_group(&items, "c").is_empty());
}

#[test]
fn fuzzy_resolves_within_threshold() {
    let items = vec![item("g", "mailbox", "1"), item("g", "keys", "2")];
    let hit = find_item(&items, "mailbux").expect("within distance 2");
    assert_eq!(hit.name, "mailbox");
    let hit = find_item(&items, "kezs").expect("within distance 2");
    assert_eq!(hit.name, "keys");
}

#[test]
fn fuzzy_rejects_beyond_threshold() {
    let items = vec![item("g", "mailbox", "1"), item("g", "keys", "2")];
    assert!(find_item(&items, "completely-different").is_none());
    assert!(find_item(&Vec::new(), "anything").is_none());
}

#[test]
fn fuzzy_threshold_boundary() {
    let items = vec![item("g", "abcdef", "1")];
    // distance 2: two substitutions
    assert!(find_item(&items, "abcdxx").is_some());
    // distance 3: three substitutions
    assert!(find_item(&items, "abcxxx").is_none());
}

#[test]
fn fuzzy_tie_break_is_first_in_order() {
    // both names are at distance 1 of the query
    let items = vec![item("g", "cat", "first"), item("g", "car", "second")];
    let hit = find_item(&items, "caw").expect("a tie within threshold");
    assert_eq!(hit.value, "first");
}

#[test]
fn groups_partition_and_sort() {
    let items = vec![
        item("zoo", "b", "1"),
        item("attic", "d", "2"),
        item("zoo", "a", "3"),
        item("mid", "c", "4"),
    ];
    let grouped = group_items(items);
    let labels: Vec<&str> = grouped.iter().map(|(g, _)| g.as_str()).collect();
    assert_eq!(labels, vec!["attic", "mid", "zoo"]);
    assert_eq!(grouped[0].1.len(), 1);
    assert_eq!(grouped[1].1.len(), 1);
    assert_eq!(grouped[2].1.len(), 2);
    assert_eq!(grouped[2].1[0].name, "a");
    assert_eq!(grouped[2].1[1].name, "b");
    // every item is in exactly one bucket
    let total: usize = grouped.iter().map(|(_, b)| b.len()).sum();
    assert_eq!(total, 4);
}

#[test]
fn reserved_names_are_invalid() {
    for bad in ["all", "rm-group", "rm-item", "sync", "reindex", "help", "edit"] {
        assert!(!is_valid_name(bad));
    }
    assert!(is_valid_name("mail"));
    assert!(is_valid_name("Edit"));
}

#[test]
fn fill_value_loads_from_file_bytes() {
    let plan = create_item(&Vec::new(), "g", "n", "the real value");
    let mut summary = Item {
        group: "g".to_string(),
        name: "n".to_string(),
        value: String::new(),
        filename: plan.item.filename.clone(),
    };
    summary.fill_value(&plan.contents, "p").unwrap();
    assert_eq!(summary.value, "the real value");
}

#[test]
fn fill_value_rejects_corrupt_bytes() {
    let mut it = Item {
        group: "g".to_string(),
        name: "n".to_string(),
        value: "untouched".to_string(),
        filename: "f".to_string(),
    };
    let r = it.fill_value(b"not a record", "path");
    assert!(matches!(r, Err(Error::CorruptEntry(_))));
    assert_eq!(it.value, "untouched");
}

#[test]
fn error_constructor_wraps_message() {
    let e = Error::new("disk on fire");
    match &e {
        Error::Io(m) => assert_eq!(m, "disk on fire"),
        _ => panic!("expected an io error"),
    }
    assert_eq!(e.kind_name(), "io error");
    assert_eq!(e.message().unwrap(), "disk on fire");
    assert!(Error::AlreadyExists.message().is_none());
}
