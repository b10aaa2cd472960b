use imagstore::diary::DiaryId;
use imagstore::error::StoreErrorKind;
use imagstore::hook::NoopHook;
use imagstore::store::Store;
use imagstore::storeid::{build_entry_path, IntoStoreId, ModuleEntryPath};

#[test]
fn correct_path() {
    let p = ModuleEntryPath::new("test", "test", "0.2.0-alpha+leet1337").unwrap();

    assert_eq!(p.into_storeid().as_str(), "test/test~0.2.0-alpha+leet1337");
}

#[test]
fn versioned_path_rejects_bad_version() {
    let p = ModuleEntryPath::new("test", "test", "not-a-version");
    assert!(p.is_err());
    assert_eq!(p.err().unwrap().err_type(), StoreErrorKind::StorePathLacksVersion);
}

#[test]
fn entry_path_is_prefixed_with_the_store_root() {
    let store: Store<NoopHook> = Store::new(String::from("/tmp/store"), None).unwrap();
    let p = build_entry_path(&store, "module/thing~1.0.0").unwrap();
    assert_eq!(p.as_str(), "/tmp/store/module/thing~1.0.0");

    // one leading slash is dropped before joining
    let p = build_entry_path(&store, "/module/thing~1.0.0").unwrap();
    assert_eq!(p.as_str(), "/tmp/store/module/thing~1.0.0");
}

#[test]
fn entry_path_without_version_is_rejected() {
    let store: Store<NoopHook> = Store::new(String::from("/tmp/store"), None).unwrap();
    let r = build_entry_path(&store, "module/thing");
    assert!(r.is_err());
    assert_eq!(r.err().unwrap().err_type(), StoreErrorKind::StorePathLacksVersion);

    let r = build_entry_path(&store, "module/thing~banana");
    assert!(r.is_err());
}

#[test]
fn diary_id_renders_and_parses_back() {
    let id = DiaryId::new(String::from("mydiary"), 2024, 1, 31, 23, 5);
    let text = id.to_text();
    assert_eq!(text.as_str(), "mydiary/2024/1-31-23:5");

    let back = DiaryId::parse(text.as_str()).unwrap();
    assert_eq!(back.diary_name().as_str(), "mydiary");
    assert_eq!(back.year(), 2024);
    assert_eq!(back.month(), 1);
    assert_eq!(back.day(), 31);
    assert_eq!(back.hour(), 23);
    assert_eq!(back.minute(), 5);
}

#[test]
fn diary_id_parse_rejects_garbage() {
    assert!(DiaryId::parse("no-slashes-here").is_none());
    assert!(DiaryId::parse("name/notayear/1-2-3:4").is_none());
    assert!(DiaryId::parse("name/2024/1-2-3").is_none());
    // leading zeroes do not render back identically, so they are rejected
    assert!(DiaryId::parse("name/2024/01-02-03:04").is_none());
}
