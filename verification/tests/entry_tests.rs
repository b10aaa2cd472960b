use imagstore::entry::Entry;
use imagstore::error::StoreErrorKind;
use imagstore::value::Value;

static TEST_ENTRY: &'static str = "---
[imag]
version = \"0.0.3\"
---
Hai";

#[test]
fn test_entry_from_str() {
    println!("{}", TEST_ENTRY);
    let entry = Entry::from_str(String::from("/test/foo~1.3"), TEST_ENTRY).unwrap();

    assert_eq!(entry.get_content(), "Hai");
}

#[test]
fn test_entry_to_str() {
    println!("{}", TEST_ENTRY);
    let entry = Entry::from_str(String::from("/test/foo~1.3"), TEST_ENTRY).unwrap();
    let string = entry.to_str();

    assert_eq!(TEST_ENTRY, string);
}

#[test]
fn serialize_then_parse_is_identity() {
    let mut e = Entry::new(String::from("/test/roundtrip~0.1.0"));
    e.set_content(String::from("some\ncontent lines\n"));
    {
        let h = e.get_header_mut();
        h.set("app", Value::Table(Vec::new())).unwrap();
        h.set("app.count", Value::Int(-42)).unwrap();
        h.set("app.name", Value::Str(String::from("quoted \"name\"\nwith lines"))).unwrap();
        h.set("app.flag", Value::Bool(true)).unwrap();
        h.set(
            "app.items",
            Value::Array(vec![Value::Int(1), Value::Str(String::from("two")), Value::Bool(false)]),
        )
        .unwrap();
        h.set(
            "app.nested",
            Value::Table(vec![(String::from("k"), Value::Int(7))]),
        )
        .unwrap();
    }
    assert!(e.verify().is_ok());

    let text = e.to_str();
    let back = Entry::from_str(String::from("/test/roundtrip~0.1.0"), text.as_str()).unwrap();

    assert_eq!(back.get_content(), e.get_content());
    assert_eq!(back.to_str(), text);
    assert_eq!(
        back.get_header().read("app.count").unwrap().unwrap(),
        Value::Int(-42)
    );
    assert_eq!(
        back.get_header().read("app.name").unwrap().unwrap(),
        Value::Str(String::from("quoted \"name\"\nwith lines"))
    );
    assert_eq!(
        back.get_header().read("app.items.1").unwrap().unwrap(),
        Value::Str(String::from("two"))
    );
    assert_eq!(
        back.get_header().read("app.nested.k").unwrap().unwrap(),
        Value::Int(7)
    );
}

#[test]
fn parse_rejects_missing_delimiters() {

    let r = Entry::from_str(String::from("/test/x~1.0.0"), "no header here");
    assert!(r.is_err());
    assert_eq!(r.err().unwrap().err_type(), StoreErrorKind::MalformedEntry);

    let r = Entry::from_str(String::from("/test/x~1.0.0"), "---\n[imag]\nno closing delimiter");
    assert!(r.is_err());
    assert_eq!(r.err().unwrap().err_type(), StoreErrorKind::MalformedEntry);
}

#[test]
fn parse_rejects_schema_breaking_header() {

    // top-level key that is not a table
    let r = Entry::from_str(
        String::from("/test/x~1.0.0"),
        "---\nstray = 1\n[imag]\nversion = \"0.0.3\"\n---\n",
    );
    assert!(r.is_err());
    assert_eq!(r.err().unwrap().err_type(), StoreErrorKind::MalformedEntry);

    // no main section at all
    let r = Entry::from_str(String::from("/test/x~1.0.0"), "---\n[other]\nx = 1\n---\n");
    assert!(r.is_err());
}

#[test]
fn parse_keeps_content_verbatim() {
    let text = "---\n[imag]\nversion = \"0.0.3\"\n---\nline one\n\nline --- three\n";
    let e = Entry::from_str(String::from("/test/c~0.1.0"), text).unwrap();
    assert_eq!(e.get_content(), "line one\n\nline --- three\n");
}
