use imagstore::header::{
    has_imag_version_in_main_section, has_main_section, store_version, verify_header_consistency,
    EntryHeader, Token,
};
use imagstore::value::{Table, Value};

fn tbl(entries: Vec<(&str, Value)>) -> Table {
    entries.into_iter().map(|(k, v)| (String::from(k), v)).collect()
}

#[test]
fn test_imag_section() {
    let map = tbl(vec![("imag", Value::Table(Vec::new()))]);

    assert!(has_main_section(&map));
}

#[test]
fn test_imag_invalid_section_type() {
    let map = tbl(vec![("imag", Value::Bool(false))]);

    assert!(!has_main_section(&map));
}

#[test]
fn test_imag_abscent_main_section() {
    let map = tbl(vec![("not_imag", Value::Bool(false))]);

    assert!(!has_main_section(&map));
}

#[test]
fn test_main_section_without_version() {
    let map = tbl(vec![("imag", Value::Table(Vec::new()))]);

    assert!(!has_imag_version_in_main_section(&map));
}

#[test]
fn test_main_section_with_version() {
    let sub = tbl(vec![("version", Value::Str(String::from("0.0.0")))]);
    let map = tbl(vec![("imag", Value::Table(sub))]);

    assert!(has_imag_version_in_main_section(&map));
}

#[test]
fn test_main_section_with_version_in_wrong_type() {
    let sub = tbl(vec![("version", Value::Bool(false))]);
    let map = tbl(vec![("imag", Value::Table(sub))]);

    assert!(!has_imag_version_in_main_section(&map));
}

#[test]
fn test_verification_good() {
    let sub = tbl(vec![("version", Value::Str(String::from("0.0.0")))]);
    let header = tbl(vec![("imag", Value::Table(sub))]);

    assert!(verify_header_consistency(header).is_ok());
}

#[test]
fn test_verification_invalid_versionstring() {
    let sub = tbl(vec![("version", Value::Str(String::from("000")))]);
    let header = tbl(vec![("imag", Value::Table(sub))]);

    assert!(!verify_header_consistency(header).is_ok());
}

#[test]
fn test_verification_current_version() {
    let sub = tbl(vec![("version", Value::Str(String::from(store_version())))]);
    let header = tbl(vec![("imag", Value::Table(sub))]);

    assert!(verify_header_consistency(header).is_ok());
}

#[test]
fn test_walk_header_simple() {
    let tokens = EntryHeader::tokenize("a", '.').unwrap();
    assert!(tokens.len() == 1, "1 token was expected, {} were parsed", tokens.len());
    assert!(
        tokens.iter().next().unwrap() == &Token::Key(String::from("a")),
        "'a' token was expected, {:?} was parsed",
        tokens.iter().next()
    );

    let header = tbl(vec![("a", Value::Int(1))]);

    let v_header = Value::Table(header);
    let res = EntryHeader::walk_header(&v_header, tokens);
    assert_eq!(&Value::Int(1), res.unwrap());
}

#[test]
fn test_walk_header_with_array() {
    let tokens = EntryHeader::tokenize("a.0", '.').unwrap();
    assert!(tokens.len() == 2, "2 token was expected, {} were parsed", tokens.len());
    assert!(
        tokens.iter().next().unwrap() == &Token::Key(String::from("a")),
        "'a' token was expected, {:?} was parsed",
        tokens.iter().next()
    );

    let ary = Value::Array(vec![Value::Int(1)]);
    let header = tbl(vec![("a", ary)]);

    let v_header = Value::Table(header);
    let res = EntryHeader::walk_header(&v_header, tokens);
    assert_eq!(&Value::Int(1), res.unwrap());
}

#[test]
fn test_walk_header_extract_array() {
    let tokens = EntryHeader::tokenize("a", '.').unwrap();
    assert!(tokens.len() == 1, "1 token was expected, {} were parsed", tokens.len());
    assert!(
        tokens.iter().next().unwrap() == &Token::Key(String::from("a")),
        "'a' token was expected, {:?} was parsed",
        tokens.iter().next()
    );

    let ary = Value::Array(vec![Value::Int(1)]);
    let header = tbl(vec![("a", ary)]);

    let v_header = Value::Table(header);
    let res = EntryHeader::walk_header(&v_header, tokens);
    assert_eq!(&Value::Array(vec![Value::Int(1)]), res.unwrap());
}

/// Creates a big testing header with sections a, b, c and d; the sections are
/// created in the respective helper functions, which can also be used for
/// testing.
fn create_header() -> Value {
    let a = create_header_section_a();
    let b = create_header_section_b();
    let c = create_header_section_c();
    let d = create_header_section_d();

    Value::Table(tbl(vec![("a", a), ("b", b), ("c", c), ("d", d)]))
}

fn create_header_section_a() -> Value {
    // 0..10 is exclusive 10
    let a_ary = Value::Array((0..10).map(|x| Value::Int(x)).collect());

    Value::Table(tbl(vec![("array", a_ary)]))
}

fn create_header_section_b() -> Value {
    let b_ary = Value::Array((0..9).map(|x| Value::Str(format!("string{}", x))).collect());

    Value::Table(tbl(vec![("array", b_ary)]))
}

fn create_header_section_c() -> Value {
    let c_ary = Value::Array(vec![
        Value::Int(1),
        Value::Str(String::from("string2")),
        Value::Int(3),
        Value::Str(String::from("string4")),
    ]);

    Value::Table(tbl(vec![("array", c_ary)]))
}

fn create_header_section_d() -> Value {
    let d_ary = Value::Array(vec![
        Value::Table(tbl(vec![("d1", Value::Int(1))])),
        Value::Table(tbl(vec![("d2", Value::Int(2))])),
        Value::Table(tbl(vec![("d3", Value::Int(3))])),
    ]);

    let and_obj = Value::Table(tbl(vec![(
        "something",
        Value::Table(tbl(vec![("totally", Value::Str(String::from("different")))])),
    )]));

    Value::Table(tbl(vec![
        ("array", d_ary),
        ("something", Value::Str(String::from("else"))),
        ("and", and_obj),
    ]))
}

#[test]
fn test_walk_header_big_a() {
    test_walk_header_extract_section("a", &create_header_section_a());
}

#[test]
fn test_walk_header_big_b() {
    test_walk_header_extract_section("b", &create_header_section_b());
}

#[test]
fn test_walk_header_big_c() {
    test_walk_header_extract_section("c", &create_header_section_c());
}

#[test]
fn test_walk_header_big_d() {
    test_walk_header_extract_section("d", &create_header_section_d());
}

fn test_walk_header_extract_section(secname: &str, expected: &Value) {
    let tokens = EntryHeader::tokenize(secname, '.').unwrap();
    assert!(tokens.len() == 1, "1 token was expected, {} were parsed", tokens.len());
    assert!(
        tokens.iter().next().unwrap() == &Token::Key(String::from(secname)),
        "'{}' token was expected, {:?} was parsed",
        secname,
        tokens.iter().next()
    );

    let header = create_header();
    let res = EntryHeader::walk_header(&header, tokens);
    assert_eq!(expected, res.unwrap());
}

#[test]
fn test_walk_header_extract_numbers() {
    test_extract_number("a", 0, 0);
    test_extract_number("a", 1, 1);
    test_extract_number("a", 2, 2);
    test_extract_number("a", 3, 3);
    test_extract_number("a", 4, 4);
    test_extract_number("a", 5, 5);
    test_extract_number("a", 6, 6);
    test_extract_number("a", 7, 7);
    test_extract_number("a", 8, 8);
    test_extract_number("a", 9, 9);

    test_extract_number("c", 0, 1);
    test_extract_number("c", 2, 3);
}

fn test_extract_number(sec: &str, idx: usize, exp: i64) {
    let tokens = EntryHeader::tokenize(&format!("{}.array.{}", sec, idx)[..], '.').unwrap();
    assert!(tokens.len() == 3, "3 token was expected, {} were parsed", tokens.len());
    {
        let mut iter = tokens.iter();

        let tok = iter.next().unwrap();
        let exp = Token::Key(String::from(sec));
        assert!(tok == &exp, "'{}' token was expected, {:?} was parsed", sec, tok);

        let tok = iter.next().unwrap();
        let exp = Token::Key(String::from("array"));
        assert!(tok == &exp, "'array' token was expected, {:?} was parsed", tok);

        let tok = iter.next().unwrap();
        let exp = Token::Index(idx);
        assert!(tok == &exp, "'{}' token was expected, {:?} was parsed", idx, tok);
    }

    let header = create_header();
    let res = EntryHeader::walk_header(&header, tokens);
    assert_eq!(&Value::Int(exp), res.unwrap());
}

fn header_from_value(v: Value) -> EntryHeader {
    match v {
        Value::Table(t) => EntryHeader::from_table(t),
        _ => panic!("create_header() doesn't return a table!"),
    }
}

#[test]
fn test_header_read() {
    let h = header_from_value(create_header());

    assert!(if let Ok(Some(Value::Table(_))) = h.read("a") { true } else { false });
    assert!(if let Ok(Some(Value::Array(_))) = h.read("a.array") { true } else { false });
    assert!(if let Ok(Some(Value::Int(_))) = h.read("a.array.1") { true } else { false });
    assert!(if let Ok(Some(Value::Int(_))) = h.read("a.array.9") { true } else { false });

    assert!(if let Ok(Some(Value::Table(_))) = h.read("c") { true } else { false });
    assert!(if let Ok(Some(Value::Array(_))) = h.read("c.array") { true } else { false });
    assert!(if let Ok(Some(Value::Str(_))) = h.read("c.array.1") { true } else { false });
    assert!(if let Ok(None) = h.read("c.array.9") { true } else { false });

    assert!(if let Ok(Some(Value::Int(_))) = h.read("d.array.0.d1") { true } else { false });
    assert!(if let Ok(None) = h.read("d.array.0.d2") { true } else { false });
    assert!(if let Ok(None) = h.read("d.array.0.d3") { true } else { false });

    assert!(if let Ok(None) = h.read("d.array.1.d1") { true } else { false });
    assert!(if let Ok(Some(Value::Int(_))) = h.read("d.array.1.d2") { true } else { false });
    assert!(if let Ok(None) = h.read("d.array.1.d3") { true } else { false });

    assert!(if let Ok(None) = h.read("d.array.2.d1") { true } else { false });
    assert!(if let Ok(None) = h.read("d.array.2.d2") { true } else { false });
    assert!(if let Ok(Some(Value::Int(_))) = h.read("d.array.2.d3") { true } else { false });

    assert!(if let Ok(Some(Value::Str(_))) = h.read("d.something") { true } else { false });
    assert!(if let Ok(Some(Value::Table(_))) = h.read("d.and") { true } else { false });
    assert!(if let Ok(Some(Value::Table(_))) = h.read("d.and.something") { true } else { false });
    assert!(if let Ok(Some(Value::Str(_))) = h.read("d.and.something.totally") {
        true
    } else {
        false
    });
}

#[test]
fn test_header_set_override() {
    let mut h = header_from_value(create_header());

    println!("Testing index 0");
    assert_eq!(h.read("a.array.0").unwrap().unwrap(), Value::Int(0));

    println!("Altering index 0");
    assert_eq!(h.set("a.array.0", Value::Int(42)).unwrap().unwrap(), Value::Int(0));

    println!("Testing all indexes");
    assert_eq!(h.read("a.array.0").unwrap().unwrap(), Value::Int(42));
    assert_eq!(h.read("a.array.1").unwrap().unwrap(), Value::Int(1));
    assert_eq!(h.read("a.array.2").unwrap().unwrap(), Value::Int(2));
    assert_eq!(h.read("a.array.3").unwrap().unwrap(), Value::Int(3));
    assert_eq!(h.read("a.array.4").unwrap().unwrap(), Value::Int(4));
    assert_eq!(h.read("a.array.5").unwrap().unwrap(), Value::Int(5));
    assert_eq!(h.read("a.array.6").unwrap().unwrap(), Value::Int(6));
    assert_eq!(h.read("a.array.7").unwrap().unwrap(), Value::Int(7));
    assert_eq!(h.read("a.array.8").unwrap().unwrap(), Value::Int(8));
    assert_eq!(h.read("a.array.9").unwrap().unwrap(), Value::Int(9));
}

#[test]
fn test_header_set_new() {
    let mut h = header_from_value(create_header());

    assert!(h.read("a.foo").is_ok());
    assert!(h.read("a.foo").unwrap().is_none());

    {
        let v = h.set("a.foo", Value::Int(42));
        assert!(v.is_ok());
        assert!(v.unwrap().is_none());

        assert!(if let Ok(Some(Value::Table(_))) = h.read("a") { true } else { false });
        assert!(if let Ok(Some(Value::Int(_))) = h.read("a.foo") { true } else { false });
    }

    {
        let v = h.set("new", Value::Table(Vec::new()));
        assert!(v.is_ok());
        assert!(v.unwrap().is_none());

        let v = h.set("new.subset", Value::Table(Vec::new()));
        assert!(v.is_ok());
        assert!(v.unwrap().is_none());

        let v = h.set("new.subset.dest", Value::Int(1337));
        assert!(v.is_ok());
        assert!(v.unwrap().is_none());

        assert!(if let Ok(Some(Value::Table(_))) = h.read("new") { true } else { false });
        assert!(if let Ok(Some(Value::Table(_))) = h.read("new.subset") { true } else { false });
        assert!(if let Ok(Some(Value::Int(_))) = h.read("new.subset.dest") {
            true
        } else {
            false
        });
    }
}

#[test]
fn test_header_insert_override() {
    let mut h = header_from_value(create_header());

    println!("Testing index 0");
    assert_eq!(h.read("a.array.0").unwrap().unwrap(), Value::Int(0));

    println!("Altering index 0");
    assert_eq!(h.insert("a.array.0", Value::Int(42)).unwrap(), false);
    println!("...should have failed");

    println!("Testing all indexes");
    assert_eq!(h.read("a.array.0").unwrap().unwrap(), Value::Int(0));
    assert_eq!(h.read("a.array.1").unwrap().unwrap(), Value::Int(1));
    assert_eq!(h.read("a.array.2").unwrap().unwrap(), Value::Int(2));
    assert_eq!(h.read("a.array.3").unwrap().unwrap(), Value::Int(3));
    assert_eq!(h.read("a.array.4").unwrap().unwrap(), Value::Int(4));
    assert_eq!(h.read("a.array.5").unwrap().unwrap(), Value::Int(5));
    assert_eq!(h.read("a.array.6").unwrap().unwrap(), Value::Int(6));
    assert_eq!(h.read("a.array.7").unwrap().unwrap(), Value::Int(7));
    assert_eq!(h.read("a.array.8").unwrap().unwrap(), Value::Int(8));
    assert_eq!(h.read("a.array.9").unwrap().unwrap(), Value::Int(9));
}

#[test]
fn test_header_insert_new() {
    let mut h = header_from_value(create_header());

    assert!(h.read("a.foo").is_ok());
    assert!(h.read("a.foo").unwrap().is_none());

    {
        let v = h.insert("a.foo", Value::Int(42));
        assert!(v.is_ok());
        assert_eq!(v.unwrap(), true);

        assert!(if let Ok(Some(Value::Table(_))) = h.read("a") { true } else { false });
        assert!(if let Ok(Some(Value::Int(_))) = h.read("a.foo") { true } else { false });
    }

    {
        let v = h.insert("new", Value::Table(Vec::new()));
        assert!(v.is_ok());
        assert_eq!(v.unwrap(), true);

        let v = h.insert("new.subset", Value::Table(Vec::new()));
        assert!(v.is_ok());
        assert_eq!(v.unwrap(), true);

        let v = h.insert("new.subset.dest", Value::Int(1337));
        assert!(v.is_ok());
        assert_eq!(v.unwrap(), true);

        assert!(if let Ok(Some(Value::Table(_))) = h.read("new") { true } else { false });
        assert!(if let Ok(Some(Value::Table(_))) = h.read("new.subset") { true } else { false });
        assert!(if let Ok(Some(Value::Int(_))) = h.read("new.subset.dest") {
            true
        } else {
            false
        });
    }
}

#[test]
fn test_header_delete() {
    let mut h = header_from_value(create_header());

    assert!(if let Ok(Some(Value::Table(_))) = h.read("a") { true } else { false });
    assert!(if let Ok(Some(Value::Array(_))) = h.read("a.array") { true } else { false });
    assert!(if let Ok(Some(Value::Int(_))) = h.read("a.array.1") { true } else { false });
    assert!(if let Ok(Some(Value::Int(_))) = h.read("a.array.9") { true } else { false });

    assert!(if let Ok(Some(Value::Int(1))) = h.delete("a.array.1") { true } else { false });
    assert!(if let Ok(Some(Value::Int(9))) = h.delete("a.array.8") { true } else { false });
    assert!(if let Ok(Some(Value::Array(_))) = h.delete("a.array") { true } else { false });
    assert!(if let Ok(Some(Value::Table(_))) = h.delete("a") { true } else { false });
}

#[test]
fn reading_a_deep_array_index_past_the_end_is_none() {
    let h = header_from_value(create_header());

    assert_eq!(h.read("a.array.5").unwrap().unwrap(), Value::Int(5));
    assert!(h.read("a.array.20").unwrap().is_none());
}

#[test]
fn tokenize_numeric_overflow_becomes_a_key() {
    let toks = EntryHeader::tokenize("99999999999999999999999999999999999999", '.').unwrap();
    assert_eq!(toks.len(), 1);
    assert_eq!(
        toks[0],
        Token::Key(String::from("99999999999999999999999999999999999999"))
    );
}

#[test]
fn set_past_the_end_appends() {
    let mut h = header_from_value(create_header());

    // index far past the end: the value lands at the end of the array
    let v = h.set("a.array.20", Value::Int(99));
    assert!(v.is_ok());
    assert!(v.unwrap().is_none());
    assert_eq!(h.read("a.array.10").unwrap().unwrap(), Value::Int(99));
}

#[test]
fn type_mismatch_on_the_way_is_an_error() {
    let h = header_from_value(create_header());

    // "d.something" is a string; indexing below it must fail
    assert!(h.read("d.something.0").is_err());
    assert!(h.read("d.something.x").is_err());
}

#[test]
fn fresh_header_carries_schema_skeleton() {
    let h = EntryHeader::new();
    assert!(h.verify().is_ok());
    assert_eq!(
        h.read("imag.version").unwrap().unwrap(),
        Value::Str(String::from(store_version()))
    );
    assert!(if let Ok(Some(Value::Array(_))) = h.read("imag.links") { true } else { false });
}

#[test]
fn header_parse_accepts_its_own_serialization() {
    let h = EntryHeader::parse("\n[imag]\nversion = \"0.0.3\"\n").unwrap();
    assert!(h.verify().is_ok());
    assert_eq!(
        h.read("imag.version").unwrap().unwrap(),
        Value::Str(String::from("0.0.3"))
    );

    assert!(EntryHeader::parse("not a header").is_err());
    assert!(EntryHeader::parse("[imag]\nversion = 3\n").is_err());
}
