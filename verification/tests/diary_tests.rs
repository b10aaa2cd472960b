use imagstore::diary::{
    get_default_diary_name, get_diary_type, get_diary_types, note_error_type_as_str, DiaryError,
    DiaryErrorKind, DiaryType,
};
use imagstore::value::Value;

fn tab(entries: Vec<(&str, Value)>) -> Value {
    Value::Table(entries.into_iter().map(|(k, v)| (String::from(k), v)).collect())
}

fn diary_config() -> Value {
    let diaries = Value::Array(vec![
        tab(vec![
            ("name", Value::Str(String::from("my diary"))),
            ("type", Value::Str(String::from("daily"))),
        ]),
        tab(vec![
            ("name", Value::Str(String::from("work"))),
            ("type", Value::Str(String::from("hourly"))),
        ]),
        Value::Int(3),
        tab(vec![("name", Value::Str(String::from("broken")))]),
    ]);
    tab(vec![(
        "diary",
        tab(vec![
            ("default", Value::Str(String::from("my diary"))),
            ("diaries", diaries),
        ]),
    )])
}

#[test]
fn diary_type_is_read_from_configuration() {
    let cfg = diary_config();

    assert_eq!(get_diary_type(Some(&cfg), &String::from("work")), DiaryType::Hourly);
    assert_eq!(get_diary_type(Some(&cfg), &String::from("my diary")), DiaryType::Daily);
    // unknown diaries and a missing configuration fall back to daily
    assert_eq!(get_diary_type(Some(&cfg), &String::from("other")), DiaryType::Daily);
    assert_eq!(get_diary_type(None, &String::from("work")), DiaryType::Daily);
}

#[test]
fn diary_types_skip_malformed_entries() {
    let cfg = diary_config();
    let diaries = match &cfg {
        Value::Table(t) => match &t[0].1 {
            Value::Table(dt) => &dt[1].1,
            _ => panic!(),
        },
        _ => panic!(),
    };

    let list = get_diary_types(diaries).unwrap();
    assert_eq!(list.len(), 2);
    assert_eq!(list[0].0.as_str(), "my diary");
    assert_eq!(list[0].1, DiaryType::Daily);
    assert_eq!(list[1].0.as_str(), "work");
    assert_eq!(list[1].1, DiaryType::Hourly);

    assert!(get_diary_types(&Value::Int(1)).is_none());
}

#[test]
fn default_diary_name_is_read_from_configuration() {
    let cfg = diary_config();
    assert_eq!(get_default_diary_name(Some(&cfg)).unwrap().as_str(), "my diary");
    assert!(get_default_diary_name(None).is_none());
    assert!(get_default_diary_name(Some(&Value::Bool(true))).is_none());
}

#[test]
fn diary_type_names() {
    assert_eq!(DiaryType::from_name("monthly"), DiaryType::Monthly);
    assert_eq!(DiaryType::from_name("hourly"), DiaryType::Hourly);
    assert_eq!(DiaryType::from_name("minutely"), DiaryType::Minutely);
    assert_eq!(DiaryType::from_name("daily"), DiaryType::Daily);
    assert_eq!(DiaryType::from_name("weekly"), DiaryType::Daily);
}

#[test]
fn diary_errors_carry_their_kind() {
    let e = DiaryError::new(DiaryErrorKind::CannotFindDiary, None);
    assert_eq!(e.err_type(), DiaryErrorKind::CannotFindDiary);
    assert_eq!(note_error_type_as_str(&DiaryErrorKind::CannotFindDiary), "Cannot find diary");
}
