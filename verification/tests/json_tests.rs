use zotero_bridge::json::{get_member, str_value, text_value, Json};

fn object() -> Json {
    Json::Object(vec![
        ("title".to_string(), Json::Str("T".to_string())),
        ("volume".to_string(), Json::Number("12".to_string())),
        ("flag".to_string(), Json::Bool(true)),
        ("title".to_string(), Json::Str("second".to_string())),
    ])
}

#[test]
fn member_lookup_takes_the_first_entry() {
    let o = object();
    assert!(matches!(get_member(&o, "title"), Some(Json::Str(s)) if s == "T"));
    assert!(get_member(&o, "missing").is_none());
    assert!(get_member(&Json::Array(vec![]), "title").is_none());
}

#[test]
fn text_of_strings_and_numbers_only() {
    let o = object();
    assert_eq!(text_value(get_member(&o, "title").unwrap()), Some("T".to_string()));
    assert_eq!(text_value(get_member(&o, "volume").unwrap()), Some("12".to_string()));
    assert_eq!(text_value(get_member(&o, "flag").unwrap()), None);
    assert_eq!(text_value(&Json::Null), None);
    assert_eq!(str_value(get_member(&o, "volume")), None);
    assert_eq!(str_value(get_member(&o, "title")), Some("T".to_string()));
    assert_eq!(str_value(None), None);
}
