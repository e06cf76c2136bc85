use zotero_bridge::config::DEFAULT_TEMPLATE;
use zotero_bridge::zotero_prefs::{
    escape_js_string, parse_default_profile, parse_pref, resolve_template, PREF_NAME,
};

#[test]
fn parses_default_profile() {
    let ini = "[Profile0]\nName=a\nIsRelative=1\nPath=Profiles/a.user\n\n\
               [Profile1]\nName=b\nIsRelative=1\nPath=Profiles/b.user\nDefault=1\n";
    assert_eq!(
        parse_default_profile(ini).as_deref(),
        Some("Profiles/b.user")
    );
    let ini2 = "[Profile0]\nName=a\nPath=Profiles/only\n";
    assert_eq!(
        parse_default_profile(ini2).as_deref(),
        Some("Profiles/only")
    );
}

#[test]
fn default_profile_without_profiles_is_none() {
    assert_eq!(parse_default_profile("[General]\nStartWithLastProfile=1\n"), None);
    assert_eq!(parse_default_profile(""), None);
    let crlf = "[Profile0]\r\nPath=P/a\r\nDefault=1\r\n[Profile1]\r\nPath=P/b\r\n";
    assert_eq!(parse_default_profile(crlf).as_deref(), Some("P/a"));
}

#[test]
fn parses_pref_with_escapes() {
    let prefs = r#"// comment
user_pref("extensions.zotero.attachmentRenameTemplate", "{{if itemType == \"book\"}}\n《{{title}}》{{endif}}");
user_pref("other", "x");
"#;
    let v = parse_pref(prefs, PREF_NAME).unwrap();
    assert_eq!(v, "{{if itemType == \"book\"}}\n《{{title}}》{{endif}}");
    assert!(v.contains('\n'));
}

#[test]
fn missing_pref_returns_none() {
    assert!(parse_pref("user_pref(\"a\", \"b\");", PREF_NAME).is_none());
}

#[test]
fn unterminated_pref_returns_none() {
    assert!(parse_pref("user_pref(\"a\", \"b", "a").is_none());
    assert_eq!(parse_pref("user_pref(\"a\", \"b\\tc\");", "a").as_deref(), Some("b\tc"));
}

#[test]
fn resolution_prefers_custom() {
    let custom = "{title} -- {item_key}";
    assert_eq!(resolve_template(custom, None), custom);
    assert_eq!(resolve_template(custom, Some("{{title}}".to_string())), custom);
}

#[test]
fn resolution_falls_back_to_default_without_zotero() {
    assert!(!resolve_template("", None).is_empty());
    assert!(!resolve_template(DEFAULT_TEMPLATE, None).is_empty());
    assert_eq!(resolve_template("", None), DEFAULT_TEMPLATE);
    assert_eq!(resolve_template("   ", Some("{{title}}".into())), "{{title}}");
    assert_eq!(resolve_template(DEFAULT_TEMPLATE, Some("{{title}}".into())), "{{title}}");
}

#[test]
fn escape_then_parse_roundtrips() {
    let value = "a\n\"b\"\\c\td\r";
    let escaped = escape_js_string(value);
    assert_eq!(escaped, "a\\n\\\"b\\\"\\\\c\\td\\r");
    let text = format!("user_pref(\"k\", \"{escaped}\");");
    assert_eq!(parse_pref(&text, "k").as_deref(), Some(value));
}

#[test]
fn blank_zotero_template_counts_as_absent() {
    assert_eq!(resolve_template("", Some(String::new())), DEFAULT_TEMPLATE);
    assert_eq!(resolve_template(DEFAULT_TEMPLATE, Some(" \t".into())), DEFAULT_TEMPLATE);
    assert!(!resolve_template("  ", Some("\n".into())).is_empty());
}
