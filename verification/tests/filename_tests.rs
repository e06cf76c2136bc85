use zotero_bridge::filename::{render, sanitize, with_key_suffix, MAX_BASENAME_CHARS};
use zotero_bridge::mirror::{backend_for, MacosWeblocBackend, MirrorBackend, WindowsUrlBackend};
use zotero_bridge::models::{IndexedItem, Platform};

const ILLEGAL_CHARS: &[char] = &['<', '>', ':', '"', '/', '\\', '|', '?', '*'];

fn item(title: &str, creator: &str, year: &str, key: &str) -> IndexedItem {
    IndexedItem {
        title: title.into(),
        primary_creator: creator.into(),
        year: year.into(),
        item_key: key.into(),
        ..Default::default()
    }
}

#[test]
fn default_template_rendering() {
    let i = item("燃气轮机转子动力学研究", "张三", "2024", "N49R8KAQ");
    assert_eq!(
        render("{primary_creator} - {year} - {title} -- {item_key}", &i),
        "张三 - 2024 - 燃气轮机转子动力学研究 -- N49R8KAQ"
    );
}

#[test]
fn missing_year_collapses_separator() {
    let i = item("标题", "张三", "", "KEY12345");
    assert_eq!(
        render("{primary_creator} - {year} - {title} -- {item_key}", &i),
        "张三 - 标题 -- KEY12345"
    );
}

#[test]
fn illegal_characters_replaced() {
    let i = item("a<b>c:d\"e/f\\g|h?i*j", "x", "2024", "K1");
    let name = render("{title} -- {item_key}", &i);
    assert!(!name.chars().any(|c| ILLEGAL_CHARS.contains(&c)));
    assert!(name.ends_with("-- K1"));
}

#[test]
fn reserved_names_prefixed() {
    assert_eq!(sanitize("CON"), "_CON");
    assert_eq!(sanitize("con"), "_con");
    assert_eq!(sanitize("COM1"), "_COM1");
    assert_eq!(sanitize("LPT9"), "_LPT9");
    assert_eq!(sanitize("NORMAL"), "NORMAL");
}

#[test]
fn trailing_dots_and_spaces_removed() {
    assert_eq!(sanitize("name.  "), "name");
    assert_eq!(sanitize("name ..."), "name");
}

#[test]
fn long_titles_truncated_keep_key() {
    let long_title = "长".repeat(500);
    let i = item(&long_title, "张三", "2024", "N49R8KAQ");
    let name = render("{primary_creator} - {year} - {title} -- {item_key}", &i);
    assert!(name.chars().count() <= MAX_BASENAME_CHARS);
    assert!(name.ends_with("-- N49R8KAQ"));
    assert!(name.starts_with("张三 - 2024 - "));
}

#[test]
fn missing_item_key_placeholder_is_appended() {
    let i = item("标题", "张三", "2024", "KEY12345");
    let name = render("{title}", &i);
    assert!(name.ends_with("-- KEY12345"));
}

#[test]
fn sanitize_controls_and_reserved_stems() {
    assert_eq!(sanitize("a\u{7}b"), "a b");
    assert_eq!(sanitize("aux.txt"), "_aux.txt");
    assert_eq!(sanitize("  a  b  "), "a b");
    assert_eq!(sanitize("COM0"), "COM0");
}

#[test]
fn empty_render_falls_back_to_untitled() {
    let i = item("", "", "", "K7");
    assert_eq!(render("{title}{item_key}", &IndexedItem { item_key: String::new(), ..i.clone() }), "untitled -- ");
    assert_eq!(render("{primary_creator} - {year} - {title} -- {item_key}", &i), "K7");
}

#[test]
fn key_suffix_appended_within_budget() {
    assert_eq!(with_key_suffix("【张三】燃气轮机研究", "BBBB0002"), "【张三】燃气轮机研究 -- BBBB0002");
    let long = "x".repeat(300);
    let s = with_key_suffix(&long, "K1");
    assert_eq!(s.chars().count(), MAX_BASENAME_CHARS);
    assert!(s.ends_with(" -- K1"));
    assert_eq!(with_key_suffix("name. ", "K"), "name -- K");
}

#[test]
fn webloc_content_contains_uri() {
    let content = MacosWeblocBackend.build_content("zotero://select/groups/123/items/ABC");
    assert!(content.contains("<string>zotero://select/groups/123/items/ABC</string>"));
    assert!(content.starts_with("<?xml"));
}

#[test]
fn webloc_escapes_markup() {
    let content = MacosWeblocBackend.build_content("a&b<c>");
    assert!(content.contains("<string>a&amp;b&lt;c&gt;</string>"));
    assert!(content.ends_with("</dict>\n</plist>\n"));
}

#[test]
fn url_file_content() {
    let content = WindowsUrlBackend.build_content("zotero://select/library/items/N49R8KAQ");
    assert_eq!(
        content,
        "[InternetShortcut]\r\nURL=zotero://select/library/items/N49R8KAQ\r\n"
    );
}

#[test]
fn backends_by_platform() {
    let w = backend_for(Platform::Windows);
    assert_eq!(w.platform(), Platform::Windows);
    assert_eq!(w.extension(), "url");
    let m = backend_for(Platform::Macos);
    assert_eq!(m.platform(), Platform::Macos);
    assert_eq!(m.extension(), "webloc");
    assert_eq!(w.build_content("u"), "[InternetShortcut]\r\nURL=u\r\n");
}

#[test]
fn every_legacy_name_holds_the_item_key() {
    let long_creator = "王".repeat(400);
    let cases = [
        ("{year}", item("T", "A", "2024", "ABCD2345")),
        ("{title}{item_key}{title}", item("x{item_type}y", "A", "", "ABCD2345")),
        ("---", item("", "", "", "ABCD2345")),
        ("{primary_creator} - {title} -- {item_key}", item("t", &long_creator, "", "ABCD2345")),
        ("CON", item("", "", "", "ABCD2345")),
    ];
    for (template, it) in cases.iter() {
        let name = render(template, it);
        assert!(name.contains("ABCD2345"), "{template} gave {name}");
    }
}

#[test]
fn reserved_names_behind_whitespace_are_prefixed() {
    assert_eq!(sanitize(" CON"), "_CON");
    assert_eq!(sanitize("\u{3000}nul.txt"), "_nul.txt");
    assert_eq!(sanitize("\tLPT1 "), "_LPT1");
    assert_eq!(sanitize(" CONSOLE"), "CONSOLE");
}

#[test]
fn appending_the_key_placeholder_changes_nothing() {
    let it = item("Rotor: dynamics", "Wang", "2021", "ABCD1234");
    for t in ["{title}", "{primary_creator} - {year}", "", "x -- y"] {
        let appended = format!("{} -- {{item_key}}", t);
        assert_eq!(render(t, &it), render(&appended, &it));
    }
}

#[test]
fn rendered_names_are_never_empty_or_unsafe() {
    let it = item("a/b:c?\u{7}", "<x>", "", "KEY-1");
    let bad = |c: char| "<>:\"/\\|?*".contains(c) || c.is_control();
    for t in ["", "{year}", "{title}", "{{title}}", "{{year}}", "a|b {primary_creator}"] {
        let name = zotero_bridge::filename::render_auto(t, &it);
        assert!(!name.is_empty(), "{t}");
        assert!(!name.chars().any(bad), "{t}: {name}");
        let legacy = render(t, &it);
        assert!(!legacy.is_empty());
        assert!(!legacy.chars().any(bad));
    }
}
