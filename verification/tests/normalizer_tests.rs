use zotero_bridge::dto::{Creator, DeletedValue, ItemData, TagEntry, ZoteroItem};
use zotero_bridge::models::RemoteLibrary;
use zotero_bridge::normalizer::{
    clean_text, container_title, content_hash, extract_year, format_creator, format_creators,
    normalize_item, pick_primary_creator,
};

fn raw_item(key: &str, version: u64, item_type: &str, title: &str) -> ZoteroItem {
    ZoteroItem {
        key: key.into(),
        version,
        data: ItemData {
            item_type: item_type.into(),
            title: title.into(),
            ..Default::default()
        },
    }
}

#[test]
fn year_extraction() {
    assert_eq!(extract_year("2024-03-01"), "2024");
    assert_eq!(extract_year("March 1999"), "1999");
    assert_eq!(extract_year("[2023]"), "2023");
    assert_eq!(extract_year("no date"), "");
    assert_eq!(extract_year("1492"), "");
}

#[test]
fn creator_formatting() {
    let c = Creator {
        creator_type: "author".into(),
        first_name: "Wei".into(),
        last_name: "Wang".into(),
        name: String::new(),
    };
    assert_eq!(format_creator(&c), "Wang, Wei");
    let org = Creator {
        creator_type: "author".into(),
        name: "World Health Organization".into(),
        ..Default::default()
    };
    assert_eq!(format_creator(&org), "World Health Organization");
}

#[test]
fn primary_creator_priority() {
    let editor = Creator {
        creator_type: "editor".into(),
        first_name: "Ed".into(),
        last_name: "Itor".into(),
        ..Default::default()
    };
    let author = Creator {
        creator_type: "author".into(),
        first_name: "Au".into(),
        last_name: "Thor".into(),
        ..Default::default()
    };
    assert_eq!(
        pick_primary_creator(&vec![editor.clone(), author.clone()]),
        "Thor, Au"
    );
    assert_eq!(pick_primary_creator(&vec![editor]), "Itor, Ed");
    assert_eq!(pick_primary_creator(&vec![]), "无作者");
}

#[test]
fn text_cleaning() {
    assert_eq!(clean_text("  hello \n\t world  "), "hello world");
    assert_eq!(clean_text("ｆｕｌｌｗｉｄｔｈ"), "fullwidth");
    assert_eq!(clean_text("a\u{0007}b"), "a b");
}

#[test]
fn filters_excluded_types() {
    let raw = raw_item("K1", 1, "attachment", "");
    assert!(normalize_item(&raw, &RemoteLibrary::user(), 1, None, true, true).is_none());
}

#[test]
fn filters_trashed_items() {
    let mut raw = raw_item("K1", 1, "book", "");
    raw.data.deleted = DeletedValue::Int(1);
    assert!(normalize_item(&raw, &RemoteLibrary::user(), 1, None, true, true).is_none());
    raw.data.deleted = DeletedValue::Bool(true);
    assert!(normalize_item(&raw, &RemoteLibrary::user(), 1, None, true, true).is_none());
    raw.data.deleted = DeletedValue::Int(0);
    assert!(normalize_item(&raw, &RemoteLibrary::user(), 1, None, true, true).is_some());
}

#[test]
fn empty_title_gets_placeholder() {
    let raw = raw_item("K1ABCD", 1, "book", "");
    let item = normalize_item(&raw, &RemoteLibrary::user(), 1, None, true, true).unwrap();
    assert_eq!(item.title, "[无标题] -- K1ABCD");
}

#[test]
fn group_select_uri() {
    let raw = raw_item("K1", 1, "book", "T");
    let group = RemoteLibrary::group("123456", "G");
    let item = normalize_item(&raw, &group, 2, None, true, true).unwrap();
    assert_eq!(item.select_uri, "zotero://select/groups/123456/items/K1");
    assert!(item.raw_json.is_none());
}

#[test]
fn content_hash_changes_with_content() {
    let raw = raw_item("K1", 1, "book", "A");
    let a = normalize_item(&raw, &RemoteLibrary::user(), 1, None, true, true).unwrap();
    let raw2 = raw_item("K1", 2, "book", "B");
    let b = normalize_item(&raw2, &RemoteLibrary::user(), 1, None, true, true).unwrap();
    assert_ne!(a.content_hash, b.content_hash);
}

#[test]
fn content_hash_is_sha256_hex_of_fields() {
    // Nine empty fields, each followed by the 0x1f separator.
    let mut item = zotero_bridge::models::IndexedItem::default();
    assert_eq!(
        content_hash(&item),
        "8c5003ead295143f8a9f28de346194d4da4b16dcaf533ed068f97911ff58f59d"
    );
    item.title = "A".into();
    assert_eq!(
        content_hash(&item),
        "211a0c74ec33ede110ddcf4b0097974ccd047e2728f4272e43ab5c7c8bab7f6c"
    );
}

#[test]
fn full_item_is_normalized() {
    let raw = ZoteroItem {
        key: "N49R8KAQ".into(),
        version: 315,
        data: ItemData {
            item_type: "journalArticle".into(),
            title: "  燃气轮机\t转子动力学研究 ".into(),
            creators: vec![
                Creator {
                    creator_type: "author".into(),
                    first_name: "Wei".into(),
                    last_name: "Wang".into(),
                    ..Default::default()
                },
                Creator {
                    creator_type: "author".into(),
                    name: "World Health Organization".into(),
                    ..Default::default()
                },
            ],
            date: "2024-03-01".into(),
            publication_title: "Journal of Turbomachinery".into(),
            publisher: "ignored".into(),
            tags: vec![
                TagEntry { tag: "仿真".into() },
                TagEntry { tag: "  ".into() },
                TagEntry { tag: "转子".into() },
            ],
            abstract_note: "abstract text".into(),
            extra: "DOI: 10.1234/abc".into(),
            date_modified: "2024-03-02T10:00:00Z".into(),
            ..Default::default()
        },
    };
    let item = normalize_item(
        &raw,
        &RemoteLibrary::user(),
        7,
        Some("{}".into()),
        false,
        true,
    )
    .unwrap();
    assert_eq!(item.library_id, 7);
    assert_eq!(item.item_version, 315);
    assert_eq!(item.title, "燃气轮机 转子动力学研究");
    assert_eq!(item.creators, "Wang, Wei; World Health Organization");
    assert_eq!(item.primary_creator, "Wang, Wei");
    assert_eq!(item.year, "2024");
    assert_eq!(item.container_title, "Journal of Turbomachinery");
    assert_eq!(item.tags, "仿真; 转子");
    assert_eq!(item.abstract_note, "");
    assert_eq!(item.extra, "DOI: 10.1234/abc");
    assert_eq!(item.date_modified.as_deref(), Some("2024-03-02T10:00:00Z"));
    assert_eq!(item.select_uri, "zotero://select/library/items/N49R8KAQ");
    assert_eq!(item.raw_json.as_deref(), Some("{}"));
    assert_eq!(item.content_hash, content_hash(&item));
    assert_eq!(format_creators(&raw.data.creators), item.creators);
    assert_eq!(container_title(&raw.data), "Journal of Turbomachinery");
}
