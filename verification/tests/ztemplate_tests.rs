use zotero_bridge::filename::{render_auto, MAX_BASENAME_CHARS};
use zotero_bridge::models::IndexedItem;
use zotero_bridge::ztemplate::{is_zotero_template, render};

fn item_with_raw(raw: &str, key: &str) -> IndexedItem {
    IndexedItem {
        item_key: key.into(),
        title: "标题".into(),
        item_type: "journalArticle".into(),
        primary_creator: "张三".into(),
        year: "2024".into(),
        raw_json: Some(raw.into()),
        ..Default::default()
    }
}

const RAW_ARTICLE: &str = r#"{"key":"K1","version":1,"data":{
    "itemType":"journalArticle",
    "title":"燃气轮机: 转子/动力学?",
    "date":"2024-03-01",
    "creators":[{"creatorType":"author","firstName":"Wei","lastName":"Wang"}]
}}"#;

#[test]
fn detects_syntax() {
    assert!(is_zotero_template("{{title}}"));
    assert!(!is_zotero_template("{title} -- {item_key}"));
}

#[test]
fn simple_fields_and_conditionals() {
    let i = item_with_raw(RAW_ARTICLE, "K1");
    let t = "{{if itemType == \"journalArticle\"}}J:{{else}}X:{{endif}}{{title}}";
    assert_eq!(render(t, &i), "J:燃气轮机: 转子/动力学?");
}

#[test]
fn elseif_chain_falls_through() {
    let i = item_with_raw(
        r#"{"key":"K2","version":1,"data":{"itemType":"book","title":"T","creators":[],"publisher":"机械工业出版社","edition":"2"}}"#,
        "K2",
    );
    let t = "{{if itemType == \"journalArticle\"}}A{{elseif itemType == \"book\"}}《{{title}}》（{{if edition}}{{edition}}，{{endif}}{{publisher}}）{{else}}E{{endif}}";
    assert_eq!(render(t, &i), "《T》（2，机械工业出版社）");
}

#[test]
fn authors_max_and_initialize() {
    let i = item_with_raw(RAW_ARTICLE, "K1");
    // Default name="family" excludes the given part entirely, so
    // initialize="given" has no effect: surname only (Zotero behavior).
    assert_eq!(
        render("{{authors max=\"1\" initialize=\"given\"}}", &i),
        "Wang"
    );
}

#[test]
fn authors_name_and_initialize_variants() {
    let i = item_with_raw(RAW_ARTICLE, "K1");
    assert_eq!(
        render("{{authors name=\"given-family\" initialize=\"given\"}}", &i),
        "W. Wang"
    );
    assert_eq!(render("{{authors name=\"family-given\"}}", &i), "Wang Wei");
    assert_eq!(
        render(
            "{{authors name=\"given-family\" initialize=\"full\" initialize-with=\"\" name-part-separator=\"\"}}",
            &i
        ),
        "WW"
    );
}

#[test]
fn authors_single_field_verbatim() {
    let i = item_with_raw(
        r#"{"key":"K6","version":1,"data":{"itemType":"book","title":"T","creators":[{"creatorType":"author","name":"张三"}]}}"#,
        "K6",
    );
    assert_eq!(
        render("{{authors max=\"1\" initialize=\"given\"}}", &i),
        "张三"
    );
}

#[test]
fn authors_join_attr() {
    let i = item_with_raw(
        r#"{"key":"K7","version":1,"data":{"itemType":"journalArticle","title":"T","creators":[{"creatorType":"author","firstName":"Wei","lastName":"Wang"},{"creatorType":"author","firstName":"San","lastName":"Zhang"}]}}"#,
        "K7",
    );
    assert_eq!(render("{{authors}}", &i), "Wang, Zhang");
    assert_eq!(render("{{authors join=\" & \"}}", &i), "Wang & Zhang");
}

#[test]
fn date_year_regex() {
    let i = item_with_raw(RAW_ARTICLE, "K1");
    let t = "{{date replaceFrom=\"[^0-9].*\" replaceTo=\"\" regexOpts=\"g\"}}";
    assert_eq!(render(t, &i), "2024");
}

#[test]
fn illegal_char_regex() {
    let i = item_with_raw(RAW_ARTICLE, "K1");
    let t = "{{title replaceFrom='[\\\\/:?*\"<>|]' replaceTo=\"_\" regexOpts=\"g\"}}";
    assert_eq!(render(t, &i), "燃气轮机_ 转子_动力学_");
}

#[test]
fn bare_field_truthiness() {
    let i = item_with_raw(
        r#"{"key":"K3","version":1,"data":{"itemType":"thesis","title":"T","creators":[]}}"#,
        "K3",
    );
    assert_eq!(
        render("{{if publisher}}（{{publisher}}）{{endif}}x", &i),
        "x"
    );
}

#[test]
fn fallback_without_raw_json() {
    let mut i = item_with_raw("{}", "K4");
    i.raw_json = None;
    let t = "【{{authors}}-{{date}}】{{title}}";
    assert_eq!(render(t, &i), "【张三-2024】标题");
}

#[test]
fn nested_conditionals() {
    let i = item_with_raw(
        r#"{"key":"K5","version":1,"data":{"itemType":"document","title":"T","creators":[],"versionNumber":"3"}}"#,
        "K5",
    );
    let t = "{{if itemType == \"document\"}}D{{if versionNumber}}（v{{versionNumber}}）{{endif}}{{else}}E{{endif}}";
    assert_eq!(render(t, &i), "D（v3）");
}

#[test]
fn base_field_mappings() {
    // thesis: 模板里的 publisher 取 type-specific 的 university 字段
    let thesis = item_with_raw(
        r#"{"key":"K8","version":1,"data":{"itemType":"thesis","title":"T","date":"2016","university":"南京航空航天大学","creators":[{"creatorType":"author","name":"王铁成"}]}}"#,
        "K8",
    );
    assert_eq!(
        render(
            "【{{authors max=\"1\" initialize=\"given\"}}-{{date}}】{{title}}{{if publisher}}（{{publisher}}）{{endif}}",
            &thesis
        ),
        "【王铁成-2016】T（南京航空航天大学）"
    );
    // patent: 模板里的 date 取 issueDate（而非 filingDate）
    let patent = item_with_raw(
        r#"{"key":"K9","version":1,"data":{"itemType":"patent","title":"T","number":"CN113568705B","filingDate":"2021-07-23","issueDate":"2024-03-22","creators":[]}}"#,
        "K9",
    );
    assert_eq!(
        render(
            "{{number}} {{title}}{{if date}}（{{date replaceFrom=\"[^0-9].*\" replaceTo=\"\" regexOpts=\"g\"}}）{{endif}}",
            &patent
        ),
        "CN113568705B T（2024）"
    );
    // statute: Zotero legal records may use type-specific fields. Keep the
    // user's Zotero template working even when some fields are absent.
    let statute = item_with_raw(
        r#"{"key":"K10","version":1,"data":{"itemType":"statute","title":"中华人民共和国民法典","date":"2020-05-28","codeNumber":"主席令第四十五号","creators":[]}}"#,
        "K10",
    );
    assert_eq!(
        render(
            "《{{nameOfAct replaceFrom='[\\\\/:?*\"<>|]' replaceTo=\"_\" regexOpts=\"g\"}}》（{{if publicLawNumber}}{{publicLawNumber}}，{{endif}}{{if dateEnacted}}{{dateEnacted replaceFrom=\"[^0-9].*\" replaceTo=\"\" regexOpts=\"g\"}}{{endif}}）",
            &statute
        ),
        "《中华人民共和国民法典》（主席令第四十五号，2020）"
    );
}

#[test]
fn user_template_smoke() {
    let t = "{{if itemType == \"journalArticle\"}}\n【{{authors max=\"1\" initialize=\"given\"}}{{if date}}-{{date replaceFrom=\"[^0-9].*\" replaceTo=\"\" regexOpts=\"g\"}}{{endif}}】{{title}}\n{{else}}\nother\n{{endif}}";
    let i = item_with_raw(RAW_ARTICLE, "K1");
    assert_eq!(render(t, &i), "【Wang-2024】燃气轮机: 转子/动力学?");
}

#[test]
fn render_auto_uses_zotero_syntax_and_sanitizes() {
    let i = item_with_raw(RAW_ARTICLE, "K1");
    assert_eq!(render_auto("{{title}}", &i), "燃气轮机_ 转子_动力学_");
    assert_eq!(render_auto("{title} -- {item_key}", &i), "标题 -- K1");
}

#[test]
fn render_auto_empty_result_falls_back_to_untitled() {
    let i = item_with_raw(r#"{"key":"K1","version":1,"data":{"title":""}}"#, "K1");
    assert_eq!(render_auto("{{publisher}}", &i), "untitled -- K1");
}

#[test]
fn render_auto_cuts_long_zotero_names() {
    let long = "长".repeat(300);
    let raw = format!(r#"{{"key":"K1","version":1,"data":{{"title":"{long}"}}}}"#);
    let i = item_with_raw(&raw, "K1");
    let name = render_auto("{{title}}", &i);
    assert_eq!(name.chars().count(), MAX_BASENAME_CHARS);
}

#[test]
fn invalid_regex_is_replaced_as_text() {
    let i = item_with_raw(r#"{"key":"K1","version":1,"data":{"title":"a(b(c"}}"#, "K1");
    assert_eq!(render("{{title replaceFrom=\"(\" replaceTo=\"-\" regexOpts=\"g\"}}", &i), "a-b-c");
    assert_eq!(render("{{title replaceFrom=\"(\" replaceTo=\"-\"}}", &i), "a-b(c");
}

#[test]
fn number_fields_render_as_text() {
    let i = item_with_raw(r#"{"key":"K1","version":1,"data":{"volume":12}}"#, "K1");
    assert_eq!(render("v{{volume}}", &i), "v12");
}

#[test]
fn authors_max_and_year_field() {
    let i = item_with_raw(
        r#"{"key":"K7","version":1,"data":{"date":"2019-05","creators":[{"creatorType":"author","firstName":"Wei","lastName":"Wang"},{"creatorType":"editor","lastName":"Li"},{"creatorType":"author","firstName":"San","lastName":"Zhang"}]}}"#,
        "K7",
    );
    assert_eq!(render("{{authors max=\"1\"}} {{year}}", &i), "Wang 2019");
    assert_eq!(render("{{editors}}", &i), "Li");
    assert_eq!(render("{{if itemType != \"book\"}}nb{{endif}}", &i), "nb");
}

#[test]
fn non_text_values_and_bad_json_fall_back() {
    let i = item_with_raw(
        r#"{"key":"K1","version":1,"data":{"title":true,"volume":null,"extra":["x"],"creators":{"a":1}}}"#,
        "K1",
    );
    assert_eq!(render("{{title}}|{{volume}}|{{extra}}", &i), "标题||");
    assert_eq!(render("{{authors}}", &i), "张三");
    let bad = item_with_raw("{not json", "K1");
    assert_eq!(render("{{title}}", &bad), "标题");
    let named = item_with_raw(
        r#"{"data":{"creators":[{"creatorType":"author","name":"  CERN  "},{"creatorType":"author","lastName":7}]}}"#,
        "K1",
    );
    assert_eq!(render("{{authors}}", &named), "CERN");
}
