use zotero_bridge::models::{FieldScope, Term};
use zotero_bridge::search::{
    build_search_query, fts_escape, like_escape, parse_query, plan_search, split_field, tokenize,
    SqlParam,
};

#[test]
fn tokenizes_words_fields_and_phrases() {
    assert_eq!(
        tokenize("燃气轮机 转子"),
        vec![Term::Text("燃气轮机".into()), Term::Text("转子".into())]
    );
    assert_eq!(
        tokenize("author:Smith  year:2024 tag:仿真 type:journalArticle library:My"),
        vec![
            Term::Field(FieldScope::Author, "Smith".into()),
            Term::Field(FieldScope::Year, "2024".into()),
            Term::Field(FieldScope::Tag, "仿真".into()),
            Term::Field(FieldScope::Type, "journalArticle".into()),
            Term::Field(FieldScope::Library, "My".into()),
        ]
    );
    assert_eq!(tokenize("\"blade cooling\" x"), vec![Term::Phrase("blade cooling".into()), Term::Text("x".into())]);
    assert_eq!(tokenize("AUTHOR:Wang"), vec![Term::Field(FieldScope::Author, "Wang".into())]);
    assert_eq!(tokenize("author: foo:bar"), vec![Term::Text("author:".into()), Term::Text("foo:bar".into())]);
    assert_eq!(tokenize("\"\" \"open"), vec![Term::Phrase("open".into())]);
    assert_eq!(tokenize("   "), vec![]);
}

#[test]
fn splits_known_fields_only() {
    assert_eq!(split_field("year:2024"), Some((FieldScope::Year, "2024".to_string())));
    assert_eq!(split_field("Tag:a:b"), Some((FieldScope::Tag, "a:b".to_string())));
    assert_eq!(split_field("doi:10.1/x"), None);
    assert_eq!(split_field("plain"), None);
}

#[test]
fn query_limit_is_clamped() {
    assert_eq!(parse_query("x", 500, 100).limit, 100);
    assert_eq!(parse_query("x", 0, 100).limit, 1);
    assert_eq!(parse_query("x", 30, 100).limit, 30);
    assert_eq!(build_search_query("x", 7).limit, 7);
}

#[test]
fn escapes_fts_and_like_values() {
    assert_eq!(fts_escape("a\"b"), "a\"\"b");
    assert_eq!(like_escape("50%_a\\"), "50\\%\\_a\\\\");
}

#[test]
fn long_terms_use_fts_and_short_terms_like() {
    let plan = plan_search(&build_search_query("燃气轮机 转子", 30));
    assert!(plan.sql.contains("WHERE items_fts MATCH ? AND l.enabled = 1"));
    assert!(plan.sql.contains(" AND (i.title LIKE '%' || ? || '%' ESCAPE '\\'"));
    assert!(plan.sql.ends_with(" ORDER BY score ASC LIMIT ?"));
    assert_eq!(
        plan.params,
        vec![
            SqlParam::Text("\"燃气轮机\"".into()),
            SqlParam::Text("转子".into()),
            SqlParam::Text("转子".into()),
            SqlParam::Text("转子".into()),
            SqlParam::Text("转子".into()),
            SqlParam::Int(30),
        ]
    );
}

#[test]
fn field_terms_plan_columns_and_equalities() {
    let plan = plan_search(&build_search_query("author:Smith year:2024 转子", 10));
    assert!(plan.sql.contains(" AND i.year = ?"));
    assert_eq!(
        plan.params,
        vec![
            SqlParam::Text("{primary_creator creators} : \"Smith\"".into()),
            SqlParam::Text("转子".into()),
            SqlParam::Text("转子".into()),
            SqlParam::Text("转子".into()),
            SqlParam::Text("转子".into()),
            SqlParam::Text("2024".into()),
            SqlParam::Int(10),
        ]
    );
    let short = plan_search(&build_search_query("year:2024 转子", 10));
    assert!(short.sql.contains("WHERE l.enabled = 1 AND ("));
    assert!(short.sql.ends_with(" ORDER BY i.year DESC, i.title ASC LIMIT ?"));
}

#[test]
fn empty_query_lists_recent_items() {
    let plan = plan_search(&build_search_query("", 0));
    assert!(plan.sql.ends_with("ORDER BY i.updated_at DESC LIMIT ?"));
    assert_eq!(plan.params, vec![SqlParam::Int(1)]);
}

#[test]
fn typed_text_reaches_only_the_bound_values() {
    let hostile = plan_search(&build_search_query("'; DROP TABLE items; --", 30));
    let benign = plan_search(&build_search_query("xy abcd efghi jklmno zz", 30));
    assert_eq!(hostile.sql, benign.sql);
    assert!(!hostile.sql.contains("DROP"));
    let quoted = plan_search(&build_search_query("\" OR 1=1 --", 30));
    assert_eq!(quoted.params[0], SqlParam::Text("\" OR 1=1 --\"".into()));
}
