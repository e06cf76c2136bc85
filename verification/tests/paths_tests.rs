use zotero_bridge::errors::Error;
use zotero_bridge::mirror::mirror_item_key;
use zotero_bridge::models::{parse_library, result_subtitle, search_result_uid, LibraryKind};
use zotero_bridge::paths::{config_source, database_source, split_env_var, tilde_rest, PathSource};

/// Expand every `%NAME%` segment with `lookup`, the way the application
/// does it with the process environment.
fn expand_with(input: &str, lookup: &dyn Fn(&str) -> String) -> String {
    let mut s = input.to_string();
    while let Some((pre, name, post)) = split_env_var(&s) {
        s = format!("{}{}{}", pre, lookup(&name), post);
    }
    s
}

#[test]
fn expands_env_var_segments() {
    let lookup = |name: &str| {
        if name == "ZSB_TEST_DIR" {
            "D:\\Data".to_string()
        } else {
            String::new()
        }
    };
    assert_eq!(
        expand_with("%ZSB_TEST_DIR%\\ZoteroLinks", &lookup),
        "D:\\Data\\ZoteroLinks"
    );
    assert_eq!(expand_with("%UNSET%\\x", &lookup), "\\x");
    assert_eq!(expand_with("100% sure", &lookup), "100% sure");
}

#[test]
fn split_env_var_parts() {
    assert_eq!(
        split_env_var("a%B%c%D%"),
        Some(("a".to_string(), "B".to_string(), "c%D%".to_string()))
    );
    assert_eq!(split_env_var("no vars"), None);
    assert_eq!(split_env_var("one % only"), None);
    assert_eq!(
        split_env_var("%%"),
        Some((String::new(), String::new(), String::new()))
    );
}

#[test]
fn tilde_paths() {
    assert_eq!(tilde_rest("~/Zotero Links"), Some("Zotero Links".to_string()));
    assert_eq!(tilde_rest("~\\\\Docs"), Some("Docs".to_string()));
    assert_eq!(tilde_rest("~"), Some(String::new()));
    assert_eq!(tilde_rest("~user/x"), None);
    assert_eq!(tilde_rest("/home/~"), None);
}

#[test]
fn database_source_cli_wins() {
    assert_eq!(
        database_source(Some("D:\\cli\\a.sqlite"), Some("E:\\env.sqlite"), Some("D:\\cfg\\b.sqlite"), true),
        PathSource::Given("D:\\cli\\a.sqlite".to_string())
    );
}

#[test]
fn database_source_env_then_config_then_portable() {
    assert_eq!(
        database_source(None, Some("E:\\env.sqlite"), Some("D:\\cfg\\b.sqlite"), true),
        PathSource::Given("E:\\env.sqlite".to_string())
    );
    assert_eq!(
        database_source(None, Some(""), Some("%ZSB_TEST_DB%\\index.sqlite"), true),
        PathSource::Configured("%ZSB_TEST_DB%\\index.sqlite".to_string())
    );
    assert_eq!(database_source(None, None, Some("   "), true), PathSource::Portable);
    assert_eq!(database_source(None, None, None, true), PathSource::Portable);
}

#[test]
fn database_source_platform_default() {
    assert_eq!(database_source(None, None, Some(""), false), PathSource::PlatformDefault);
    assert_eq!(database_source(None, None, None, false), PathSource::PlatformDefault);
}

#[test]
fn config_source_priority() {
    assert_eq!(
        config_source(Some("D:\\cli\\config.toml"), Some("E:\\c.toml"), true),
        PathSource::Given("D:\\cli\\config.toml".to_string())
    );
    assert_eq!(
        config_source(None, Some("E:\\c.toml"), true),
        PathSource::Given("E:\\c.toml".to_string())
    );
    assert_eq!(config_source(None, Some(""), true), PathSource::Portable);
    assert_eq!(config_source(None, None, false), PathSource::PlatformDefault);
}

#[test]
fn library_selectors() {
    assert_eq!(parse_library("user"), Ok(("user", "0".to_string())));
    assert_eq!(parse_library("group:123456"), Ok(("group", "123456".to_string())));
    assert_eq!(
        parse_library("groups/1"),
        Err(Error::Config(
            "无效的库参数：groups/1（应为 user 或 group:<id>）".to_string()
        ))
    );
}

#[test]
fn search_hit_uid_and_subtitle() {
    assert_eq!(search_result_uid(LibraryKind::User, "0", "N49R8KAQ"), "library:N49R8KAQ");
    assert_eq!(
        search_result_uid(LibraryKind::Group, "123456", "N49R8KAQ"),
        "groups/123456:N49R8KAQ"
    );
    assert_eq!(result_subtitle("张三", "2024", "机械工程学报"), "张三 · 2024 · 机械工程学报");
    assert_eq!(result_subtitle("", "2024", ""), "2024");
    assert_eq!(result_subtitle("张三", "", "期刊"), "张三 · 期刊");
    assert_eq!(result_subtitle("", "", ""), "");
}

#[test]
fn mirror_file_names_give_item_keys() {
    assert_eq!(
        mirror_item_key("张三 - 2024 - 研究 -- K1.url", "url"),
        Some("K1".to_string())
    );
    assert_eq!(
        mirror_item_key("a -- b -- N49R8KAQ.webloc", "webloc"),
        Some("N49R8KAQ".to_string())
    );
    assert_eq!(mirror_item_key("a -- K1.webloc", "url"), None);
    assert_eq!(mirror_item_key("a -- .url", "url"), None);
    assert_eq!(mirror_item_key("no key.url", "url"), None);
}
