use zotero_bridge::config::{Config, DEFAULT_TEMPLATE};
use zotero_bridge::models::{build_select_uri, LibraryKind, MirrorOperation, Platform, RemoteLibrary};

#[test]
fn select_uri_user_library() {
    assert_eq!(
        build_select_uri(LibraryKind::User, "0", "N49R8KAQ"),
        "zotero://select/library/items/N49R8KAQ"
    );
}

#[test]
fn select_uri_group_library() {
    assert_eq!(
        build_select_uri(LibraryKind::Group, "123456", "N49R8KAQ"),
        "zotero://select/groups/123456/items/N49R8KAQ"
    );
}

#[test]
fn remote_library_prefixes() {
    assert_eq!(RemoteLibrary::user().api_prefix, "/users/0");
    let g = RemoteLibrary::group("123456", "Turbomachinery");
    assert_eq!(g.api_prefix, "/groups/123456");
    assert_eq!(g.kind, LibraryKind::Group);
}

#[test]
fn library_kind_names_roundtrip() {
    for k in [LibraryKind::User, LibraryKind::Group] {
        assert_eq!(LibraryKind::parse(k.as_str()), Some(k));
    }
    assert_eq!(LibraryKind::parse("users"), None);
    assert_eq!(LibraryKind::parse(""), None);
}

#[test]
fn mirror_operation_names_roundtrip() {
    for op in [
        MirrorOperation::Create,
        MirrorOperation::Replace,
        MirrorOperation::Rename,
        MirrorOperation::Delete,
    ] {
        assert_eq!(MirrorOperation::parse(op.as_str()), Some(op));
    }
    assert_eq!(MirrorOperation::parse("move"), None);
    assert_eq!(Platform::Windows.as_str(), "windows");
    assert_eq!(Platform::Macos.as_str(), "macos");
}

#[test]
fn default_config_values() {
    let cfg = Config::default();
    assert_eq!(cfg.app.poll_interval_seconds, 15);
    assert_eq!(cfg.zotero.api_base, "http://localhost:23119/api");
    assert_eq!(cfg.search.default_limit, 30);
    assert_eq!(cfg.search.maximum_limit, 100);
    assert!(cfg.mirror.windows.template.contains("{item_key}"));
    assert!(cfg.mirror.windows.enabled);
    assert!(!cfg.mirror.macos.enabled);
    assert_eq!(cfg.mirror.macos.directory, "~/Zotero Links");
    assert_eq!(cfg.mirror_for(Platform::Macos).template, DEFAULT_TEMPLATE);
    assert_eq!(cfg.maintenance.retain_logs_days, 14);
}
