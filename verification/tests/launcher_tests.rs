use zotero_bridge::errors::Error;
use zotero_bridge::launcher::{check_launch_uri, is_valid_zotero_uri};
use zotero_bridge::models::{build_select_uri, LibraryKind};

#[test]
fn only_zotero_item_links_are_opened() {
    assert!(is_valid_zotero_uri("zotero://select/library/items/N49R8KAQ"));
    assert!(is_valid_zotero_uri("zotero://open-pdf/library/items/ABCD1234"));
    assert!(!is_valid_zotero_uri("zotero://other"));
    assert!(!is_valid_zotero_uri("https://example.org"));
    assert_eq!(check_launch_uri("zotero://select/groups/1/items/K"), Ok(()));
    assert_eq!(
        check_launch_uri("file:///etc/passwd"),
        Err(Error::Launcher("refusing to open non-zotero URI: file:///etc/passwd".into()))
    );
}

#[test]
fn built_select_uris_are_launchable() {
    for kind in [LibraryKind::User, LibraryKind::Group] {
        let uri = build_select_uri(kind, "123456", "N49R8KAQ");
        assert_eq!(check_launch_uri(&uri), Ok(()));
    }
}
