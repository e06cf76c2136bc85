use zotero_bridge::prefs_backup::{
    apply_mappings, backup_from_text, parse_prefs, pref_line, preview_entries, reclassify,
    restore_into_text, save_into_text, scan_text, PathMapping, PrefEntry, PrefKind, PrefScope,
    PrefValue, PrefsBackup, RestoreOptions,
};

fn value_is(v: &PrefValue, expected: &PrefValue) -> bool {
    v.same_as(expected)
}

#[test]
fn parses_and_classifies_prefs() {
    let text = r#"
user_pref("extensions.zotero.attachmentRenameTemplate", "{{title}}");
user_pref("extensions.zotero.somePlugin.outputPath", "D:\\Data\\Zotero");
user_pref("extensions.zotero.sync.server.username", "secret-user");
user_pref("browser.startup.page", 1);
"#;
    let prefs = parse_prefs(text);
    assert_eq!(prefs.len(), 4);
    assert_eq!(prefs[0].entry.kind, PrefKind::Portable);
    assert_eq!(prefs[1].entry.kind, PrefKind::Path);
    assert_eq!(prefs[1].entry.scope, PrefScope::Plugin);
    assert_eq!(prefs[1].entry.plugin.as_deref(), Some("somePlugin"));
    assert_eq!(prefs[2].entry.kind, PrefKind::Sensitive);
    assert!(value_is(&prefs[3].entry.value, &PrefValue::Integer(1)));
    assert_eq!(prefs[3].line_index, 4);
}

#[test]
fn builds_pref_groups() {
    let text = r#"
user_pref("extensions.zotero.attachmentRenameTemplate", "{{title}}");
user_pref("extensions.zotero.somePlugin.outputPath", "D:\\Data\\Zotero");
user_pref("extensions.zotero.somePlugin.enabled", true);
user_pref("browser.startup.page", 1);
"#;
    let scan = scan_text("p".into(), "p/prefs.js".into(), text);
    let get = |id: &str| scan.groups.iter().find(|g| g.id == id).unwrap();
    assert_eq!(get("zotero").total, 1);
    assert_eq!(get("plugin:somePlugin").total, 2);
    assert_eq!(get("plugin:somePlugin").paths, 1);
    assert_eq!(get("browser").total, 1);
    let ids: Vec<&str> = scan.groups.iter().map(|g| g.id.as_str()).collect();
    assert_eq!(ids, vec!["browser", "plugin:somePlugin", "zotero"]);
    assert_eq!(get("plugin:somePlugin").label, "插件：somePlugin");
}

#[test]
fn path_mapping_updates_prefix() {
    let entry = PrefEntry {
        key: "extensions.x.path".into(),
        value: PrefValue::String("D:\\Data\\Docs\\Zotero".into()),
        kind: PrefKind::Path,
        scope: PrefScope::Plugin,
        plugin: Some("x".into()),
    };
    let mapped = apply_mappings(
        entry,
        &vec![PathMapping {
            from: "D:\\Data".into(),
            to: "E:\\Archive".into(),
        }],
    );
    assert!(value_is(
        &mapped.value,
        &PrefValue::String("E:\\Archive\\Docs\\Zotero".into())
    ));
}

#[test]
fn path_mapping_ignores_case_and_blank_mappings() {
    let entry = PrefEntry {
        key: "extensions.x.path".into(),
        value: PrefValue::String("d:\\data\\Docs".into()),
        kind: PrefKind::Path,
        scope: PrefScope::Plugin,
        plugin: Some("x".into()),
    };
    let mapped = apply_mappings(
        entry,
        &vec![
            PathMapping { from: "  ".into(), to: "X".into() },
            PathMapping { from: "D:\\Data".into(), to: "E:".into() },
        ],
    );
    assert!(value_is(&mapped.value, &PrefValue::String("E:\\Docs".into())));
}

#[test]
fn writes_js_pref_line_with_escaped_string() {
    assert_eq!(
        pref_line(
            "extensions.x.template",
            &PrefValue::String("a\n\"b\"".into())
        ),
        "user_pref(\"extensions.x.template\", \"a\\n\\\"b\\\"\");"
    );
    assert_eq!(pref_line("k", &PrefValue::Integer(-42)), "user_pref(\"k\", -42);");
    assert_eq!(pref_line("k", &PrefValue::Bool(false)), "user_pref(\"k\", false);");
    assert_eq!(pref_line("k", &PrefValue::Float("1.5".into())), "user_pref(\"k\", 1.5);");
}

#[test]
fn pref_lines_read_back() {
    let values = vec![
        PrefValue::Bool(true),
        PrefValue::Integer(i64::MIN),
        PrefValue::Integer(7),
        PrefValue::Float("-0.25e3".into()),
        PrefValue::String("C:\\x \"y\"\t".into()),
    ];
    for v in values {
        let line = pref_line("a.b", &v);
        let parsed = parse_prefs(&line);
        assert_eq!(parsed.len(), 1);
        assert_eq!(parsed[0].entry.key, "a.b");
        assert!(value_is(&parsed[0].entry.value, &v), "{line}");
    }
}

#[test]
fn rejects_malformed_lines() {
    let text = "user_pref(\"a\", 1.2.3);\nuser_pref(\"b\" 1);\nuser_pref(\"c\", 99999999999999999999);\nuser_pref(\"d\", \"open);\npref(\"e\", 1);\nuser_pref(\"f\", 3);";
    let prefs = parse_prefs(text);
    assert_eq!(prefs.len(), 1);
    assert_eq!(prefs[0].entry.key, "f");
    assert_eq!(prefs[0].line_index, 5);
}

#[test]
fn classifies_common_zotero_native_prefixes() {
    let text = r#"
user_pref("extensions.zotero.annotations.noteTemplates.title", "x");
user_pref("extensions.zotero.export.quickCopy.setting", "x");
user_pref("extensions.zotero.import.charset", "utf-8");
user_pref("extensions.zotero.databaseSchema", 44);
user_pref("extensions.zotero.keys.copySelectedItemsToClipboard", "x");
user_pref("extensions.zotero.sourceList.persist", "x");
user_pref("extensions.zotero.tabs.selectedID", "x");
user_pref("extensions.zotero.tagSelector.sortMode", "x");
user_pref("extensions.zotero.automaticTags", true);
user_pref("extensions.zotero.automaticSnapshots", true);
user_pref("extensions.zotero.saveRelativeAttachmentPath", true);
user_pref("extensions.zotero.httpServer.enabled", true);
user_pref("extensions.zotero.recentSaveTargets", "[]");
user_pref("extensions.zotero.newItemTypeMRU", "book");
user_pref("extensions.zotero.postUpgradeBannerVersionShown", 1);
user_pref("extensions.zotero.lastRenameAssociatedFile", 1);
user_pref("extensions.zotero.lastSelectedPrefPane", "advanced");
user_pref("extensions.zoteroWinWordIntegration.version", "1");
"#;
    let prefs = parse_prefs(text);
    assert!(prefs
        .iter()
        .all(|p| p.entry.scope == PrefScope::Zotero || p.entry.scope == PrefScope::Browser));
    assert!(!prefs.iter().any(|p| p.entry.scope == PrefScope::Plugin));
}

#[test]
fn classifies_zotero_ten_framework_prefixes_as_non_plugins() {
    let text = r#"
user_pref("extensions.pendingOperations", false);
user_pref("extensions.systemAddonSet", "{}");
user_pref("extensions.ui.dictionary.hidden", true);
user_pref("extensions.webextensions.uuids", "{}");
user_pref("extensions.zotero.secondarySort.title", 1);
user_pref("extensions.zotero.showAttachmentFilenames", true);
user_pref("extensions.zotero.night.enabled", true);
"#;
    let prefs = parse_prefs(text);
    for pref in prefs.iter().filter(|p| p.entry.key.contains("night")) {
        assert_eq!(pref.entry.scope, PrefScope::Plugin);
        assert_eq!(pref.entry.plugin.as_deref(), Some("night"));
    }
    for pref in prefs.iter().filter(|p| !p.entry.key.contains("night")) {
        assert_ne!(pref.entry.scope, PrefScope::Plugin, "{}", pref.entry.key);
        assert!(pref.entry.plugin.is_none(), "{}", pref.entry.key);
    }
}

#[test]
fn path_detection_rejects_non_path_values_with_path_like_keys() {
    let text = r#"
user_pref("extensions.zotero.export.bibliographySettings", "{\"mode\":\"bibliography\",\"method\":\"copy-to-clipboard\"}");
user_pref("extensions.zotero.export.lastLocale", "en-US");
user_pref("extensions.zotero.export.lastStyle", "http://www.zotero.org/styles/elsevier-harvard");
user_pref("extensions.zotero.export.quickCopy.setting", "bibliography=http://www.zotero.org/styles/apa");
user_pref("extensions.zotero.lastViewedFolder", "L1");
user_pref("extensions.zotero.secondarySort.archiveLocation", "itemType");
user_pref("extensions.zotero.zoteroattanger.filetypes", "pdf,djvu,epub,doc,docx,ppt,pptx,xls,xlsx");
user_pref("extensions.zotero.zoteroattanger.dest_dir", "D:\\OneDrive\\Obsidian\\附件\\Zotero\\PDF");
"#;
    let prefs = parse_prefs(text);
    let paths: Vec<_> = prefs
        .iter()
        .filter(|p| p.entry.kind == PrefKind::Path)
        .map(|p| p.entry.key.as_str())
        .collect();
    assert_eq!(paths, vec!["extensions.zotero.zoteroattanger.dest_dir"]);
}

#[test]
fn loading_backup_reclassifies_stale_path_kinds() {
    let mut backup = PrefsBackup {
        format_version: 1,
        app: "Zotero Bridge".into(),
        created_at: "test".into(),
        profile: "test".into(),
        prefs: vec![
            PrefEntry {
                key: "extensions.zotero.export.lastLocale".into(),
                value: PrefValue::String("en-US".into()),
                kind: PrefKind::Path,
                scope: PrefScope::Zotero,
                plugin: None,
            },
            PrefEntry {
                key: "extensions.zotero.zoteroattanger.dest_dir".into(),
                value: PrefValue::String("D:\\OneDrive\\Zotero\\PDF".into()),
                kind: PrefKind::Portable,
                scope: PrefScope::Plugin,
                plugin: Some("zoteroattanger".into()),
            },
        ],
        skipped: vec![],
    };
    reclassify(&mut backup);
    assert_eq!(backup.prefs[0].kind, PrefKind::Portable);
    assert_eq!(backup.prefs[1].kind, PrefKind::Path);
}

#[test]
fn saving_current_entries_updates_deletes_and_keeps_sensitive_in_scope() {
    let text = r#"user_pref("extensions.zotero.keys.copySelectedItemsToClipboard", "old");
user_pref("extensions.zotero.somePlugin.enabled", true);
user_pref("extensions.zotero.sync.server.username", "secret-user");
"#;
    let (saved, report) = save_into_text(
        text,
        &vec![
            PrefEntry {
                key: "extensions.zotero.keys.copySelectedItemsToClipboard".into(),
                value: PrefValue::String("new".into()),
                kind: PrefKind::Portable,
                scope: PrefScope::Zotero,
                plugin: None,
            },
            PrefEntry {
                key: "extensions.zotero.sync.server.username".into(),
                value: PrefValue::String("changed-user".into()),
                kind: PrefKind::Sensitive,
                scope: PrefScope::Zotero,
                plugin: None,
            },
        ],
        "prefs.js.1.bak".into(),
    );
    assert_eq!(report.modified, 2);
    assert_eq!(report.deleted, 1);
    assert_eq!(report.added, 0);
    assert_eq!(report.applied, 3);
    assert!(saved.contains("copySelectedItemsToClipboard\", \"new\""));
    assert!(!saved.contains("somePlugin.enabled"));
    assert!(saved.contains("sync.server.username\", \"changed-user\""));
    assert!(saved.ends_with(";\n"));
}

#[test]
fn saving_appends_new_entries_sorted() {
    let text = "user_pref(\"a\", 1);";
    let entries = vec![
        PrefEntry {
            key: "z".into(),
            value: PrefValue::Integer(2),
            kind: PrefKind::Portable,
            scope: PrefScope::Unknown,
            plugin: None,
        },
        PrefEntry {
            key: "a".into(),
            value: PrefValue::Integer(1),
            kind: PrefKind::Portable,
            scope: PrefScope::Unknown,
            plugin: None,
        },
        PrefEntry {
            key: "m".into(),
            value: PrefValue::Bool(true),
            kind: PrefKind::Portable,
            scope: PrefScope::Unknown,
            plugin: None,
        },
    ];
    let (saved, report) = save_into_text(text, &entries, "b".into());
    assert_eq!(
        saved,
        "user_pref(\"a\", 1);\n\n// Zotero Bridge saved preferences\nuser_pref(\"m\", true);\nuser_pref(\"z\", 2);\n"
    );
    assert_eq!((report.added, report.unchanged, report.applied), (2, 1, 2));
}

#[test]
fn restore_merges_and_skips_paths() {
    let text = "user_pref(\"a\", 1);\nuser_pref(\"p\", \"D:\\\\old\");\n";
    let entries = vec![
        PrefEntry {
            key: "a".into(),
            value: PrefValue::Integer(5),
            kind: PrefKind::Portable,
            scope: PrefScope::Unknown,
            plugin: None,
        },
        PrefEntry {
            key: "p".into(),
            value: PrefValue::String("D:\\new".into()),
            kind: PrefKind::Path,
            scope: PrefScope::Unknown,
            plugin: None,
        },
        PrefEntry {
            key: "b".into(),
            value: PrefValue::String("x".into()),
            kind: PrefKind::Portable,
            scope: PrefScope::Unknown,
            plugin: None,
        },
    ];
    let opts = RestoreOptions { restore_paths: false, mappings: vec![] };
    let (out, report) = restore_into_text(text, &entries, &opts, "bak".into());
    assert_eq!(
        out,
        "user_pref(\"a\", 5);\nuser_pref(\"p\", \"D:\\\\old\");\n\n// Zotero Bridge restored preferences\nuser_pref(\"b\", \"x\");\n"
    );
    assert_eq!(
        (report.applied, report.added, report.modified, report.unchanged, report.skipped_paths),
        (2, 1, 1, 0, 1)
    );
    assert_eq!(report.backup_file, "bak");
    let preview = preview_entries("label", text, &entries, &opts);
    assert_eq!(
        (preview.will_add, preview.will_modify, preview.unchanged, preview.skipped_paths),
        (1, 1, 0, 1)
    );
    assert_eq!(preview.path_items.len(), 1);
    assert_eq!(preview.backup_items, 3);

    let with_paths = RestoreOptions {
        restore_paths: true,
        mappings: vec![PathMapping { from: "D:\\".into(), to: "E:\\".into() }],
    };
    let (out2, report2) = restore_into_text(text, &entries, &with_paths, "bak".into());
    assert!(out2.contains("user_pref(\"p\", \"E:\\\\new\");"));
    assert_eq!(report2.modified, 2);
}

#[test]
fn scan_and_backup_include_sensitive_prefs() {
    let text = r#"user_pref("extensions.zotero.sync.server.username", "secret-user");
user_pref("extensions.zotero.keys.copySelectedItemsToClipboard", "x");
"#;
    let scan = scan_text("profile".into(), "profile/prefs.js".into(), text);
    assert_eq!(scan.total, 2);
    assert_eq!(scan.exportable, 2);
    assert_eq!(scan.sensitive, 1);
    assert!(scan
        .prefs
        .iter()
        .any(|p| p.key == "extensions.zotero.sync.server.username"));
    let backup = backup_from_text("profile".into(), "now".into(), text);
    assert_eq!(backup.prefs.len(), 2);
    assert!(backup.skipped.is_empty());
    assert_eq!(backup.format_version, 1);
    assert_eq!(backup.app, "Zotero Bridge");
}

#[test]
fn restore_keeps_lines_the_backup_does_not_name() {
    let text = "// Mozilla User Preferences\nuser_pref(\"a\", 1);\nuser_pref(\"b\", \"x\");\n\nuser_pref(\"c\", true);\n";
    let entries = vec![PrefEntry {
        key: "b".into(),
        value: PrefValue::String("y".into()),
        kind: PrefKind::Unknown,
        scope: PrefScope::Unknown,
        plugin: None,
    }];
    let opts = RestoreOptions { restore_paths: true, mappings: vec![] };
    let (out, report) = restore_into_text(text, &entries, &opts, "bak".into());
    let before: Vec<&str> = text.lines().collect();
    let after: Vec<&str> = out.lines().collect();
    assert_eq!(after.len(), before.len());
    assert_eq!(after[0], before[0]);
    assert_eq!(after[1], before[1]);
    assert_eq!(after[2], "user_pref(\"b\", \"y\");");
    assert_eq!(after[3], before[3]);
    assert_eq!(after[4], before[4]);
    assert_eq!((report.applied, report.modified, report.added), (1, 1, 0));
}

#[test]
fn restoring_own_backup_changes_nothing() {
    let text = "// Mozilla User Preferences\n\nuser_pref(\"a\", 1);\nuser_pref(\"extensions.zotero.dataDir\", \"D:\\\\Zotero\");\nuser_pref(\"c\", \"x\\\"y\");\nuser_pref(\"f\", 1.5);\n";
    let backup = backup_from_text("p".into(), "t".into(), text);
    for restore_paths in [false, true] {
        let opts = RestoreOptions { restore_paths, mappings: vec![] };
        let (out, report) = restore_into_text(text, &backup.prefs, &opts, "bak".into());
        assert_eq!(out, text);
        assert_eq!((report.applied, report.added, report.modified), (0, 0, 0));
        let preview = preview_entries("b", text, &backup.prefs, &opts);
        assert_eq!(
            (preview.will_add, preview.will_modify, preview.unchanged, preview.skipped_paths),
            (report.added, report.modified, report.unchanged, report.skipped_paths)
        );
    }
}

#[test]
fn saving_unedited_entries_changes_nothing() {
    let text = "// Mozilla User Preferences\nuser_pref(\"b\", false);\nuser_pref(\"a\", -3);\n\nuser_pref(\"s\", \"x\\\\y\");\n";
    let backup = backup_from_text("p".into(), "t".into(), text);
    let (out, report) = save_into_text(text, &backup.prefs, "bak".into());
    assert_eq!(out, text);
    assert_eq!(
        (report.applied, report.added, report.modified, report.deleted, report.unchanged),
        (0, 0, 0, 0, 3)
    );
}
