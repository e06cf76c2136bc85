use zotero_bridge::config::Config;
use zotero_bridge::dto::{ItemData, VersionResponse, ZoteroItem};
use zotero_bridge::engine::{
    commit_library_changes, enabled_platforms, instance_cleanup_jobs, instance_switch, key_batches,
    library_included, missing_keys, needs_full_sync, plan_mirror_jobs, plan_refresh,
    refresh_names, resolve_server_id, settle_version, short_id, unstable_error,
    versions_unavailable, MirrorTarget, StoredItem, BATCH_SIZE,
};
use zotero_bridge::errors::Error;
use zotero_bridge::filename;
use zotero_bridge::models::{IndexedItem, LibraryKind, MirrorOperation, Platform, RemoteLibrary};

/// Renders identically to the built-in default but differs as a string.
const TEST_TEMPLATE: &str = "{primary_creator} - {year} - {title}{container_title} -- {item_key}";

fn windows_target(template: &str) -> Vec<MirrorTarget> {
    vec![MirrorTarget {
        platform: Platform::Windows,
        template: template.into(),
        dir: "/tmp/zsb-test-mirrors".into(),
    }]
}

fn item(key: &str, creator: &str) -> IndexedItem {
    IndexedItem {
        item_key: key.into(),
        primary_creator: creator.into(),
        year: "2024".into(),
        title: "燃气轮机研究".into(),
        select_uri: format!("zotero://select/library/items/{key}"),
        ..Default::default()
    }
}

#[test]
fn plans_create_rename_delete_jobs() {
    let targets = windows_target(TEST_TEMPLATE);
    let mut upserts = vec![item("NEW00001", "张三"), item("CHG00002", "李四")];
    let existing = vec![
        (
            "CHG00002".to_string(),
            "王五 - 2024 - 燃气轮机研究 -- CHG00002".to_string(),
        ),
        ("DEL00003".to_string(), "赵六 - 2023 - 旧文 -- DEL00003".to_string()),
    ];
    let jobs = plan_mirror_jobs(&targets, &mut upserts, &vec!["DEL00003".into()], &existing);
    assert_eq!(jobs.len(), 3);
    assert!(jobs.iter().any(|j| j.operation == MirrorOperation::Create
        && j.new_path.as_ref().unwrap().contains("NEW00001.url")));
    assert!(jobs.iter().any(|j| j.operation == MirrorOperation::Rename
        && j.old_path.as_ref().unwrap().contains("王五")
        && j.new_path.as_ref().unwrap().contains("李四")));
    assert!(jobs.iter().any(|j| j.operation == MirrorOperation::Delete
        && j.old_path.as_ref().unwrap().contains("DEL00003")));
}

#[test]
fn no_job_when_filename_unchanged() {
    let targets = windows_target(TEST_TEMPLATE);
    let it = item("SAME0001", "张三");
    let existing = vec![("SAME0001".to_string(), filename::render(TEST_TEMPLATE, &it))];
    let jobs = plan_mirror_jobs(&targets, &mut vec![it], &vec![], &existing);
    assert!(jobs.is_empty());
}

#[test]
fn disabled_mirrors_plan_nothing() {
    let mut cfg = Config::default();
    cfg.mirror.windows.enabled = false;
    cfg.mirror.macos.enabled = false;
    assert!(enabled_platforms(&cfg).is_empty());
    let mut upserts = vec![item("K1", "张三")];
    let jobs = plan_mirror_jobs(&vec![], &mut upserts, &vec![], &vec![]);
    assert!(jobs.is_empty());
    assert!(upserts[0].mirror_filename.is_none());
}

#[test]
fn zotero_template_collisions_get_key_suffix() {
    let targets = windows_target("【{{authors}}】{{title}}");
    let mut upserts = vec![item("AAAA0001", "张三"), item("BBBB0002", "张三")];
    let jobs = plan_mirror_jobs(&targets, &mut upserts, &vec![], &vec![]);
    assert_eq!(upserts[0].mirror_filename.as_deref(), Some("【张三】燃气轮机研究"));
    assert_eq!(
        upserts[1].mirror_filename.as_deref(),
        Some("【张三】燃气轮机研究 -- BBBB0002")
    );
    assert_eq!(jobs.len(), 2);
}

#[test]
fn existing_names_of_other_items_count_as_taken() {
    let targets = windows_target("【{{authors}}】{{title}}");
    let mut upserts = vec![item("BBBB0002", "张三")];
    let existing = vec![("AAAA0001".to_string(), "【张三】燃气轮机研究".to_string())];
    let jobs = plan_mirror_jobs(&targets, &mut upserts, &vec![], &existing);
    assert_eq!(
        upserts[0].mirror_filename.as_deref(),
        Some("【张三】燃气轮机研究 -- BBBB0002")
    );
    assert_eq!(jobs.len(), 1);
    assert_eq!(jobs[0].operation, MirrorOperation::Create);
}

#[test]
fn both_platforms_get_jobs_in_order() {
    let targets = vec![
        MirrorTarget {
            platform: Platform::Windows,
            template: TEST_TEMPLATE.into(),
            dir: "/w".into(),
        },
        MirrorTarget {
            platform: Platform::Macos,
            template: "ignored".into(),
            dir: "/m".into(),
        },
    ];
    let mut upserts = vec![item("K1", "张三")];
    let jobs = plan_mirror_jobs(&targets, &mut upserts, &vec![], &vec![]);
    assert_eq!(jobs.len(), 2);
    assert_eq!(jobs[0].platform, Platform::Windows);
    assert_eq!(
        jobs[0].new_path.as_deref(),
        Some("/w/张三 - 2024 - 燃气轮机研究 -- K1.url")
    );
    assert_eq!(jobs[1].platform, Platform::Macos);
    assert_eq!(
        jobs[1].new_path.as_deref(),
        Some("/m/张三 - 2024 - 燃气轮机研究 -- K1.webloc")
    );
    assert!(jobs[1].content.as_ref().unwrap().contains("zotero://select/library/items/K1"));
}

#[test]
fn refresh_renames_changed_and_rewrites_missing() {
    let targets = windows_target(TEST_TEMPLATE);
    let stored = |key: &str, creator: &str, name: &str| {
        let mut i = item(key, creator);
        i.mirror_filename = Some(name.into());
        i
    };
    let b_rendered = filename::render_auto(TEST_TEMPLATE, &item("BBBB0002", "李四"));
    let items = vec![
        stored("AAAA0001", "张三", "旧名字 -- AAAA0001"),
        stored("BBBB0002", "李四", &b_rendered),
    ];
    let names = refresh_names(TEST_TEMPLATE, &items);
    assert_eq!(names[0], "张三 - 2024 - 燃气轮机研究 -- AAAA0001");
    assert_eq!(names[1], "李四 - 2024 - 燃气轮机研究 -- BBBB0002");
    // Only A's (stale) file exists: B's file under its current name is missing.
    let plan = plan_refresh(&targets, &items, &names, &vec![vec![false, false]]);
    assert_eq!(plan.report.renamed, 1);
    assert_eq!(plan.report.rewritten, 1);
    assert_eq!(plan.report.unchanged, 1);
    assert_eq!(plan.upserts.len(), 1);
    assert_eq!(plan.upserts[0].mirror_filename.as_deref(), Some(names[0].as_str()));
    assert_eq!(plan.jobs[0].operation, MirrorOperation::Rename);
    assert!(plan.jobs[0].old_path.as_ref().unwrap().ends_with("旧名字 -- AAAA0001.url"));
    assert_eq!(plan.jobs[1].operation, MirrorOperation::Create);

    // Second refresh, after the first was applied and the files written.
    let applied = vec![plan.upserts[0].clone(), items[1].clone()];
    let names2 = refresh_names(TEST_TEMPLATE, &applied);
    let plan2 = plan_refresh(&targets, &applied, &names2, &vec![vec![true, true]]);
    assert_eq!((plan2.report.renamed, plan2.report.rewritten), (0, 0));
    assert!(plan2.jobs.is_empty());
    assert!(plan2.upserts.is_empty());
}

#[test]
fn instance_change_deletes_old_files() {
    let targets = windows_target(TEST_TEMPLATE);
    let jobs = instance_cleanup_jobs(&targets, &vec!["a".into(), "b".into()]);
    assert_eq!(jobs.len(), 2);
    assert!(jobs.iter().all(|j| j.operation == MirrorOperation::Delete && j.new_path.is_none()));
    assert_eq!(jobs[1].old_path.as_deref(), Some("/tmp/zsb-test-mirrors/b.url"));
    assert!(instance_cleanup_jobs(&targets, &vec![]).is_empty());
}

#[test]
fn batch_boundary_50_keys() {
    let keys: Vec<String> = (0..101).map(|i| format!("K{i:03}")).collect();
    let batches = key_batches(&keys, BATCH_SIZE);
    assert_eq!(batches.len(), 3);
    assert_eq!(batches[0].len(), 50);
    assert_eq!(batches[1].len(), 50);
    assert_eq!(batches[2], vec!["K100".to_string()]);
    assert_eq!(batches.concat(), keys);
    assert!(key_batches(&vec![], BATCH_SIZE).is_empty());
    assert_eq!(key_batches(&keys[..50].to_vec(), BATCH_SIZE).len(), 1);
}

#[test]
fn version_settling() {
    let v = vec![("A".to_string(), 7u64), ("B".to_string(), 9)];
    assert_eq!(settle_version(&vec![8, 0, 8], &v, 3), Some(9));
    assert_eq!(settle_version(&vec![12, 12], &v, 3), Some(12));
    assert_eq!(settle_version(&vec![0, 0], &vec![], 5), Some(5));
    assert_eq!(settle_version(&vec![8, 9], &v, 3), None);
    let unavailable = VersionResponse {
        versions: vec![("A".into(), 0)],
        last_modified_version: 0,
    };
    assert!(versions_unavailable(&unavailable));
    let available = VersionResponse { versions: v, last_modified_version: 0 };
    assert!(!versions_unavailable(&available));
}

#[test]
fn full_scan_deletions() {
    let local = vec!["A".to_string(), "B".into(), "C".into(), "B".into()];
    let remote = vec!["C".to_string()];
    assert_eq!(missing_keys(&local, &remote), vec!["A".to_string(), "B".into()]);
}

#[test]
fn legacy_server_id_fallback_is_stable() {
    let (id, store) = resolve_server_id("", &None, "uuid-1");
    assert_eq!(id, "legacy:uuid-1");
    assert_eq!(store.as_deref(), Some("uuid-1"));
    let (id2, store2) = resolve_server_id("", &store, "uuid-2");
    assert_eq!(id2, id);
    assert!(store2.is_none());
    let (id3, store3) = resolve_server_id("srv-10", &None, "uuid-3");
    assert_eq!(id3, "srv-10");
    assert!(store3.is_none());
    assert_eq!(short_id("0123456789abcdef"), "01234567");
    assert_eq!(short_id("abc"), "abc");
}

#[test]
fn sync_decisions() {
    let mut cfg = Config::default();
    assert!(needs_full_sync(&None, false));
    assert!(!needs_full_sync(&Some("2".into()), false));
    assert!(needs_full_sync(&Some("1".into()), false));
    assert!(needs_full_sync(&Some("2".into()), true));
    cfg.zotero.group_mode = "none".into();
    assert!(!library_included(&cfg, LibraryKind::Group));
    assert!(library_included(&cfg, LibraryKind::User));
    match unstable_error("/users/0") {
        Error::Api { status, message } => {
            assert_eq!(status, 0);
            assert_eq!(
                message,
                "library /users/0 kept changing during sync; giving up for this round"
            );
        }
        other => panic!("unexpected {other:?}"),
    }
}

fn raw(key: &str, version: u64, item_type: &str, title: &str) -> ZoteroItem {
    ZoteroItem {
        key: key.into(),
        version,
        data: ItemData {
            item_type: item_type.into(),
            title: title.into(),
            ..Default::default()
        },
    }
}

#[test]
fn commit_skips_unchanged_and_deletes_dropped() {
    let mut cfg = Config::default();
    cfg.search.store_raw_json = true;
    let remote = RemoteLibrary::user();
    let items = vec![
        raw("K1", 5, "book", "Same"),
        raw("K2", 6, "note", "A note"),
        raw("K3", 7, "book", "New"),
    ];
    let jsons = vec![Some("{\"k\":1}".to_string()), None, Some("{\"k\":3}".to_string())];
    // What the index holds for K1 equals what normalizing it gives.
    let k1 = zotero_bridge::normalizer::normalize_item(
        &items[0],
        &remote,
        1,
        jsons[0].clone(),
        cfg.search.index_abstract,
        cfg.search.index_extra,
    )
    .unwrap();
    let stored = vec![
        Some(StoredItem {
            content_hash: k1.content_hash.clone(),
            item_version: 5,
            raw_json: k1.raw_json.clone(),
        }),
        None,
        None,
    ];
    let targets = windows_target(TEST_TEMPLATE);
    let (batch, report) = commit_library_changes(
        1,
        &remote,
        &items,
        &jsons,
        &stored,
        vec!["K9".into()],
        4,
        7,
        false,
        &cfg,
        &targets,
        &vec![("K9".to_string(), "old -- K9".to_string())],
    );
    assert_eq!(batch.upserts.len(), 1);
    assert_eq!(batch.upserts[0].item_key, "K3");
    assert_eq!(batch.upserts[0].raw_json.as_deref(), Some("{\"k\":3}"));
    assert!(batch.upserts[0].mirror_filename.is_some());
    assert_eq!(batch.deleted_keys, vec!["K9".to_string(), "K2".into()]);
    assert_eq!(batch.new_version, 7);
    assert_eq!(batch.mirror_jobs.len(), 2);
    assert_eq!(report.upserted, 1);
    assert_eq!(report.deleted, 2);
    assert_eq!(report.skipped_unchanged, 1);
    assert_eq!(report.mirror_jobs, 2);
    assert_eq!((report.from_version, report.to_version), (4, 7));
}

#[test]
fn resync_without_changes_is_noop() {
    let cfg = Config::default();
    let remote = RemoteLibrary::user();
    let items = vec![raw("AAAA1111", 3, "journalArticle", "不变的文献"), raw("BBBB2222", 4, "book", "B")];
    let jsons = vec![Some("{\"a\":1}".to_string()), Some("{\"b\":2}".to_string())];
    let stored: Vec<Option<StoredItem>> = items
        .iter()
        .zip(jsons.iter())
        .map(|(it, js)| {
            let n = zotero_bridge::normalizer::normalize_item(
                it,
                &remote,
                1,
                js.clone(),
                cfg.search.index_abstract,
                cfg.search.index_extra,
            )
            .unwrap();
            Some(StoredItem {
                content_hash: n.content_hash.clone(),
                item_version: n.item_version,
                raw_json: n.raw_json.clone(),
            })
        })
        .collect();
    let (batch, report) = commit_library_changes(
        1,
        &remote,
        &items,
        &jsons,
        &stored,
        vec![],
        9,
        9,
        false,
        &cfg,
        &windows_target(TEST_TEMPLATE),
        &vec![
            ("AAAA1111".to_string(), "a -- AAAA1111".to_string()),
            ("BBBB2222".to_string(), "b -- BBBB2222".to_string()),
        ],
    );
    assert!(batch.upserts.is_empty());
    assert!(batch.deleted_keys.is_empty());
    assert!(batch.mirror_jobs.is_empty());
    assert_eq!(batch.new_version, 9);
    assert_eq!(report.skipped_unchanged, 2);
}

#[test]
fn instance_switch_decisions() {
    assert_eq!(instance_switch(&None, "S1"), (true, None));
    assert_eq!(instance_switch(&Some("S1".into()), "S1"), (false, None));
    assert_eq!(instance_switch(&Some("S1".into()), "S2"), (true, Some("S1".to_string())));
    // Once switched, the next round against the same instance is settled.
    let (switch, _) = instance_switch(&Some("S2".into()), "S2");
    assert!(!switch);
}
