use zotero_bridge::errors::Error;
use zotero_bridge::models::{LibraryKind, MirrorJob, MirrorOperation, Platform};
use zotero_bridge::state::{LibrarySyncReport, SyncReport, WorkerReport};
use zotero_bridge::worker::{execute, gives_up, record_outcome, required, FsStep, MAX_RETRIES};

const CONTENT: &str = "[InternetShortcut]\r\nURL=zotero://select/library/items/K1\r\n";

fn job(op: MirrorOperation, old: Option<&str>, new: Option<&str>, content: Option<&str>) -> MirrorJob {
    MirrorJob {
        id: 1,
        operation: op,
        platform: Platform::Windows,
        old_path: old.map(String::from),
        new_path: new.map(String::from),
        content: content.map(String::from),
        status: "pending".into(),
        retry_count: 0,
        last_error: None,
    }
}

#[test]
fn create_then_rename_then_delete() {
    let old_path = "/m/张三 - 2024 - 研究 -- K1.url";
    let new_path = "/m/李四 - 2024 - 研究 -- K1.url";
    assert_eq!(
        execute(&job(MirrorOperation::Create, None, Some(old_path), Some(CONTENT))),
        Ok(vec![FsStep::Write { path: old_path.into(), content: CONTENT.into() }])
    );
    // The new file is written before the old one goes.
    assert_eq!(
        execute(&job(MirrorOperation::Rename, Some(old_path), Some(new_path), Some(CONTENT))),
        Ok(vec![
            FsStep::Write { path: new_path.into(), content: CONTENT.into() },
            FsStep::Remove { path: old_path.into() },
        ])
    );
    assert_eq!(
        execute(&job(MirrorOperation::Delete, Some(new_path), None, None)),
        Ok(vec![FsStep::Remove { path: new_path.into() }])
    );
    assert_eq!(execute(&job(MirrorOperation::Delete, None, None, None)), Ok(vec![]));
    assert_eq!(
        execute(&job(MirrorOperation::Replace, None, Some(new_path), Some("x"))),
        Ok(vec![FsStep::Write { path: new_path.into(), content: "x".into() }])
    );
}

#[test]
fn jobs_missing_fields_fail() {
    assert_eq!(
        execute(&job(MirrorOperation::Create, None, None, Some(CONTENT))),
        Err(Error::Mirror("job is missing new_path".into()))
    );
    assert_eq!(
        execute(&job(MirrorOperation::Rename, Some("/a"), Some("/b"), None)),
        Err(Error::Mirror("job is missing content".into()))
    );
    assert_eq!(required(&Some("v".into()), "x"), Ok("v".to_string()));
    assert_eq!(required(&None, "content"), Err(Error::Mirror("job is missing content".into())));
}

#[test]
fn failed_job_retries_and_gives_up() {
    let mut report = WorkerReport::default();
    record_outcome(&mut report, false, 0);
    assert_eq!((report.completed, report.retried, report.failed), (0, 1, 0));
    assert!(!gives_up(0));
    assert!(!gives_up(MAX_RETRIES - 2));
    assert!(gives_up(MAX_RETRIES - 1));
    record_outcome(&mut report, false, MAX_RETRIES - 1);
    assert_eq!((report.completed, report.retried, report.failed), (0, 1, 1));
    record_outcome(&mut report, true, 3);
    assert_eq!((report.completed, report.retried, report.failed), (1, 1, 1));
}

#[test]
fn sync_report_counts_changes() {
    let lib = |upserted: usize, deleted: usize| LibrarySyncReport {
        library_kind: LibraryKind::User,
        zotero_library_id: "0".into(),
        display_name: "我的文库".into(),
        upserted,
        deleted,
        mirror_jobs: 0,
        skipped_unchanged: 0,
        from_version: 0,
        to_version: 1,
        full: false,
    };
    let report = SyncReport {
        server_id: "srv".into(),
        libraries: vec![lib(3, 1), lib(0, 2)],
        zotero_offline: false,
    };
    assert_eq!(report.total_changes(), 6);
    assert_eq!(SyncReport::default().total_changes(), 0);
}
