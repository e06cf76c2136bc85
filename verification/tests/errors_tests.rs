use zotero_bridge::errors::{status_error, Error, API_DISABLED_TEXT};

#[test]
fn status_answers_map_to_errors() {
    assert_eq!(status_error(200, "ok"), None);
    assert_eq!(status_error(204, ""), None);
    assert_eq!(status_error(403, "x"), Some(Error::ApiDisabled));
    assert_eq!(status_error(412, "x"), Some(Error::InstanceChanged));
    assert_eq!(
        status_error(500, "boom"),
        Some(Error::Api { status: 500, message: "boom".into() })
    );
    let long = "é".repeat(250);
    assert_eq!(
        status_error(404, &long),
        Some(Error::Api { status: 404, message: "é".repeat(200) })
    );
}

#[test]
fn error_messages() {
    assert_eq!(Error::Config("x".into()).message(), "configuration error: x");
    assert_eq!(
        Error::Api { status: 500, message: "boom".into() }.message(),
        "zotero API error: status 500 boom"
    );
    assert_eq!(Error::ApiDisabled.message(), API_DISABLED_TEXT);
    assert_eq!(
        Error::DatabaseCorrupt { backup: "/tmp/db.corrupt".into() }.message(),
        "database is corrupt and was backed up to /tmp/db.corrupt; a fresh database was created"
    );
    assert_eq!(
        Error::InstanceChanged.message(),
        "zotero server instance changed (412 Precondition Failed)"
    );
}
