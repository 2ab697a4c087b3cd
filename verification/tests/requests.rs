use recipedia::config::Config;
use recipedia::db;
use recipedia::db::Database;
use recipedia::model::Package;
use recipedia::path::is_plain_path;
use recipedia::repo::{sha256_file, InspectedFile, Inspection, Upload};
use recipedia::requests::{
    archive_tag, authorize, authorize_at, begin_publish, cannot_open, github_webhook,
    poll_syncs, publish, repo_file, repo_file_path, trigger_sync, unpublish_failed,
    unpublish_file, upload_fault, upload_log, FileAnswer, Refusal, SyncEnd, SyncGate, UploadFault,
    MAX_LOG_BYTES,
};
use recipedia::status::{Reading, Upstream, VersionText};
use recipedia::sync::SyncReport;
use recipedia::table::Table;

fn upstream(text: &str, rank: u64) -> Upstream {
    Upstream { text: text.to_string(), rank }
}

fn unread(text: &str, rank: u64) -> VersionText {
    VersionText { bare: upstream(text, rank), parsed: None }
}

fn package(name: &str, version: &str, rank: u64) -> Package {
    Package {
        schema_version: 1,
        name: name.into(),
        slot: "0".into(),
        version: upstream(version, rank),
        release: 1,
        epoch: 0,
        coordinate: format!("0:{version}-1"),
        reading: Reading {
            plain: unread(&format!("{version}-1"), rank),
            full: unread(&format!("0:{version}-1"), rank),
        },
        arch: "amd64".into(),
        channel: "system".into(),
        description: "demo".into(),
        license: "MIT".into(),
        dependencies: Vec::new(),
        provides: vec!["cmd:demo".into()],
        conflicts: Vec::new(),
        features: Vec::new(),
        installed_size: 4,
        managed_build_tools: Vec::new(),
    }
}

fn archive(package: Package) -> Inspection {
    Inspection {
        manifest: package,
        optional: Table::new(),
        files: vec![InspectedFile { path: "usr/bin/demo".into(), size: 4 }],
    }
}

fn config() -> Config {
    Config {
        listen: String::new(),
        db_path: "/root/database".into(),
        state_dir: "/root".into(),
        repo_dir: "/root/repo".into(),
        repo_channel: "main".into(),
        repo_signing_key: "/root/repo/signing.key".into(),
        git_url: String::new(),
        webhook_secret: None,
        poll_secs: 600,
        repo_base: String::new(),
        frontend_url: String::new(),
    }
}

fn upload(filename: &str, sha256: &str) -> Upload {
    Upload {
        filename: filename.into(),
        sha256: sha256.into(),
        declared: Some(sha256.into()),
        builder: "test".into(),
        size: 1234,
    }
}

fn empty() -> db::Database {
    db::open("/root/database", false, false).unwrap()
}

const DEMO: &str = "demo-1.0-1-amd64.pkg.tar.zst";

const FOX: &[u8] = b"The quick brown fox jumps over the lazy dog";

/// A state with the token of the builder `b`, and its authorization header.
fn hub() -> (Database, String) {
    let mut database = empty();
    let token = db::token_create_at(&mut database, "b", &[7; 32], 1);
    (database, format!("Bearer {token}"))
}

/// A state that has the demo archive.
fn published() -> (Database, String) {
    let (mut database, header) = hub();
    let up = upload(DEMO, &sha256_file(b"demo"));
    publish(&mut database, &config(), &up, Ok(&archive(package("demo", "1.0", 1))), 2).unwrap();
    (database, header)
}

fn told(refusal: Refusal) -> (u16, String) {
    (refusal.status, refusal.message)
}

fn says(status: u16, message: &str) -> (u16, String) {
    (status, message.to_string())
}

#[test]
fn only_known_tokens_are_let_in() {
    let (mut database, header) = hub();
    assert_eq!(authorize_at(&mut database, Some(&header), 9).unwrap(), "b");
    assert_eq!(database.tokens.value_at(0).last_used_at, Some(9));
    let spaced = format!("{} ", header.replace("Bearer ", "Bearer  "));
    assert_eq!(authorize(&mut database, Some(&spaced)).unwrap(), "b");
    let missing = says(401, "missing bearer token");
    assert_eq!(told(authorize_at(&mut database, None, 9).unwrap_err()), missing);
    assert_eq!(told(authorize_at(&mut database, Some("Basic x"), 9).unwrap_err()), missing);
    assert_eq!(
        told(authorize_at(&mut database, Some("Bearer rt_x"), 9).unwrap_err()),
        says(401, "invalid token")
    );
}

#[test]
fn without_a_token_nothing_changes() {
    let (mut database, _) = published();
    let c = config();
    for header in [None, Some("Bearer rt_x")] {
        let begun = begin_publish(&mut database, &c, header, DEMO, 1, 5);
        assert_eq!(begun.unwrap_err().status, 401);
        let gone = unpublish_file(&mut database, &c, header, DEMO, 5);
        assert_eq!(gone.unwrap_err().status, 401);
        let logged = upload_log(&mut database, header, DEMO, b"log", 5);
        assert_eq!(logged.unwrap_err().status, 401);
    }
    assert!(db::published_row(&database, DEMO).is_some());
    assert!(db::log_get(&database, DEMO).is_none());
    assert_eq!(database.tokens.value_at(0).last_used_at, None);
}

#[test]
fn uploads_are_staged_apart() {
    let (mut database, header) = hub();
    let staged = begin_publish(&mut database, &config(), Some(&header), DEMO, 42, 5).unwrap();
    assert_eq!(staged.builder, "b");
    assert_eq!(staged.path, "/root/repo/.incoming-42-demo-1.0-1-amd64.pkg.tar.zst");
    assert_eq!(
        told(begin_publish(&mut database, &config(), Some(&header), "x", 42, 5).unwrap_err()),
        says(400, "invalid package filename")
    );
}

#[test]
fn an_upload_that_fails_is_told_why() {
    let fault = |f| told(upload_fault(f));
    assert_eq!(fault(UploadFault::Stage("e".into())), says(500, "cannot stage upload: e"));
    assert_eq!(fault(UploadFault::Write("e".into())), says(400, "cannot write upload: e"));
    assert_eq!(fault(UploadFault::Interrupted("e".into())), says(400, "upload interrupted: e"));
    assert_eq!(fault(UploadFault::Panicked("e".into())), says(500, "publish task panicked: e"));
    let (mut database, _) = hub();
    let up = upload(DEMO, &sha256_file(b"demo"));
    assert_eq!(
        told(publish(&mut database, &config(), &up, Err("torn"), 1).unwrap_err()),
        says(422, "publish rejected: invalid Sage archive: torn")
    );
}

#[test]
fn a_withdrawn_build_is_gone() {
    let (mut database, header) = published();
    let c = config();
    let done = unpublish_file(&mut database, &c, Some(&header), DEMO, 5).unwrap();
    assert_eq!((done.deleted.as_str(), done.by.as_str()), (DEMO, "b"));
    assert_eq!(done.archive, "/root/repo/system/demo-1.0-1-amd64.pkg.tar.zst");
    assert!(db::published_row(&database, DEMO).is_none());
    assert_eq!(
        told(unpublish_file(&mut database, &c, Some(&header), DEMO, 5).unwrap_err()),
        says(404, "demo-1.0-1-amd64.pkg.tar.zst is not published")
    );
    assert_eq!(
        told(unpublish_file(&mut database, &c, Some(&header), "../x", 5).unwrap_err()),
        says(400, "invalid package filename")
    );
    assert_eq!(told(unpublish_failed("e")), says(422, "unpublish failed: e"));
}

#[test]
fn logs_are_kept_without_the_space_at_their_end() {
    let (mut database, header) = published();
    let h = Some(header.as_str());
    assert_eq!(upload_log(&mut database, h, DEMO, "  gr\u{fc}n \n\n".as_bytes(), 8).unwrap(), 10);
    let log = db::log_get(&database, DEMO).unwrap();
    assert_eq!(log.content, "  gr\u{fc}n");
    assert_eq!((log.builder.as_str(), log.uploaded_at), ("b", 8));
    let mut refuse = |name: &str, body: &[u8]| {
        told(upload_log(&mut database, h, name, body, 9).unwrap_err())
    };
    assert_eq!(refuse("x", b""), says(400, "invalid package filename"));
    assert_eq!(refuse(DEMO, &vec![b'a'; MAX_LOG_BYTES + 1]), says(413, "log exceeds 1 MiB"));
    assert_eq!(refuse(DEMO, &[0xff]), says(415, "log must be UTF-8 text"));
    assert_eq!(
        refuse("a.pkg.tar.zst", b"x"),
        says(422, "log upload rejected: a.pkg.tar.zst is not published")
    );
    assert_eq!(
        upload_log(&mut database, h, DEMO, &vec![b'a'; MAX_LOG_BYTES], 9).unwrap(),
        MAX_LOG_BYTES
    );
}

#[test]
fn paths_stay_below_the_repository() {
    for path in ["a", "a/b.c", "...", "a/.b"] {
        assert!(is_plain_path(path), "{path}");
    }
    for path in ["", "/a", "a/", "a//b", "..", "a/../b", "./a", "."] {
        assert!(!is_plain_path(path), "{path}");
    }
    assert_eq!(repo_file_path(&config(), "system/x"), Some("/root/repo/system/x".to_string()));
    assert_eq!(repo_file_path(&config(), "../x"), None);
}

#[test]
fn files_carry_the_digest_as_their_tag() {
    let (database, _) = published();
    let path = "system/demo-1.0-1-amd64.pkg.tar.zst";
    let tag = format!("\"{}\"", sha256_file(b"demo"));
    match repo_file(&database, path, true, None) {
        FileAnswer::Send(Some(sent)) => assert_eq!(sent, tag),
        other => panic!("{other:?}"),
    }
    match repo_file(&database, path, true, Some(&format!(" {tag} "))) {
        FileAnswer::NotModified(sent) => assert_eq!(sent, tag),
        other => panic!("{other:?}"),
    }
    assert!(matches!(repo_file(&database, path, true, Some("\"0\"")), FileAnswer::Send(Some(_))));
    assert!(matches!(repo_file(&database, path, false, None), FileAnswer::NotFound));
    assert!(matches!(repo_file(&database, "../x", true, None), FileAnswer::NotFound));
    assert!(matches!(repo_file(&database, "index.toml", true, None), FileAnswer::Send(None)));
    assert!(matches!(repo_file(&database, "other", true, Some(&tag)), FileAnswer::Send(None)));
    assert_eq!(told(cannot_open("p", "e")), says(500, "cannot open p: e"));
    assert_eq!(archive_tag(&database, DEMO), Some(tag));
    assert_eq!(archive_tag(&database, "other"), None);
}

#[test]
fn the_webhook_needs_a_signature() {
    let mut c = config();
    let refusal = |c: &Config, s: Option<&str>| github_webhook(c, s, FOX).map(told);
    assert_eq!(refusal(&c, None), Some(says(403, "webhook not configured")));
    c.webhook_secret = Some("key".into());
    assert_eq!(refusal(&c, None), Some(says(401, "missing signature")));
    assert_eq!(refusal(&c, Some("sha256=00")), Some(says(401, "bad signature")));
    let good =
        "sha256=f7bc83f430538424b13298e6aa6fb143ef4d59a14946175997479dbc2d1a3cd8".to_string();
    assert_eq!(refusal(&c, Some(&good)), None);
    assert_eq!(refusal(&c, Some(&good[7..])), Some(says(401, "bad signature")));
    let loud = good.to_uppercase().replace("SHA", "sha");
    assert_eq!(refusal(&c, Some(&loud)), Some(says(401, "bad signature")));
}

#[test]
fn one_synchronization_runs_at_a_time() {
    let mut gate = SyncGate::new();
    assert!(gate.begin().is_none());
    assert!(gate.running);
    assert_eq!(gate.begin().map(told), Some(says(200, "sync already in progress")));
    assert!(gate.running);
    assert_eq!(told(gate.finish(SyncEnd::Failed("e".into()))), says(500, "sync failed: e"));
    assert!(!gate.running);
    assert!(gate.begin().is_none());
    let end = SyncEnd::Panicked("e".into());
    assert_eq!(told(gate.finish(end)), says(500, "sync task panicked: e"));
    assert!(gate.begin().is_none());
}

#[test]
fn a_synchronization_is_answered_for() {
    let answer = |end| told(trigger_sync(end));
    assert_eq!(answer(SyncEnd::Busy), says(200, "sync already in progress"));
    let report = SyncReport { count: 3, changed_arches: Vec::new() };
    let summary = report.summary();
    assert_eq!(answer(SyncEnd::Done(report)), says(200, &format!("synced: {summary}")));
    assert_eq!(answer(SyncEnd::Failed("e".into())), says(500, "sync failed: e"));
    assert_eq!(answer(SyncEnd::Panicked("e".into())), says(500, "sync task panicked: e"));
}

#[test]
fn a_moved_remote_is_followed() {
    assert!(poll_syncs(false, Some("b"), Some("a")));
    assert!(poll_syncs(false, Some("b"), None));
    assert!(!poll_syncs(false, Some("a"), Some("a")));
    assert!(!poll_syncs(false, None, Some("a")));
    assert!(!poll_syncs(true, Some("b"), Some("a")));
}
