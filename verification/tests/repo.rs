use recipedia::config::Config;
use recipedia::db;
use recipedia::db::RecipeRecord;
use recipedia::digest::{to_hex, Intake};
use recipedia::model::{Dependency, Package};
use recipedia::repo::{
    channel_dir, collect_index_dirs, ensure_signing_key, ingest, ingest_at, plan_ingest, public_key_file,
    qualified_channel, read_file_list, read_manifest_meta, received, regenerate_index,
    regenerate_indexes, remove_if_file,
    sha256_file, signing_key_path, unpublish, valid_channel_segment, valid_filename, FoundDir,
    InspectedFile, Inspection, Removal, Upload,
};
use recipedia::status::{Reading, State, Upstream, VersionText};
use recipedia::table::Table;

fn upstream(text: &str, rank: u64) -> Upstream {
    Upstream { text: text.to_string(), rank }
}

fn unread(text: &str, rank: u64) -> VersionText {
    VersionText { bare: upstream(text, rank), parsed: None }
}

fn package(name: &str, version: &str, rank: u64) -> Package {
    Package {
        schema_version: 1,
        name: name.into(),
        slot: "0".into(),
        version: upstream(version, rank),
        release: 1,
        epoch: 0,
        coordinate: format!("0:{version}-1"),
        reading: Reading {
            plain: unread(&format!("{version}-1"), rank),
            full: unread(&format!("0:{version}-1"), rank),
        },
        arch: "amd64".into(),
        channel: "system".into(),
        description: "demo".into(),
        license: "MIT".into(),
        dependencies: Vec::new(),
        provides: vec!["cmd:demo".into()],
        conflicts: Vec::new(),
        features: Vec::new(),
        installed_size: 4,
        managed_build_tools: Vec::new(),
    }
}

fn archive(package: Package) -> Inspection {
    Inspection {
        manifest: package,
        optional: Table::new(),
        files: vec![InspectedFile { path: "usr/bin/demo".into(), size: 4 }],
    }
}

fn config() -> Config {
    Config {
        listen: String::new(),
        db_path: "/root/database".into(),
        state_dir: "/root".into(),
        repo_dir: "/root/repo".into(),
        repo_channel: "main".into(),
        repo_signing_key: "/root/repo/signing.key".into(),
        git_url: String::new(),
        webhook_secret: None,
        poll_secs: 600,
        repo_base: String::new(),
        frontend_url: String::new(),
    }
}

fn upload(filename: &str, sha256: &str) -> Upload {
    Upload {
        filename: filename.into(),
        sha256: sha256.into(),
        declared: Some(sha256.into()),
        builder: "test".into(),
        size: 1234,
    }
}

fn empty() -> db::Database {
    db::open("/root/database", false, false).unwrap()
}

fn recipe(package: Package) -> RecipeRecord {
    RecipeRecord {
        package,
        origin: "o".into(),
        category: "c".into(),
        recipe_path: "p".into(),
        git_commit: "g".into(),
        source_url: String::new(),
        source_sha256: String::new(),
    }
}

const DEMO: &str = "demo-1.0-1-amd64.pkg.tar.zst";

#[test]
fn ingest_builds_the_sage_network_repo_layout() {
    let config = config();
    let mut database = empty();
    let sha256 = sha256_file(b"demo");
    let demo = archive(package("demo", "1.0", 1));
    let receipt = ingest_at(
        &mut database,
        &config,
        &upload("demo-1.0-1-amd64.pkg.tar.zst", &sha256),
        Ok(&demo),
        1,
    )
    .unwrap();
    assert_eq!(receipt.repo_path, "system/demo-1.0-1-amd64.pkg.tar.zst");
    assert_eq!(receipt.name, "demo");
    assert_eq!(receipt.version, "1.0");
    assert_eq!(receipt.release, "1");
    assert_eq!(receipt.size, 1234);
    assert_eq!(receipt.sha256, sha256);
    assert_eq!(receipt.state, State::Missing);
    let dirs = regenerate_index(&database, &config, &Vec::new()).unwrap();
    assert_eq!(dirs, ["/root/repo/system"]);
    let row = db::published_row(&database, "demo-1.0-1-amd64.pkg.tar.zst").unwrap();
    assert_eq!(row.builder, "test");
    assert_eq!(row.uploaded_at, 1);
    assert_eq!(row.meta.unwrap().provides, ["cmd:demo"]);
    let files = db::file_list(&database, "demo-1.0-1-amd64.pkg.tar.zst");
    assert_eq!(files.len(), 1);
    assert_eq!((files[0].path.as_str(), files[0].kind.as_str()), ("usr/bin/demo", "file"));
    assert_eq!(files[0].size, 4);
}

#[test]
fn archives_have_plain_names() {
    assert!(valid_filename("demo-1.0-1-amd64.pkg.tar.zst"));
    assert!(valid_filename("g++_x-1.0+2.pkg.tar.zst"));
    assert!(!valid_filename("demo.tar.zst"));
    assert!(!valid_filename(".pkg.tar.zst"));
    assert!(!valid_filename("a/b.pkg.tar.zst"));
    assert!(!valid_filename("a b.pkg.tar.zst"));
    assert!(!valid_filename("\u{e9}.pkg.tar.zst"));
    assert!(!valid_filename(""));
    assert!(valid_filename(&format!("{}.pkg.tar.zst", "a".repeat(243))));
    assert!(!valid_filename(&format!("{}.pkg.tar.zst", "a".repeat(244))));
}

#[test]
fn channels_get_their_root() {
    let c = config();
    assert_eq!(qualified_channel(&c, "system"), Ok("main/system".to_string()));
    assert_eq!(qualified_channel(&c, " \n"), Ok("main/system".to_string()));
    assert_eq!(qualified_channel(&c, "main/python3.14"), Ok("main/python3.14".to_string()));
    assert_eq!(qualified_channel(&c, " edge/x "), Ok("edge/x".to_string()));
    assert_eq!(
        qualified_channel(&c, "a/b/c"),
        Err("invalid Sage channel 'a/b/c'".to_string())
    );
    assert_eq!(qualified_channel(&c, "/b"), Err("invalid Sage channel '/b'".to_string()));
    assert_eq!(qualified_channel(&c, "a b"), Err("invalid Sage channel 'a b'".to_string()));
    let mut slashed = config();
    slashed.repo_channel = "/main/".into();
    assert_eq!(qualified_channel(&slashed, "system"), Ok("main/system".to_string()));
    assert!(valid_channel_segment(&"a".repeat(128)));
    assert!(!valid_channel_segment(&"a".repeat(129)));
    assert!(!valid_channel_segment(""));
}

#[test]
fn the_root_channel_is_the_repository() {
    let c = config();
    assert_eq!(
        channel_dir(&c, "system"),
        Ok(("system".to_string(), "/root/repo/system".to_string()))
    );
    assert_eq!(
        channel_dir(&c, "edge/x"),
        Ok(("edge/x".to_string(), "/root/repo/edge/x".to_string()))
    );
    assert_eq!(channel_dir(&c, "a b"), Err("invalid Sage channel 'a b'".to_string()));
}

#[test]
fn channels_stay_below_the_repository() {
    let c = config();
    for channel in [".", "..", "main/..", "main/.", "../x", "x/.."] {
        let refused = format!("invalid Sage channel '{channel}'");
        assert_eq!(channel_dir(&c, channel), Err(refused), "{channel}");
    }
    assert!(channel_dir(&c, "main/..a").is_ok());
    assert!(channel_dir(&c, "...").is_ok());
}

#[test]
fn uploads_are_refused_with_a_reason() {
    let sha = sha256_file(b"demo");
    let demo = archive(package("demo", "1.0", 1));
    let mut database = empty();
    let mut refuse = |upload: &Upload, inspected| {
        let error = ingest_at(&mut database, &config(), upload, inspected, 1).unwrap_err();
        assert!(db::published_all(&database).is_empty());
        error
    };
    assert_eq!(refuse(&upload("x.zip", &sha), Ok(&demo)), "invalid package filename 'x.zip'");
    let mut other = upload(DEMO, &sha);
    other.declared = Some("0".into());
    assert_eq!(
        refuse(&other, Ok(&demo)),
        "sha256 mismatch between client declaration and upload"
    );
    assert_eq!(refuse(&upload(DEMO, "12"), Ok(&demo)), "invalid SHA-256");
    assert_eq!(refuse(&upload(DEMO, &"g".repeat(64)), Ok(&demo)), "invalid SHA-256");
    assert_eq!(refuse(&upload(DEMO, &sha), Err("no manifest")), "invalid Sage archive: no manifest");
    let mut odd = package("demo", "1.0", 1);
    odd.channel = "a/b/c".into();
    assert_eq!(refuse(&upload(DEMO, &sha), Ok(&archive(odd))), "invalid Sage channel 'a/b/c'");
}

#[test]
fn a_declared_digest_may_be_absent() {
    let mut database = empty();
    let mut quiet = upload(DEMO, &sha256_file(b"demo").to_uppercase());
    quiet.declared = None;
    let demo = archive(package("demo", "1.0", 1));
    let receipt = ingest_at(&mut database, &config(), &quiet, Ok(&demo), 1).unwrap();
    assert_eq!(receipt.sha256, sha256_file(b"demo"));
}

#[test]
fn a_receipt_compares_with_the_recipe() {
    let mut database = empty();
    db::rebuild_packages(&mut database, &vec![recipe(package("demo", "2.0", 2))]);
    let sha = sha256_file(b"demo");
    let mut state = |p: Package| {
        let up = upload(DEMO, &sha);
        ingest_at(&mut database, &config(), &up, Ok(&archive(p)), 1).unwrap().state
    };
    assert_eq!(state(package("demo", "1.0", 1)), State::Outdated);
    assert_eq!(state(package("demo", "2.0", 2)), State::Built);
    assert_eq!(state(package("demo", "3.0", 3)), State::Ahead);
    let mut epoch = package("demo", "1.0", 1);
    epoch.epoch = 1;
    assert_eq!(state(epoch), State::Ahead);
    assert_eq!(state(package("other", "1.0", 1)), State::Missing);
}

#[test]
fn a_build_that_moves_leaves_no_copy() {
    let mut database = empty();
    let sha = sha256_file(b"demo");
    let up = upload(DEMO, &sha);
    let first = archive(package("demo", "1.0", 1));
    let place = plan_ingest(&database, &config(), &up, Ok(&first)).unwrap();
    assert_eq!(place.directory, "/root/repo/system");
    assert_eq!(place.destination, "/root/repo/system/demo-1.0-1-amd64.pkg.tar.zst");
    assert_eq!(place.stale, None);
    ingest_at(&mut database, &config(), &up, Ok(&first), 1).unwrap();
    assert_eq!(plan_ingest(&database, &config(), &up, Ok(&first)).unwrap().stale, None);
    let mut moved = package("demo", "1.0", 1);
    moved.channel = "edge/x".into();
    let moved = archive(moved);
    let place = plan_ingest(&database, &config(), &up, Ok(&moved)).unwrap();
    assert_eq!(place.stale, Some("/root/repo/system/demo-1.0-1-amd64.pkg.tar.zst".to_string()));
    ingest_at(&mut database, &config(), &up, Ok(&moved), 2).unwrap();
    let rows = db::published_all(&database);
    assert_eq!(rows.len(), 1);
    assert_eq!(rows[0].repo_path, "edge/x/demo-1.0-1-amd64.pkg.tar.zst");
    assert_eq!(
        regenerate_index(&database, &config(), &Vec::new()).unwrap(),
        ["/root/repo/edge/x", "/root/repo/system"]
    );
}

#[test]
fn builds_are_withdrawn_whole() {
    let mut database = empty();
    let demo = archive(package("demo", "1.0", 1));
    let up = upload(DEMO, &sha256_file(b"demo"));
    ingest_at(&mut database, &config(), &up, Ok(&demo), 1).unwrap();
    db::log_upsert_at(&mut database, DEMO, "log", "test", 2);
    assert_eq!(
        unpublish(&mut database, &config(), DEMO),
        Ok("/root/repo/system/demo-1.0-1-amd64.pkg.tar.zst".to_string())
    );
    assert!(db::published_row(&database, DEMO).is_none());
    assert!(db::file_list(&database, DEMO).is_empty());
    assert!(db::log_get(&database, DEMO).is_none());
    assert_eq!(
        unpublish(&mut database, &config(), DEMO),
        Err("'demo-1.0-1-amd64.pkg.tar.zst' is not published".to_string())
    );
    assert_eq!(
        unpublish(&mut database, &config(), "x"),
        Err("invalid package filename 'x'".to_string())
    );
}

#[test]
fn indexed_directories_stay_indexed() {
    let found = vec![
        FoundDir { path: "/root/repo/old".into(), has_index: true },
        FoundDir { path: "/root/repo/plain".into(), has_index: false },
        FoundDir { path: "/root/repo/system".into(), has_index: true },
    ];
    assert_eq!(collect_index_dirs(&found), ["/root/repo/old", "/root/repo/system"]);
    assert_eq!(
        regenerate_index(&empty(), &config(), &found).unwrap(),
        ["/root/repo/old", "/root/repo/system"]
    );
    let mut odd = config();
    odd.repo_channel = "a b".into();
    assert_eq!(
        regenerate_index(&empty(), &odd, &Vec::new()).unwrap_err(),
        "invalid Sage channel 'system'"
    );
}

#[test]
fn a_row_without_a_directory_is_an_error() {
    let mut database = empty();
    let demo = archive(package("demo", "1.0", 1));
    let up = upload(DEMO, &sha256_file(b"demo"));
    ingest_at(&mut database, &config(), &up, Ok(&demo), 1).unwrap();
    let mut row = db::published_row(&database, DEMO).unwrap();
    row.repo_path = String::new();
    db::upsert_published(&mut database, &row);
    assert_eq!(
        regenerate_index(&database, &config(), &Vec::new()).unwrap_err(),
        "published repo path has no channel"
    );
}

#[test]
fn manifests_are_read() {
    let mut p = package("demo", "1.0", 1);
    p.arch = "x86_64".into();
    p.release = 7;
    p.dependencies = vec![Dependency {
        name: "zlib".into(),
        op: Some(">=".into()),
        version: Some("1.3".into()),
        text: "zlib >= 1.3".into(),
    }];
    let mut inspection = archive(p);
    inspection.optional.put(".METADATA/service.toml", b"[service]".to_vec());
    let meta = read_manifest_meta(Ok(&inspection)).unwrap();
    assert_eq!(meta.arch, "amd64");
    assert_eq!(meta.release, "7");
    assert_eq!(meta.service_toml, "[service]");
    assert_eq!(meta.dependencies, ["zlib >= 1.3"]);
    assert_eq!(meta.installed_size, 4);
    assert!(meta.conffiles.is_empty() && meta.check_dependencies.is_empty());
    assert_eq!(read_file_list(Ok(&inspection)).unwrap().len(), 1);
    assert_eq!(read_manifest_meta(Err("bad")).unwrap_err(), "invalid Sage archive: bad");
    assert_eq!(read_file_list(Err("bad")).unwrap_err(), "invalid Sage archive: bad");
}

#[test]
fn the_public_key_lies_beside_the_private_one() {
    let c = config();
    assert_eq!(signing_key_path(&c), "/root/repo/signing.key");
    assert_eq!(public_key_file("/root/repo/signing.key"), "/root/repo/signing.pub");
    assert_eq!(public_key_file("key"), "key.pub");
    assert_eq!(public_key_file(".key"), ".key.pub");
    let (path, key) = ensure_signing_key(&c, Ok([7; 32]), None).unwrap().unwrap();
    assert_eq!(path, "/root/repo/signing.pub");
    assert_ne!(to_hex(&key), to_hex(&[7; 32]));
    assert_eq!(to_hex(&key).len(), 64);
    assert_eq!(ensure_signing_key(&c, Ok([7; 32]), Some(&key)), Ok(None));
    let stale = ensure_signing_key(&c, Ok([8; 32]), Some(&key)).unwrap().unwrap();
    assert_eq!(stale.0, "/root/repo/signing.pub");
    assert_ne!(stale.1, key);
    assert!(ensure_signing_key(&c, Ok([7; 32]), Some(&key[..31])).unwrap().is_some());
    assert_eq!(
        ensure_signing_key(&c, Err("31 bytes".into()), None),
        Err("invalid Ed25519 repository key: 31 bytes".to_string())
    );
}

#[test]
fn a_file_that_is_gone_counts_as_removed() {
    assert_eq!(remove_if_file("/x", Removal::Done), Ok(()));
    assert_eq!(remove_if_file("/x", Removal::Absent), Ok(()));
    assert_eq!(
        remove_if_file("/x", Removal::Failed("denied".into())),
        Err("removing /x: denied".to_string())
    );
}

#[test]
fn a_build_notes_when_it_was_taken_in() {
    let mut database = empty();
    let demo = archive(package("demo", "1.0", 1));
    let up = upload(DEMO, &sha256_file(b"demo"));
    ingest(&mut database, &config(), &up, Ok(&demo)).unwrap();
    assert!(db::published_row(&database, DEMO).unwrap().uploaded_at > 1_600_000_000);
    assert_eq!(
        regenerate_indexes(&database, &config(), &Vec::new()).unwrap(),
        ["/root/repo/system"]
    );
    assert!(ingest(&mut database, &config(), &up, Err("torn")).is_err());
}

#[test]
fn pieces_digest_like_the_whole() {
    let mut intake = Intake::new();
    assert!(intake.feed(b"a"));
    assert!(intake.feed(b""));
    assert!(intake.feed(b"bc"));
    assert_eq!(intake.size(), 3);
    let digest = intake.finish();
    assert_eq!(digest, "ba7816bf8f01cfea414140de5dae2223b00361a396177a9cb410ff61f20015ad");
    assert_eq!(digest, sha256_file(b"abc"));
    assert_eq!(
        Intake::new().finish(),
        "e3b0c44298fc1c149afbf4c8996fb92427ae41e4649b934ca495991b7852b855"
    );
}

#[test]
fn what_arrives_is_published_under_its_digest() {
    let arrived = |declared: Option<&str>| {
        let mut intake = Intake::new();
        assert!(intake.feed(b"de") && intake.feed(b"mo"));
        received(intake, DEMO, declared.map(str::to_string), "b")
    };
    let digest = sha256_file(b"demo");
    let up = arrived(Some(digest.as_str()));
    assert_eq!((up.filename.as_str(), up.sha256.as_str(), up.size), (DEMO, digest.as_str(), 4));
    assert_eq!((up.declared.as_deref(), up.builder.as_str()), (Some(digest.as_str()), "b"));
    let demo = archive(package("demo", "1.0", 1));
    for up in [up, arrived(None)] {
        let mut database = empty();
        ingest_at(&mut database, &config(), &up, Ok(&demo), 1).unwrap();
        let row = db::published_row(&database, DEMO).unwrap();
        assert_eq!((row.sha256.as_str(), row.size), (digest.as_str(), 4));
    }
    assert_eq!(
        ingest_at(&mut empty(), &config(), &arrived(Some("0")), Ok(&demo), 1).unwrap_err(),
        "sha256 mismatch between client declaration and upload"
    );
}
