use recipedia::db;
use recipedia::db::{Database, FileLine, PublishedRow, RecipeRecord};
use recipedia::digest::sha256_hex;
use recipedia::model::{Dependency, Package};
use recipedia::status::{Reading, Upstream, Version, VersionText};

fn upstream(text: &str, rank: u64) -> Upstream {
    Upstream { text: text.to_string(), rank }
}

fn read(epoch: u32, text: &str, rank: u64, release: u32) -> VersionText {
    VersionText {
        bare: upstream(&format!("{epoch}:{text}-{release}"), 0),
        parsed: Some(Version { epoch, upstream: upstream(text, rank), release }),
    }
}

fn reading(epoch: u32, text: &str, rank: u64, release: u32) -> Reading {
    Reading { plain: read(0, text, rank, release), full: read(epoch, text, rank, release) }
}

fn recipe(name: &str, arch: &str, epoch: u32, version: &str, rank: u64, release: u32) -> RecipeRecord {
    RecipeRecord {
        package: Package {
            schema_version: 1,
            name: name.into(),
            slot: "0".into(),
            version: upstream(version, rank),
            release,
            epoch,
            coordinate: format!("{epoch}:{version}-{release}"),
            reading: reading(epoch, version, rank, release),
            arch: arch.into(),
            channel: "system".into(),
            description: String::new(),
            license: String::new(),
            dependencies: Vec::new(),
            provides: Vec::new(),
            conflicts: Vec::new(),
            features: Vec::new(),
            installed_size: 0,
            managed_build_tools: Vec::new(),
        },
        origin: "o".into(),
        category: "c".into(),
        recipe_path: format!("{name}/{arch}/{version}"),
        git_commit: String::new(),
        source_url: String::new(),
        source_sha256: String::new(),
    }
}

fn build(filename: &str, name: &str, arch: &str, rank: u64, at: i64) -> PublishedRow {
    PublishedRow {
        filename: filename.into(),
        repo_path: format!("system/{filename}"),
        name: name.into(),
        slot: "0".into(),
        version: upstream(&format!("{rank}.0"), rank),
        release: "1".into(),
        epoch: 0,
        reading: reading(0, &format!("{rank}.0"), rank, 1),
        arch: arch.into(),
        channel: "system".into(),
        size: 1_572_864,
        sha256: format!("sha-{filename}"),
        builder: "b".into(),
        uploaded_at: at,
        meta: None,
    }
}

fn empty() -> Database {
    db::open("/state/db", false, false).unwrap()
}

fn with(recipes: Vec<RecipeRecord>) -> Database {
    let mut database = empty();
    db::rebuild_packages(&mut database, &recipes);
    database
}

#[test]
fn the_state_needs_a_directory() {
    assert_eq!(empty().path(), "/state/db");
    assert!(db::open("/state/db", true, true).is_ok());
    match db::open("/state/db", true, false) {
        Err(e) => assert_eq!(
            e,
            "database path /state/db is a file; Sage 0.4 state requires an LMDB directory"
        ),
        Ok(_) => panic!("a file was taken"),
    }
}

#[test]
fn recipes_are_keyed_by_their_coordinates() {
    assert_eq!(db::recipe_key(&recipe("a", "amd64", 2, "1.0", 1, 3)), "system:a:0:amd64:2:2:1.0-3");
    let mut database = with(vec![
        recipe("a", "amd64", 0, "1.0", 1, 1),
        recipe("a", "amd64", 0, "1.0", 1, 1),
        recipe("b", "amd64", 0, "1.0", 1, 1),
    ]);
    assert_eq!(db::all_packages(&database).len(), 2);
    db::rebuild_packages(&mut database, &vec![recipe("c", "amd64", 0, "1.0", 1, 1)]);
    assert_eq!(db::all_packages(&database)[0].name, "c");
    assert_eq!(db::all_packages(&database).len(), 1);
}

#[test]
fn packages_are_listed_in_order() {
    let database = with(vec![
        recipe("b", "amd64", 0, "1.0", 1, 1),
        recipe("a", "x86_64", 0, "10.0", 10, 1),
        recipe("a", "amd64", 0, "9.0", 9, 1),
        recipe("a", "aarch64", 0, "9.0", 9, 1),
    ]);
    let rows = db::all_packages(&database);
    let listed: Vec<(&str, &str, &str)> = rows
        .iter()
        .map(|r| (r.name.as_str(), r.arch.as_str(), r.version.text.as_str()))
        .collect();
    assert_eq!(
        listed,
        [("a", "aarch64", "9.0"), ("a", "amd64", "10.0"), ("a", "amd64", "9.0"), ("b", "amd64", "1.0")]
    );
}

#[test]
fn the_newest_recipe_of_each_package_is_shown() {
    let database = with(vec![
        recipe("a", "amd64", 0, "9.0", 9, 1),
        recipe("a", "x86_64", 0, "10.0", 10, 1),
        recipe("a", "aarch64", 0, "9.0", 9, 1),
        recipe("e", "amd64", 1, "1.0", 1, 1),
        recipe("e", "amd64", 0, "5.0", 5, 1),
        recipe("r", "amd64", 0, "5.0", 5, 2),
        recipe("r", "amd64", 0, "5.0", 5, 1),
    ]);
    let rows = db::latest_packages(&database);
    let listed: Vec<(&str, &str, &str, &str)> = rows
        .iter()
        .map(|r| {
            (r.name.as_str(), r.arch.as_str(), r.version.text.as_str(), r.release.as_str())
        })
        .collect();
    assert_eq!(
        listed,
        [
            ("a", "aarch64", "9.0", "1"),
            ("a", "amd64", "10.0", "1"),
            ("e", "amd64", "1.0", "1"),
            ("r", "amd64", "5.0", "2"),
        ]
    );
}

#[test]
fn the_versions_of_a_package_come_newest_first() {
    let database = with(vec![
        recipe("a", "amd64", 0, "9.0", 9, 1),
        recipe("a", "amd64", 0, "10.0", 10, 1),
        recipe("a", "amd64", 1, "1.0", 1, 1),
        recipe("b", "amd64", 0, "1.0", 1, 1),
    ]);
    let rows = db::package_versions(&database, "a");
    let versions: Vec<&str> = rows.iter().map(|r| r.version.text.as_str()).collect();
    assert_eq!(versions, ["1.0", "10.0", "9.0"]);
    assert_eq!(db::package_by_name(&database, "a").unwrap().epoch, 1);
    assert!(db::package_by_name(&database, "x").is_none());
    assert!(db::package_versions(&database, "x").is_empty());
}

#[test]
fn providers_and_dependents_are_found() {
    let mut gcc = recipe("gcc", "amd64", 0, "1.0", 1, 1);
    gcc.package.provides = vec!["cc".into()];
    let mut clang = recipe("clang", "amd64", 0, "1.0", 1, 1);
    clang.package.provides = vec!["cc".into(), "c++".into()];
    let mut old = recipe("gcc", "amd64", 0, "0.9", 0, 1);
    old.package.provides = vec!["cc".into()];
    old.package.dependencies = vec![Dependency {
        name: "clang".into(),
        op: None,
        version: None,
        text: "clang".into(),
    }];
    let database = with(vec![gcc, clang, old]);
    assert_eq!(db::providers(&database, "cc"), ["clang", "gcc"]);
    assert_eq!(db::providers(&database, "c++"), ["clang"]);
    assert!(db::providers(&database, "gcc").is_empty());
    assert_eq!(db::reverse_deps(&database, "clang"), ["gcc"]);
    assert!(db::reverse_deps(&database, "gcc").is_empty());
}

#[test]
fn categories_count_each_name_once() {
    let mut other = recipe("z", "amd64", 0, "1.0", 1, 1);
    other.category = "b".into();
    let database = with(vec![
        recipe("a", "amd64", 0, "1.0", 1, 1),
        recipe("a", "aarch64", 0, "1.0", 1, 1),
        recipe("b", "amd64", 0, "1.0", 1, 1),
        other,
    ]);
    let counts: Vec<(String, i64)> =
        db::categories(&database).into_iter().map(|c| (c.name, c.count)).collect();
    assert_eq!(counts, [("b".to_string(), 1), ("c".to_string(), 2)]);
}

#[test]
fn the_newest_build_of_each_package_counts() {
    let mut database = empty();
    db::upsert_published(&mut database, &build("a1", "a", "x86_64", 1, 50));
    db::upsert_published(&mut database, &build("a2", "a", "amd64", 2, 10));
    db::upsert_published(&mut database, &build("a3", "a", "amd64", 2, 30));
    db::upsert_published(&mut database, &build("a4", "a", "amd64", 2, 20));
    db::upsert_published(&mut database, &build("b", "a", "aarch64", 1, 5));
    let rows = db::published_latest_by_arch(&database);
    let listed: Vec<(&str, &str)> =
        rows.iter().map(|r| (r.filename.as_str(), r.arch.as_str())).collect();
    assert_eq!(listed, [("b", "aarch64"), ("a3", "amd64")]);
}

#[test]
fn builds_are_listed_last_published_first() {
    let mut database = empty();
    db::upsert_published(&mut database, &build("y", "a", "amd64", 1, 5));
    db::upsert_published(&mut database, &build("x", "a", "amd64", 1, 5));
    db::upsert_published(&mut database, &build("z", "b", "amd64", 1, 9));
    let names = |rows: Vec<PublishedRow>| -> Vec<String> {
        rows.into_iter().map(|r| r.filename).collect()
    };
    assert_eq!(names(db::published_all(&database)), ["z", "x", "y"]);
    assert_eq!(names(db::published_for_name(&database, "a")), ["x", "y"]);
    assert_eq!(db::published_sha256(&database, "x"), Some("sha-x".to_string()));
    assert_eq!(db::published_sha256(&database, "w"), None);
    assert_eq!(db::published_sha256_for_path(&database, "system/y"), Some("sha-y".to_string()));
    assert_eq!(db::published_sha256_for_path(&database, "y"), None);
    assert!(db::published_meta(&database, "x").is_none());
}

#[test]
fn a_deleted_build_leaves_nothing() {
    let mut database = empty();
    db::upsert_published(&mut database, &build("x", "a", "amd64", 1, 5));
    db::upsert_published(&mut database, &build("y", "a", "amd64", 1, 5));
    let lines = vec![FileLine { path: "p".into(), kind: "file".into(), size: 1 }];
    db::replace_published_files(&mut database, "x", &lines);
    db::log_upsert_at(&mut database, "x", "log", "b", 1);
    assert_eq!(db::log_get(&database, "x").unwrap().content, "log");
    assert_eq!(db::file_list(&database, "x").len(), 1);
    assert_eq!(db::delete_published(&mut database, "x").unwrap().filename, "x");
    assert!(db::delete_published(&mut database, "x").is_none());
    assert!(db::file_list(&database, "x").is_empty());
    assert!(db::log_get(&database, "x").is_none());
    assert!(db::published_row(&database, "y").is_some());
}

#[test]
fn tokens_are_known_by_their_digest_alone() {
    let mut database = empty();
    let raw = [0xab; 32];
    let token = db::token_create_at(&mut database, "builder", &raw, 7);
    assert_eq!(token, format!("rt_{}", "ab".repeat(32)));
    assert_eq!(database.tokens.key_at(0), sha256_hex(token.as_bytes()));
    assert_eq!(database.tokens.value_at(0).created_at, 7);
    assert_eq!(database.tokens.value_at(0).last_used_at, None);
    assert_eq!(db::token_label_at(&mut database, &token, 9), Some("builder".to_string()));
    assert_eq!(database.tokens.value_at(0).last_used_at, Some(9));
    assert_eq!(db::token_label_at(&mut database, "rt_00", 10), None);
    assert_eq!(database.tokens.len(), 1);
    let other = db::token_create(&mut database, "other", &[1; 32]);
    assert_eq!(db::token_label(&mut database, &other), Some("other".to_string()));
}

#[test]
fn the_history_is_cut_to_its_last_entries() {
    let mut database = empty();
    db::log_sync_at(&mut database, "a", "c", 10, true, "m", 11, 0);
    db::log_sync_at(&mut database, "b", "c", 30, false, "m", 31, 1);
    db::log_sync_at(&mut database, "c", "c", 20, true, "m", 32, 2);
    let triggers = |limit| -> Vec<String> {
        db::recent_syncs(&database, limit).into_iter().map(|s| s.trigger).collect()
    };
    assert_eq!(triggers(8), ["b", "c", "a"]);
    assert_eq!(triggers(1), ["b"]);
    assert!(triggers(0).is_empty());
    let entry = &db::recent_syncs(&database, 8)[2];
    assert_eq!(entry.when(), "1970-01-01 00:00");
    assert_eq!(entry.when_iso(), "1970-01-01T00:00:10Z");
}

#[test]
fn notes_are_kept() {
    let mut database = empty();
    assert_eq!(db::meta_get(&database, "k"), None);
    db::meta_set(&mut database, "k", "1");
    db::meta_set(&mut database, "k", "2");
    assert_eq!(db::meta_get(&database, "k"), Some("2".to_string()));
}

#[test]
fn the_clock_runs() {
    assert!(db::now() > 1_600_000_000);
    assert_eq!(db::instant(None), 0);
    assert_eq!(db::instant(Some(5)), 5);
    let mut database = empty();
    db::log_upsert(&mut database, "x", "log", "b");
    assert!(db::log_get(&database, "x").unwrap().uploaded_at > 1_600_000_000);
    db::log_sync(&mut database, "t", "c", 1, true, "m", 0);
    assert_eq!(db::recent_syncs(&database, 1)[0].commit, "c");
}

#[test]
fn rows_tell_their_time_and_size() {
    let mut row = build("x", "a", "amd64", 1, 1_700_000_000);
    assert_eq!(row.built_at(), "2023-11-14 22:13");
    assert_eq!(row.built_iso(), "2023-11-14T22:13:20Z");
    assert_eq!(row.size_mib(), "1.5");
    row.size = 262_144;
    assert_eq!(row.size_mib(), "0.2");
    row.size = 786_432;
    assert_eq!(row.size_mib(), "0.8");
    row.size = 0;
    assert_eq!(row.size_mib(), "0.0");
    row.size = 123_456_789;
    assert_eq!(row.size_mib(), "117.7");
    assert!(!row.is_daemon());
    assert!(row.managed_build_tools().is_empty());
}
