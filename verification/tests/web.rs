use recipedia::api::{
    api_package, api_packages, api_status, in_mib, repo_index, ApiPackage,
};
use recipedia::config::Config;
use recipedia::db;
use recipedia::db::{Database, FileLine, PublishedRow, RecipeRecord};
use recipedia::detail::{
    github_blob_url, orphan_row, package_detail, render_virtual, Detail, DetailTemplate,
    DETAIL_FILES_SHOWN,
};
use recipedia::model::{Dependency, Package};
use recipedia::pages::{
    about_page, category, commits_summary, found_by, index, packages, status_page, upload_page,
    PackageQuery,
};
use recipedia::repo::ManifestMeta;
use recipedia::status::{Reading, State, Upstream, Version, VersionText};
use recipedia::web::{arch_match, pick_published, published_by_name, Nav};

fn upstream(text: &str, rank: u64) -> Upstream {
    Upstream { text: text.to_string(), rank }
}

fn read(epoch: u32, text: &str, rank: u64, release: u32) -> VersionText {
    VersionText {
        bare: upstream(&format!("{epoch}:{text}-{release}"), 0),
        parsed: Some(Version { epoch, upstream: upstream(text, rank), release }),
    }
}

fn reading(epoch: u32, text: &str, rank: u64, release: u32) -> Reading {
    Reading { plain: read(0, text, rank, release), full: read(epoch, text, rank, release) }
}

fn recipe(name: &str, arch: &str, epoch: u32, version: &str, rank: u64, release: u32) -> RecipeRecord {
    RecipeRecord {
        package: Package {
            schema_version: 1,
            name: name.into(),
            slot: "0".into(),
            version: upstream(version, rank),
            release,
            epoch,
            coordinate: format!("{epoch}:{version}-{release}"),
            reading: reading(epoch, version, rank, release),
            arch: arch.into(),
            channel: "system".into(),
            description: String::new(),
            license: String::new(),
            dependencies: Vec::new(),
            provides: Vec::new(),
            conflicts: Vec::new(),
            features: Vec::new(),
            installed_size: 0,
            managed_build_tools: Vec::new(),
        },
        origin: "o".into(),
        category: "c".into(),
        recipe_path: format!("{name}/{arch}/{version}"),
        git_commit: String::new(),
        source_url: String::new(),
        source_sha256: String::new(),
    }
}

fn build(filename: &str, name: &str, arch: &str, rank: u64, at: i64) -> PublishedRow {
    PublishedRow {
        filename: filename.into(),
        repo_path: format!("system/{filename}"),
        name: name.into(),
        slot: "0".into(),
        version: upstream(&format!("{rank}.0"), rank),
        release: "1".into(),
        epoch: 0,
        reading: reading(0, &format!("{rank}.0"), rank, 1),
        arch: arch.into(),
        channel: "system".into(),
        size: 1_572_864,
        sha256: format!("sha-{filename}"),
        builder: "b".into(),
        uploaded_at: at,
        meta: None,
    }
}

fn empty() -> Database {
    db::open("/state/db", false, false).unwrap()
}

fn with(recipes: Vec<RecipeRecord>) -> Database {
    let mut database = empty();
    db::rebuild_packages(&mut database, &recipes);
    database
}

fn config() -> Config {
    Config {
        listen: String::new(),
        db_path: "/state/db".into(),
        state_dir: "/state".into(),
        repo_dir: "/state/repo".into(),
        repo_channel: "main".into(),
        repo_signing_key: "/state/signing.key".into(),
        git_url: "https://example.org/recipes.git".into(),
        webhook_secret: None,
        poll_secs: 600,
        repo_base: String::new(),
        frontend_url: "https://hub".into(),
    }
}

fn manifest(row: &PublishedRow) -> ManifestMeta {
    ManifestMeta {
        schema_version: 1,
        name: row.name.clone(),
        slot: row.slot.clone(),
        version: row.version.clone(),
        release: "4".into(),
        epoch: 0,
        reading: row.reading.clone(),
        description: "from the manifest".into(),
        license: "MIT".into(),
        channel: "edge".into(),
        arch: "amd64".into(),
        installed_size: 1,
        service_toml: "[service]".into(),
        dependencies: Vec::new(),
        check_dependencies: Vec::new(),
        provides: vec!["p".into()],
        conflicts: Vec::new(),
        features: Vec::new(),
        conffiles: Vec::new(),
        managed_build_tools: Vec::new(),
    }
}

fn query(q: &str, category: &str, state: &str, arch: &str) -> PackageQuery {
    PackageQuery { q: q.into(), category: category.into(), state: state.into(), arch: arch.into() }
}

/// Four packages: `up` is built, `old` outdated, `new` ahead, `none` missing.
fn hub() -> Database {
    let mut old = recipe("old", "aarch64", 0, "2.0", 2, 1);
    old.category = "lib".into();
    old.package.description = "An OLD thing".into();
    let mut database = with(vec![
        recipe("up", "x86_64", 0, "2.0", 2, 1),
        recipe("up", "amd64", 0, "1.0", 1, 1),
        old,
        recipe("new", "amd64", 0, "2.0", 2, 1),
        recipe("none", "amd64", 0, "2.0", 2, 1),
    ]);
    db::upsert_published(&mut database, &build("up.pkg", "up", "amd64", 2, 60));
    db::upsert_published(&mut database, &build("old.pkg", "old", "any", 1, 70));
    db::upsert_published(&mut database, &build("new.pkg", "new", "amd64", 3, 80));
    database
}

fn page(database: &Database, name: &str, asked: Option<&str>) -> (DetailTemplate, String) {
    match package_detail(database, &config(), name, asked) {
        Detail::Page(page, file) => (page, file),
        _ => panic!("no page"),
    }
}

fn filenames(rows: &[PublishedRow]) -> Vec<&str> {
    rows.iter().map(|r| r.filename.as_str()).collect()
}

#[test]
fn links_follow_the_configuration() {
    let nav = Nav::from_config(&config());
    assert_eq!(nav.home, "https://hub/");
    assert_eq!(nav.packages, "https://hub/packages");
    assert_eq!(nav.status, "https://hub/status");
    assert_eq!(nav.upload, "https://hub/upload");
    assert_eq!(nav.about, "https://hub/about");
    assert_eq!(nav.repo, "/repo");
    assert_eq!(nav.version(), "0.1.6");
    let mut own = config();
    own.repo_base = "https://repo".into();
    own.frontend_url = String::new();
    let nav = Nav::from_config(&own);
    assert_eq!((nav.home.as_str(), nav.repo.as_str()), ("/", "https://repo"));
}

#[test]
fn architectures_match() {
    assert!(arch_match("amd64", "amd64"));
    assert!(arch_match("any", "amd64"));
    assert!(arch_match("amd64", "any"));
    assert!(!arch_match("amd64", "aarch64"));
}

#[test]
fn builds_of_a_name_have_canonical_architectures() {
    let mut database = hub();
    db::upsert_published(&mut database, &build("other.pkg", "up", "x86_64", 3, 1));
    let rows = published_by_name(&database, "up");
    assert_eq!(filenames(&rows), ["other.pkg"]);
    assert_eq!(rows[0].arch, "amd64");
    assert!(published_by_name(&database, "none").is_empty());
}

#[test]
fn the_build_to_compare_with_is_picked() {
    let picked = |rows: &Vec<PublishedRow>, arch: &str, version: Option<&str>| {
        pick_published(rows, arch, version).map(|r| r.filename)
    };
    let rows = vec![
        build("any3", "a", "any", 3, 1),
        build("amd1", "a", "amd64", 1, 1),
        build("amd2", "a", "amd64", 2, 1),
        build("amd2late", "a", "amd64", 2, 9),
        build("arm", "a", "aarch64", 9, 1),
    ];
    assert_eq!(picked(&rows, "amd64", None), Some("amd2late".to_string()));
    assert_eq!(picked(&rows, "amd64", Some("1.0")), Some("amd1".to_string()));
    assert_eq!(picked(&rows, "amd64", Some("3.0")), Some("amd2late".to_string()));
    assert_eq!(picked(&rows, "riscv", Some("3.0")), Some("any3".to_string()));
    assert_eq!(picked(&rows, "amd64", Some("7.0")), Some("amd2late".to_string()));
    assert_eq!(picked(&rows, "riscv", None), Some("any3".to_string()));
    assert_eq!(picked(&rows, "any", None), Some("any3".to_string()));
    assert_eq!(picked(&vec![build("arm", "a", "aarch64", 9, 1)], "amd64", None), None);
    assert_eq!(picked(&Vec::new(), "amd64", None), None);
    let two = vec![build("own", "a", "amd64", 1, 1), build("any", "a", "any", 2, 1)];
    assert_eq!(picked(&two, "amd64", Some("2.0")), Some("own".to_string()));
}

#[test]
fn the_front_page_counts_states() {
    let mut database = hub();
    let front = index(&database, &config());
    assert_eq!(
        (front.total, front.built, front.outdated, front.missing, front.ahead),
        (4, 1, 1, 1, 1)
    );
    assert_eq!(front.commit, "");
    assert_eq!(front.categories.len(), 2);
    assert!(front.recent_syncs.is_empty());
    for i in 0..9 {
        db::log_sync_at(&mut database, "t", "c", i, true, "m", i, i as u64);
    }
    db::meta_set(&mut database, "last_commit", "0123456789abcdef");
    let front = index(&database, &config());
    assert_eq!(front.recent_syncs.len(), 8);
    assert_eq!(front.commit, "recipes@0123456789ab");
    assert_eq!(commits_summary(&database), "recipes@0123456789ab");
}

#[test]
fn packages_are_searched_and_filtered() {
    let database = hub();
    let names = |q: PackageQuery| -> Vec<String> {
        packages(&database, &config(), &q).rows.into_iter().map(|r| r.name).collect()
    };
    assert_eq!(names(query("", "", "", "")), ["new", "none", "old", "up"]);
    assert_eq!(names(query("N", "", "", "")), ["new", "none", "old"]);
    assert_eq!(names(query("an old", "", "", "")), ["old"]);
    assert_eq!(names(query("", "lib", "", "")), ["old"]);
    assert_eq!(names(query("", "", "ahead", "")), ["new"]);
    assert_eq!(names(query("", "", "", "aarch64")), ["old"]);
    assert!(names(query("n", "", "built", "")).is_empty());
    assert!(names(query("", "", "odd", "")).is_empty());
    let shown = packages(&database, &config(), &query("u", "c", "built", "amd64"));
    assert_eq!((shown.q.as_str(), shown.category.as_str()), ("u", "c"));
    assert_eq!((shown.state.as_str(), shown.arch.as_str()), ("built", "amd64"));
    assert_eq!(shown.arches, ["aarch64", "amd64"]);
    assert_eq!(shown.total, 1);
    assert!(found_by("gcc", "", "gc"));
    assert!(found_by("x", "yz", "z"));
    assert!(!found_by("x", "y", "z"));
}

#[test]
fn views_tell_what_is_published() {
    let database = hub();
    let rows = packages(&database, &config(), &query("", "", "", "")).rows;
    assert_eq!(rows[0].repo_version, "3.0-1");
    assert!(rows[0].repo_differs());
    assert_eq!(rows[0].published_time(), "1970-01-01 00:01");
    assert_eq!(rows[0].published_iso(), "1970-01-01T00:01:20Z");
    assert_eq!((rows[1].repo_version.as_str(), rows[1].built_at), ("", 0));
    assert!(!rows[1].repo_differs());
    assert_eq!(rows[1].published_time(), "");
    assert_eq!(rows[1].published_iso(), "");
    assert_eq!(rows[3].version, "2.0");
    assert!(!rows[3].repo_differs());
}

#[test]
fn a_category_has_its_page() {
    let shown = category(&hub(), &config(), "lib");
    assert_eq!(shown.total, 1);
    assert_eq!(shown.rows[0].name, "old");
    assert_eq!(shown.category, "lib");
    assert!(shown.arches.is_empty() && shown.q.is_empty());
    assert_eq!(category(&hub(), &config(), "x").total, 0);
}

#[test]
fn the_status_page_parts_the_packages() {
    let shown = status_page(&hub(), &config(), "");
    assert_eq!(shown.built, 1);
    assert_eq!(shown.missing[0].name, "none");
    assert_eq!(shown.outdated[0].name, "old");
    assert_eq!(shown.ahead[0].name, "new");
    assert_eq!(shown.missing.len() + shown.outdated.len() + shown.ahead.len() + shown.built, 4);
    assert_eq!(shown.arches, ["aarch64", "amd64"]);
    let shown = status_page(&hub(), &config(), "aarch64");
    assert_eq!((shown.built, shown.outdated.len(), shown.missing.len()), (0, 1, 0));
    assert_eq!(shown.arch, "aarch64");
}

#[test]
fn the_about_page_tells_the_source() {
    let mut database = hub();
    let shown = about_page(&database, &config());
    assert_eq!(shown.version, "0.1.6");
    assert_eq!(shown.source.url, "https://example.org/recipes.git");
    assert_eq!(shown.source.commit, "");
    assert_eq!((shown.recipe_count, shown.published_count), (4, 3));
    assert!(shown.last_sync.is_none());
    db::meta_set(&mut database, "last_commit", "abc");
    db::log_sync_at(&mut database, "t", "c", 1, true, "m", 2, 0);
    let shown = about_page(&database, &config());
    assert_eq!(shown.source.commit, "abc");
    assert_eq!(shown.last_sync.unwrap().trigger, "t");
    assert_eq!(upload_page(&config()).nav.upload, "https://hub/upload");
}

#[test]
fn a_package_has_its_page() {
    let mut database = with(vec![
        recipe("a", "amd64", 0, "1.0", 1, 1),
        recipe("a", "amd64", 0, "2.0", 2, 1),
        recipe("a", "aarch64", 0, "3.0", 3, 1),
    ]);
    db::upsert_published(&mut database, &build("new", "a", "x86_64", 2, 5));
    db::upsert_published(&mut database, &build("rebuilt", "a", "amd64", 1, 9));
    db::upsert_published(&mut database, &build("arm", "a", "aarch64", 3, 7));
    let lines = (0..500)
        .map(|i| FileLine { path: format!("f{i}"), kind: "file".into(), size: 0 })
        .collect();
    db::replace_published_files(&mut database, "new", &lines);
    db::log_upsert_at(&mut database, "new", "the log", "b", 1);
    let (shown, file) = page(&database, "a", Some("x86_64"));
    assert_eq!(shown.pkg.version.text, "2.0");
    assert_eq!(shown.state, State::Built);
    assert_eq!(filenames(&shown.published), ["rebuilt", "new"]);
    let ladder: Vec<(&str, bool)> =
        shown.versions.iter().map(|v| (v.version.as_str(), v.latest)).collect();
    assert_eq!(ladder, [("2.0", true), ("1.0", false)]);
    assert_eq!(
        shown.other_arches,
        [("aarch64".to_string(), "/package/a?arch=aarch64".to_string())]
    );
    assert_eq!((shown.files.len(), shown.files_total), (DETAIL_FILES_SHOWN, 500));
    assert!(shown.has_log);
    assert_eq!((shown.log_content.as_str(), shown.log_builder.as_str()), ("the log", "b"));
    assert!(!shown.p_daemon);
    assert_eq!(file, "/state/git/recipes/a/amd64/2.0");
    assert_eq!(shown.recipe_toml, "<recipe not on disk>");
    let (mut shown, _) = page(&database, "a", None);
    assert_eq!(shown.pkg.arch, "aarch64");
    assert_eq!(filenames(&shown.published), ["arm"]);
    assert_eq!(shown.other_arches.len(), 1);
    assert!(!shown.has_log && shown.files.is_empty());
    shown.show_recipe("[package]");
    assert_eq!(shown.recipe_toml, "[package]");
    let (shown, _) = page(&database, "a", Some("riscv"));
    assert_eq!(shown.pkg.arch, "aarch64");
}

#[test]
fn the_newest_recipe_is_shown_where_none_is_asked_for() {
    let database = with(vec![
        recipe("foo", "amd64", 0, "2.0", 2, 1),
        recipe("foo", "aarch64", 0, "1.0", 1, 1),
    ]);
    let (shown, _) = page(&database, "foo", None);
    assert_eq!((shown.pkg.arch.as_str(), shown.pkg.version.text.as_str()), ("amd64", "2.0"));
    assert_eq!(
        shown.other_arches,
        [("aarch64".to_string(), "/package/foo?arch=aarch64".to_string())]
    );
}

#[test]
fn dependents_are_shown() {
    let mut user = recipe("user", "amd64", 0, "1.0", 1, 1);
    user.package.dependencies = vec![Dependency {
        name: "a".into(),
        op: None,
        version: None,
        text: "a".into(),
    }];
    let database = with(vec![user, recipe("a", "amd64", 0, "1.0", 1, 1)]);
    let (shown, _) = page(&database, "a", None);
    assert_eq!(shown.reverse, ["user"]);
    assert_eq!(shown.state, State::Missing);
    assert!(shown.published.is_empty());
}

#[test]
fn provided_names_lead_to_their_providers() {
    let mut gcc = recipe("gcc", "amd64", 0, "1.0", 1, 1);
    gcc.package.provides = vec!["virtual/cc".into()];
    let mut database = with(vec![gcc]);
    db::upsert_published(&mut database, &build("g", "gcc", "amd64", 1, 1));
    match package_detail(&database, &config(), "virtual/cc", None) {
        Detail::Virtual(shown) => {
            assert_eq!(shown.name, "virtual/cc");
            assert_eq!(shown.providers.len(), 1);
            assert_eq!(shown.providers[0].name, "gcc");
            assert_eq!(shown.providers[0].arch, "amd64");
            assert_eq!(shown.providers[0].repo_version, "1.0-1");
            assert_eq!(shown.providers[0].state, State::Built);
        }
        _ => panic!("not virtual"),
    }
    let none = render_virtual(&database, &config(), "x", &Vec::new());
    assert!(none.providers.is_empty());
    assert!(matches!(package_detail(&database, &config(), "nothing", None), Detail::NotFound));
    match api_package(&database, "virtual/cc") {
        ApiPackage::Virtual(names) => assert_eq!(names, ["gcc"]),
        _ => panic!("not virtual"),
    }
    assert!(matches!(api_package(&database, "nothing"), ApiPackage::NotFound));
}

#[test]
fn a_build_without_a_recipe_is_described_by_its_manifest() {
    let mut database = empty();
    let mut row = build("o", "orphan", "x86_64", 1, 1);
    let bare = orphan_row(&database, &row);
    assert_eq!((bare.category.as_str(), bare.arch.as_str()), ("orphan", "amd64"));
    assert_eq!((bare.release.as_str(), bare.description.as_str()), ("1", ""));
    row.meta = Some(manifest(&row));
    db::upsert_published(&mut database, &row);
    let (shown, _) = page(&database, "orphan", None);
    assert_eq!(shown.pkg.category, "orphan");
    assert_eq!(shown.pkg.release, "4");
    assert_eq!(shown.pkg.description, "from the manifest");
    assert_eq!(shown.pkg.channel, "edge");
    assert_eq!(shown.pkg.provides, ["p"]);
    assert!(shown.versions.is_empty() && shown.other_arches.is_empty());
    assert!(shown.p_daemon);
    assert_eq!(shown.state, State::Outdated);
}

#[test]
fn recipes_link_to_their_source() {
    assert_eq!(
        github_blob_url("https://example.org/recipes.git", "a/recipe.toml"),
        "https://example.org/recipes/blob/main/a/recipe.toml"
    );
    assert_eq!(github_blob_url("u.git.git", "p"), "u/blob/main/p");
}

#[test]
fn the_repository_is_listed() {
    let shown = repo_index(&hub(), &config());
    assert_eq!(filenames(&shown.files), ["new.pkg", "old.pkg", "up.pkg"]);
    assert_eq!(shown.total_mib, "4.5");
    assert_eq!(in_mib(104_857), "0.1");
    assert_eq!(in_mib(-1_572_864), "-1.5");
}

#[test]
fn states_are_listed_per_version() {
    let database = hub();
    assert_eq!(api_packages(&database).len(), 5);
    let entries = api_status(&database);
    let listed: Vec<(&str, &str, State, Option<&str>)> = entries
        .iter()
        .map(|e| {
            (e.name.as_str(), e.recipe_version.as_str(), e.state, e.repo_version.as_deref())
        })
        .collect();
    assert_eq!(
        listed,
        [
            ("new", "2.0", State::Ahead, Some("3.0")),
            ("none", "2.0", State::Missing, None),
            ("old", "2.0", State::Outdated, Some("1.0")),
            ("up", "1.0", State::Ahead, Some("2.0")),
            ("up", "2.0", State::Built, Some("2.0")),
        ]
    );
    assert_eq!(entries[0].repo_release.as_deref(), Some("1"));
    assert_eq!(entries[1].repo_release, None);
}

#[test]
fn a_recipe_stands_beside_a_build_of_its_version() {
    let told = |arch: &str, builds: &[PublishedRow]| {
        let mut database = with(vec![recipe("p", arch, 0, "1.0", 1, 1)]);
        for build in builds {
            db::upsert_published(&mut database, build);
        }
        let entry = api_status(&database).remove(0);
        (entry.state, entry.repo_version)
    };
    let own = build("own", "p", "amd64", 2, 1);
    let any = build("any", "p", "any", 1, 2);
    let both = [own.clone(), any.clone()];
    assert_eq!(told("amd64", &both), (State::Built, Some("1.0".to_string())));
    assert_eq!(told("amd64", &[any]), (State::Built, Some("1.0".to_string())));
    assert_eq!(told("amd64", &[own]), (State::Ahead, Some("2.0".to_string())));
    let foreign = build("foreign", "p", "arm64", 1, 3);
    let newer = build("newer", "p", "any", 3, 4);
    assert_eq!(told("amd64", &[foreign, newer]), (State::Ahead, Some("3.0".to_string())));
}

#[test]
fn one_package_is_told_in_full() {
    match api_package(&hub(), "up") {
        ApiPackage::Found(row, entry, versions) => {
            assert_eq!(row.version.text, "2.0");
            assert_eq!(entry.state, State::Built);
            assert_eq!(entry.recipe_release, "1");
            assert_eq!(versions.len(), 2);
            assert_eq!(versions[1].version, "1.0");
            assert_eq!(versions[1].recipe_path, "up/amd64/1.0");
        }
        _ => panic!("not found"),
    }
}
