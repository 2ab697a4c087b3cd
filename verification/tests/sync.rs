use recipedia::config::Config;
use recipedia::db;
use recipedia::model::Package;
use recipedia::status::{Reading, Upstream, VersionText};
use recipedia::sync::{
    arches_from_paths, changed_arches, changed_paths_command, collect_recipes, commit_probe,
    continue_mirror, enters_directory, is_recipe_file, remote_head, remote_head_command,
    run_sync_at, sync_inner, update_mirror, Command, FoundRecipe, LoadedRecipe, MirrorAction,
    MirrorStep, Pulled, SyncReport,
};

fn upstream(text: &str, rank: u64) -> Upstream {
    Upstream { text: text.to_string(), rank }
}

fn unread(text: &str, rank: u64) -> VersionText {
    VersionText { bare: upstream(text, rank), parsed: None }
}

fn package(name: &str, arch: &str, version: &str, rank: u64) -> Package {
    Package {
        schema_version: 1,
        name: name.into(),
        slot: "0".into(),
        version: upstream(version, rank),
        release: 1,
        epoch: 0,
        coordinate: format!("0:{version}-1"),
        reading: Reading {
            plain: unread(&format!("{version}-1"), rank),
            full: unread(&format!("0:{version}-1"), rank),
        },
        arch: arch.into(),
        channel: "system".into(),
        description: "demo".into(),
        license: "MIT".into(),
        dependencies: Vec::new(),
        provides: Vec::new(),
        conflicts: Vec::new(),
        features: Vec::new(),
        installed_size: 0,
        managed_build_tools: Vec::new(),
    }
}

fn found(path: &str, package: Package) -> FoundRecipe {
    FoundRecipe {
        path: path.into(),
        recipe: Ok(LoadedRecipe {
            package,
            source_url: "https://example.invalid/demo.tar".into(),
            source_sha256: "00".into(),
        }),
    }
}

fn config() -> Config {
    Config {
        listen: String::new(),
        db_path: "/state/database".into(),
        state_dir: "/state".into(),
        repo_dir: "/state/repo".into(),
        repo_channel: "main".into(),
        repo_signing_key: "/state/signing.key".into(),
        git_url: "https://example.invalid/sage".into(),
        webhook_secret: None,
        poll_secs: 600,
        repo_base: String::new(),
        frontend_url: String::new(),
    }
}

fn args(command: &Command) -> Vec<&str> {
    command.args.iter().map(String::as_str).collect()
}

fn run(action: MirrorAction) -> (Command, MirrorStep) {
    match action {
        MirrorAction::Run(command, step) => (command, step),
        other => panic!("{other:?}"),
    }
}

#[test]
fn changed_architectures_are_found_in_sage_tree_paths() {
    assert_eq!(
        arches_from_paths(
            "recipes/gcc/amd64/recipe.toml\nrecipes/base/any/recipe.toml\n\
             recipes/zlib/aarch64/service.toml\nREADME.md\n"
        ),
        ["aarch64", "amd64", "any"]
    );
}

#[test]
fn collector_uses_sage_recipe_spec_without_a_legacy_layout() {
    let tree = vec![found("packages/demo/recipe.toml", package("demo", "amd64", "1.0", 1))];
    let records = collect_recipes("/mirror", &tree, "https://example.invalid/sage").unwrap();
    assert_eq!(records.len(), 1);
    assert_eq!(records[0].package.name, "demo");
    assert_eq!(records[0].recipe_path, "packages/demo/recipe.toml");
    assert_eq!(records[0].category, "packages");
    assert_eq!(records[0].origin, "https://example.invalid/sage");
    assert_eq!(records[0].git_commit, "");
    assert_eq!(records[0].source_url, "https://example.invalid/demo.tar");
}

#[test]
fn architectures_are_spelled_canonically_and_once() {
    assert_eq!(arches_from_paths("a/x86_64/b\nc/amd64\n./arm64/x\narmhf\n"), [
        "aarch64", "amd64", "armv7"
    ]);
    assert_eq!(arches_from_paths("noarch/x\r\nriscv64"), ["noarch", "riscv64"]);
    assert_eq!(arches_from_paths("xamd64/amd64x"), Vec::<String>::new());
    assert_eq!(arches_from_paths(""), Vec::<String>::new());
}

#[test]
fn the_same_commit_touches_nothing() {
    assert_eq!(changed_arches(Some("c"), "c", "a/amd64/b"), Vec::<String>::new());
    assert_eq!(changed_arches(Some("b"), "c", "a/amd64/b"), ["amd64"]);
    assert_eq!(changed_arches(None, "c", "a/amd64/b"), ["amd64"]);
}

#[test]
fn changed_paths_are_asked_for() {
    let old = "0123456789abcdef0123456789abcdef01234567";
    let call = |previous, found| changed_paths_command("/m", previous, "new", found);
    assert!(changed_paths_command("/m", Some(old), old, true).is_none());
    assert_eq!(args(&call(Some(old), true).unwrap()), ["diff", "--name-only", old, "new"]);
    assert_eq!(args(&call(Some(old), false).unwrap()), ["ls-tree", "-r", "--name-only", "new"]);
    assert_eq!(args(&call(Some("short"), true).unwrap()), [
        "ls-tree", "-r", "--name-only", "new"
    ]);
    assert_eq!(args(&call(None, true).unwrap()), ["ls-tree", "-r", "--name-only", "new"]);
    let probe = commit_probe("/m", old).unwrap();
    assert_eq!(args(&probe), ["cat-file", "-e", "0123456789abcdef0123456789abcdef01234567^{commit}"]);
    assert_eq!(probe.dir, "/m");
    assert!(commit_probe("/m", "short").is_none());
    assert!(commit_probe("/m", "g123456789abcdef0123456789abcdef01234567").is_none());
}

#[test]
fn a_mirror_is_fetched_and_reset() {
    let (command, step) = run(update_mirror("url", "/s/git/recipes", true));
    assert_eq!(args(&command), ["fetch", "origin", "--prune"]);
    assert_eq!(command.dir, "/s/git/recipes");
    assert!(!command.make_dir);
    let (command, step) = run(continue_mirror("/s/git/recipes", step, Ok("")));
    assert_eq!(args(&command), ["symbolic-ref", "refs/remotes/origin/HEAD"]);
    let (command, step) = run(continue_mirror(
        "/s/git/recipes",
        step,
        Ok("refs/remotes/origin/trunk\n"),
    ));
    assert_eq!(args(&command), ["reset", "--hard", "refs/remotes/origin/trunk"]);
    let (command, step) = run(continue_mirror("/s/git/recipes", step, Ok("HEAD is now at x")));
    assert_eq!(args(&command), ["rev-parse", "HEAD"]);
    match continue_mirror("/s/git/recipes", step, Ok("abc\n")) {
        MirrorAction::Done(commit) => assert_eq!(commit, "abc"),
        other => panic!("{other:?}"),
    }
}

#[test]
fn a_missing_branch_name_means_main() {
    for answer in [Err("no such ref"), Ok(" \n")] {
        let (command, step) = run(continue_mirror("/m", MirrorStep::Branch, answer));
        assert_eq!(args(&command), ["reset", "--hard", "origin/main"]);
        assert_eq!(step, MirrorStep::Reset);
    }
    match continue_mirror("/m", MirrorStep::Fetch, Err("offline")) {
        MirrorAction::Fail(e) => assert_eq!(e, "offline"),
        other => panic!("{other:?}"),
    }
}

#[test]
fn a_new_mirror_is_cloned() {
    let (command, step) = run(update_mirror("url", "/s/git/recipes", false));
    assert_eq!(args(&command), ["clone", "--depth", "1", "url", "recipes"]);
    assert_eq!(command.dir, "/s/git");
    assert!(command.make_dir);
    assert_eq!(step, MirrorStep::Clone);
    let (command, _) = run(continue_mirror("/s/git/recipes", step, Ok("")));
    assert_eq!(args(&command), ["rev-parse", "HEAD"]);
    match update_mirror("url", "/", false) {
        MirrorAction::Fail(e) => assert_eq!(e, "git mirror has no parent"),
        other => panic!("{other:?}"),
    }
}

#[test]
fn a_remote_names_its_head() {
    assert_eq!(args(&remote_head_command("url")), ["ls-remote", "url", "refs/heads/main"]);
    assert_eq!(remote_head("abc\trefs/heads/main\n"), Ok("abc".to_string()));
    assert_eq!(remote_head(" \n"), Err("ls-remote produced no SHA".to_string()));
}

#[test]
fn the_tree_is_searched() {
    assert!(!enters_directory(".git"));
    assert!(enters_directory("packages"));
    assert!(is_recipe_file("recipe.toml"));
    assert!(!is_recipe_file("recipe.toml.bak"));
}

#[test]
fn recipes_come_in_the_order_of_their_coordinates() {
    let tree = vec![
        found("b/recipe.toml", package("b", "amd64", "1.0", 1)),
        found("a/2/recipe.toml", package("a", "amd64", "2.0", 2)),
        found("recipe.toml", package("a", "amd64", "1.0", 1)),
        found("a/arm/recipe.toml", package("a", "aarch64", "1.0", 1)),
    ];
    let records = collect_recipes("/m", &tree, "o").unwrap();
    let paths: Vec<&str> = records.iter().map(|r| r.recipe_path.as_str()).collect();
    assert_eq!(paths, ["a/arm/recipe.toml", "recipe.toml", "a/2/recipe.toml", "b/recipe.toml"]);
    assert_eq!(records[1].category, "recipe.toml");
}

#[test]
fn duplicates_are_refused() {
    let tree = vec![
        found("x/recipe.toml", package("demo", "x86_64", "1.0", 1)),
        found("y/recipe.toml", package("demo", "amd64", "1.0", 1)),
    ];
    assert_eq!(
        collect_recipes("/m", &tree, "o").unwrap_err(),
        "duplicate Sage package system:demo:0 at x/recipe.toml and y/recipe.toml"
    );
}

#[test]
fn a_recipe_that_cannot_be_read_is_refused() {
    let tree = vec![FoundRecipe { path: "x/recipe.toml".into(), recipe: Err("no name".into()) }];
    assert_eq!(
        collect_recipes("/m", &tree, "o").unwrap_err(),
        "loading Sage recipe /m/x/recipe.toml: no name"
    );
    assert!(collect_recipes("/m", &Vec::new(), "o").unwrap().is_empty());
}

#[test]
fn reports_fit_in_a_line() {
    let report = |arches: &[&str]| SyncReport {
        count: 12,
        changed_arches: arches.iter().map(|a| a.to_string()).collect(),
    };
    assert_eq!(report(&[]).summary(), "12 Sage recipes; changed architectures: none");
    assert_eq!(
        report(&["amd64", "any"]).summary(),
        "12 Sage recipes; changed architectures: amd64, any"
    );
}

#[test]
fn a_synchronization_replaces_the_recipes() {
    let mut database = db::open("/state/database", false, false).unwrap();
    let pulled = Pulled {
        commit: "c1".into(),
        paths: "a/x86_64/recipe.toml\nb/any/recipe.toml\n".into(),
        recipes: vec![
            found("a/recipe.toml", package("a", "amd64", "1.0", 1)),
            found("b/recipe.toml", package("b", "any", "1.0", 1)),
        ],
    };
    let report =
        run_sync_at(&mut database, &config(), "boot", Ok(&pulled), 100, 107, 0).unwrap();
    assert_eq!(report.count, 2);
    assert_eq!(report.changed_arches, ["amd64", "any"]);
    assert_eq!(db::meta_get(&database, "last_commit"), Some("c1".to_string()));
    assert_eq!(db::meta_get(&database, "last_changed_arches"), Some("amd64,any".to_string()));
    assert_eq!(db::all_packages(&database).len(), 2);
    let entry = &db::recent_syncs(&database, 8)[0];
    assert_eq!((entry.trigger.as_str(), entry.commit.as_str(), entry.ok), ("boot", "c1", true));
    assert_eq!(entry.message, "2 Sage recipes; changed architectures: amd64, any");
    assert_eq!(entry.started_at, 100);
    assert_eq!(database.sync_log.key_at(0), "00000000000000000107-00000000000000000000");
    assert_eq!(database.recipes.value_at(0).git_commit, "c1");

    // At the same commit nothing has changed, and the one recipe left stays.
    let again = Pulled {
        commit: "c1".into(),
        paths: "a/x86_64/recipe.toml\n".into(),
        recipes: vec![found("a/recipe.toml", package("a", "amd64", "1.0", 1))],
    };
    let (commit, report) = sync_inner(&mut database, &config(), Ok(&again)).unwrap();
    assert_eq!(commit, "c1");
    assert!(report.changed_arches.is_empty());
    assert_eq!(db::all_packages(&database).len(), 1);
}

#[test]
fn a_failed_synchronization_changes_nothing_but_the_history() {
    let mut database = db::open("/state/database", false, false).unwrap();
    let good = Pulled {
        commit: "c1".into(),
        paths: String::new(),
        recipes: vec![found("a/recipe.toml", package("a", "amd64", "1.0", 1))],
    };
    run_sync_at(&mut database, &config(), "boot", Ok(&good), 1, 1, 0).unwrap();
    let twice = Pulled {
        commit: "c2".into(),
        paths: String::new(),
        recipes: vec![
            found("a/recipe.toml", package("a", "amd64", "1.0", 1)),
            found("b/recipe.toml", package("a", "amd64", "1.0", 1)),
        ],
    };
    let error = run_sync_at(&mut database, &config(), "poll", Ok(&twice), 2, 2, 1).unwrap_err();
    assert!(error.starts_with("duplicate Sage package"));
    let error = run_sync_at(&mut database, &config(), "poll", Err("offline"), 3, 3, 2).unwrap_err();
    assert_eq!(error, "offline");
    assert_eq!(db::meta_get(&database, "last_commit"), Some("c1".to_string()));
    assert_eq!(db::all_packages(&database).len(), 1);
    let history = db::recent_syncs(&database, 8);
    assert_eq!(history.len(), 3);
    assert_eq!(history[0].message, "offline");
    assert!(!history[0].ok && !history[1].ok && history[2].ok);
    assert_eq!(history[1].commit, "");
}
