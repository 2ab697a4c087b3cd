use recipedia::cli::{
    already_published, archive_url, attach_build_log, authorization, client_command,
    client_config_path, collect_archives, credentials, log_path, log_url, login, no_credentials,
    parse_args, publish_roots, published_summary, server_command, server_refused, skipped_line,
    state_lines, status_line, status_url, unpublish_target, uploaded_line, wanted_state,
    ClientCommand, ClientConfig, FoundFile, ListedPackage, ServerCommand, Told,
};

use recipedia::publication::{Publication, PublishAction, PublishEvent};

fn args(list: &[&str]) -> Vec<String> {
    list.iter().map(|a| a.to_string()).collect()
}

fn client() -> ClientConfig {
    ClientConfig { url: "https://hub".into(), token: "rt_1".into() }
}

fn listed(name: &str, state: Option<&str>) -> ListedPackage {
    ListedPackage {
        name: Some(name.into()),
        recipe_version: Some("1.0".into()),
        recipe_release: None,
        state: state.map(str::to_owned),
    }
}

#[test]
fn arguments_are_parted() {
    let (rest, flags) = parse_args(&args(&["a", "--state", "b", "c", "--token"]));
    assert_eq!(rest, ["a", "c"]);
    assert_eq!(flags.len(), 1);
    assert_eq!(flags.get("--state"), Some(&"b".to_string()));
    let (rest, flags) = parse_args(&args(&["--a", "--b", "-c", "--a", "2"]));
    assert_eq!(rest, ["-c"]);
    assert_eq!(flags.get("--a"), Some(&"2".to_string()));
    assert_eq!(flags.get("--b"), None);
}

#[test]
fn the_publisher_knows_its_commands() {
    assert!(matches!(client_command(None), ClientCommand::Usage));
    assert!(matches!(client_command(Some("help")), ClientCommand::Usage));
    assert!(matches!(client_command(Some("--help")), ClientCommand::Usage));
    assert!(matches!(client_command(Some("-h")), ClientCommand::Usage));
    assert!(matches!(client_command(Some("login")), ClientCommand::Login));
    assert!(matches!(client_command(Some("publish")), ClientCommand::Publish));
    assert!(matches!(client_command(Some("unpublish")), ClientCommand::Unpublish));
    assert!(matches!(client_command(Some("status")), ClientCommand::Status));
    match client_command(Some("x")) {
        ClientCommand::Unknown(e) => assert_eq!(e, "unknown command 'x'"),
        other => panic!("{other:?}"),
    }
}

#[test]
fn the_server_makes_tokens_or_serves() {
    assert!(matches!(server_command(&args(&[])), ServerCommand::Serve));
    assert!(matches!(server_command(&args(&["x", "token"])), ServerCommand::Serve));
    match server_command(&args(&["token", "b", "c"])) {
        ServerCommand::Token(label) => assert_eq!(label, "b"),
        other => panic!("{other:?}"),
    }
    match server_command(&args(&["token"])) {
        ServerCommand::Usage(e) => assert_eq!(e, "usage: recipedia-server token <label>"),
        other => panic!("{other:?}"),
    }
}

#[test]
fn credentials_lie_in_the_configuration() {
    assert_eq!(client_config_path(Some("/c"), Some("/h")), "/c/recipedia/config.toml");
    assert_eq!(client_config_path(None, Some("/h")), "/h/.config/recipedia/config.toml");
    assert_eq!(client_config_path(None, None), ".config/recipedia/config.toml");
    assert_eq!(
        no_credentials("/c", "gone"),
        "no client config \u{2014} run `recipedia login` first (/c): gone"
    );
}

#[test]
fn saved_credentials_are_read_back() {
    let made = login(&args(&["--token", "rt_1", "rt_1", "https://hub//"])).unwrap();
    assert_eq!((made.url.as_str(), made.token.as_str()), ("https://hub//", "rt_1"));
    let text = made.save();
    assert_eq!(
        text,
        "# recipedia client credentials\nurl = \"https://hub\"\ntoken = \"rt_1\"\n"
    );
    let read = ClientConfig::load(&text).unwrap();
    assert_eq!((read.url.as_str(), read.token.as_str()), ("https://hub", "rt_1"));
    let odd = ClientConfig { url: "h\u{e9}/#= [x]'".into(), token: " \u{1f600}".into() };
    let read = ClientConfig::load(&odd.save()).unwrap();
    assert_eq!((read.url, read.token), (odd.url, odd.token));
}

#[test]
fn documents_without_credentials_are_refused() {
    let error = |document: &str| ClientConfig::load(document).unwrap_err();
    assert_eq!(error("token = \"t\""), "client config missing url");
    assert_eq!(error("url = 3\ntoken = \"t\""), "client config missing url");
    assert_eq!(error("url = \"u\""), "client config missing token");
    assert!(error("url = ").contains("TOML parse error"));
    let read = ClientConfig::load("token = 't'\nurl = 'u/'\nother = 1").unwrap();
    assert_eq!((read.url.as_str(), read.token.as_str()), ("u", "t"));
    let none = || Ok::<Option<String>, String>(None);
    let some = |s: &str| Ok::<Option<String>, String>(Some(s.into()));
    let bad = || Err::<Option<String>, String>("bad".into());
    assert_eq!(credentials(bad(), some("t")).unwrap_err(), "bad");
    assert_eq!(credentials(some("u"), bad()).unwrap_err(), "bad");
    assert_eq!(credentials(none(), bad()).unwrap_err(), "client config missing url");
    assert_eq!(credentials(some("u/"), some("t")).unwrap().url, "u");
}

#[test]
fn a_login_names_server_and_token() {
    let usage = "usage: recipedia login <server-url> --token <TOKEN>";
    assert_eq!(login(&args(&["https://hub"])).unwrap_err(), usage);
    assert_eq!(login(&args(&["--token", "t"])).unwrap_err(), usage);
    assert_eq!(login(&args(&["https://hub", "--token"])).unwrap_err(), usage);
    assert_eq!(login(&args(&["https://hub", "--token", "t"])).unwrap().url, "https://hub");
}

#[test]
fn archives_are_collected_in_order() {
    assert_eq!(publish_roots(&args(&["a", "--x", "y"])).unwrap(), ["a"]);
    assert_eq!(
        publish_roots(&args(&["--x", "y"])).unwrap_err(),
        "publish needs at least one directory or file"
    );
    let file = |path: &str, named| FoundFile { path: path.into(), named };
    let found = vec![
        file("d/b.pkg.tar.zst", false),
        file("d/b.pkg.tar.zst.log", false),
        file("named.txt", true),
        file("d/a.pkg.tar.zst", false),
    ];
    assert_eq!(collect_archives(&found), ["d/a.pkg.tar.zst", "d/b.pkg.tar.zst", "named.txt"]);
}

#[test]
fn requests_go_to_the_server() {
    let c = client();
    assert_eq!(archive_url(&c, "f"), "https://hub/api/repo/publish/f");
    assert_eq!(log_url(&c, "f"), "https://hub/api/repo/publish/f/log");
    assert_eq!(status_url(&c), "https://hub/api/status");
    assert_eq!(authorization(&c), "Bearer rt_1");
    assert!(already_published(Some(" \"ab\" "), "ab"));
    assert!(!already_published(Some("ab"), "ab"));
    assert!(!already_published(None, "ab"));
}

#[test]
fn uploads_are_told_line_by_line() {
    let told = Told {
        name: Some("demo".into()),
        version: Some("1.0".into()),
        release: Some("2".into()),
        state: Some("built".into()),
    };
    assert_eq!(
        uploaded_line("f", &told, 1_572_864),
        "+ f \u{b7} demo 1.0-2 \u{b7} 1.5 MiB \u{b7} state built"
    );
    let silent = Told { name: None, version: None, release: None, state: None };
    assert_eq!(
        uploaded_line("f", &silent, 0),
        "+ f \u{b7} ? ?-? \u{b7} 0.0 MiB \u{b7} state ?"
    );
    assert_eq!(skipped_line("f"), "= f (already published)");
    assert_eq!(published_summary(1, 2, 30), "1 uploaded, 2 up-to-date, 30 total");
    assert_eq!(log_path("d/f"), "d/f.log");
    assert_eq!(attach_build_log("l", 1_048_576), None);
    assert_eq!(
        attach_build_log("l", 1_048_577),
        Some("  \u{b7} build log skipped (l exceeds 1 MiB)".to_string())
    );
}

#[test]
fn one_archive_is_withdrawn() {
    assert_eq!(unpublish_target(&args(&["f", "g"])).unwrap(), "f");
    assert_eq!(
        unpublish_target(&args(&[])).unwrap_err(),
        "usage: recipedia unpublish <filename>"
    );
    assert_eq!(server_refused(404, "gone"), "server refused (404): gone");
}

#[test]
fn states_are_counted_and_listed() {
    let list = vec![
        listed("a", Some("missing")),
        listed("b", Some("built")),
        listed("c", Some("missing")),
        listed("d", None),
    ];
    assert_eq!(status_line(&list), "total 4 \u{b7} ? 1, built 1, missing 2");
    assert_eq!(status_line(&Vec::new()), "total 0 \u{b7} ");
    assert_eq!(state_lines(&list, "missing"), ["  a 1.0-?", "  c 1.0-?"]);
    assert!(state_lines(&list, "?").is_empty());
    assert_eq!(wanted_state(&args(&["--state", "built"])), Some("built".to_string()));
    assert_eq!(wanted_state(&args(&["built"])), None);
}

fn receipt() -> Told {
    Told {
        name: Some("demo".into()),
        version: Some("1.0".into()),
        release: Some("2".into()),
        state: Some("built".into()),
    }
}

#[test]
fn archives_are_published_one_by_one() {
    let c = client();
    let mut work = Publication::new(args(&["d/a.pkg.tar.zst", "d/b.pkg.tar.zst"]));
    match work.step(&c, PublishEvent::Ready) {
        PublishAction::Look { file, url } => {
            assert_eq!(file, "d/a.pkg.tar.zst");
            assert_eq!(url, "https://hub/api/repo/publish/a.pkg.tar.zst");
        }
        other => panic!("{other:?}"),
    }
    let known = PublishEvent::Looked { etag: Some("\"ab\"".into()), sha256: "ab".into() };
    match work.step(&c, known) {
        PublishAction::Skip { line } => assert_eq!(line, "= a.pkg.tar.zst (already published)"),
        other => panic!("{other:?}"),
    }
    assert!(matches!(work.step(&c, PublishEvent::Ready), PublishAction::Look { .. }));
    match work.step(&c, PublishEvent::Looked { etag: None, sha256: "cd".into() }) {
        PublishAction::Upload { file, url, sha256 } => {
            assert_eq!(file, "d/b.pkg.tar.zst");
            assert_eq!(url, "https://hub/api/repo/publish/b.pkg.tar.zst");
            assert_eq!(sha256, "cd");
        }
        other => panic!("{other:?}"),
    }
    match work.step(&c, PublishEvent::Sent { told: receipt(), size: 1_048_576 }) {
        PublishAction::Attach { line, log, url } => {
            assert_eq!(
                line,
                "+ b.pkg.tar.zst \u{b7} demo 1.0-2 \u{b7} 1.0 MiB \u{b7} state built"
            );
            assert_eq!(log, "d/b.pkg.tar.zst.log");
            assert_eq!(url, "https://hub/api/repo/publish/b.pkg.tar.zst/log");
        }
        other => panic!("{other:?}"),
    }
    match work.step(&c, PublishEvent::Ready) {
        PublishAction::Finish { line } => {
            assert_eq!(line, "1 uploaded, 1 up-to-date, 2 total");
        }
        other => panic!("{other:?}"),
    }
}

#[test]
fn publishing_ends_where_an_archive_fails() {
    let c = client();
    let mut work = Publication::new(args(&["a.pkg.tar.zst"]));
    match work.step(&c, PublishEvent::Failed("503".into())) {
        PublishAction::Fail(e) => assert_eq!(e, "upload failed for a.pkg.tar.zst: 503"),
        other => panic!("{other:?}"),
    }
    let mut work = Publication::new(args(&["d/.."]));
    match work.step(&c, PublishEvent::Ready) {
        PublishAction::Fail(e) => assert_eq!(e, "bad filename"),
        other => panic!("{other:?}"),
    }
}
