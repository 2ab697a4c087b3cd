use recipedia::config::{Config, Environment, DEFAULT_GIT_URL};

fn nothing_set() -> Environment {
    Environment {
        state_dir: None,
        listen: None,
        db: None,
        repo_channel: None,
        repo_signing_key: None,
        git_url: None,
        webhook_secret: None,
        poll_secs: None,
        repo_url: None,
        frontend_url: None,
    }
}

#[test]
fn default_is_the_canonical_single_tree() {
    assert_eq!(DEFAULT_GIT_URL, "https://github.com/sclinuxdev/recipes");
    let config = Config {
        listen: String::new(),
        db_path: String::new(),
        state_dir: "/state".to_string(),
        repo_dir: String::new(),
        repo_channel: "main".into(),
        repo_signing_key: String::new(),
        git_url: DEFAULT_GIT_URL.to_string(),
        webhook_secret: None,
        poll_secs: 600,
        repo_base: String::new(),
        frontend_url: String::new(),
    };
    assert!(config.git_dir().ends_with("git/recipes"));
    assert_eq!(config.git_dir(), "/state/git/recipes");
}

#[test]
fn with_nothing_set_the_defaults_hold() {
    let config = Config::from_env(&nothing_set());
    assert_eq!(config.listen, "127.0.0.1:8300");
    assert_eq!(config.db_path, "/srv/recipedia/database");
    assert_eq!(config.state_dir, "/srv/recipedia");
    assert_eq!(config.repo_dir, "/srv/recipedia/repo");
    assert_eq!(config.repo_channel, "main");
    assert_eq!(config.repo_signing_key, "/srv/recipedia/signing.key");
    assert_eq!(config.git_url, "https://github.com/sclinuxdev/recipes");
    assert_eq!(config.webhook_secret, None);
    assert_eq!(config.poll_secs, 600);
    assert_eq!(config.repo_base, "");
    assert_eq!(config.frontend_url, "");
    assert_eq!(config.git_dir(), "/srv/recipedia/git/recipes");
}

#[test]
fn the_environment_decides() {
    let mut env = nothing_set();
    env.state_dir = Some("/data/".into());
    env.listen = Some("0.0.0.0:80".into());
    env.db = Some("/fast/db".into());
    env.repo_channel = Some("edge".into());
    env.repo_signing_key = Some("/keys/repo.key".into());
    env.git_url = Some("https://example.invalid/tree.git".into());
    env.webhook_secret = Some("".into());
    env.poll_secs = Some("30".into());
    env.repo_url = Some("https://repo.example.com///".into());
    env.frontend_url = Some("https://rp.example.com/".into());
    let config = Config::from_env(&env);
    assert_eq!(config.listen, "0.0.0.0:80");
    assert_eq!(config.db_path, "/fast/db");
    assert_eq!(config.repo_dir, "/data/repo");
    assert_eq!(config.repo_channel, "edge");
    assert_eq!(config.repo_signing_key, "/keys/repo.key");
    assert_eq!(config.git_url, "https://example.invalid/tree.git");
    assert_eq!(config.webhook_secret, Some(String::new()));
    assert_eq!(config.poll_secs, 30);
    assert_eq!(config.repo_base, "https://repo.example.com");
    assert_eq!(config.frontend_url, "https://rp.example.com");
}

#[test]
fn odd_values_fall_back() {
    let mut env = nothing_set();
    env.repo_signing_key = Some("  ".into());
    env.poll_secs = Some("soon".into());
    let config = Config::from_env(&env);
    assert_eq!(config.repo_signing_key, "/srv/recipedia/signing.key");
    assert_eq!(config.poll_secs, 600);
    let poll = |text: &str| {
        let mut env = nothing_set();
        env.poll_secs = Some(text.into());
        Config::from_env(&env).poll_secs
    };
    assert_eq!(poll("+7"), 7);
    assert_eq!(poll(" 7"), 600);
    assert_eq!(poll(""), 600);
    assert_eq!(poll("18446744073709551615"), u64::MAX);
    assert_eq!(poll("18446744073709551616"), 600);
}
