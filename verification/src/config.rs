//! The settings of the hub.

use vstd::prelude::*;

use crate::digits::{parse_up_to, parsed};
use crate::path::{below, path_join};
use crate::split::{end_unslashed, trim, trim_end_slashes, trimmed};

verus! {

/// Where the recipes are, unless the environment says otherwise.
pub const DEFAULT_GIT_URL: &'static str = "https://github.com/sclinuxdev/recipes";

/// The settings of the hub.
#[derive(Debug)]
pub struct Config {
    /// The address to listen on.
    pub listen: String,
    /// Where the state is kept.
    pub db_path: String,
    /// The directory of the mirror of the recipes and of the published packages.
    pub state_dir: String,
    /// The published packages and their indexes.
    pub repo_dir: String,
    /// The root channel of packages whose channel names none.
    pub repo_channel: String,
    /// The private key that signs the indexes: 32 raw bytes of Ed25519.
    pub repo_signing_key: String,
    /// The one canonical tree of recipes.
    pub git_url: String,
    /// What webhook calls are signed with.
    pub webhook_secret: Option<String>,
    /// The interval between polls, in seconds.
    pub poll_secs: u64,
    /// The public URL of the repository; empty for links within the site.
    pub repo_base: String,
    /// The public origin of the pages; empty for links within the site.
    pub frontend_url: String,
}

#[verifier::ext_equal]
pub struct ConfigModel {
    pub listen: Seq<char>,
    pub db_path: Seq<char>,
    pub state_dir: Seq<char>,
    pub repo_dir: Seq<char>,
    pub repo_channel: Seq<char>,
    pub repo_signing_key: Seq<char>,
    pub git_url: Seq<char>,
    pub webhook_secret: Option<Seq<char>>,
    pub poll_secs: u64,
    pub repo_base: Seq<char>,
    pub frontend_url: Seq<char>,
}

impl DeepView for Config {
    type V = ConfigModel;

    open spec fn deep_view(&self) -> ConfigModel {
        ConfigModel {
            listen: self.listen@,
            db_path: self.db_path@,
            state_dir: self.state_dir@,
            repo_dir: self.repo_dir@,
            repo_channel: self.repo_channel@,
            repo_signing_key: self.repo_signing_key@,
            git_url: self.git_url@,
            webhook_secret: self.webhook_secret.deep_view(),
            poll_secs: self.poll_secs,
            repo_base: self.repo_base@,
            frontend_url: self.frontend_url@,
        }
    }
}

impl Clone for Config {
    fn clone(&self) -> (r: Self)
        ensures
            r.deep_view() == self.deep_view(),
    {
        Config {
            listen: self.listen.clone(),
            db_path: self.db_path.clone(),
            state_dir: self.state_dir.clone(),
            repo_dir: self.repo_dir.clone(),
            repo_channel: self.repo_channel.clone(),
            repo_signing_key: self.repo_signing_key.clone(),
            git_url: self.git_url.clone(),
            webhook_secret: match &self.webhook_secret {
                Some(v) => Some(v.clone()),
                None => None,
            },
            poll_secs: self.poll_secs,
            repo_base: self.repo_base.clone(),
            frontend_url: self.frontend_url.clone(),
        }
    }
}

/// The environment variables that settings come from; `None` where one is
/// not set.
#[derive(Debug)]
pub struct Environment {
    /// `RECIPEEDIA_STATE_DIR`
    pub state_dir: Option<String>,
    /// `RECIPEEDIA_LISTEN`
    pub listen: Option<String>,
    /// `RECIPEEDIA_DB`
    pub db: Option<String>,
    /// `RECIPEEDIA_REPO_CHANNEL`
    pub repo_channel: Option<String>,
    /// `RECIPEEDIA_REPO_SIGNING_KEY`
    pub repo_signing_key: Option<String>,
    /// `RECIPEEDIA_GIT_URL`
    pub git_url: Option<String>,
    /// `RECIPEEDIA_WEBHOOK_SECRET`
    pub webhook_secret: Option<String>,
    /// `RECIPEEDIA_POLL_SECS`
    pub poll_secs: Option<String>,
    /// `RECIPEEDIA_REPO_URL`
    pub repo_url: Option<String>,
    /// `RECIPEEDIA_FRONTEND_URL`
    pub frontend_url: Option<String>,
}

#[verifier::ext_equal]
pub struct EnvironmentModel {
    pub state_dir: Option<Seq<char>>,
    pub listen: Option<Seq<char>>,
    pub db: Option<Seq<char>>,
    pub repo_channel: Option<Seq<char>>,
    pub repo_signing_key: Option<Seq<char>>,
    pub git_url: Option<Seq<char>>,
    pub webhook_secret: Option<Seq<char>>,
    pub poll_secs: Option<Seq<char>>,
    pub repo_url: Option<Seq<char>>,
    pub frontend_url: Option<Seq<char>>,
}

impl DeepView for Environment {
    type V = EnvironmentModel;

    open spec fn deep_view(&self) -> EnvironmentModel {
        EnvironmentModel {
            state_dir: self.state_dir.deep_view(),
            listen: self.listen.deep_view(),
            db: self.db.deep_view(),
            repo_channel: self.repo_channel.deep_view(),
            repo_signing_key: self.repo_signing_key.deep_view(),
            git_url: self.git_url.deep_view(),
            webhook_secret: self.webhook_secret.deep_view(),
            poll_secs: self.poll_secs.deep_view(),
            repo_url: self.repo_url.deep_view(),
            frontend_url: self.frontend_url.deep_view(),
        }
    }
}

/// The value of a variable, or `fallback` where it is not set.
pub open spec fn value_or(value: Option<Seq<char>>, fallback: Seq<char>) -> Seq<char> {
    match value {
        Some(v) => v,
        None => fallback,
    }
}

/// The value of a variable, or `fallback` where it is not set.
fn env_or(value: &Option<String>, fallback: &str) -> (r: String)
    ensures
        r@ == value_or(value.deep_view(), fallback@),
{
    match value {
        Some(v) => v.clone(),
        None => fallback.to_owned(),
    }
}

/// The settings that an environment gives.
pub open spec fn config_of(env: EnvironmentModel) -> ConfigModel {
    let state_dir = value_or(env.state_dir, "/srv/recipedia"@);
    ConfigModel {
        listen: value_or(env.listen, "127.0.0.1:8300"@),
        db_path: value_or(env.db, below(state_dir, "database"@)),
        state_dir,
        repo_dir: below(state_dir, "repo"@),
        repo_channel: value_or(env.repo_channel, "main"@),
        repo_signing_key: match env.repo_signing_key {
            Some(path) => if trimmed(path).len() > 0 {
                path
            } else {
                below(state_dir, "signing.key"@)
            },
            None => below(state_dir, "signing.key"@),
        },
        git_url: value_or(env.git_url, DEFAULT_GIT_URL@),
        webhook_secret: env.webhook_secret,
        poll_secs: match parsed(value_or(env.poll_secs, "600"@), u64::MAX) {
            Some(n) => n,
            None => 600,
        },
        repo_base: end_unslashed(value_or(env.repo_url, ""@)),
        frontend_url: end_unslashed(value_or(env.frontend_url, ""@)),
    }
}

impl Config {
    /// The settings that an environment gives.
    pub fn from_env(env: &Environment) -> (r: Config)
        ensures
            r.deep_view() == config_of(env.deep_view()),
    {
        let state_dir = env_or(&env.state_dir, "/srv/recipedia");
        let signing_key = match &env.repo_signing_key {
            Some(path) => if trim(path).is_empty() {
                path_join(&state_dir, "signing.key")
            } else {
                path.clone()
            },
            None => path_join(&state_dir, "signing.key"),
        };
        let poll_secs = match parse_up_to(&env_or(&env.poll_secs, "600"), u64::MAX) {
            Some(n) => n,
            None => 600,
        };
        Config {
            listen: env_or(&env.listen, "127.0.0.1:8300"),
            db_path: env_or(&env.db, &path_join(&state_dir, "database")),
            repo_dir: path_join(&state_dir, "repo"),
            repo_channel: env_or(&env.repo_channel, "main"),
            repo_signing_key: signing_key,
            state_dir,
            git_url: env_or(&env.git_url, DEFAULT_GIT_URL),
            webhook_secret: match &env.webhook_secret {
                Some(v) => Some(v.clone()),
                None => None,
            },
            poll_secs,
            repo_base: trim_end_slashes(&env_or(&env.repo_url, "")).to_owned(),
            frontend_url: trim_end_slashes(&env_or(&env.frontend_url, "")).to_owned(),
        }
    }

    /// The mirror of the tree of recipes.
    pub fn git_dir(&self) -> (r: String)
        ensures
            r@ == git_dir_of(self.deep_view()),
    {
        path_join(&path_join(&self.state_dir, "git"), "recipes")
    }
}

/// The mirror of the tree of recipes.
pub open spec fn git_dir_of(config: ConfigModel) -> Seq<char> {
    below(below(config.state_dir, "git"@), "recipes"@)
}

/// With nothing set, the one canonical tree is taken, and all that the hub
/// keeps lies below `/srv/recipedia`.
pub proof fn lemma_defaults(env: EnvironmentModel)
    requires
        env == (EnvironmentModel {
            state_dir: None,
            listen: None,
            db: None,
            repo_channel: None,
            repo_signing_key: None,
            git_url: None,
            webhook_secret: None,
            poll_secs: None,
            repo_url: None,
            frontend_url: None,
        }),
    ensures
        config_of(env).git_url == DEFAULT_GIT_URL@,
        config_of(env).db_path == "/srv/recipedia/database"@,
        config_of(env).repo_dir == "/srv/recipedia/repo"@,
        config_of(env).repo_signing_key == "/srv/recipedia/signing.key"@,
        git_dir_of(config_of(env)) == "/srv/recipedia/git/recipes"@,
        config_of(env).poll_secs == 600,
        config_of(env).webhook_secret is None,
{
    reveal_strlit("/srv/recipedia");
    reveal_strlit("database");
    reveal_strlit("repo");
    reveal_strlit("signing.key");
    reveal_strlit("git");
    reveal_strlit("recipes");
    reveal_strlit("600");
    reveal_strlit("/srv/recipedia/database");
    reveal_strlit("/srv/recipedia/repo");
    reveal_strlit("/srv/recipedia/signing.key");
    reveal_strlit("/srv/recipedia/git/recipes");
    let c = config_of(env);
    assert(c.db_path =~= "/srv/recipedia/database"@);
    assert(c.repo_dir =~= "/srv/recipedia/repo"@);
    assert(c.repo_signing_key =~= "/srv/recipedia/signing.key"@);
    assert(git_dir_of(c) =~= "/srv/recipedia/git/recipes"@);
    reveal_with_fuel(crate::digits::digits_value, 4);
    assert("600"@.drop_last()[1] == '0' && "600"@.drop_last().drop_last()[0] == '6');
    assert(crate::digits::all_digits("600"@));
    assert(crate::digits::digits_value("600"@) == 600);
}

} // verus!
