//! The command lines of the publisher and of the server.

use vstd::prelude::*;
use vstd::string::*;

use crate::api::{in_mib, mib_text};
use crate::digits::{decimal, decimal_text};
use crate::list::{count_in, find_first, first_where, keep_list, map_list};
use crate::order::{sorted_set, text_set};
use crate::path::{below, path_join, sorted_paths, sorted_paths_of};
use crate::requests::{quoted, MAX_LOG_BYTES};
use crate::split::{
    end_unslashed, join, join_with, lemma_trim_end_fixed, trim, trim_end_slashes, trimmed,
};
use crate::table::{entry_at, put_entry, Table};
use crate::text::{concat, ends_with, joined, same_text, starts_with, text_from};

verus! {

// ---------------------------------------------------------------------------
// Arguments
// ---------------------------------------------------------------------------

/// A flag begins with two dashes.
pub open spec fn is_flag(arg: Seq<char>) -> bool {
    "--"@.is_prefix_of(arg)
}

/// The arguments apart: those that stand for themselves, and the flags with
/// the values behind them, added to what was found before. A flag at the end
/// has no value and does not count.
pub open spec fn sorted_out(
    args: Seq<Seq<char>>,
    positional: Seq<Seq<char>>,
    flags: Seq<(Seq<char>, Seq<char>)>,
) -> (Seq<Seq<char>>, Seq<(Seq<char>, Seq<char>)>)
    decreases args.len(),
{
    if args.len() == 0 {
        (positional, flags)
    } else if !is_flag(args[0]) {
        sorted_out(args.skip(1), positional.push(args[0]), flags)
    } else if args.len() == 1 {
        (positional, flags)
    } else {
        sorted_out(args.skip(2), positional, put_entry(flags, args[0], args[1]))
    }
}

/// The arguments apart.
pub open spec fn split_args(args: Seq<Seq<char>>) -> (
    Seq<Seq<char>>,
    Seq<(Seq<char>, Seq<char>)>,
) {
    sorted_out(args, Seq::empty(), Seq::empty())
}

/// The arguments apart: `publish a --state b` has the argument `a`, and the
/// flag `--state` with the value `b`.
pub fn parse_args(args: &Vec<String>) -> (r: (Vec<String>, Table<String>))
    ensures
        (r.0.deep_view(), r.1.entries()) == split_args(args.deep_view()),
{
    let ghost all = args.deep_view();
    let mut positional: Vec<String> = Vec::new();
    let mut flags: Table<String> = Table::new();
    let mut i: usize = 0;
    assert(positional.deep_view() =~= Seq::<Seq<char>>::empty());
    assert(all.skip(0) =~= all);
    while i < args.len()
        invariant
            all == args.deep_view(),
            i <= args.len(),
            sorted_out(all.skip(i as int), positional.deep_view(), flags.entries()) == split_args(
                all,
            ),
        decreases args.len() - i,
    {
        let ghost rest = all.skip(i as int);
        assert(rest[0] == args@[i as int]@);
        assert(rest.skip(1) =~= all.skip(i + 1));
        if starts_with(&args[i], "--") {
            if i + 1 >= args.len() {
                assert(rest.len() == 1);
                return (positional, flags);
            }
            assert(rest[1] == args@[i + 1]@);
            assert(rest.skip(2) =~= all.skip(i + 2));
            flags.put(&args[i], args[i + 1].clone());
            i += 2;
        } else {
            let ghost before = positional.deep_view();
            positional.push(args[i].clone());
            assert(positional.deep_view() =~= before.push(args@[i as int]@));
            i += 1;
        }
    }
    assert(all.skip(i as int) =~= Seq::<Seq<char>>::empty());
    (positional, flags)
}

/// What the publisher is told to do.
#[derive(Debug)]
pub enum ClientCommand {
    /// Show how it is called.
    Usage,
    Login,
    Publish,
    Unpublish,
    Status,
    Unknown(String),
}

pub open spec fn client_command_of(first: Option<Seq<char>>, r: ClientCommand) -> bool {
    match first {
        None => r is Usage,
        Some(c) => if c == "login"@ {
            r is Login
        } else if c == "publish"@ {
            r is Publish
        } else if c == "unpublish"@ {
            r is Unpublish
        } else if c == "status"@ {
            r is Status
        } else if c == "--help"@ || c == "-h"@ || c == "help"@ {
            r is Usage
        } else {
            r matches ClientCommand::Unknown(e) && e@ == concat(
                seq!["unknown command '"@, c, "'"@],
            )
        },
    }
}

/// What the publisher is told to do by its first argument.
pub fn client_command(first: Option<&str>) -> (r: ClientCommand)
    ensures
        client_command_of(
            match first {
                Some(c) => Some(c@),
                None => None,
            },
            r,
        ),
{
    let c = match first {
        Some(c) => c,
        None => {
            return ClientCommand::Usage;
        },
    };
    if same_text(c, "login") {
        ClientCommand::Login
    } else if same_text(c, "publish") {
        ClientCommand::Publish
    } else if same_text(c, "unpublish") {
        ClientCommand::Unpublish
    } else if same_text(c, "status") {
        ClientCommand::Status
    } else if same_text(c, "--help") || same_text(c, "-h") || same_text(c, "help") {
        ClientCommand::Usage
    } else {
        let parts: Vec<&str> = vec!["unknown command '", c, "'"];
        assert(parts.deep_view() =~= seq!["unknown command '"@, c@, "'"@]);
        ClientCommand::Unknown(text_from(&parts))
    }
}

/// What the server is told to do.
#[derive(Debug)]
pub enum ServerCommand {
    Serve,
    /// Make a token for this label.
    Token(String),
    Usage(String),
}

/// What the server is told to do by its arguments.
pub fn server_command(args: &Vec<String>) -> (r: ServerCommand)
    ensures
        if args.len() > 0 && args@[0]@ == "token"@ {
            if args.len() > 1 {
                r matches ServerCommand::Token(label) && label@ == args@[1]@
            } else {
                r matches ServerCommand::Usage(e) && e@
                    == "usage: recipedia-server token <label>"@
            }
        } else {
            r is Serve
        },
{
    if args.len() > 0 && same_text(&args[0], "token") {
        if args.len() > 1 {
            ServerCommand::Token(args[1].clone())
        } else {
            ServerCommand::Usage("usage: recipedia-server token <label>".to_owned())
        }
    } else {
        ServerCommand::Serve
    }
}

// ---------------------------------------------------------------------------
// Credentials
// ---------------------------------------------------------------------------

/// Where the credentials of the publisher lie.
pub open spec fn credentials_path(config_home: Option<Seq<char>>, home: Option<Seq<char>>) -> Seq<
    char,
> {
    let base = match config_home {
        Some(dir) => dir,
        None => below(
            match home {
                Some(dir) => dir,
                None => ""@,
            },
            ".config"@,
        ),
    };
    below(below(base, "recipedia"@), "config.toml"@)
}

/// Where the credentials of the publisher lie, where `config_home` and `home`
/// are what the environment has for `XDG_CONFIG_HOME` and `HOME`.
pub fn client_config_path(config_home: Option<&str>, home: Option<&str>) -> (r: String)
    ensures
        r@ == credentials_path(
            match config_home {
                Some(d) => Some(d@),
                None => None,
            },
            match home {
                Some(d) => Some(d@),
                None => None,
            },
        ),
{
    let base = match config_home {
        Some(dir) => dir.to_owned(),
        None => match home {
            Some(dir) => path_join(dir, ".config"),
            None => path_join("", ".config"),
        },
    };
    path_join(&path_join(&base, "recipedia"), "config.toml")
}

/// The server that the publisher talks to, and its token.
#[derive(Debug)]
pub struct ClientConfig {
    pub url: String,
    pub token: String,
}

#[verifier::ext_equal]
pub struct ClientConfigModel {
    pub url: Seq<char>,
    pub token: Seq<char>,
}

impl DeepView for ClientConfig {
    type V = ClientConfigModel;

    open spec fn deep_view(&self) -> ClientConfigModel {
        ClientConfigModel {
            url: self.url@,
            token: self.token@,
        }
    }
}

impl Clone for ClientConfig {
    fn clone(&self) -> (r: Self)
        ensures
            r.deep_view() == self.deep_view(),
    {
        ClientConfig {
            url: self.url.clone(),
            token: self.token.clone(),
        }
    }
}

/// A text that stands for itself between quotes: no quote, no backslash and no
/// control character.
pub open spec fn plain_string(s: Seq<char>) -> bool {
    forall|i: int|
        0 <= i < s.len() ==> {
            let c = #[trigger] s[i];
            c != '"' && c != '\\' && c as int >= 0x20 && c as int != 0x7f
        }
}

/// The credentials as they are written down.
pub open spec fn credentials_text(url: Seq<char>, token: Seq<char>) -> Seq<char> {
    concat(
        seq![
            "# recipedia client credentials\nurl = \""@,
            url,
            "\"\ntoken = \""@,
            token,
            "\"\n"@,
        ],
    )
}

/// The text under a key of a TOML document: none where it is absent or no
/// text, an error where the document is none.
pub uninterp spec fn toml_string(document: Seq<char>, key: Seq<char>) -> Result<
    Option<Seq<char>>,
    Seq<char>,
>;

pub open spec fn read_view(r: Result<Option<String>, String>) -> Result<
    Option<Seq<char>>,
    Seq<char>,
> {
    match r {
        Ok(v) => Ok(v.deep_view()),
        Err(e) => Err(e@),
    }
}

/// `toml::from_str` into a table, `Table::get` and `Value::as_str`. Of
/// credentials whose parts stand for themselves between quotes, it reads the
/// parts.
#[verifier::external_body]
fn read_toml(document: &str, key: &str) -> (r: Result<Option<String>, String>)
    ensures
        read_view(r) == toml_string(document@, key@),
        forall|url: Seq<char>, token: Seq<char>|
            document@ == #[trigger] credentials_text(url, token) && plain_string(url)
                && plain_string(token) ==> {
                &&& key@ == "url"@ ==> read_view(r) == Ok::<Option<Seq<char>>, Seq<char>>(Some(url))
                &&& key@ == "token"@ ==> read_view(r) == Ok::<Option<Seq<char>>, Seq<char>>(
                    Some(token),
                )
            },
{
    let table: toml::Table = toml::from_str(document).map_err(|e: toml::de::Error| e.to_string())?;
    Ok(table.get(key).and_then(|v| v.as_str()).map(str::to_owned))
}

/// The credentials made of what was read under their keys.
pub open spec fn credentials_of(
    url: Result<Option<Seq<char>>, Seq<char>>,
    token: Result<Option<Seq<char>>, Seq<char>>,
) -> Result<ClientConfigModel, Seq<char>> {
    match (url, token) {
        (Err(e), _) => Err(e),
        (Ok(None), _) => Err("client config missing url"@),
        (Ok(Some(_)), Err(e)) => Err(e),
        (Ok(Some(_)), Ok(None)) => Err("client config missing token"@),
        (Ok(Some(u)), Ok(Some(t))) => Ok(ClientConfigModel { url: end_unslashed(u), token: t }),
    }
}

/// The credentials made of what was read under their keys.
pub fn credentials(
    url: Result<Option<String>, String>,
    token: Result<Option<String>, String>,
) -> (r: Result<ClientConfig, String>)
    ensures
        match r {
            Ok(c) => credentials_of(read_view(url), read_view(token)) == Ok::<
                ClientConfigModel,
                Seq<char>,
            >(c.deep_view()),
            Err(e) => credentials_of(read_view(url), read_view(token)) == Err::<
                ClientConfigModel,
                Seq<char>,
            >(e@),
        },
{
    let u = match url {
        Ok(Some(u)) => u,
        Ok(None) => {
            return Err("client config missing url".to_owned());
        },
        Err(e) => {
            return Err(e);
        },
    };
    let t = match token {
        Ok(Some(t)) => t,
        Ok(None) => {
            return Err("client config missing token".to_owned());
        },
        Err(e) => {
            return Err(e);
        },
    };
    Ok(ClientConfig { url: trim_end_slashes(&u).to_owned(), token: t })
}

impl ClientConfig {
    /// The credentials in a document. What was written down for credentials
    /// whose parts stand for themselves between quotes is read back.
    pub fn load(document: &str) -> (r: Result<ClientConfig, String>)
        ensures
            match r {
                Ok(c) => credentials_of(
                    toml_string(document@, "url"@),
                    toml_string(document@, "token"@),
                ) == Ok::<ClientConfigModel, Seq<char>>(c.deep_view()),
                Err(e) => credentials_of(
                    toml_string(document@, "url"@),
                    toml_string(document@, "token"@),
                ) == Err::<ClientConfigModel, Seq<char>>(e@),
            },
            forall|url: Seq<char>, token: Seq<char>|
                document@ == #[trigger] credentials_text(url, token) && plain_string(url)
                    && plain_string(token) ==> {
                    &&& r is Ok
                    &&& r->Ok_0.deep_view() == (ClientConfigModel {
                        url: end_unslashed(url),
                        token,
                    })
                },
    {
        let url = read_toml(document, "url");
        let token = read_toml(document, "token");
        credentials(url, token)
    }

    /// What is written down: the credentials, the server without a slash at
    /// its end. Reading it gives them back.
    pub fn save(&self) -> (r: String)
        ensures
            r@ == credentials_text(end_unslashed(self.deep_view().url), self.deep_view().token),
            end_unslashed(end_unslashed(self.deep_view().url)) == end_unslashed(
                self.deep_view().url,
            ),
    {
        let url = trim_end_slashes(&self.url);
        let parts: Vec<&str> = vec![
            "# recipedia client credentials\nurl = \"",
            url,
            "\"\ntoken = \"",
            self.token.as_str(),
            "\"\n",
        ];
        assert(parts.deep_view() =~= seq![
            "# recipedia client credentials\nurl = \""@,
            end_unslashed(self.url@),
            "\"\ntoken = \""@,
            self.token@,
            "\"\n"@,
        ]);
        proof {
            lemma_trim_end_fixed(self.url@, |c: char| c == '/');
        }
        text_from(&parts)
    }
}

/// What is said where there are no credentials.
pub fn no_credentials(path: &str, error: &str) -> (r: String)
    ensures
        r@ == concat(
            seq!["no client config — run `recipedia login` first ("@, path@, "): "@, error@],
        ),
{
    let parts: Vec<&str> = vec![
        "no client config — run `recipedia login` first (",
        path,
        "): ",
        error,
    ];
    assert(parts.deep_view() =~= seq![
        "no client config — run `recipedia login` first ("@, path@, "): "@, error@,
    ]);
    text_from(&parts)
}

/// The arguments that can be a server: neither a flag nor the token.
pub open spec fn server_name(token: Seq<char>) -> spec_fn(Seq<char>) -> bool {
    |a: Seq<char>| !is_flag(a) && a != token
}

/// The credentials that a login names: the token behind `--token`, and the
/// first argument that is neither a flag nor the token.
pub open spec fn login_of(args: Seq<Seq<char>>) -> Option<ClientConfigModel> {
    match entry_at(split_args(args).1, "--token"@) {
        None => None,
        Some(token) => match first_where(args, server_name(token)) {
            None => None,
            Some(i) => Some(ClientConfigModel { url: args[i], token }),
        },
    }
}

/// The credentials that a login names.
pub fn login(args: &Vec<String>) -> (r: Result<ClientConfig, String>)
    ensures
        match r {
            Ok(c) => login_of(args.deep_view()) == Some(c.deep_view()),
            Err(e) => login_of(args.deep_view()) is None && e@
                == "usage: recipedia login <server-url> --token <TOKEN>"@,
        },
{
    let (_, flags) = parse_args(args);
    let token = match flags.get("--token") {
        Some(token) => token.clone(),
        None => {
            return Err("usage: recipedia login <server-url> --token <TOKEN>".to_owned());
        },
    };
    let server = |a: &String| -> (o: bool)
        ensures
            o == (!is_flag(a@) && a@ != token@),
        { !starts_with(a, "--") && !same_text(a, &token) };
    match find_first(args, server, Ghost(server_name(token@))) {
        Some(i) => {
            assert(args.deep_view()[i as int] == args@[i as int]@);
            Ok(ClientConfig { url: args[i].clone(), token })
        },
        None => Err("usage: recipedia login <server-url> --token <TOKEN>".to_owned()),
    }
}

// ---------------------------------------------------------------------------
// Publishing
// ---------------------------------------------------------------------------

/// What to publish, or why nothing can be.
pub fn publish_roots(args: &Vec<String>) -> (r: Result<Vec<String>, String>)
    ensures
        match r {
            Ok(roots) => roots.deep_view() == split_args(args.deep_view()).0 && roots.len() > 0,
            Err(e) => split_args(args.deep_view()).0.len() == 0 && e@
                == "publish needs at least one directory or file"@,
        },
{
    let (roots, _) = parse_args(args);
    if roots.len() == 0 {
        return Err("publish needs at least one directory or file".to_owned());
    }
    Ok(roots)
}

/// A file below what is to be published.
#[derive(Debug)]
pub struct FoundFile {
    pub path: String,
    /// Whether it was named itself, and not found in a directory.
    pub named: bool,
}

#[verifier::ext_equal]
pub struct FoundFileModel {
    pub path: Seq<char>,
    pub named: bool,
}

impl DeepView for FoundFile {
    type V = FoundFileModel;

    open spec fn deep_view(&self) -> FoundFileModel {
        FoundFileModel {
            path: self.path@,
            named: self.named,
        }
    }
}

impl Clone for FoundFile {
    fn clone(&self) -> (r: Self)
        ensures
            r.deep_view() == self.deep_view(),
    {
        FoundFile {
            path: self.path.clone(),
            named: self.named,
        }
    }
}

/// The archives among the files found: those that were named, and those that
/// look like archives.
pub open spec fn archives_of(found: Seq<FoundFileModel>) -> Seq<Seq<char>> {
    found.filter(
        |f: FoundFileModel| f.named || ".pkg.tar.zst"@.is_suffix_of(f.path),
    ).map_values(|f: FoundFileModel| f.path)
}

fn is_archive(f: &FoundFile) -> (r: bool)
    ensures
        r == (f.deep_view().named || ".pkg.tar.zst"@.is_suffix_of(f.deep_view().path)),
{
    f.named || ends_with(&f.path, ".pkg.tar.zst")
}

fn found_path(f: &FoundFile) -> (r: String)
    ensures
        r@ == f.deep_view().path,
{
    f.path.clone()
}

/// The archives among the files found, in order.
pub fn collect_archives(found: &Vec<FoundFile>) -> (r: Vec<String>)
    ensures
        r.deep_view() == sorted_paths_of(archives_of(found.deep_view())),
{
    let kept = keep_list(
        found,
        is_archive,
        Ghost(|f: FoundFileModel| f.named || ".pkg.tar.zst"@.is_suffix_of(f.path)),
    );
    sorted_paths(&map_list(&kept, found_path, Ghost(|f: FoundFileModel| f.path)))
}

/// Where an archive is published.
pub open spec fn publish_url(url: Seq<char>, filename: Seq<char>) -> Seq<char> {
    concat(seq![url, "/api/repo/publish/"@, filename])
}

/// Where an archive is published and withdrawn.
pub fn archive_url(config: &ClientConfig, filename: &str) -> (r: String)
    ensures
        r@ == publish_url(config.deep_view().url, filename@),
{
    let parts: Vec<&str> = vec![config.url.as_str(), "/api/repo/publish/", filename];
    assert(parts.deep_view() =~= seq![config.url@, "/api/repo/publish/"@, filename@]);
    text_from(&parts)
}

/// Where the log of an archive is handed in.
pub fn log_url(config: &ClientConfig, filename: &str) -> (r: String)
    ensures
        r@ == publish_url(config.deep_view().url, filename@) + "/log"@,
{
    joined(&archive_url(config, filename), "/log")
}

/// Where the states of all packages are.
pub fn status_url(config: &ClientConfig) -> (r: String)
    ensures
        r@ == config.deep_view().url + "/api/status"@,
{
    joined(&config.url, "/api/status")
}

/// The authorization that goes with a request.
pub fn authorization(config: &ClientConfig) -> (r: String)
    ensures
        r@ == "Bearer "@ + config.deep_view().token,
{
    joined("Bearer ", &config.token)
}

/// Whether the server has an archive already: its tag is the digest.
pub fn already_published(etag: Option<&str>, sha256: &str) -> (r: bool)
    ensures
        r == (etag is Some && trimmed(etag->0@) == quoted(sha256@)),
{
    let parts: Vec<&str> = vec!["\"", sha256, "\""];
    assert(parts.deep_view() =~= seq!["\""@, sha256@, "\""@]);
    let tag = text_from(&parts);
    match etag {
        Some(e) => same_text(trim(e), &tag),
        None => false,
    }
}

/// What the server told of an upload; `None` where it told nothing.
#[derive(Debug)]
pub struct Told {
    pub name: Option<String>,
    pub version: Option<String>,
    pub release: Option<String>,
    pub state: Option<String>,
}

#[verifier::ext_equal]
pub struct ToldModel {
    pub name: Option<Seq<char>>,
    pub version: Option<Seq<char>>,
    pub release: Option<Seq<char>>,
    pub state: Option<Seq<char>>,
}

impl DeepView for Told {
    type V = ToldModel;

    open spec fn deep_view(&self) -> ToldModel {
        ToldModel {
            name: self.name.deep_view(),
            version: self.version.deep_view(),
            release: self.release.deep_view(),
            state: self.state.deep_view(),
        }
    }
}

/// A text, or a question mark where there is none.
pub open spec fn or_unknown(t: Option<Seq<char>>) -> Seq<char> {
    match t {
        Some(t) => t,
        None => "?"@,
    }
}

fn unless_unknown(t: &Option<String>) -> (r: &str)
    ensures
        r@ == or_unknown(t.deep_view()),
{
    match t {
        Some(t) => t.as_str(),
        None => "?",
    }
}

/// The line for an archive that was published.
pub open spec fn upload_line(filename: Seq<char>, told: ToldModel, size: u64) -> Seq<char> {
    concat(
        seq![
            "+ "@,
            filename,
            " · "@,
            or_unknown(told.name),
            " "@,
            or_unknown(told.version),
            "-"@,
            or_unknown(told.release),
            " · "@,
            mib_text(size as int),
            " MiB · state "@,
            or_unknown(told.state),
        ],
    )
}

/// The line for an archive that was published.
pub fn uploaded_line(filename: &str, told: &Told, size: u64) -> (r: String)
    ensures
        r@ == upload_line(filename@, told.deep_view(), size),
{
    let mib = in_mib(size as i128);
    let parts: Vec<&str> = vec![
        "+ ",
        filename,
        " · ",
        unless_unknown(&told.name),
        " ",
        unless_unknown(&told.version),
        "-",
        unless_unknown(&told.release),
        " · ",
        mib.as_str(),
        " MiB · state ",
        unless_unknown(&told.state),
    ];
    assert(parts.deep_view() =~= seq![
        "+ "@,
        filename@,
        " · "@,
        or_unknown(told.deep_view().name),
        " "@,
        or_unknown(told.deep_view().version),
        "-"@,
        or_unknown(told.deep_view().release),
        " · "@,
        mib_text(size as int),
        " MiB · state "@,
        or_unknown(told.deep_view().state),
    ]);
    text_from(&parts)
}

/// The line for an archive that the server has already.
pub fn skipped_line(filename: &str) -> (r: String)
    ensures
        r@ == concat(seq!["= "@, filename@, " (already published)"@]),
{
    let parts: Vec<&str> = vec!["= ", filename, " (already published)"];
    assert(parts.deep_view() =~= seq!["= "@, filename@, " (already published)"@]);
    text_from(&parts)
}

/// The last line.
pub open spec fn summary_line(uploaded: nat, uptodate: nat, total: nat) -> Seq<char> {
    concat(
        seq![
            decimal(uploaded),
            " uploaded, "@,
            decimal(uptodate),
            " up-to-date, "@,
            decimal(total),
            " total"@,
        ],
    )
}

/// The last line.
pub fn published_summary(uploaded: usize, uptodate: usize, total: usize) -> (r: String)
    ensures
        r@ == summary_line(uploaded as nat, uptodate as nat, total as nat),
{
    let a = decimal_text(uploaded as u128);
    let b = decimal_text(uptodate as u128);
    let c = decimal_text(total as u128);
    let parts: Vec<&str> = vec![
        a.as_str(),
        " uploaded, ",
        b.as_str(),
        " up-to-date, ",
        c.as_str(),
        " total",
    ];
    assert(parts.deep_view() =~= seq![
        a@, " uploaded, "@, b@, " up-to-date, "@, c@, " total"@,
    ]);
    text_from(&parts)
}

/// Where the build log of an archive lies: beside it.
pub fn log_path(archive: &str) -> (r: String)
    ensures
        r@ == archive@ + ".log"@,
{
    joined(archive, ".log")
}

/// What is said of a build log that is too long to be attached; nothing where
/// it is not.
pub fn attach_build_log(log_path: &str, size: usize) -> (r: Option<String>)
    ensures
        r.deep_view() == if size > MAX_LOG_BYTES {
            Some(concat(seq!["  · build log skipped ("@, log_path@, " exceeds 1 MiB)"@]))
        } else {
            None
        },
{
    if size > MAX_LOG_BYTES {
        let parts: Vec<&str> = vec!["  · build log skipped (", log_path, " exceeds 1 MiB)"];
        assert(parts.deep_view() =~= seq![
            "  · build log skipped ("@, log_path@, " exceeds 1 MiB)"@,
        ]);
        Some(text_from(&parts))
    } else {
        None
    }
}

/// The archive to withdraw, or how the command is called.
pub fn unpublish_target(args: &Vec<String>) -> (r: Result<String, String>)
    ensures
        match r {
            Ok(filename) => split_args(args.deep_view()).0.len() > 0 && filename@ == split_args(
                args.deep_view(),
            ).0[0],
            Err(e) => split_args(args.deep_view()).0.len() == 0 && e@
                == "usage: recipedia unpublish <filename>"@,
        },
{
    let (positional, _) = parse_args(args);
    if positional.len() > 0 {
        assert(positional.deep_view()[0] == positional@[0]@);
        Ok(positional[0].clone())
    } else {
        Err("usage: recipedia unpublish <filename>".to_owned())
    }
}

/// What is said where the server refuses.
pub fn server_refused(code: u16, body: &str) -> (r: String)
    ensures
        r@ == concat(seq!["server refused ("@, decimal(code as nat), "): "@, body@]),
{
    let number = decimal_text(code as u128);
    let parts: Vec<&str> = vec!["server refused (", number.as_str(), "): ", body];
    assert(parts.deep_view() =~= seq!["server refused ("@, number@, "): "@, body@]);
    text_from(&parts)
}

// ---------------------------------------------------------------------------
// States
// ---------------------------------------------------------------------------

/// A package as the server lists it; `None` where it tells nothing.
#[derive(Debug)]
pub struct ListedPackage {
    pub name: Option<String>,
    pub recipe_version: Option<String>,
    pub recipe_release: Option<String>,
    pub state: Option<String>,
}

#[verifier::ext_equal]
pub struct ListedPackageModel {
    pub name: Option<Seq<char>>,
    pub recipe_version: Option<Seq<char>>,
    pub recipe_release: Option<Seq<char>>,
    pub state: Option<Seq<char>>,
}

impl DeepView for ListedPackage {
    type V = ListedPackageModel;

    open spec fn deep_view(&self) -> ListedPackageModel {
        ListedPackageModel {
            name: self.name.deep_view(),
            recipe_version: self.recipe_version.deep_view(),
            recipe_release: self.recipe_release.deep_view(),
            state: self.state.deep_view(),
        }
    }
}

impl Clone for ListedPackage {
    fn clone(&self) -> (r: Self)
        ensures
            r.deep_view() == self.deep_view(),
    {
        ListedPackage {
            name: match &self.name {
                Some(v) => Some(v.clone()),
                None => None,
            },
            recipe_version: match &self.recipe_version {
                Some(v) => Some(v.clone()),
                None => None,
            },
            recipe_release: match &self.recipe_release {
                Some(v) => Some(v.clone()),
                None => None,
            },
            state: match &self.state {
                Some(v) => Some(v.clone()),
                None => None,
            },
        }
    }
}

fn listed_state(p: &ListedPackage) -> (r: String)
    ensures
        r@ == or_unknown(p.deep_view().state),
{
    unless_unknown(&p.state).to_owned()
}

/// The texts that are just `text`.
pub open spec fn just(text: Seq<char>) -> spec_fn(Seq<char>) -> bool {
    |t: Seq<char>| t == text
}

/// A state, and how often it is among `states`.
pub open spec fn state_tally(states: Seq<Seq<char>>, state: Seq<char>) -> Seq<char> {
    concat(seq![state, " "@, decimal(states.filter(just(state)).len())])
}

/// How many packages are in each state that occurs, as one text.
pub open spec fn tally(list: Seq<ListedPackageModel>) -> Seq<char> {
    let states = list.map_values(|p: ListedPackageModel| or_unknown(p.state));
    join_with(
        text_set(states).map_values(|s: Seq<char>| state_tally(states, s)),
        ", "@,
    )
}

/// The first line of the status: how many packages there are, and how many in
/// each state.
pub fn status_line(list: &Vec<ListedPackage>) -> (r: String)
    ensures
        r@ == concat(
            seq!["total "@, decimal(list.len() as nat), " · "@, tally(list.deep_view())],
        ),
{
    let states = map_list(
        list,
        listed_state,
        Ghost(|p: ListedPackageModel| or_unknown(p.state)),
    );
    let set = sorted_set(&states);
    let count = |s: &String| -> (o: String)
        ensures
            o@ == state_tally(states.deep_view(), s@),
        {
            let same = |t: &String| -> (o: bool)
                ensures
                    o == (t@ == s@),
                { same_text(t, s) };
            let n = count_in(&states, same, Ghost(just(s@)));
            let number = decimal_text(n as u128);
            let parts: Vec<&str> = vec![s.as_str(), " ", number.as_str()];
            assert(parts.deep_view() =~= seq![s@, " "@, number@]);
            text_from(&parts)
        };
    let counts = map_list(
        &set,
        count,
        Ghost(|s: Seq<char>| state_tally(states.deep_view(), s)),
    );
    let number = decimal_text(list.len() as u128);
    let all = join(&counts, ", ");
    let parts: Vec<&str> = vec!["total ", number.as_str(), " · ", all.as_str()];
    assert(parts.deep_view() =~= seq!["total "@, number@, " · "@, all@]);
    text_from(&parts)
}

/// The line of one package.
pub open spec fn package_line(p: ListedPackageModel) -> Seq<char> {
    concat(
        seq![
            "  "@,
            or_unknown(p.name),
            " "@,
            or_unknown(p.recipe_version),
            "-"@,
            or_unknown(p.recipe_release),
        ],
    )
}

fn line_for(p: &ListedPackage) -> (r: String)
    ensures
        r@ == package_line(p.deep_view()),
{
    let parts: Vec<&str> = vec![
        "  ",
        unless_unknown(&p.name),
        " ",
        unless_unknown(&p.recipe_version),
        "-",
        unless_unknown(&p.recipe_release),
    ];
    assert(parts.deep_view() =~= seq![
        "  "@,
        or_unknown(p.deep_view().name),
        " "@,
        or_unknown(p.deep_view().recipe_version),
        "-"@,
        or_unknown(p.deep_view().recipe_release),
    ]);
    text_from(&parts)
}

/// The state that the flag `--state` asks for.
pub fn wanted_state(args: &Vec<String>) -> (r: Option<String>)
    ensures
        r.deep_view() == entry_at(split_args(args.deep_view()).1, "--state"@),
{
    let (_, flags) = parse_args(args);
    match flags.get("--state") {
        Some(state) => Some(state.clone()),
        None => None,
    }
}

/// The lines of the packages in the state `wanted`.
pub fn state_lines(list: &Vec<ListedPackage>, wanted: &str) -> (r: Vec<String>)
    ensures
        r.deep_view() == list.deep_view().filter(
            |p: ListedPackageModel| p.state == Some(wanted@),
        ).map_values(|p: ListedPackageModel| package_line(p)),
{
    let inside = |p: &ListedPackage| -> (o: bool)
        ensures
            o == (p.deep_view().state == Some(wanted@)),
        {
            match &p.state {
                Some(s) => same_text(s, wanted),
                None => false,
            }
        };
    let kept = keep_list(
        list,
        inside,
        Ghost(|p: ListedPackageModel| p.state == Some(wanted@)),
    );
    map_list(&kept, line_for, Ghost(|p: ListedPackageModel| package_line(p)))
}

} // verus!
