//! What holds of the publisher and of the settings: how a command line is
//! taken apart, what is sent where, what is said of it, and what each variable
//! of the environment sets.

use vstd::prelude::*;

use crate::api::mib_text;
use crate::cli::{
    archives_of, credentials_of, credentials_path, is_flag, just, login_of, or_unknown,
    package_line, server_name, sorted_out, split_args, state_tally, summary_line, tally,
    upload_line, ClientConfigModel, FoundFileModel, ListedPackageModel, ToldModel,
};
use crate::config::{config_of, git_dir_of, ConfigModel, EnvironmentModel};
use crate::digits::{decimal, is_digit, lemma_decimal_digits, parsed};
use crate::laws_repo::lemma_three;
use crate::laws_requests::lemma_four;
use crate::list::{first_where, lemma_first_where, lemma_kept};
use crate::order::{lemma_filter_push, lemma_sort_ascends, lemma_sort_permutes, text_set};
use crate::path::{below, file_name_of, lemma_path_order, path_leq, path_order, sorted_paths_of};
use crate::publication::{publish_next, PublicationModel, PublishActionModel, PublishEventModel};
use crate::split::{end_unslashed, join_with, trimmed};
use crate::table::{entry_at, keys_ascend, lemma_put, lemma_text_set, put_entry};
use crate::text::{concat, text_order, Side};
use crate::web::nav_of;

verus! {

// ---------------------------------------------------------------------------
// Texts of many parts
// ---------------------------------------------------------------------------

/// The text of parts in two groups is that of the one group, then that of the
/// other.
pub proof fn lemma_groups(a: Seq<Seq<char>>, b: Seq<Seq<char>>)
    ensures
        concat(a + b) == concat(a) + concat(b),
    decreases b.len(),
{
    if b.len() == 0 {
        assert(a + b =~= a);
        assert(concat(a) + concat(b) =~= concat(a));
    } else {
        assert((a + b).drop_last() =~= a + b.drop_last());
        lemma_groups(a, b.drop_last());
        assert(concat(a + b) =~= concat(a) + concat(b));
    }
}

// ---------------------------------------------------------------------------
// Arguments
// ---------------------------------------------------------------------------

/// Every flag among the arguments has a value behind it.
pub open spec fn paired(args: Seq<Seq<char>>) -> bool
    decreases args.len(),
{
    if args.len() == 0 {
        true
    } else if is_flag(args[0]) {
        args.len() >= 2 && paired(args.skip(2))
    } else {
        paired(args.skip(1))
    }
}

/// Arguments that follow are taken apart after those before them.
proof fn lemma_sorted_on(
    a: Seq<Seq<char>>,
    b: Seq<Seq<char>>,
    positional: Seq<Seq<char>>,
    flags: Seq<(Seq<char>, Seq<char>)>,
)
    requires
        paired(a),
    ensures
        sorted_out(a + b, positional, flags) == sorted_out(
            b,
            sorted_out(a, positional, flags).0,
            sorted_out(a, positional, flags).1,
        ),
    decreases a.len(),
{
    if a.len() == 0 {
        assert(a + b =~= b);
    } else if is_flag(a[0]) {
        assert((a + b).skip(2) =~= a.skip(2) + b);
        lemma_sorted_on(a.skip(2), b, positional, put_entry(flags, a[0], a[1]));
    } else {
        assert((a + b).skip(1) =~= a.skip(1) + b);
        lemma_sorted_on(a.skip(1), b, positional.push(a[0]), flags);
    }
}

/// A flag is what begins with two dashes.
pub proof fn lemma_flag(arg: Seq<char>)
    ensures
        is_flag(arg) <==> arg.len() >= 2 && arg[0] == '-' && arg[1] == '-',
{
    reveal_strlit("--");
    if arg.len() >= 2 && arg[0] == '-' && arg[1] == '-' {
        assert(arg.subrange(0, 2) =~= "--"@);
    }
    assert("--"@[0] == '-' && "--"@[1] == '-');
}

/// An argument that is no flag stands for itself behind those before it. A
/// flag has the next argument for its value, in place of an earlier one; at
/// the end it counts for nothing.
pub proof fn lemma_next_argument(args: Seq<Seq<char>>, arg: Seq<char>, value: Seq<char>)
    requires
        paired(args),
    ensures
        split_args(Seq::empty()).0.len() == 0 && split_args(Seq::empty()).1.len() == 0,
        !is_flag(arg) ==> split_args(args.push(arg)) == (
            split_args(args).0.push(arg),
            split_args(args).1,
        ),
        is_flag(arg) ==> split_args(args.push(arg)) == split_args(args),
        is_flag(arg) ==> split_args(args.push(arg).push(value)) == (
            split_args(args).0,
            put_entry(split_args(args).1, arg, value),
        ),
{
    let none = Seq::<Seq<char>>::empty();
    let bare = Seq::<(Seq<char>, Seq<char>)>::empty();
    let front = split_args(args);
    let one = seq![arg];
    let two = seq![arg, value];
    assert(args.push(arg) =~= args + one);
    assert(args.push(arg).push(value) =~= args + two);
    lemma_sorted_on(args, one, none, bare);
    lemma_sorted_on(args, two, none, bare);
    assert(one.skip(1) =~= none);
    assert(two.skip(2) =~= none);
    assert(sorted_out(none, front.0.push(arg), front.1) == (front.0.push(arg), front.1));
    assert(sorted_out(none, front.0, put_entry(front.1, arg, value)) == (
        front.0,
        put_entry(front.1, arg, value),
    ));
}

/// The values of the flags are a table, so each flag has one value, the last
/// that was given.
pub proof fn lemma_flag_values(args: Seq<Seq<char>>, flag: Seq<char>, value: Seq<char>, other: Seq<char>)
    requires
        paired(args),
        is_flag(flag),
        other != flag,
    ensures
        entry_at(split_args(args.push(flag).push(value)).1, flag) == Some(value),
        entry_at(split_args(args.push(flag).push(value)).1, other) == entry_at(
            split_args(args).1,
            other,
        ),
{
    lemma_next_argument(args, flag, value);
    lemma_flags_ascend(args, Seq::empty(), Seq::empty());
    lemma_put(split_args(args).1, flag, value);
}

proof fn lemma_flags_ascend(
    args: Seq<Seq<char>>,
    positional: Seq<Seq<char>>,
    flags: Seq<(Seq<char>, Seq<char>)>,
)
    requires
        keys_ascend(flags),
    ensures
        keys_ascend(sorted_out(args, positional, flags).1),
    decreases args.len(),
{
    if args.len() == 0 {
    } else if !is_flag(args[0]) {
        lemma_flags_ascend(args.skip(1), positional.push(args[0]), flags);
    } else if args.len() > 1 {
        lemma_put(flags, args[0], args[1]);
        lemma_flags_ascend(args.skip(2), positional, put_entry(flags, args[0], args[1]));
    }
}

/// A login has the token behind the flag `--token`, and for the server the
/// first argument that is neither a flag nor the token. It needs both.
pub proof fn lemma_login(args: Seq<Seq<char>>)
    ensures
        ({
            let token = entry_at(split_args(args).1, "--token"@);
            let found = login_of(args);
            &&& found is Some ==> token == Some(found->0.token) && args.contains(found->0.url)
                && !is_flag(found->0.url) && found->0.url != found->0.token
            &&& found is None && token is Some ==> forall|k: int|
                0 <= k < args.len() ==> is_flag(#[trigger] args[k]) || args[k] == token->0
            &&& found is Some && args.len() > 0 && !is_flag(args[0]) && args[0] != found->0.token
                ==> found->0.url == args[0]
            &&& token is None ==> found is None
        }),
{
    let token = entry_at(split_args(args).1, "--token"@);
    if token is Some {
        lemma_first_where(args, server_name(token->0));
        match first_where(args, server_name(token->0)) {
            Some(i) => {
                assert(args.contains(args[i]));
            },
            None => {
                assert forall|k: int| 0 <= k < args.len() implies is_flag(#[trigger] args[k])
                    || args[k] == token->0 by {
                    assert(!server_name(token->0)(args[k]));
                }
            },
        }
        if args.len() > 0 && !is_flag(args[0]) && args[0] != token->0 {
            assert(server_name(token->0)(args[0]));
        }
    }
}

/// The server may stand before the flag or behind the token.
pub proof fn lemma_login_named(server: Seq<char>, token: Seq<char>)
    requires
        !is_flag(server),
        server != token,
    ensures
        login_of(seq![server, "--token"@, token]) == Some(
            (ClientConfigModel { url: server, token }),
        ),
        login_of(seq!["--token"@, token, server]) == Some(
            (ClientConfigModel { url: server, token }),
        ),
{
    reveal_strlit("--token");
    lemma_flag("--token"@);
    let none = Seq::<Seq<char>>::empty();
    let bare = Seq::<(Seq<char>, Seq<char>)>::empty();
    lemma_put(bare, "--token"@, token);
    let first = seq![server, "--token"@, token];
    assert(paired(none));
    assert(none.push(server).skip(1) =~= none);
    assert(paired(none.push(server)));
    lemma_next_argument(none, server, token);
    lemma_next_argument(none.push(server), "--token"@, token);
    assert(none.push(server).push("--token"@).push(token) =~= first);
    assert(split_args(first).1 == put_entry(bare, "--token"@, token));
    lemma_login(first);
    assert(first[0] == server);
    if login_of(first) is None {
        assert(is_flag(first[0]) || first[0] == token);
    }
    let second = seq!["--token"@, token, server];
    let before = none.push("--token"@).push(token);
    lemma_next_argument(none, "--token"@, token);
    assert(before.skip(2) =~= none);
    assert(paired(before));
    lemma_next_argument(before, server, token);
    assert(before.push(server) =~= second);
    assert(split_args(second).1 == put_entry(bare, "--token"@, token));
    lemma_login(second);
    assert(second[2] == server);
    if login_of(second) is None {
        assert(is_flag(second[2]) || second[2] == token);
    } else {
        let k = second.index_of(login_of(second)->0.url);
        assert(second[k] == login_of(second)->0.url);
    }
}

// ---------------------------------------------------------------------------
// Publishing
// ---------------------------------------------------------------------------

/// A path is published just where it was named itself or ends like an archive,
/// and the archives come in the order of paths.
pub proof fn lemma_archives(found: Seq<FoundFileModel>, path: Seq<char>)
    ensures
        sorted_paths_of(archives_of(found)).contains(path) <==> exists|k: int|
            0 <= k < found.len() && (#[trigger] found[k]).path == path && (found[k].named
                || ".pkg.tar.zst"@.is_suffix_of(path)),
        forall|i: int, j: int|
            0 <= i < j < sorted_paths_of(archives_of(found)).len() ==> path_order(
                #[trigger] sorted_paths_of(archives_of(found))[i],
                #[trigger] sorted_paths_of(archives_of(found))[j],
            ) != Side::After,
{
    let leq = |a: Seq<char>, b: Seq<char>| path_leq(a, b);
    let keep = |f: FoundFileModel| f.named || ".pkg.tar.zst"@.is_suffix_of(f.path);
    let kept = found.filter(keep);
    let all = archives_of(found);
    let sorted = sorted_paths_of(all);
    lemma_kept(found, keep);
    lemma_sort_permutes(all, leq);
    lemma_path_order();
    lemma_sort_ascends(all, leq);
    assert forall|i: int, j: int| 0 <= i < j < sorted.len() implies path_order(
        #[trigger] sorted[i],
        #[trigger] sorted[j],
    ) != Side::After by {
        assert(leq(sorted[i], sorted[j]));
    }
    if sorted.contains(path) {
        assert(all.contains(path));
        let n = all.index_of(path);
        assert(kept.contains(kept[n]));
        let k = found.index_of(kept[n]);
        assert(found[k].path == path);
    }
    if exists|k: int|
        0 <= k < found.len() && (#[trigger] found[k]).path == path && (found[k].named
            || ".pkg.tar.zst"@.is_suffix_of(path)) {
        let k = choose|k: int|
            0 <= k < found.len() && (#[trigger] found[k]).path == path && (found[k].named
                || ".pkg.tar.zst"@.is_suffix_of(path));
        assert(found.contains(found[k]));
        assert(kept.contains(found[k]));
        let n = kept.index_of(found[k]);
        assert(all[n] == path);
        assert(all.contains(path));
    }
}

/// Each archive is looked at and sent as it is, under its own name below the
/// server. Its log is what lies beside it, and goes to the same place with
/// `/log` behind it.
pub proof fn lemma_archive_sent(
    config: ClientConfigModel,
    p: PublicationModel,
    name: Seq<char>,
    etag: Option<Seq<char>>,
    sha256: Seq<char>,
    told: ToldModel,
    size: u64,
)
    requires
        p.done < p.files.len(),
        file_name_of(p.files[p.done as int]) == Some(name),
    ensures
        ({
            let file = p.files[p.done as int];
            let url = config.url + "/api/repo/publish/"@ + name;
            let looked = publish_next(config, p, PublishEventModel::Looked { etag, sha256 });
            let known = etag is Some && trimmed(etag->0) == "\""@ + sha256 + "\""@;
            let sent = publish_next(config, p, PublishEventModel::Sent { told, size });
            &&& publish_next(config, p, PublishEventModel::Ready) == (
                p,
                (PublishActionModel::Look { file, url }),
            )
            &&& !known ==> looked == (p, (PublishActionModel::Upload { file, url, sha256 }))
            &&& known ==> looked.1 == (PublishActionModel::Skip {
                line: "= "@ + name + " (already published)"@,
            })
            &&& known ==> looked.0.uptodate == p.uptodate + 1 && looked.0.uploaded == p.uploaded
                && looked.0.done == p.done + 1 && looked.0.files == p.files
            &&& sent.0.uploaded == p.uploaded + 1 && sent.0.uptodate == p.uptodate && sent.0.done
                == p.done + 1 && sent.0.files == p.files
            &&& sent.1 == (PublishActionModel::Attach {
                line: upload_line(name, told, size),
                log: file + ".log"@,
                url: url + "/log"@,
            })
        }),
{
    lemma_three(config.url, "/api/repo/publish/"@, name);
    lemma_three("= "@, name, " (already published)"@);
    lemma_three("\""@, sha256, "\""@);
}

/// An archive that cannot be sent ends the work, and its name and the reason
/// are told.
pub proof fn lemma_archive_failed(
    config: ClientConfigModel,
    p: PublicationModel,
    name: Seq<char>,
    e: Seq<char>,
)
    requires
        p.done < p.files.len(),
        file_name_of(p.files[p.done as int]) == Some(name),
    ensures
        publish_next(config, p, PublishEventModel::Failed(e)) == (
            p,
            PublishActionModel::Fail("upload failed for "@ + name + ": "@ + e),
        ),
{
    lemma_four("upload failed for "@, name, ": "@, e);
}

/// The last line tells how many archives were sent, how many the server had,
/// and how many there were.
pub proof fn lemma_last_line(config: ClientConfigModel, p: PublicationModel, event: PublishEventModel)
    requires
        p.done >= p.files.len(),
    ensures
        publish_next(config, p, event) == (
            p,
            (PublishActionModel::Finish {
                line: decimal(p.uploaded) + " uploaded, "@ + decimal(p.uptodate)
                    + " up-to-date, "@ + decimal(p.files.len()) + " total"@,
            }),
        ),
{
    let a = seq![decimal(p.uploaded), " uploaded, "@, decimal(p.uptodate)];
    let b = seq![" up-to-date, "@, decimal(p.files.len()), " total"@];
    lemma_groups(a, b);
    lemma_three(a[0], a[1], a[2]);
    lemma_three(b[0], b[1], b[2]);
    assert(a + b =~= seq![a[0], a[1], a[2], b[0], b[1], b[2]]);
    assert(summary_line(p.uploaded, p.uptodate, p.files.len()) =~= decimal(p.uploaded)
        + " uploaded, "@ + decimal(p.uptodate) + " up-to-date, "@ + decimal(p.files.len())
        + " total"@);
}

/// The line of an archive that was sent has its filename, then what the server
/// told of it, each in its place.
pub proof fn lemma_upload_line(filename: Seq<char>, told: ToldModel, size: u64)
    requires
        told.name is Some,
        told.version is Some,
        told.release is Some,
        told.state is Some,
    ensures
        upload_line(filename, told, size) == "+ "@ + filename + " · "@ + told.name->0 + " "@
            + told.version->0 + "-"@ + told.release->0 + " · "@ + mib_text(size as int)
            + " MiB · state "@ + told.state->0,
{
    let a = seq!["+ "@, filename, " · "@, told.name->0];
    let b = seq![" "@, told.version->0, "-"@, told.release->0];
    let c = seq![" · "@, mib_text(size as int), " MiB · state "@, told.state->0];
    lemma_groups(a, b);
    lemma_groups(a + b, c);
    lemma_four(a[0], a[1], a[2], a[3]);
    lemma_four(b[0], b[1], b[2], b[3]);
    lemma_four(c[0], c[1], c[2], c[3]);
    assert(a + b + c =~= seq![
        a[0], a[1], a[2], a[3], b[0], b[1], b[2], b[3], c[0], c[1], c[2], c[3],
    ]);
    assert(upload_line(filename, told, size) =~= "+ "@ + filename + " · "@ + told.name->0 + " "@
        + told.version->0 + "-"@ + told.release->0 + " · "@ + mib_text(size as int)
        + " MiB · state "@ + told.state->0);
}

// ---------------------------------------------------------------------------
// States
// ---------------------------------------------------------------------------

/// The line of a package has its name, then version and release of its recipe.
pub proof fn lemma_package_line(p: ListedPackageModel)
    requires
        p.name is Some,
        p.recipe_version is Some,
        p.recipe_release is Some,
    ensures
        package_line(p) == "  "@ + p.name->0 + " "@ + p.recipe_version->0 + "-"@
            + p.recipe_release->0,
{
    let a = seq!["  "@, p.name->0, " "@];
    let b = seq![p.recipe_version->0, "-"@, p.recipe_release->0];
    lemma_groups(a, b);
    lemma_three(a[0], a[1], a[2]);
    lemma_three(b[0], b[1], b[2]);
    assert(a + b =~= seq![a[0], a[1], a[2], b[0], b[1], b[2]]);
    assert(package_line(p) =~= "  "@ + p.name->0 + " "@ + p.recipe_version->0 + "-"@
        + p.recipe_release->0);
}

/// How many of the packages are in a state.
pub open spec fn packages_in(list: Seq<ListedPackageModel>, state: Seq<char>) -> nat
    decreases list.len(),
{
    if list.len() == 0 {
        0
    } else {
        packages_in(list.drop_last(), state) + if list.last().state == Some(state) {
            1nat
        } else {
            0nat
        }
    }
}

proof fn lemma_packages_in(list: Seq<ListedPackageModel>, state: Seq<char>)
    requires
        forall|k: int| 0 <= k < list.len() ==> (#[trigger] list[k]).state is Some,
    ensures
        list.map_values(|p: ListedPackageModel| or_unknown(p.state)).filter(
            just(state),
        ).len() == packages_in(list, state),
    decreases list.len(),
{
    let states = list.map_values(|p: ListedPackageModel| or_unknown(p.state));
    let same = just(state);
    if list.len() == 0 {
        assert(states =~= Seq::<Seq<char>>::empty());
        reveal(Seq::filter);
    } else {
        let less = list.drop_last();
        lemma_packages_in(less, state);
        let fewer = less.map_values(|p: ListedPackageModel| or_unknown(p.state));
        assert(states =~= fewer.push(states.last()));
        lemma_filter_push(fewer, states.last(), same);
        assert(list.last() == list[list.len() - 1]);
    }
}

proof fn lemma_state_tally(list: Seq<ListedPackageModel>, state: Seq<char>)
    requires
        forall|k: int| 0 <= k < list.len() ==> (#[trigger] list[k]).state is Some,
    ensures
        state_tally(list.map_values(|p: ListedPackageModel| or_unknown(p.state)), state) == state
            + " "@ + decimal(packages_in(list, state)),
{
    lemma_packages_in(list, state);
    lemma_three(state, " "@, decimal(packages_in(list, state)));
}

/// The tally names every state that a package is in, once and in order, each
/// with the number of packages in it.
pub proof fn lemma_tally(list: Seq<ListedPackageModel>) -> (states: Seq<Seq<char>>)
    requires
        forall|k: int| 0 <= k < list.len() ==> (#[trigger] list[k]).state is Some,
    ensures
        tally(list) == join_with(
            Seq::new(
                states.len(),
                |i: int| states[i] + " "@ + decimal(packages_in(list, states[i])),
            ),
            ", "@,
        ),
        forall|s: Seq<char>| #[trigger]
            states.contains(s) <==> exists|k: int|
                0 <= k < list.len() && (#[trigger] list[k]).state == Some(s),
        forall|i: int, j: int|
            0 <= i < j < states.len() ==> text_order(#[trigger] states[i], #[trigger] states[j])
                == Side::Before,
{
    let all = list.map_values(|p: ListedPackageModel| or_unknown(p.state));
    let states = text_set(all);
    lemma_text_set(all);
    let one = |s: Seq<char>| state_tally(all, s);
    let lines = Seq::new(
        states.len(),
        |i: int| states[i] + " "@ + decimal(packages_in(list, states[i])),
    );
    assert forall|i: int| 0 <= i < states.len() implies #[trigger] one(states[i]) == lines[i] by {
        lemma_state_tally(list, states[i]);
    }
    assert(states.map_values(one) =~= lines);
    assert forall|s: Seq<char>| #[trigger] states.contains(s) <==> exists|k: int|
        0 <= k < list.len() && (#[trigger] list[k]).state == Some(s) by {
        if states.contains(s) {
            assert(all.contains(s));
            let k = all.index_of(s);
            assert(list[k].state == Some(s));
        }
        if exists|k: int| 0 <= k < list.len() && (#[trigger] list[k]).state == Some(s) {
            let k = choose|k: int| 0 <= k < list.len() && (#[trigger] list[k]).state == Some(s);
            assert(all[k] == s);
            assert(all.contains(s));
        }
    }
    states
}

// ---------------------------------------------------------------------------
// Settings
// ---------------------------------------------------------------------------

/// Each variable that is set sets what it is for, and the URLs lose the slashes
/// at their end. What the hub keeps lies in the directory for its state.
pub proof fn lemma_settings(env: EnvironmentModel)
    ensures
        ({
            let c = config_of(env);
            &&& env.listen is Some ==> c.listen == env.listen->0
            &&& env.db is Some ==> c.db_path == env.db->0
            &&& env.state_dir is Some ==> c.state_dir == env.state_dir->0
            &&& env.repo_channel is Some ==> c.repo_channel == env.repo_channel->0
            &&& env.repo_signing_key is Some && trimmed(env.repo_signing_key->0).len() > 0
                ==> c.repo_signing_key == env.repo_signing_key->0
            &&& env.git_url is Some ==> c.git_url == env.git_url->0
            &&& c.webhook_secret == env.webhook_secret
            &&& env.repo_url is Some ==> c.repo_base == end_unslashed(env.repo_url->0)
            &&& env.frontend_url is Some ==> c.frontend_url == end_unslashed(env.frontend_url->0)
            &&& env.db is None ==> c.db_path == below(c.state_dir, "database"@)
            &&& c.repo_dir == below(c.state_dir, "repo"@)
            &&& env.repo_signing_key is None || trimmed(env.repo_signing_key->0).len() == 0
                ==> c.repo_signing_key == below(c.state_dir, "signing.key"@)
            &&& git_dir_of(c) == below(below(c.state_dir, "git"@), "recipes"@)
            &&& env.listen is None ==> c.listen == "127.0.0.1:8300"@
            &&& env.state_dir is None ==> c.state_dir == "/srv/recipedia"@
            &&& env.repo_channel is None ==> c.repo_channel == "main"@
            &&& env.repo_url is None ==> c.repo_base.len() == 0
            &&& env.frontend_url is None ==> c.frontend_url.len() == 0
        }),
{
    reveal_strlit("");
}

/// The interval between polls is the number that is set, and ten minutes where
/// none is.
pub proof fn lemma_poll_interval(env: EnvironmentModel, n: u64)
    ensures
        env.poll_secs == Some(decimal(n as nat)) ==> config_of(env).poll_secs == n,
        env.poll_secs is Some && parsed(env.poll_secs->0, u64::MAX) is None ==> config_of(
            env,
        ).poll_secs == 600,
{
    lemma_decimal_digits(n as nat);
    assert(is_digit(decimal(n as nat)[0]));
}

/// The credentials lie in the directory for settings, which is `.config` in
/// the home where no other is named.
pub proof fn lemma_credentials_path(dir: Seq<char>, home: Option<Seq<char>>)
    ensures
        credentials_path(Some(dir), home) == below(below(dir, "recipedia"@), "config.toml"@),
        credentials_path(None, Some(dir)) == below(
            below(below(dir, ".config"@), "recipedia"@),
            "config.toml"@,
        ),
{
}

/// Credentials are read just where both parts are there; slashes at the end of
/// the URL go.
pub proof fn lemma_credentials(
    url: Result<Option<Seq<char>>, Seq<char>>,
    token: Result<Option<Seq<char>>, Seq<char>>,
)
    ensures
        ({
            let found = credentials_of(url, token);
            let both = url is Ok && url->Ok_0 is Some && token is Ok && token->Ok_0 is Some;
            &&& found is Ok <==> both
            &&& both ==> found->Ok_0.url == end_unslashed(url->Ok_0->0) && found->Ok_0.token
                == token->Ok_0->0
            &&& url is Err ==> found->Err_0 == url->Err_0
            &&& url == Ok::<Option<Seq<char>>, Seq<char>>(None) ==> found->Err_0
                == "client config missing url"@
            &&& url is Ok && url->Ok_0 is Some && token is Err ==> found->Err_0 == token->Err_0
            &&& url is Ok && url->Ok_0 is Some && token == Ok::<Option<Seq<char>>, Seq<char>>(None)
                ==> found->Err_0 == "client config missing token"@
        }),
{
}

/// The pages are linked at the public origin of the site, and the repository
/// where its own URL says.
pub proof fn lemma_links(config: ConfigModel)
    ensures
        ({
            let nav = nav_of(config);
            let site = config.frontend_url;
            &&& nav.home == site + "/"@ && nav.packages == site + "/packages"@ && nav.status == site
                + "/status"@ && nav.upload == site + "/upload"@ && nav.about == site + "/about"@
            &&& config.repo_base.len() > 0 ==> nav.repo == config.repo_base
            &&& config.repo_base.len() == 0 ==> nav.repo == "/repo"@
        }),
{
}

} // verus!
