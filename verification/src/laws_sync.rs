//! What holds of a synchronization: the architectures that it reports, what is
//! noted of it, and what is said where it fails.

use vstd::prelude::*;

use crate::config::{git_dir_of, ConfigModel};
use crate::db::{sync_key, tables_ordered, DatabaseModel};
use crate::digest::is_hex_text;
use crate::digits::decimal;
use crate::laws_client::lemma_groups;
use crate::laws_repo::{lemma_three, lemma_two};
use crate::laws_requests::lemma_four;
use crate::list::{first_where, lemma_first_where, lemma_kept};
use crate::model::{canonical, lemma_trim_keeps};
use crate::order::{lemma_filter_push, lemma_sort_permutes};
use crate::path::{
    below, components_of, file_name_of, is_absolute, is_step, lemma_parent, origin_of,
};
use crate::records::RecipeRecordModel;
use crate::split::{
    join_with, lemma_split_concat, lemma_split_join, lemma_split_plain, lines_of, split_on, trimmed,
    without_return,
};
use crate::sync::{
    after_sync, all_components, arch_names, clash, collected, coordinate_leq, duplicate, gathered,
    lemma_coordinate_order, lemma_gathered, lemma_gathered_fails, lemma_path_arches, mirror_begun,
    mirror_next, path_arches, paths_call, record_of, summary_of, sync_outcome, touched,
    FoundRecipeModel, MirrorActionModel, MirrorStep, PulledModel, SyncReportModel,
};
use crate::table::{entry_at, lemma_put};

verus! {

// ---------------------------------------------------------------------------
// Pieces of texts
// ---------------------------------------------------------------------------

/// A piece of a text stands between separators or the ends of the text.
proof fn lemma_piece_at(s: Seq<char>, sep: char, n: int)
    requires
        0 <= n < split_on(s, sep).len(),
    ensures
        exists|i: int|
            0 <= i && i + split_on(s, sep)[n].len() <= s.len() && #[trigger] s.subrange(
                i,
                i + split_on(s, sep)[n].len(),
            ) == split_on(s, sep)[n] && (i == 0 || s[i - 1] == sep) && (i + split_on(
                s,
                sep,
            )[n].len() == s.len() || s[i + split_on(s, sep)[n].len()] == sep) && (i + split_on(
                s,
                sep,
            )[n].len() == s.len() <==> n == split_on(s, sep).len() - 1),
    decreases s.len(),
{
    let pieces = split_on(s, sep);
    if s.len() == 0 {
        assert(s.subrange(0, 0) =~= pieces[0]);
    } else {
        let less = s.drop_last();
        let before = split_on(less, sep);
        lemma_split_join(less, sep);
        if s.last() == sep {
            if n < before.len() {
                lemma_piece_at(less, sep, n);
                let i = choose|i: int|
                    0 <= i && i + before[n].len() <= less.len() && #[trigger] less.subrange(
                        i,
                        i + before[n].len(),
                    ) == before[n] && (i == 0 || less[i - 1] == sep) && (i + before[n].len()
                        == less.len() || less[i + before[n].len()] == sep) && (i + before[n].len()
                        == less.len() <==> n == before.len() - 1);
                assert(pieces[n] == before[n]);
                assert(s.subrange(i, i + pieces[n].len()) =~= pieces[n]);
            } else {
                let i = s.len() as int;
                assert(s.subrange(i, i + pieces[n].len()) =~= pieces[n]);
            }
        } else if n < before.len() - 1 {
            lemma_piece_at(less, sep, n);
            let i = choose|i: int|
                0 <= i && i + before[n].len() <= less.len() && #[trigger] less.subrange(
                    i,
                    i + before[n].len(),
                ) == before[n] && (i == 0 || less[i - 1] == sep) && (i + before[n].len()
                    == less.len() || less[i + before[n].len()] == sep) && (i + before[n].len()
                    == less.len() <==> n == before.len() - 1);
            assert(pieces[n] == before[n]);
            assert(s.subrange(i, i + pieces[n].len()) =~= pieces[n]);
        } else {
            lemma_piece_at(less, sep, n);
            let i = choose|i: int|
                0 <= i && i + before[n].len() <= less.len() && #[trigger] less.subrange(
                    i,
                    i + before[n].len(),
                ) == before[n] && (i == 0 || less[i - 1] == sep) && (i + before[n].len()
                    == less.len() || less[i + before[n].len()] == sep) && (i + before[n].len()
                    == less.len() <==> n == before.len() - 1);
            assert(pieces[n] == before[n].push(s.last()));
            assert(s.subrange(i, i + pieces[n].len()) =~= pieces[n]);
        }
    }
}

/// What stands between two separators or ends, and holds none, is a piece; it
/// is the last one just where it reaches the end.
proof fn lemma_piece_from(s: Seq<char>, sep: char, i: int, j: int)
    requires
        0 <= i <= j <= s.len(),
        i == 0 || s[i - 1] == sep,
        j == s.len() || s[j] == sep,
        !s.subrange(i, j).contains(sep),
    ensures
        exists|n: int|
            0 <= n < split_on(s, sep).len() && #[trigger] split_on(s, sep)[n] == s.subrange(i, j)
                && (j == s.len() <==> n == split_on(s, sep).len() - 1),
{
    let piece = s.subrange(i, j);
    lemma_split_plain(piece, sep);
    lemma_split_join(s, sep);
    let tail = s.skip(i);
    if i > 0 {
        let head = s.take(i - 1);
        assert(s =~= head + seq![sep] + tail);
        lemma_split_concat(head, tail, sep);
        lemma_split_join(head, sep);
    } else {
        assert(s =~= tail);
    }
    let first = split_on(s, sep).len() - split_on(tail, sep).len();
    if j < s.len() {
        let rest = s.skip(j + 1);
        assert(tail =~= piece + seq![sep] + rest);
        lemma_split_concat(piece, rest, sep);
        lemma_split_join(rest, sep);
        assert(split_on(tail, sep)[0] == piece);
        assert(split_on(s, sep)[first] == piece);
    } else {
        assert(tail =~= piece);
        assert(split_on(s, sep)[first] == piece);
    }
}

/// Where the last separator before `i` ends.
proof fn lemma_break_before(s: Seq<char>, sep: char, i: int) -> (b: int)
    requires
        0 <= i <= s.len(),
    ensures
        0 <= b <= i,
        b == 0 || s[b - 1] == sep,
        forall|m: int| b <= m < i ==> #[trigger] s[m] != sep,
    decreases i,
{
    if i > 0 && s[i - 1] != sep {
        lemma_break_before(s, sep, i - 1)
    } else {
        i
    }
}

/// Where the first separator from `i` on begins.
proof fn lemma_break_after(s: Seq<char>, sep: char, i: int) -> (e: int)
    requires
        0 <= i <= s.len(),
    ensures
        i <= e <= s.len(),
        e == s.len() || s[e] == sep,
        forall|m: int| i <= m < e ==> #[trigger] s[m] != sep,
    decreases s.len() - i,
{
    if i < s.len() && s[i] != sep {
        lemma_break_after(s, sep, i + 1)
    } else {
        i
    }
}

// ---------------------------------------------------------------------------
// Changed architectures
// ---------------------------------------------------------------------------

/// The name `c` stands in `paths` at `i`: between slashes or the ends of its
/// line.
pub open spec fn stands_at(paths: Seq<char>, c: Seq<char>, i: int) -> bool {
    let e = i + c.len();
    &&& 0 <= i && e <= paths.len() && paths.subrange(i, e) == c
    &&& i == 0 || paths[i - 1] == '/' || paths[i - 1] == '\n'
    &&& e == paths.len() || paths[e] == '/' || paths[e] == '\n' || (paths[e] == '\r' && e + 1
        < paths.len() && paths[e + 1] == '\n')
}

/// A name without what ends names and lines.
pub open spec fn bare_name(c: Seq<char>) -> bool {
    &&& c.len() > 0 && c != "."@
    &&& forall|i: int|
        0 <= i < c.len() ==> (#[trigger] c[i]) != '/' && c[i] != '\n' && c[i] != '\r'
}

proof fn lemma_component(line: Seq<char>, c: Seq<char>)
    requires
        bare_name(c),
    ensures
        components_of(line).contains(c) <==> split_on(line, '/').contains(c),
{
    reveal_strlit("/");
    reveal_strlit(".");
    let step = |piece: Seq<char>| is_step(piece);
    let pieces = split_on(line, '/');
    lemma_kept(pieces, step);
    let all = components_of(line);
    let origin = origin_of(line);
    if all.contains(c) {
        let k = all.index_of(c);
        if k < origin.len() {
            assert(origin[k] == "/"@ || origin[k] == "."@);
            assert(c[0] != '/');
        } else {
            assert(pieces.filter(step)[k - origin.len()] == c);
            assert(pieces.filter(step).contains(c));
        }
    }
    if pieces.contains(c) {
        assert(step(c));
        assert(pieces.filter(step).contains(c));
        let k = pieces.filter(step).index_of(c);
        assert(all[origin.len() + k] == c);
    }
}

proof fn lemma_all_components(paths: Seq<Seq<char>>, c: Seq<char>)
    ensures
        all_components(paths).contains(c) <==> exists|k: int|
            0 <= k < paths.len() && components_of(#[trigger] paths[k]).contains(c),
    decreases paths.len(),
{
    if paths.len() > 0 {
        let less = paths.drop_last();
        lemma_all_components(less, c);
        let a = all_components(less);
        let b = components_of(paths.last());
        let all = all_components(paths);
        if all.contains(c) {
            let k = all.index_of(c);
            if k < a.len() {
                assert(a[k] == c);
                assert(a.contains(c));
                let m = choose|m: int|
                    0 <= m < less.len() && components_of(#[trigger] less[m]).contains(c);
                assert(paths[m] == less[m]);
            } else {
                assert(b[k - a.len()] == c);
                assert(b.contains(c));
                assert(paths[paths.len() - 1] == paths.last());
            }
        }
        if exists|k: int| 0 <= k < paths.len() && components_of(#[trigger] paths[k]).contains(c) {
            let k = choose|k: int|
                0 <= k < paths.len() && components_of(#[trigger] paths[k]).contains(c);
            if k < less.len() {
                assert(less[k] == paths[k]);
                assert(a.contains(c));
                assert(all[a.index_of(c)] == c);
            } else {
                assert(all[a.len() + b.index_of(c)] == c);
            }
        }
    }
}

proof fn lemma_stands_gives(paths: Seq<char>, c: Seq<char>, i: int)
    requires
        bare_name(c),
        stands_at(paths, c, i),
    ensures
        all_components(lines_of(paths)).contains(c),
{
    let e = i + c.len();
    let b = lemma_break_before(paths, '\n', i);
    let f = lemma_break_after(paths, '\n', e);
    let piece = paths.subrange(b, f);
    assert(!piece.contains('\n')) by {
        if piece.contains('\n') {
            let m = piece.index_of('\n') + b;
            assert(paths[m] == '\n');
            if i <= m && m < e {
                assert(paths.subrange(i, e)[m - i] == c[m - i]);
            }
        }
    }
    lemma_piece_from(paths, '\n', b, f);
    let pieces = split_on(paths, '\n');
    let n = choose|n: int|
        0 <= n < pieces.len() && #[trigger] pieces[n] == piece && (f == paths.len() <==> n
            == pieces.len() - 1);
    let lines = lines_of(paths);
    let line = if n < pieces.len() - 1 {
        without_return(piece)
    } else {
        piece
    };
    assert(lines[n] == line) by {
        if n == pieces.len() - 1 {
            assert(piece[i - b] == c[0]) by {
                assert(paths.subrange(i, e)[0] == c[0]);
            }
            assert(pieces.last().len() > 0);
        }
    }
    // Within its line the name stands between slashes or the ends.
    let from = i - b;
    let to = e - b;
    assert(line.len() >= to) by {
        if line.len() < piece.len() {
            assert(piece.last() == '\r');
            if piece.len() == to {
                assert(piece.last() == c.last()) by {
                    assert(paths.subrange(i, e)[c.len() - 1] == c[c.len() - 1]);
                }
            }
        }
    }
    assert(line.subrange(from, to) =~= c) by {
        assert forall|m: int| from <= m < to implies line[m] == c[m - from] by {
            assert(paths.subrange(i, e)[m - from] == c[m - from]);
        }
    }
    assert(from == 0 || line[from - 1] == '/') by {
        if from > 0 {
            assert(paths[i - 1] != '\n');
        }
    }
    assert(to == line.len() || line[to] == '/') by {
        if to < line.len() {
            assert(line[to] == paths[e]);
            assert(paths[e] != '\n');
            if paths[e] == '\r' {
                assert(f == e + 1) by {
                    if f > e + 1 {
                        assert(paths[e + 1] != '\n');
                    }
                }
                assert(piece.last() == '\r');
                assert(n < pieces.len() - 1);
                assert(line.len() == to);
            }
        }
    }
    assert(!line.subrange(from, to).contains('/')) by {
        if c.contains('/') {
            assert(c[c.index_of('/')] == '/');
        }
    }
    lemma_piece_from(line, '/', from, to);
    let m = choose|m: int|
        0 <= m < split_on(line, '/').len() && #[trigger] split_on(line, '/')[m] == line.subrange(
            from,
            to,
        ) && (to == line.len() <==> m == split_on(line, '/').len() - 1);
    assert(split_on(line, '/').contains(c));
    lemma_component(line, c);
    lemma_all_components(lines, c);
    assert(components_of(lines[n]).contains(c));
}

proof fn lemma_component_stands(paths: Seq<char>, c: Seq<char>)
    requires
        bare_name(c),
        all_components(lines_of(paths)).contains(c),
    ensures
        exists|i: int| #[trigger] stands_at(paths, c, i),
{
    let lines = lines_of(paths);
    let pieces = split_on(paths, '\n');
    lemma_split_join(paths, '\n');
    lemma_all_components(lines, c);
    let n = choose|n: int| 0 <= n < lines.len() && components_of(#[trigger] lines[n]).contains(c);
    let line = lines[n];
    lemma_component(line, c);
    let m = split_on(line, '/').index_of(c);
    lemma_piece_at(line, '/', m);
    let from = choose|i: int|
        0 <= i && i + split_on(line, '/')[m].len() <= line.len() && #[trigger] line.subrange(
            i,
            i + split_on(line, '/')[m].len(),
        ) == split_on(line, '/')[m] && (i == 0 || line[i - 1] == '/') && (i + split_on(
            line,
            '/',
        )[m].len() == line.len() || line[i + split_on(line, '/')[m].len()] == '/') && (i + split_on(
            line,
            '/',
        )[m].len() == line.len() <==> m == split_on(line, '/').len() - 1);
    let piece = pieces[n];
    assert(line == piece || (line == without_return(piece) && n < pieces.len() - 1));
    lemma_piece_at(paths, '\n', n);
    let b = choose|i: int|
        0 <= i && i + piece.len() <= paths.len() && #[trigger] paths.subrange(i, i + piece.len())
            == piece && (i == 0 || paths[i - 1] == '\n') && (i + piece.len() == paths.len()
            || paths[i + piece.len()] == '\n') && (i + piece.len() == paths.len() <==> n
            == pieces.len() - 1);
    let i = b + from;
    let e = i + c.len();
    assert forall|k: int| 0 <= k < piece.len() implies paths[b + k] == #[trigger] piece[k] by {
        assert(paths.subrange(b, b + piece.len())[k] == piece[k]);
    }
    assert forall|k: int| 0 <= k < line.len() implies line[k] == #[trigger] piece[k] by {}
    assert(paths.subrange(i, e) =~= c) by {
        assert forall|k: int| 0 <= k < c.len() implies paths[i + k] == c[k] by {
            assert(line.subrange(from, from + c.len())[k] == c[k]);
            assert(line[from + k] == piece[from + k]);
        }
    }
    assert(i == 0 || paths[i - 1] == '/' || paths[i - 1] == '\n') by {
        if from > 0 {
            assert(line[from - 1] == piece[from - 1]);
        }
    }
    if from + c.len() < line.len() {
        assert(line[from + c.len()] == piece[from + c.len()]);
    } else if line.len() < piece.len() {
        assert(piece[piece.len() - 1] == '\r');
        assert(paths[e] == '\r');
    }
    assert(stands_at(paths, c, i));
}

proof fn lemma_arch_bare(c: Seq<char>)
    requires
        arch_names().contains(c),
    ensures
        bare_name(c),
{
    reveal_strlit("amd64");
    reveal_strlit("x86_64");
    reveal_strlit("aarch64");
    reveal_strlit("arm64");
    reveal_strlit("armv7");
    reveal_strlit("arm");
    reveal_strlit("armhf");
    reveal_strlit("armv7l");
    reveal_strlit("riscv64");
    reveal_strlit("any");
    reveal_strlit("noarch");
    reveal_strlit(".");
    let k = arch_names().index_of(c);
    assert(0 <= k < 11);
    assert(c == arch_names()[k]);
}

/// An architecture is reported just where one of its names stands in the
/// changed paths, as a directory or file of its own. Where the commit is the
/// one of the last synchronization, none is.
pub proof fn lemma_changed_arches(
    previous: Option<Seq<char>>,
    current: Seq<char>,
    paths: Seq<char>,
    arch: Seq<char>,
)
    ensures
        previous != Some(current) ==> (touched(previous, current, paths).contains(arch) <==> exists|
            c: Seq<char>,
            i: int,
        |
            arch_names().contains(c) && canonical(c) == arch && #[trigger] stands_at(paths, c, i)),
        previous == Some(current) ==> touched(previous, current, paths).len() == 0,
{
    if previous == Some(current) {
        crate::sync::lemma_same_commit_touches_nothing(current, paths);
    } else {
        lemma_path_arches(paths, arch);
        let all = all_components(lines_of(paths));
        if path_arches(paths).contains(arch) {
            let c = choose|c: Seq<char>| #[trigger]
                all.contains(c) && arch_names().contains(c) && canonical(c) == arch;
            lemma_arch_bare(c);
            lemma_component_stands(paths, c);
            let i = choose|i: int| #[trigger] stands_at(paths, c, i);
            assert(arch_names().contains(c) && canonical(c) == arch && stands_at(paths, c, i));
        }
        if exists|c: Seq<char>, i: int|
            arch_names().contains(c) && canonical(c) == arch && #[trigger] stands_at(paths, c, i) {
            let (c, i) = choose|c: Seq<char>, i: int|
                arch_names().contains(c) && canonical(c) == arch && #[trigger] stands_at(
                    paths,
                    c,
                    i,
                );
            lemma_arch_bare(c);
            lemma_stands_gives(paths, c, i);
            assert(all.contains(c) && arch_names().contains(c) && canonical(c) == arch);
        }
    }
}

/// The names that paths have for architectures, and the spelling of each.
pub proof fn lemma_arch_names(c: Seq<char>)
    ensures
        arch_names().contains(c) <==> c == "amd64"@ || c == "x86_64"@ || c == "aarch64"@ || c
            == "arm64"@ || c == "armv7"@ || c == "arm"@ || c == "armhf"@ || c == "armv7l"@ || c
            == "riscv64"@ || c == "any"@ || c == "noarch"@,
        c == "amd64"@ || c == "x86_64"@ ==> canonical(c) == "amd64"@,
        c == "aarch64"@ || c == "arm64"@ ==> canonical(c) == "aarch64"@,
        c == "armv7"@ || c == "arm"@ || c == "armhf"@ || c == "armv7l"@ ==> canonical(c)
            == "armv7"@,
        c == "riscv64"@ || c == "any"@ || c == "noarch"@ ==> canonical(c) == c,
{
    reveal_strlit("amd64");
    reveal_strlit("x86_64");
    reveal_strlit("aarch64");
    reveal_strlit("arm64");
    reveal_strlit("armv7");
    reveal_strlit("arm");
    reveal_strlit("armhf");
    reveal_strlit("armv7l");
    reveal_strlit("riscv64");
    reveal_strlit("any");
    reveal_strlit("noarch");
    let names = arch_names();
    if names.contains(c) {
        let k = names.index_of(c);
        assert(0 <= k < 11 && c == names[k]);
        lemma_trim_keeps(c);
    }
    assert(names[0] == "amd64"@ && names[1] == "x86_64"@ && names[2] == "aarch64"@ && names[3]
        == "arm64"@ && names[4] == "armv7"@ && names[5] == "arm"@ && names[6] == "armhf"@
        && names[7] == "armv7l"@ && names[8] == "riscv64"@ && names[9] == "any"@ && names[10]
        == "noarch"@);
    assert("amd64"@[1] == 'm' && "arm64"@[1] == 'r' && "armv7"@[3] == 'v' && "arm64"@[3] == '6'
        && "armhf"@[3] == 'h' && "x86_64"@[0] == 'x' && "armv7l"@[0] == 'a' && "noarch"@[0] == 'n'
        && "any"@[1] == 'n' && "arm"@[1] == 'r' && "aarch64"@[0] == 'a' && "riscv64"@[0] == 'r');
}

/// Any other architecture is spelled as it is, without white space around it.
pub proof fn lemma_other_arch(arch: Seq<char>)
    requires
        !arch_names().contains(trimmed(arch)),
    ensures
        canonical(arch) == trimmed(arch),
{
    lemma_arch_names(trimmed(arch));
}

// ---------------------------------------------------------------------------
// What is noted and said
// ---------------------------------------------------------------------------

/// However a synchronization goes, the history has what triggered it, when it
/// began and how it went: the commit and the report where it went well, and why
/// not where it did not.
pub proof fn lemma_sync_history(
    db: DatabaseModel,
    config: ConfigModel,
    trigger: Seq<char>,
    pulled: Result<PulledModel, Seq<char>>,
    started: i64,
    at: i64,
    id: u64,
    other: Seq<char>,
)
    requires
        tables_ordered(db),
    ensures
        ({
            let after = after_sync(db, config, trigger, pulled, started, at, id);
            let outcome = sync_outcome(db, config, pulled);
            let entry = entry_at(after.sync_log, sync_key(at, id));
            &&& entry is Some && entry->0.trigger == trigger && entry->0.started_at == started
            &&& entry->0.ok == (outcome is Ok)
            &&& outcome is Ok ==> pulled is Ok && entry->0.commit == pulled->Ok_0.commit
                && entry->0.message == summary_of(outcome->Ok_0.1)
            &&& outcome is Err ==> entry->0.commit.len() == 0 && entry->0.message == outcome->Err_0
            &&& pulled is Err ==> outcome is Err && outcome->Err_0 == pulled->Err_0
            &&& other != sync_key(at, id) ==> entry_at(after.sync_log, other) == entry_at(
                db.sync_log,
                other,
            )
            &&& outcome is Err ==> after.recipes == db.recipes && after.meta == db.meta
            &&& outcome is Ok ==> after.recipes == outcome->Ok_0.0.recipes && after.meta
                == outcome->Ok_0.0.meta
            &&& after.published == db.published && after.files == db.files && after.logs == db.logs
                && after.tokens == db.tokens
        }),
{
    let outcome = sync_outcome(db, config, pulled);
    let entry = crate::sync::history_entry(trigger, started, pulled, outcome);
    lemma_put(db.sync_log, sync_key(at, id), entry);
}

/// A synchronization that goes well reports as many recipes as were found, and
/// the architectures touched since the commit that was noted last.
pub proof fn lemma_sync_report(db: DatabaseModel, config: ConfigModel, pulled: PulledModel)
    requires
        sync_outcome(db, config, Ok(pulled)) is Ok,
    ensures
        ({
            let (after, report) = sync_outcome(db, config, Ok(pulled))->Ok_0;
            &&& report.count == pulled.recipes.len()
            &&& report.changed_arches == touched(
                entry_at(db.meta, "last_commit"@),
                pulled.commit,
                pulled.paths,
            )
            &&& after.sync_log == db.sync_log && after.db_path == db.db_path
        }),
{
    let git_dir = git_dir_of(config);
    lemma_gathered(git_dir, pulled.recipes, config.git_url);
    lemma_sort_permutes(
        gathered(git_dir, pulled.recipes, config.git_url)->Ok_0,
        |a: RecipeRecordModel, b: RecipeRecordModel| coordinate_leq(a, b),
    );
}

/// The report in words: how many recipes, and the architectures in a row.
pub proof fn lemma_summary(report: SyncReportModel)
    requires
        report.count >= 0,
    ensures
        summary_of(report) == decimal(report.count as nat)
            + " Sage recipes; changed architectures: "@ + if report.changed_arches.len() == 0 {
            "none"@
        } else {
            join_with(report.changed_arches, ", "@)
        },
{
    lemma_three(
        decimal(report.count as nat),
        " Sage recipes; changed architectures: "@,
        if report.changed_arches.len() == 0 {
            "none"@
        } else {
            join_with(report.changed_arches, ", "@)
        },
    );
}

/// Texts in a row: one alone stands for itself, and each further one follows
/// the separator.
pub proof fn lemma_row_of_texts(texts: Seq<Seq<char>>, text: Seq<char>, sep: Seq<char>)
    ensures
        join_with(seq![text], sep) == text,
        texts.len() > 0 ==> join_with(texts.push(text), sep) == join_with(texts, sep) + sep + text,
{
    assert(texts.push(text).drop_last() =~= texts);
}

/// A recipe that Sage cannot read keeps everything from being taken over: the
/// first such one is named, with the reason, unless two recipes before it
/// clash.
pub proof fn lemma_unreadable_recipe(
    git_dir: Seq<char>,
    found: Seq<FoundRecipeModel>,
    origin: Seq<char>,
    i: int,
)
    requires
        0 <= i < found.len(),
        found[i].recipe is Err,
    ensures
        collected(git_dir, found, origin) is Err,
        gathered(git_dir, found.take(i), origin) is Ok ==> collected(git_dir, found, origin) == Err::<
            Seq<crate::records::RecipeRecordModel>,
            Seq<char>,
        >(
            "loading Sage recipe "@ + below(git_dir, found[i].path) + ": "@ + found[i].recipe->Err_0,
        ),
{
    let here = found.take(i + 1);
    assert(here.drop_last() =~= found.take(i));
    assert(here.last() == found[i]);
    assert(gathered(git_dir, here, origin) is Err);
    lemma_gathered_fails(git_dir, found, origin, i + 1);
    lemma_four(
        "loading Sage recipe "@,
        below(git_dir, found[i].path),
        ": "@,
        found[i].recipe->Err_0,
    );
}

/// A second recipe for the same package is named with both paths, the earlier
/// one first.
pub proof fn lemma_clash_named(
    git_dir: Seq<char>,
    found: Seq<FoundRecipeModel>,
    origin: Seq<char>,
    i: int,
    j: int,
)
    requires
        0 <= i < j < found.len(),
        gathered(git_dir, found.take(j), origin) is Ok,
        found[j].recipe is Ok,
        ({
            let p = found[i].recipe->Ok_0.package;
            let q = found[j].recipe->Ok_0.package;
            &&& p.channel == q.channel && p.name == q.name && p.slot == q.slot && canonical(p.arch)
                == canonical(q.arch)
            &&& p.epoch == q.epoch && p.version.text == q.version.text && p.release == q.release
        }),
    ensures
        collected(git_dir, found, origin) is Err,
        ({
            let q = found[j].recipe->Ok_0.package;
            collected(git_dir, found, origin)->Err_0 == "duplicate Sage package "@ + q.channel
                + ":"@ + q.name + ":"@ + q.slot + " at "@ + found[i].path + " and "@
                + found[j].path
        }),
{
    let before = found.take(j);
    let here = found.take(j + 1);
    let records = gathered(git_dir, before, origin)->Ok_0;
    let record = record_of(found[j].path, found[j].recipe->Ok_0, origin);
    let same = |r: RecipeRecordModel| clash(r, record);
    lemma_gathered(git_dir, before, origin);
    assert(here.drop_last() =~= before);
    assert(here.last() == found[j]);
    assert(before[i] == found[i]);
    lemma_coordinate_order(records[i], record, record);
    assert(same(records[i]));
    lemma_first_where(records, same);
    let n = first_where(records, same)->0;
    assert(same(records[n]));
    lemma_coordinate_order(records[n], record, record);
    lemma_coordinate_order(records[n], records[i], record);
    lemma_coordinate_order(records[i], records[n], record);
    assert(n == i);
    lemma_gathered_fails(git_dir, found, origin, j + 1);
    let q = record.package;
    let a = seq!["duplicate Sage package "@, q.channel, ":"@, q.name];
    let b = seq![":"@, q.slot, " at "@, found[i].path];
    let c = seq![" and "@, found[j].path];
    lemma_groups(a, b);
    lemma_groups(a + b, c);
    lemma_four(a[0], a[1], a[2], a[3]);
    lemma_four(b[0], b[1], b[2], b[3]);
    lemma_two(c[0], c[1]);
    assert(a + b + c =~= seq![
        a[0], a[1], a[2], a[3], b[0], b[1], b[2], b[3], c[0], c[1],
    ]);
    assert(duplicate(records[i], record) =~= "duplicate Sage package "@ + q.channel + ":"@ + q.name
        + ":"@ + q.slot + " at "@ + found[i].path + " and "@ + found[j].path);
}

// ---------------------------------------------------------------------------
// The mirror
// ---------------------------------------------------------------------------

/// A step of the mirror calls Git in the mirror with the given words.
pub open spec fn calls(action: MirrorActionModel, git_dir: Seq<char>, words: Seq<Seq<char>>) -> bool {
    &&& action is Run
    &&& action->Run_0.dir == git_dir && !action->Run_0.make_dir && action->Run_0.args == words
}

/// A mirror that is there is brought to the branch that the remote calls its
/// head, `origin/main` where it names none; then its commit is read.
pub proof fn lemma_mirror_calls(git_dir: Seq<char>, url: Seq<char>, text: Seq<char>, e: Seq<char>)
    ensures
        calls(mirror_begun(url, git_dir, true), git_dir, seq!["fetch"@, "origin"@, "--prune"@]),
        calls(
            mirror_next(git_dir, MirrorStep::Fetch, Ok(text)),
            git_dir,
            seq!["symbolic-ref"@, "refs/remotes/origin/HEAD"@],
        ),
        trimmed(text).len() > 0 ==> calls(
            mirror_next(git_dir, MirrorStep::Branch, Ok(text)),
            git_dir,
            seq!["reset"@, "--hard"@, trimmed(text)],
        ),
        calls(
            mirror_next(git_dir, MirrorStep::Branch, Err(e)),
            git_dir,
            seq!["reset"@, "--hard"@, "origin/main"@],
        ),
        calls(
            mirror_next(git_dir, MirrorStep::Reset, Ok(text)),
            git_dir,
            seq!["rev-parse"@, "HEAD"@],
        ),
        calls(
            mirror_next(git_dir, MirrorStep::Clone, Ok(text)),
            git_dir,
            seq!["rev-parse"@, "HEAD"@],
        ),
        mirror_next(git_dir, MirrorStep::Head, Ok(text)) == MirrorActionModel::Done(trimmed(text)),
{
}

/// Where there is no mirror, the tree is cloned beside where it will lie.
pub proof fn lemma_mirror_cloned(dir: Seq<char>, name: Seq<char>, url: Seq<char>)
    requires
        dir.len() > 0,
        !is_absolute(dir),
        split_on(dir, '/')[0].len() > 0,
        is_step(name),
        !name.contains('/'),
        name != ".."@,
    ensures
        ({
            let action = mirror_begun(url, dir + seq!['/'] + name, false);
            &&& action is Run && action->Run_0.make_dir
            &&& components_of(action->Run_0.dir) == components_of(dir)
            &&& action->Run_0.args == seq!["clone"@, "--depth"@, "1"@, url, name]
        }),
{
    lemma_parent(dir, name);
    lemma_file_name(dir, name);
}

/// The last component of a path is what follows its last slash.
pub proof fn lemma_file_name(dir: Seq<char>, name: Seq<char>)
    requires
        dir.len() > 0,
        is_step(name),
        !name.contains('/'),
        name != ".."@,
    ensures
        file_name_of(dir + seq!['/'] + name) == Some(name),
        file_name_of(name) == Some(name),
{
    reveal_strlit("/");
    reveal_strlit(".");
    let step = |piece: Seq<char>| is_step(piece);
    let whole = dir + seq!['/'] + name;
    lemma_split_concat(dir, name, '/');
    lemma_split_plain(name, '/');
    Seq::filter_distributes_over_add(split_on(dir, '/'), seq![name], step);
    assert(seq![name] =~= Seq::<Seq<char>>::empty().push(name));
    lemma_filter_push(Seq::<Seq<char>>::empty(), name, step);
    assert(Seq::<Seq<char>>::empty().filter(step) =~= Seq::<Seq<char>>::empty()) by {
        reveal(Seq::filter);
    }
    assert(components_of(whole).last() == name);
    assert(components_of(name).last() == name);
    assert(name != "/"@) by {
        if name == "/"@ {
            assert(name[0] == '/');
            assert(name.contains('/'));
        }
    }
}

/// What has changed since the last synchronization is asked of Git as a
/// difference where the mirror has that commit, and else the whole tree counts.
/// Nothing is asked where the commit is the same.
pub proof fn lemma_changes_asked(
    git_dir: Seq<char>,
    previous: Option<Seq<char>>,
    current: Seq<char>,
    found: bool,
)
    ensures
        ({
            let call = paths_call(git_dir, previous, current, found);
            &&& call is None <==> previous == Some(current)
            &&& call is Some ==> call->0.dir == git_dir
            &&& previous is Some && previous != Some(current) && found && is_hex_text(previous->0, 40)
                ==> call->0.args == seq!["diff"@, "--name-only"@, previous->0, current]
            &&& previous is None || (previous != Some(current) && !found) ==> call->0.args
                == seq!["ls-tree"@, "-r"@, "--name-only"@, current]
        }),
{
}

} // verus!
