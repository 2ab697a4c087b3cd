//! What holds of recipes beside their builds: which build a recipe is compared
//! with, and what the state shown says of the two.

use vstd::prelude::*;

use crate::db::{
    build_key, build_leq, builds_of, canonical_build, latest_builds, latest_rows, lemma_latest_rows,
    lemma_newer_build_order, lemma_newer_record_order, lemma_newest_build_listed,
    lemma_newest_recipe_listed, newer_build, newer_record, package_key, package_leq, recipes_of,
    record_key, version_leq, version_rows, DatabaseModel,
};
use crate::detail::lemma_ladder;
use crate::digits::{decimal, lemma_numeral_round_trip, parsed};
use crate::list::{best_per_key, first_where, lemma_best_per_key, lemma_first_where, lemma_kept};
use crate::model::{canonical, DependencyModel};
use crate::order::{lemma_sort_ascends, lemma_sort_permutes, stable_sort, total_preorder};
use crate::records::{row_of, PackageRowModel, PublishedRowModel, RecipeRecordModel};
use crate::status::{
    dashed, release_number, version_of, version_order, State, VersionModel, VersionTextModel,
};
use crate::text::{
    concat, lemma_text_order_same, lemma_texts_order_flip, lemma_texts_order_same,
    lemma_texts_order_transitive, text_order, texts_order, Side,
};
use crate::web::{
    beside, build_order, candidates, lemma_candidates, lemma_picked, lemma_picked_serves, newer_leq,
    of_version, picked, serves, view_of, PackageViewModel,
};

verus! {

// ---------------------------------------------------------------------------
// Versions
// ---------------------------------------------------------------------------

/// Of two versions the one with the smaller epoch is before the other; at the
/// same epoch the one with the smaller upstream version; and at the same of
/// both the one with the smaller release.
pub proof fn lemma_versions_compare(a: VersionModel, b: VersionModel)
    ensures
        version_order(a, b) == Side::Before <==> (a.epoch < b.epoch || (a.epoch == b.epoch && (
        a.rank < b.rank || (a.rank == b.rank && a.release < b.release)))),
        version_order(a, b) == Side::Same <==> a.epoch == b.epoch && a.rank == b.rank && a.release
            == b.release,
        version_order(a, b) == Side::After <==> (b.epoch < a.epoch || (b.epoch == a.epoch && (
        b.rank < a.rank || (b.rank == a.rank && b.release < a.release)))),
{
}

/// A text that Sage reads stands for what Sage reads in it, any other for
/// itself as an upstream version.
pub proof fn lemma_texts_as_versions(v: VersionTextModel)
    ensures
        v.parsed is Some ==> version_of(v) == v.parsed->0,
        v.parsed is None ==> version_of(v).rank == v.bare.rank && version_of(v).epoch == 0
            && version_of(v).release == 0,
{
}

/// What `state` says of a recipe and a build: the build is older just where
/// its upstream version is, or its release at the same upstream version; they
/// agree just where both are the same; else the build is newer.
pub open spec fn compares(
    state: State,
    recipe_rank: u64,
    recipe_release: u32,
    build_rank: u64,
    build_release: u32,
) -> bool {
    &&& state == State::Outdated <==> build_rank < recipe_rank || (build_rank == recipe_rank
        && build_release < recipe_release)
    &&& state == State::Built <==> build_rank == recipe_rank && build_release == recipe_release
    &&& state == State::Ahead <==> build_rank > recipe_rank || (build_rank == recipe_rank
        && build_release > recipe_release)
}

/// A recipe beside a build is older, the same or newer by upstream version and
/// release, and beside no build it is missing.
pub proof fn lemma_state_beside(
    row: PackageRowModel,
    build: PublishedRowModel,
    recipe_release: u32,
    build_release: u32,
)
    requires
        row.release == decimal(recipe_release as nat),
        build.release == decimal(build_release as nat),
    ensures
        compares(
            beside(row, Some(build)),
            row.version.rank,
            recipe_release,
            build.version.rank,
            build_release,
        ),
        beside(row, None) == State::Missing,
{
    lemma_numeral_round_trip(recipe_release);
    lemma_numeral_round_trip(build_release);
}

// ---------------------------------------------------------------------------
// The build beside a recipe
// ---------------------------------------------------------------------------

/// A build for `build_arch` will do for a recipe for `arch`.
pub open spec fn fits(arch: Seq<char>, build_arch: Seq<char>) -> bool {
    arch == build_arch || arch == "any"@ || build_arch == "any"@
}

/// A build is chosen just where one fits, and it is a candidate.
pub proof fn lemma_picked_from(rows: Seq<PublishedRowModel>, arch: Seq<char>)
    ensures
        picked(rows, arch, None) is Some <==> exists|p: PublishedRowModel| #[trigger]
            rows.contains(p) && fits(arch, p.arch),
        picked(rows, arch, None) is Some ==> candidates(rows, arch).contains(
            picked(rows, arch, None)->0,
        ),
{
    let pool = candidates(rows, arch);
    let leq = |a: PublishedRowModel, b: PublishedRowModel| newer_leq(a, b);
    let sorted = stable_sort(pool, leq);
    lemma_sort_permutes(pool, leq);
    if picked(rows, arch, None) is Some {
        assert(sorted.contains(sorted[0]));
        lemma_candidates(rows, arch, sorted[0]);
        assert(rows.contains(sorted[0]) && fits(arch, sorted[0].arch));
    }
    if exists|p: PublishedRowModel| #[trigger] rows.contains(p) && fits(arch, p.arch) {
        let p = choose|p: PublishedRowModel| #[trigger] rows.contains(p) && fits(arch, p.arch);
        lemma_picked_serves(rows, arch, None, p);
    }
}

proof fn lemma_dashed(version: Seq<char>, release: Seq<char>)
    ensures
        dashed(version, release) == version + seq!['-'] + release,
{
    reveal_strlit("-");
    reveal_with_fuel(concat, 4);
    let parts = seq![version, "-"@, release];
    assert(parts.drop_last() =~= seq![version, "-"@]);
    assert(parts.drop_last().drop_last() =~= seq![version]);
    assert(parts.drop_last().drop_last().drop_last() =~= Seq::<Seq<char>>::empty());
    assert(dashed(version, release) =~= version + seq!['-'] + release);
}

/// What a list tells of a recipe for which `build` was published.
pub open spec fn told_beside(
    view: PackageViewModel,
    row: PackageRowModel,
    build: PublishedRowModel,
) -> bool {
    &&& build.name == row.name
    &&& view.repo_version == build.version.text + seq!['-'] + build.release
    &&& view.built_at == build.uploaded_at
    &&& forall|m: u32, n: u32|
        row.release == #[trigger] decimal(m as nat) && build.release == #[trigger] decimal(n as nat)
            ==> compares(view.state, row.version.rank, m, build.version.rank, n)
}

/// A recipe is shown with its own name, architecture, tree, category, version,
/// release and description. Without a fitting build it is missing. Otherwise it
/// stands beside one of its name, of exactly its architecture where there is
/// one, than which no such build is newer.
pub proof fn lemma_view(latest: Seq<PublishedRowModel>, row: PackageRowModel)
    ensures
        ({
            let view = view_of(latest, row);
            &&& view.name == row.name && view.arch == row.arch && view.origin == row.origin
            &&& view.category == row.category && view.version == row.version.text && view.release
                == row.release
            &&& view.description == row.description
            &&& view.state == State::Missing <==> forall|k: int|
                0 <= k < latest.len() && (#[trigger] latest[k]).name == row.name ==> !fits(
                    row.arch,
                    latest[k].arch,
                )
            &&& view.state == State::Missing ==> view.repo_version.len() == 0 && view.built_at == 0
            &&& view.state != State::Missing ==> exists|k: int|
                0 <= k < latest.len() && told_beside(view, row, #[trigger] latest[k]) && fits(
                    row.arch,
                    latest[k].arch,
                ) && forall|j: int|
                    0 <= j < latest.len() && (#[trigger] latest[j]).name == row.name && (
                    latest[j].arch == row.arch || (latest[k].arch != row.arch && fits(
                        row.arch,
                        latest[j].arch,
                    ))) ==> build_order(latest[j], latest[k]) != Side::After && (latest[j].arch
                        == row.arch ==> latest[k].arch == row.arch)
        }),
{
    let named = |p: PublishedRowModel| p.name == row.name;
    let rows = latest.filter(named);
    let build = picked(rows, row.arch, None);
    let view = view_of(latest, row);
    lemma_kept(latest, named);
    lemma_picked_from(rows, row.arch);
    if build is Some {
        let p = build->0;
        lemma_candidates(rows, row.arch, p);
        let k = latest.index_of(p);
        lemma_dashed(p.version.text, p.release);
        assert(told_beside(view, row, latest[k])) by {
            assert forall|m: u32, n: u32|
                row.release == #[trigger] decimal(m as nat) && p.release == #[trigger] decimal(
                    n as nat,
                ) implies compares(view.state, row.version.rank, m, p.version.rank, n) by {
                lemma_state_beside(row, p, m, n);
            }
        }
        assert forall|j: int|
            0 <= j < latest.len() && (#[trigger] latest[j]).name == row.name && (latest[j].arch
                == row.arch || (latest[k].arch != row.arch && fits(
                row.arch,
                latest[j].arch,
            ))) implies build_order(latest[j], latest[k]) != Side::After && (latest[j].arch
            == row.arch ==> latest[k].arch == row.arch) by {
            let other = latest[j];
            assert(latest.contains(other));
            assert(rows.contains(other));
            if latest[k].arch != row.arch {
                assert forall|q: PublishedRowModel| #[trigger] rows.contains(q) implies q.arch
                    != row.arch by {
                    if q.arch == row.arch {
                        lemma_picked_serves(rows, row.arch, None, q);
                    }
                }
            }
            lemma_candidates(rows, row.arch, other);
            lemma_picked(rows, row.arch, None, other);
        }
        assert(fits(row.arch, latest[k].arch));
        assert(view.state != State::Missing);
    } else {
        assert forall|k: int|
            0 <= k < latest.len() && (#[trigger] latest[k]).name == row.name implies !fits(
            row.arch,
            latest[k].arch,
        ) by {
            assert(latest.contains(latest[k]));
            assert(rows.contains(latest[k]));
        }
    }
}

/// Of two builds the one with the greater version comes after the other, and
/// of two with the same version the one that was published later.
pub proof fn lemma_builds_compare(a: PublishedRowModel, b: PublishedRowModel)
    ensures
        ({
            let by_version = version_order(version_of(a.reading.plain), version_of(b.reading.plain));
            build_order(a, b) == Side::After <==> by_version == Side::After || (by_version
                == Side::Same && a.uploaded_at > b.uploaded_at)
        }),
        ({
            let by_version = version_order(version_of(a.reading.full), version_of(b.reading.full));
            newer_build(a, b) <==> by_version == Side::After || (by_version == Side::Same
                && a.uploaded_at > b.uploaded_at)
        }),
{
}

// ---------------------------------------------------------------------------
// What is listed
// ---------------------------------------------------------------------------

/// A row presents a recipe: its fields, with the canonical architecture, the
/// release as a numeral and each dependency with its constraint.
pub open spec fn row_tells(row: PackageRowModel, record: RecipeRecordModel) -> bool {
    let p = record.package;
    &&& row.name == p.name && row.slot == p.slot && row.epoch == p.epoch && row.channel == p.channel
    &&& row.arch == canonical(p.arch)
    &&& row.version == p.version && row.reading == p.reading
    &&& row.release == decimal(p.release as nat)
    &&& row.description == p.description && row.license == p.license && row.provides == p.provides
    &&& row.origin == record.origin && row.category == record.category && row.recipe_path
        == record.recipe_path
    &&& row.source_url == record.source_url && row.source_sha256 == record.source_sha256
    &&& row.build_dependencies.len() == 0 && row.check_dependencies.len() == 0
        && row.conffiles.len() == 0
    &&& row.upstream_url.len() == 0 && row.upstream_version_regex.len() == 0
    &&& row.dependencies.len() == p.dependencies.len()
    &&& forall|k: int|
        0 <= k < p.dependencies.len() ==> (#[trigger] row.dependencies[k]).name
            == p.dependencies[k].name && row.dependencies[k].req == constraint(p.dependencies[k])
}

/// The version constraint of a dependency.
pub open spec fn constraint(d: DependencyModel) -> Seq<char> {
    match (d.op, d.version) {
        (None, _) => Seq::empty(),
        (Some(op), None) => op,
        (Some(op), Some(version)) => op + seq![' '] + version,
    }
}

/// Every recipe is presented as it is.
pub proof fn lemma_row_tells(record: RecipeRecordModel)
    ensures
        row_tells(row_of(record), record),
{
    let row = row_of(record);
    let p = record.package;
    assert forall|k: int| 0 <= k < p.dependencies.len() implies (
    #[trigger] row.dependencies[k]).name == p.dependencies[k].name && row.dependencies[k].req
        == constraint(p.dependencies[k]) by {}
}

/// Two recipes are for the same package.
pub open spec fn one_package(a: RecipeRecordModel, b: RecipeRecordModel) -> bool {
    &&& a.package.name == b.package.name && canonical(a.package.arch) == canonical(b.package.arch)
    &&& a.package.channel == b.package.channel && a.package.slot == b.package.slot
}

/// The recipe `a` is newer than `b`: in epoch, or else in upstream version, or
/// else in release.
pub open spec fn newer_recipe(a: RecipeRecordModel, b: RecipeRecordModel) -> bool {
    let p = a.package;
    let q = b.package;
    p.epoch > q.epoch || (p.epoch == q.epoch && (p.version.rank > q.version.rank || (p.version.rank
        == q.version.rank && p.release > q.release)))
}

proof fn lemma_record_keys(a: RecipeRecordModel, b: RecipeRecordModel)
    ensures
        record_key(a) == record_key(b) <==> one_package(a, b),
        newer_record(a, b) == newer_recipe(a, b),
{
    let x = record_key(a);
    let y = record_key(b);
    if x == y {
        assert(x[0] == y[0] && x[1] == y[1] && x[2] == y[2] && x[3] == y[3]);
    }
    if one_package(a, b) {
        assert(x =~= y);
    }
}

/// Every package is listed with its newest recipe: each row presents a recipe
/// than which no other of the package is newer.
pub proof fn lemma_listed_newest(db: DatabaseModel, i: int)
    requires
        0 <= i < latest_rows(recipes_of(db)).len(),
    ensures
        exists|k: int|
            0 <= k < db.recipes.len() && row_tells(
                latest_rows(recipes_of(db))[i],
                (#[trigger] db.recipes[k]).1,
            ) && forall|j: int|
                0 <= j < db.recipes.len() && one_package((#[trigger] db.recipes[j]).1, db.recipes[k].1)
                    ==> !newer_recipe(db.recipes[j].1, db.recipes[k].1),
{
    let records = recipes_of(db);
    let key = |r: RecipeRecordModel| record_key(r);
    let over = |a: RecipeRecordModel, b: RecipeRecordModel| newer_record(a, b);
    let best = best_per_key(records, key, over);
    let rows = best.map_values(|r: RecipeRecordModel| row_of(r));
    let sorted = latest_rows(records);
    lemma_newer_record_order();
    lemma_best_per_key(records, key, over);
    lemma_sort_permutes(rows, |a: PackageRowModel, b: PackageRowModel| package_leq(a, b));
    assert(sorted.contains(sorted[i]));
    assert(rows.contains(sorted[i]));
    let m = rows.index_of(sorted[i]);
    let r = best[m];
    assert(records.contains(r));
    let k = records.index_of(r);
    lemma_row_tells(r);
    assert(db.recipes[k].1 == r);
    assert forall|j: int|
        0 <= j < db.recipes.len() && one_package(
            (#[trigger] db.recipes[j]).1,
            db.recipes[k].1,
        ) implies !newer_recipe(db.recipes[j].1, db.recipes[k].1) by {
        let x = db.recipes[j].1;
        assert(records[j] == x);
        assert(records.contains(x));
        let n = choose|n: int|
            0 <= n < best.len() && key(#[trigger] best[n]) == key(x) && !over(x, best[n]);
        lemma_record_keys(x, r);
        assert(key(best[n]) == key(best[m]));
        if n < m {
            assert(key(best[n]) != key(best[m]));
        } else if m < n {
            assert(key(best[m]) != key(best[n]));
        }
    }
}

/// Every recipe has its package listed, once.
pub proof fn lemma_package_listed(db: DatabaseModel, k: int)
    requires
        0 <= k < db.recipes.len(),
    ensures
        exists|i: int|
            0 <= i < latest_rows(recipes_of(db)).len() && ({
                let row = #[trigger] latest_rows(recipes_of(db))[i];
                let p = db.recipes[k].1.package;
                row.name == p.name && row.arch == canonical(p.arch) && row.channel == p.channel
                    && row.slot == p.slot
            }),
        forall|i: int, j: int|
            0 <= i < j < latest_rows(recipes_of(db)).len() ==> ({
                let a = #[trigger] latest_rows(recipes_of(db))[i];
                let b = #[trigger] latest_rows(recipes_of(db))[j];
                a.name != b.name || a.arch != b.arch || a.channel != b.channel || a.slot != b.slot
            }),
{
    let records = recipes_of(db);
    let sorted = latest_rows(records);
    let r = db.recipes[k].1;
    assert(records[k] == r);
    assert(records.contains(r));
    lemma_newest_recipe_listed(records, r);
    let best = choose|best: RecipeRecordModel| #[trigger]
        sorted.contains(row_of(best)) && records.contains(best) && record_key(best) == record_key(r)
            && !newer_record(r, best);
    lemma_record_keys(best, r);
    lemma_row_tells(best);
    let i = sorted.index_of(row_of(best));
    assert(sorted[i] == row_of(best));
    lemma_latest_rows(records);
    assert forall|i: int, j: int| 0 <= i < j < sorted.len() implies ({
        let a = #[trigger] sorted[i];
        let b = #[trigger] sorted[j];
        a.name != b.name || a.arch != b.arch || a.channel != b.channel || a.slot != b.slot
    }) by {
        let x = package_key(sorted[i]);
        let y = package_key(sorted[j]);
        assert(texts_order(x, y) == Side::Before);
        if x[0] == y[0] && x[1] == y[1] && x[2] == y[2] && x[3] == y[3] {
            assert(x =~= y);
            lemma_texts_order_same(x, y);
        }
    }
}

/// Two builds are for the same package.
pub open spec fn one_target(a: PublishedRowModel, b: PublishedRowModel) -> bool {
    &&& a.name == b.name && canonical(a.arch) == canonical(b.arch)
    &&& a.channel == b.channel && a.slot == b.slot
}

/// `listed` is the build `build` with the canonical spelling of its
/// architecture.
pub open spec fn spelled(listed: PublishedRowModel, build: PublishedRowModel) -> bool {
    &&& listed.arch == canonical(build.arch)
    &&& listed.filename == build.filename && listed.repo_path == build.repo_path
    &&& listed.name == build.name && listed.slot == build.slot && listed.channel == build.channel
    &&& listed.version == build.version && listed.release == build.release && listed.epoch
        == build.epoch
    &&& listed.reading == build.reading && listed.uploaded_at == build.uploaded_at && listed.meta
        == build.meta
    &&& listed.sha256 == build.sha256 && listed.size == build.size && listed.builder
        == build.builder
}

proof fn lemma_build_keys(a: PublishedRowModel, b: PublishedRowModel)
    ensures
        build_key(canonical_build(a)) == build_key(canonical_build(b)) <==> one_target(a, b),
        newer_build(canonical_build(a), canonical_build(b)) == newer_build(a, b),
{
    let x = build_key(canonical_build(a));
    let y = build_key(canonical_build(b));
    if x == y {
        assert(x[0] == y[0] && x[1] == y[1] && x[2] == y[2] && x[3] == y[3]);
    }
    if one_target(a, b) {
        assert(x =~= y);
    }
}

/// Every package is compared by its newest build: each one listed is a
/// published build than which no other of the package is newer.
pub proof fn lemma_listed_newest_build(db: DatabaseModel, i: int)
    requires
        0 <= i < latest_builds(builds_of(db)).len(),
    ensures
        exists|k: int|
            0 <= k < db.published.len() && spelled(
                latest_builds(builds_of(db))[i],
                (#[trigger] db.published[k]).1,
            ) && forall|j: int|
                0 <= j < db.published.len() && one_target(
                    (#[trigger] db.published[j]).1,
                    db.published[k].1,
                ) ==> !newer_build(db.published[j].1, db.published[k].1),
{
    let builds = builds_of(db);
    let key = |r: PublishedRowModel| build_key(r);
    let over = |a: PublishedRowModel, b: PublishedRowModel| newer_build(a, b);
    let all = builds.map_values(|r: PublishedRowModel| canonical_build(r));
    let best = best_per_key(all, key, over);
    let sorted = latest_builds(builds);
    lemma_newer_build_order();
    lemma_best_per_key(all, key, over);
    lemma_sort_permutes(best, |a: PublishedRowModel, b: PublishedRowModel| build_leq(a, b));
    assert(sorted.contains(sorted[i]));
    assert(best.contains(sorted[i]));
    let m = best.index_of(sorted[i]);
    assert(all.contains(best[m]));
    let k = all.index_of(best[m]);
    assert(all[k] == canonical_build(db.published[k].1));
    assert(spelled(sorted[i], db.published[k].1));
    assert forall|j: int|
        0 <= j < db.published.len() && one_target(
            (#[trigger] db.published[j]).1,
            db.published[k].1,
        ) implies !newer_build(db.published[j].1, db.published[k].1) by {
        let x = canonical_build(db.published[j].1);
        assert(all[j] == x);
        assert(all.contains(x));
        let n = choose|n: int|
            0 <= n < best.len() && key(#[trigger] best[n]) == key(x) && !over(x, best[n]);
        lemma_build_keys(db.published[j].1, db.published[k].1);
        assert(key(best[n]) == key(best[m]));
        if n < m {
            assert(key(best[n]) != key(best[m]));
        } else if m < n {
            assert(key(best[m]) != key(best[n]));
        }
    }
}

/// Every published build has its package among those compared, once.
pub proof fn lemma_build_listed(db: DatabaseModel, k: int)
    requires
        0 <= k < db.published.len(),
    ensures
        exists|i: int|
            0 <= i < latest_builds(builds_of(db)).len() && ({
                let listed = #[trigger] latest_builds(builds_of(db))[i];
                let p = db.published[k].1;
                listed.name == p.name && listed.arch == canonical(p.arch) && listed.channel
                    == p.channel && listed.slot == p.slot
            }),
{
    let builds = builds_of(db);
    let p = db.published[k].1;
    assert(builds[k] == p);
    assert(builds.contains(p));
    lemma_newest_build_listed(builds, p);
    let sorted = latest_builds(builds);
    let best = choose|best: PublishedRowModel| #[trigger]
        sorted.contains(best) && build_key(best) == build_key(canonical_build(p)) && !newer_build(
            canonical_build(p),
            best,
        );
    let x = build_key(best);
    let y = build_key(canonical_build(p));
    assert(x[0] == y[0] && x[1] == y[1] && x[2] == y[2] && x[3] == y[3]);
    let i = sorted.index_of(best);
    assert(sorted[i] == best);
}

/// Every row of a package presents one of its recipes.
pub proof fn lemma_version_row(db: DatabaseModel, name: Seq<char>, i: int)
    requires
        0 <= i < version_rows(recipes_of(db), name).len(),
    ensures
        exists|k: int|
            0 <= k < db.recipes.len() && (#[trigger] db.recipes[k]).1.package.name == name
                && row_tells(version_rows(recipes_of(db), name)[i], db.recipes[k].1),
{
    let records = recipes_of(db);
    let named = |r: RecipeRecordModel| r.package.name == name;
    let kept = records.filter(named);
    let rows = kept.map_values(|r: RecipeRecordModel| row_of(r));
    let sorted = version_rows(records, name);
    lemma_kept(records, named);
    lemma_sort_permutes(rows, |a: PackageRowModel, b: PackageRowModel| version_leq(a, b));
    assert(sorted.contains(sorted[i]));
    assert(rows.contains(sorted[i]));
    let m = rows.index_of(sorted[i]);
    assert(kept.contains(kept[m]));
    let k = records.index_of(kept[m]);
    lemma_row_tells(kept[m]);
    assert(db.recipes[k].1 == kept[m]);
}

/// Every recipe of a package has its row.
pub proof fn lemma_version_listed(db: DatabaseModel, k: int)
    requires
        0 <= k < db.recipes.len(),
    ensures
        exists|i: int|
            0 <= i < version_rows(recipes_of(db), db.recipes[k].1.package.name).len() && row_tells(
                #[trigger] version_rows(recipes_of(db), db.recipes[k].1.package.name)[i],
                db.recipes[k].1,
            ),
{
    let records = recipes_of(db);
    let r = db.recipes[k].1;
    let name = r.package.name;
    let named = |r: RecipeRecordModel| r.package.name == name;
    let kept = records.filter(named);
    let rows = kept.map_values(|r: RecipeRecordModel| row_of(r));
    let sorted = version_rows(records, name);
    lemma_kept(records, named);
    lemma_sort_permutes(rows, |a: PackageRowModel, b: PackageRowModel| version_leq(a, b));
    assert(records[k] == r);
    assert(records.contains(r) && named(r));
    assert(kept.contains(r));
    let m = kept.index_of(r);
    assert(rows[m] == row_of(r));
    assert(rows.contains(row_of(r)));
    assert(sorted.contains(row_of(r)));
    let i = sorted.index_of(row_of(r));
    lemma_row_tells(r);
    assert(row_tells(sorted[i], r));
}

/// The recipes of a package stand from the newest on.
pub proof fn lemma_versions_descend(db: DatabaseModel, name: Seq<char>, i: int, j: int)
    requires
        0 <= i <= j < version_rows(recipes_of(db), name).len(),
    ensures
        version_order(
            version_of(version_rows(recipes_of(db), name)[j].reading.full),
            version_of(version_rows(recipes_of(db), name)[i].reading.full),
        ) != Side::After,
{
    lemma_ladder(recipes_of(db), name, None, i, j);
}

/// A build of a version is one that fits and has the version, of exactly the
/// architecture where there is such a one, and the first of those. There is none
/// just where no build of the version fits.
pub proof fn lemma_build_of_version(
    rows: Seq<PublishedRowModel>,
    arch: Seq<char>,
    version: Seq<char>,
    k: int,
)
    requires
        0 <= k < rows.len(),
        rows[k].version.text == version,
        fits(arch, rows[k].arch),
    ensures
        of_version(rows, arch, version) is Some,
        of_version(rows, arch, version)->0.version.text == version,
        fits(arch, of_version(rows, arch, version)->0.arch),
        rows[k].arch == arch ==> of_version(rows, arch, version)->0.arch == arch,
        rows[k].arch == arch && (forall|j: int|
            0 <= j < k ==> (#[trigger] rows[j]).arch != arch || rows[j].version.text != version)
            ==> of_version(rows, arch, version)->0 == rows[k],
{
    let exact = |p: PublishedRowModel| p.arch == arch && p.version.text == version;
    let loose = |p: PublishedRowModel| serves(arch, p.arch) && p.version.text == version;
    lemma_first_where(rows, exact);
    lemma_first_where(rows, loose);
    assert(loose(rows[k]));
    if rows[k].arch == arch {
        assert(exact(rows[k]));
        let i = first_where(rows, exact)->0;
        assert(exact(rows[i]));
        if forall|j: int|
            0 <= j < k ==> (#[trigger] rows[j]).arch != arch || rows[j].version.text != version {
            assert(i == k);
        }
    }
    match (first_where(rows, exact), first_where(rows, loose)) {
        (Some(i), _) => {
            assert(exact(rows[i]));
        },
        (None, Some(i)) => {
            assert(loose(rows[i]));
        },
        (None, None) => {},
    }
}

/// Where a version is wanted, a candidate of it is chosen before any newer one:
/// for exactly the architecture where there is any build for it.
pub proof fn lemma_wanted_version(
    rows: Seq<PublishedRowModel>,
    arch: Seq<char>,
    version: Seq<char>,
    wanted: PublishedRowModel,
)
    requires
        rows.contains(wanted),
        wanted.version.text == version,
        wanted.arch == arch || (fits(arch, wanted.arch) && forall|p: PublishedRowModel|
            rows.contains(p) ==> p.arch != arch),
    ensures
        picked(rows, arch, Some(version)) is Some,
        picked(rows, arch, Some(version))->0.version.text == version,
        wanted.arch == arch ==> picked(rows, arch, Some(version))->0.arch == arch,
        rows.contains(picked(rows, arch, Some(version))->0),
{
    let pool = candidates(rows, arch);
    let same = |p: PublishedRowModel| p.version.text == version;
    let exact = |p: PublishedRowModel| p.arch == arch;
    let loose = |p: PublishedRowModel| serves(arch, p.arch);
    lemma_kept(rows, exact);
    lemma_kept(rows, loose);
    if wanted.arch == arch {
        assert(rows.filter(exact).contains(wanted));
    } else if rows.filter(exact).len() > 0 {
        let p = rows.filter(exact)[0];
        assert(rows.filter(exact).contains(p));
        assert(rows.contains(p) && p.arch == arch);
    } else {
        assert(rows.filter(loose).contains(wanted));
    }
    assert(pool.contains(wanted));
    lemma_first_where(pool, same);
    let k = pool.index_of(wanted);
    assert(same(pool[k]));
    let i = first_where(pool, same)->0;
    assert(pool.contains(pool[i]));
}

/// A build for exactly the architecture is chosen before one for any, and of
/// those that can be chosen none is newer than the chosen one.
pub proof fn lemma_picked_newest(
    rows: Seq<PublishedRowModel>,
    arch: Seq<char>,
    other: PublishedRowModel,
)
    requires
        rows.contains(other),
        fits(arch, other.arch),
    ensures
        ({
            let chosen = picked(rows, arch, None);
            &&& chosen is Some && rows.contains(chosen->0) && fits(arch, chosen->0.arch)
            &&& other.arch == arch ==> chosen->0.arch == arch
            &&& other.arch == arch || chosen->0.arch != arch ==> build_order(other, chosen->0)
                != Side::After
        }),
{
    let pool = candidates(rows, arch);
    let leq = |a: PublishedRowModel, b: PublishedRowModel| newer_leq(a, b);
    let exact = |p: PublishedRowModel| p.arch == arch;
    let loose = |p: PublishedRowModel| serves(arch, p.arch);
    let sorted = stable_sort(pool, leq);
    lemma_kept(rows, exact);
    lemma_kept(rows, loose);
    lemma_sort_permutes(pool, leq);
    lemma_newer_total();
    lemma_sort_ascends(pool, leq);
    assert(rows.filter(loose).contains(other));
    if other.arch == arch {
        assert(rows.filter(exact).contains(other));
    }
    assert(pool.len() > 0);
    assert(sorted.contains(sorted[0]));
    assert(pool.contains(sorted[0]));
    if rows.filter(exact).len() == 0 && sorted[0].arch == arch {
        assert(rows.filter(exact).contains(sorted[0]));
    }
    if other.arch == arch || sorted[0].arch != arch {
        if rows.filter(exact).len() > 0 {
            assert(sorted[0].arch == arch);
        }
        assert(pool.contains(other));
        assert(sorted.contains(other));
        let k = sorted.index_of(other);
        if k > 0 {
            assert(leq(sorted[0], sorted[k]));
        } else {
            lemma_builds_same(other);
        }
    }
}

proof fn lemma_builds_same(p: PublishedRowModel)
    ensures
        build_order(p, p) == Side::Same,
{
}

proof fn lemma_newer_total()
    ensures
        total_preorder(|a: PublishedRowModel, b: PublishedRowModel| newer_leq(a, b)),
{
    let leq = |a: PublishedRowModel, b: PublishedRowModel| newer_leq(a, b);
    assert forall|a: PublishedRowModel, b: PublishedRowModel| #[trigger] leq(a, b) || leq(b, a) by {}
    assert forall|a: PublishedRowModel, b: PublishedRowModel, c: PublishedRowModel|
        #[trigger] leq(a, b) && #[trigger] leq(b, c) implies leq(a, c) by {}
}

/// Packages are listed by name, then by architecture, channel and slot.
pub proof fn lemma_listing_order(db: DatabaseModel, i: int, j: int)
    requires
        0 <= i < j < latest_rows(recipes_of(db)).len(),
    ensures
        ({
            let a = latest_rows(recipes_of(db))[i];
            let b = latest_rows(recipes_of(db))[j];
            &&& text_order(a.name, b.name) != Side::After
            &&& a.name == b.name ==> text_order(a.arch, b.arch) != Side::After
            &&& a.name == b.name && a.arch == b.arch ==> text_order(a.channel, b.channel)
                != Side::After
            &&& a.name == b.name && a.arch == b.arch && a.channel == b.channel ==> text_order(
                a.slot,
                b.slot,
            ) != Side::After
        }),
{
    let leq = |a: PackageRowModel, b: PackageRowModel| package_leq(a, b);
    let best = best_per_key(
        recipes_of(db),
        |r: RecipeRecordModel| record_key(r),
        |a: RecipeRecordModel, b: RecipeRecordModel| newer_record(a, b),
    ).map_values(|r: RecipeRecordModel| row_of(r));
    let rows = latest_rows(recipes_of(db));
    assert(total_preorder(leq)) by {
        assert forall|a: PackageRowModel, b: PackageRowModel| #[trigger] leq(a, b) || leq(b, a) by {
            lemma_texts_order_flip(package_key(a), package_key(b));
        }
        assert forall|a: PackageRowModel, b: PackageRowModel, c: PackageRowModel|
            #[trigger] leq(a, b) && #[trigger] leq(b, c) implies leq(a, c) by {
            lemma_texts_order_transitive(package_key(a), package_key(b), package_key(c));
        }
    }
    lemma_sort_ascends(best, leq);
    assert(leq(rows[i], rows[j]));
    lemma_four_in_turn(
        rows[i].name,
        rows[i].arch,
        rows[i].channel,
        rows[i].slot,
        rows[j].name,
        rows[j].arch,
        rows[j].channel,
        rows[j].slot,
    );
}

/// The newest builds are listed by name, then by architecture, channel and slot.
pub proof fn lemma_build_listing_order(db: DatabaseModel, i: int, j: int)
    requires
        0 <= i < j < latest_builds(builds_of(db)).len(),
    ensures
        ({
            let a = latest_builds(builds_of(db))[i];
            let b = latest_builds(builds_of(db))[j];
            &&& text_order(a.name, b.name) != Side::After
            &&& a.name == b.name ==> text_order(a.arch, b.arch) != Side::After
            &&& a.name == b.name && a.arch == b.arch ==> text_order(a.channel, b.channel)
                != Side::After
            &&& a.name == b.name && a.arch == b.arch && a.channel == b.channel ==> text_order(
                a.slot,
                b.slot,
            ) != Side::After
        }),
{
    let leq = |a: PublishedRowModel, b: PublishedRowModel| build_leq(a, b);
    let best = best_per_key(
        builds_of(db).map_values(|r: PublishedRowModel| canonical_build(r)),
        |r: PublishedRowModel| build_key(r),
        |a: PublishedRowModel, b: PublishedRowModel| newer_build(a, b),
    );
    let rows = latest_builds(builds_of(db));
    assert(total_preorder(leq)) by {
        assert forall|a: PublishedRowModel, b: PublishedRowModel| #[trigger] leq(a, b) || leq(b, a) by {
            lemma_texts_order_flip(build_key(a), build_key(b));
        }
        assert forall|a: PublishedRowModel, b: PublishedRowModel, c: PublishedRowModel|
            #[trigger] leq(a, b) && #[trigger] leq(b, c) implies leq(a, c) by {
            lemma_texts_order_transitive(build_key(a), build_key(b), build_key(c));
        }
    }
    lemma_sort_ascends(best, leq);
    assert(leq(rows[i], rows[j]));
    lemma_four_in_turn(
        rows[i].name,
        rows[i].arch,
        rows[i].channel,
        rows[i].slot,
        rows[j].name,
        rows[j].arch,
        rows[j].channel,
        rows[j].slot,
    );
}

/// Four texts in a row are compared one after the other.
proof fn lemma_four_in_turn(
    a: Seq<char>,
    b: Seq<char>,
    c: Seq<char>,
    d: Seq<char>,
    p: Seq<char>,
    q: Seq<char>,
    r: Seq<char>,
    s: Seq<char>,
)
    ensures
        texts_order(seq![a, b, c, d], seq![p, q, r, s]) == text_order(a, p).or_spec(
            text_order(b, q),
        ).or_spec(text_order(c, r)).or_spec(text_order(d, s)),
        a == p ==> text_order(a, p) == Side::Same,
        b == q ==> text_order(b, q) == Side::Same,
        c == r ==> text_order(c, r) == Side::Same,
{
    reveal_with_fuel(texts_order, 5);
    let x = seq![a, b, c, d];
    let y = seq![p, q, r, s];
    assert(x.drop_first() =~= seq![b, c, d] && y.drop_first() =~= seq![q, r, s]);
    assert(x.drop_first().drop_first() =~= seq![c, d] && y.drop_first().drop_first() =~= seq![r, s]);
    assert(x.drop_first().drop_first().drop_first() =~= seq![d]);
    assert(y.drop_first().drop_first().drop_first() =~= seq![s]);
    assert(x.drop_first().drop_first().drop_first().drop_first().len() == 0);
    assert(y.drop_first().drop_first().drop_first().drop_first().len() == 0);
    lemma_text_order_same(a, p);
    lemma_text_order_same(b, q);
    lemma_text_order_same(c, r);
}

/// A release is the number that it spells, and nothing where it spells none.
pub proof fn lemma_release(release: Seq<char>, n: u32)
    ensures
        release_number(decimal(n as nat)) == n,
        parsed(release, u32::MAX as u64) is None ==> release_number(release) == 0,
        parsed(release, u32::MAX as u64) is Some ==> release_number(release) == parsed(
            release,
            u32::MAX as u64,
        )->0,
{
    lemma_numeral_round_trip(n);
}

} // verus!
