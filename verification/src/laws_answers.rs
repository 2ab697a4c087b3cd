//! What holds of the answers to programs, of the listing of the repository and
//! of the page about the site.

use vstd::prelude::*;

use crate::api::{
    api_version, entry_of, mib_tenths, mib_text, package_answer, paired, size_sum,
    ApiStatusEntryModel,
};
use crate::config::ConfigModel;
use crate::db::{
    builds_of, last_syncs, latest_builds, newer_build, package_rows, provider_names, recipes_of,
    row_leq, sync_leq, version_leq, version_rows, DatabaseModel,
};
use crate::detail::{provider_view, virtual_of, ProviderViewModel};
use crate::digits::decimal;
use crate::laws_builds::{
    compares, fits, lemma_build_listed, lemma_listed_newest_build, lemma_picked_from,
    lemma_row_tells, lemma_state_beside, lemma_version_row, one_target, row_tells, spelled,
};
use crate::laws_detail::has_recipe;
use crate::laws_pages::{lemma_views_kept, listed_views, newest_build_at};
use crate::laws_recipes::lemma_providers;
use crate::laws_repo::{lemma_first_row, newest_named};
use crate::list::lemma_kept;
use crate::model::canonical;
use crate::order::{lemma_sort_ascends, lemma_sort_permutes, stable_sort, total_preorder};
use crate::pages::{about_of, count_sum, fitting};
use crate::records::{
    row_of, CategoryCountModel, PackageRowModel, PublishedRowModel, RecipeRecordModel,
    SyncEntryModel,
};
use crate::status::State;
use crate::table::{entry_at, values_of};
use crate::text::{
    concat, lemma_texts_order_flip, lemma_texts_order_transitive, text_order, texts_order, Side,
};
use crate::web::{lemma_candidates, lemma_of_version, of_version, picked, PackageViewModel};

verus! {

// ---------------------------------------------------------------------------
// States for programs
// ---------------------------------------------------------------------------

/// An entry tells of a recipe.
pub open spec fn entry_tells(entry: ApiStatusEntryModel, record: RecipeRecordModel) -> bool {
    let p = record.package;
    &&& entry.name == p.name && entry.arch == canonical(p.arch)
    &&& entry.recipe_version == p.version.text && entry.recipe_release == decimal(p.release as nat)
}

/// An entry tells of a recipe beside a build.
pub open spec fn entry_beside(
    entry: ApiStatusEntryModel,
    record: RecipeRecordModel,
    build: PublishedRowModel,
) -> bool {
    &&& build.name == entry.name && fits(entry.arch, canonical(build.arch))
    &&& entry.repo_version == Some(build.version.text) && entry.repo_release == Some(build.release)
    &&& forall|n: u32|
        build.release == #[trigger] decimal(n as nat) ==> compares(
            entry.state,
            record.package.version.rank,
            record.package.release,
            build.version.rank,
            n,
        )
}

/// There is a build that fits an entry.
pub open spec fn fitting_build(db: DatabaseModel, name: Seq<char>, arch: Seq<char>) -> bool {
    exists|j: int|
        0 <= j < db.published.len() && (#[trigger] db.published[j]).1.name == name && fits(
            arch,
            canonical(db.published[j].1.arch),
        )
}

/// What an entry says: missing without a fitting build, and else beside one
/// that is the newest for its architecture, channel and slot.
pub open spec fn entry_right(
    db: DatabaseModel,
    entry: ApiStatusEntryModel,
    record: RecipeRecordModel,
) -> bool {
    &&& entry_tells(entry, record)
    &&& entry.state == State::Missing <==> !fitting_build(db, entry.name, entry.arch)
    &&& entry.state == State::Missing ==> entry.repo_version is None && entry.repo_release is None
    &&& entry.state != State::Missing ==> exists|j: int|
        0 <= j < db.published.len() && entry_beside(entry, record, (#[trigger] db.published[j]).1)
            && newest_build_at(db, j)
}

proof fn lemma_entry(
    db: DatabaseModel,
    row: PackageRowModel,
    record: RecipeRecordModel,
    build: Option<PublishedRowModel>,
)
    requires
        row_tells(row, record),
        build is None <==> forall|p: PublishedRowModel| #[trigger]
            latest_builds(builds_of(db)).contains(p) && p.name == row.name ==> !fits(
                row.arch,
                p.arch,
            ),
        build is Some ==> latest_builds(builds_of(db)).contains(build->0) && build->0.name
            == row.name && fits(row.arch, build->0.arch),
    ensures
        entry_right(db, entry_of(row, build), record),
{
    let latest = latest_builds(builds_of(db));
    let entry = entry_of(row, build);
    if build is Some {
        let p = build->0;
        let m = latest.index_of(p);
        lemma_listed_newest_build(db, m);
        let j = choose|j: int|
            0 <= j < db.published.len() && spelled(latest[m], (#[trigger] db.published[j]).1)
                && forall|q: int|
                0 <= q < db.published.len() && one_target(
                    (#[trigger] db.published[q]).1,
                    db.published[j].1,
                ) ==> !newer_build(db.published[q].1, db.published[j].1);
        let b = db.published[j].1;
        assert(entry_beside(entry, record, b)) by {
            assert forall|n: u32| b.release == #[trigger] decimal(n as nat) implies compares(
                entry.state,
                record.package.version.rank,
                record.package.release,
                b.version.rank,
                n,
            ) by {
                lemma_state_beside(row, p, record.package.release, n);
            }
        }
        assert(newest_build_at(db, j));
        assert(fitting_build(db, entry.name, entry.arch));
    } else {
        if fitting_build(db, entry.name, entry.arch) {
            let j = choose|j: int|
                0 <= j < db.published.len() && (#[trigger] db.published[j]).1.name == entry.name
                    && fits(entry.arch, canonical(db.published[j].1.arch));
            lemma_build_listed(db, j);
            let b = db.published[j].1;
            let m = choose|m: int|
                0 <= m < latest.len() && ({
                    let listed = #[trigger] latest[m];
                    listed.name == b.name && listed.arch == canonical(b.arch) && listed.channel
                        == b.channel && listed.slot == b.slot
                });
            assert(latest.contains(latest[m]));
        }
    }
}

proof fn lemma_chosen(latest: Seq<PublishedRowModel>, row: PackageRowModel)
    ensures
        ({
            let build = picked(
                latest.filter(|p: PublishedRowModel| p.name == row.name),
                row.arch,
                None,
            );
            &&& build is None <==> forall|p: PublishedRowModel| #[trigger]
                latest.contains(p) && p.name == row.name ==> !fits(row.arch, p.arch)
            &&& build is Some ==> latest.contains(build->0) && build->0.name == row.name && fits(
                row.arch,
                build->0.arch,
            )
        }),
{
    let named = |p: PublishedRowModel| p.name == row.name;
    let rows = latest.filter(named);
    let build = picked(rows, row.arch, None);
    lemma_kept(latest, named);
    lemma_picked_from(rows, row.arch);
    if build is Some {
        lemma_candidates(rows, row.arch, build->0);
        assert(rows.contains(build->0));
    } else {
        assert forall|p: PublishedRowModel| #[trigger]
            latest.contains(p) && p.name == row.name implies !fits(row.arch, p.arch) by {
            assert(rows.contains(p));
        }
    }
}

/// A request for one package is answered with its newest recipe and how that
/// one stands to its build.
pub proof fn lemma_package_answer(db: DatabaseModel, name: Seq<char>)
    requires
        has_recipe(db, name),
    ensures
        package_answer(db, name) is Found,
        exists|k: int|
            0 <= k < db.recipes.len() && newest_named(db, name, k) && row_tells(
                package_answer(db, name)->Found_0,
                (#[trigger] db.recipes[k]).1,
            ) && entry_right(db, package_answer(db, name)->Found_1, db.recipes[k].1),
        package_answer(db, name)->Found_2.len() == version_rows(recipes_of(db), name).len(),
{
    let sorted = version_rows(recipes_of(db), name);
    lemma_first_row(db, name);
    let k = choose|k: int|
        0 <= k < db.recipes.len() && newest_named(db, name, k) && row_tells(
            sorted[0],
            (#[trigger] db.recipes[k]).1,
        );
    assert(sorted[0].name == name);
    lemma_chosen(latest_builds(builds_of(db)), sorted[0]);
    let build = picked(
        latest_builds(builds_of(db)).filter(|p: PublishedRowModel| p.name == sorted[0].name),
        sorted[0].arch,
        None,
    );
    lemma_entry(db, sorted[0], db.recipes[k].1, build);
}

/// A request for one package is answered with each of its recipes, from the
/// newest on, with version, release and path.
pub proof fn lemma_package_answer_versions(db: DatabaseModel, name: Seq<char>, i: int)
    requires
        has_recipe(db, name),
        0 <= i < package_answer(db, name)->Found_2.len(),
    ensures
        exists|k: int|
            0 <= k < db.recipes.len() && ({
                let record = (#[trigger] db.recipes[k]).1;
                let told = package_answer(db, name)->Found_2[i];
                record.package.name == name && told.version == record.package.version.text
                    && told.release == decimal(record.package.release as nat) && told.recipe_path
                    == record.recipe_path
            }),
{
    lemma_first_row(db, name);
    lemma_version_row(db, name, i);
    let sorted = version_rows(recipes_of(db), name);
    let k = choose|k: int|
        0 <= k < db.recipes.len() && (#[trigger] db.recipes[k]).1.package.name == name && row_tells(
            sorted[i],
            db.recipes[k].1,
        );
    assert(package_answer(db, name)->Found_2[i] == api_version(sorted[i]));
}

/// All recipes are told, each once, by name.
pub proof fn lemma_all_rows(db: DatabaseModel)
    ensures
        package_rows(recipes_of(db)).len() == db.recipes.len(),
        forall|i: int, j: int|
            0 <= i < j < package_rows(recipes_of(db)).len() ==> text_order(
                (#[trigger] package_rows(recipes_of(db))[i]).name,
                (#[trigger] package_rows(recipes_of(db))[j]).name,
            ) != Side::After,
{
    let records = recipes_of(db);
    let rows = records.map_values(|r: RecipeRecordModel| row_of(r));
    let leq = |a: PackageRowModel, b: PackageRowModel| row_leq(a, b);
    let sorted = package_rows(records);
    lemma_sort_permutes(rows, leq);
    assert(total_preorder(leq)) by {
        assert forall|a: PackageRowModel, b: PackageRowModel| #[trigger] leq(a, b) || leq(b, a) by {
            lemma_texts_order_flip(sort_key(a), sort_key(b));
        }
        assert forall|a: PackageRowModel, b: PackageRowModel, c: PackageRowModel| #[trigger]
            leq(a, b) && #[trigger] leq(b, c) implies leq(a, c) by {
            lemma_texts_order_transitive(sort_key(a), sort_key(b), sort_key(c));
        }
    }
    lemma_sort_ascends(rows, leq);
    assert forall|i: int, j: int| 0 <= i < j < sorted.len() implies text_order(
        (#[trigger] sorted[i]).name,
        (#[trigger] sorted[j]).name,
    ) != Side::After by {
        assert(leq(sorted[i], sorted[j]));
        let x = sort_key(sorted[i]);
        let y = sort_key(sorted[j]);
        assert(x[0] == sorted[i].name && y[0] == sorted[j].name);
        assert(texts_order(x, y) != Side::After);
    }
}

spec fn sort_key(a: PackageRowModel) -> Seq<Seq<char>> {
    crate::db::package_key(a) + seq![a.version.text, a.release]
}

/// Every row told is that of a recipe.
pub proof fn lemma_all_rows_from(db: DatabaseModel, i: int)
    requires
        0 <= i < package_rows(recipes_of(db)).len(),
    ensures
        exists|k: int|
            0 <= k < db.recipes.len() && row_tells(
                package_rows(recipes_of(db))[i],
                (#[trigger] db.recipes[k]).1,
            ),
{
    let records = recipes_of(db);
    let rows = records.map_values(|r: RecipeRecordModel| row_of(r));
    let sorted = package_rows(records);
    lemma_sort_permutes(rows, |a: PackageRowModel, b: PackageRowModel| row_leq(a, b));
    assert(sorted.contains(sorted[i]));
    assert(rows.contains(sorted[i]));
    let k = rows.index_of(sorted[i]);
    lemma_row_tells(records[k]);
    assert(row_tells(sorted[i], db.recipes[k].1));
}

/// Every recipe has its row.
pub proof fn lemma_all_rows_complete(db: DatabaseModel, k: int)
    requires
        0 <= k < db.recipes.len(),
    ensures
        exists|i: int|
            0 <= i < package_rows(recipes_of(db)).len() && row_tells(
                #[trigger] package_rows(recipes_of(db))[i],
                db.recipes[k].1,
            ),
{
    let records = recipes_of(db);
    let rows = records.map_values(|r: RecipeRecordModel| row_of(r));
    let sorted = package_rows(records);
    lemma_sort_permutes(rows, |a: PackageRowModel, b: PackageRowModel| row_leq(a, b));
    assert(rows[k] == row_of(records[k]));
    assert(rows.contains(rows[k]));
    assert(sorted.contains(rows[k]));
    let i = sorted.index_of(rows[k]);
    lemma_row_tells(records[k]);
    assert(row_tells(sorted[i], db.recipes[k].1));
}

/// The state of every recipe is told beside a fitting build, one of its own
/// version where there is one, or as missing where none fits.
pub proof fn lemma_status_entry(db: DatabaseModel, row: PackageRowModel, record: RecipeRecordModel)
    requires
        row_tells(row, record),
    ensures
        entry_right(db, paired(latest_builds(builds_of(db)), row), record),
        (exists|k: int|
            0 <= k < latest_builds(builds_of(db)).len() && ({
                let p = #[trigger] latest_builds(builds_of(db))[k];
                p.name == row.name && fits(row.arch, p.arch) && p.version.text == row.version.text
            })) ==> paired(latest_builds(builds_of(db)), row).repo_version == Some(
            record.package.version.text,
        ),
{
    let latest = latest_builds(builds_of(db));
    let named = |p: PublishedRowModel| p.name == row.name;
    let rows = latest.filter(named);
    lemma_kept(latest, named);
    lemma_chosen(latest, row);
    lemma_of_version(rows, row.arch, row.version.text);
    let build = match of_version(rows, row.arch, row.version.text) {
        Some(b) => Some(b),
        None => picked(rows, row.arch, None),
    };
    if of_version(rows, row.arch, row.version.text) is Some {
        assert(rows.contains(build->0));
        assert(latest.contains(build->0) && build->0.name == row.name && fits(
            row.arch,
            build->0.arch,
        ));
    }
    lemma_entry(db, row, record, build);
    if exists|k: int|
        0 <= k < latest.len() && ({
            let p = #[trigger] latest[k];
            p.name == row.name && fits(row.arch, p.arch) && p.version.text == row.version.text
        }) {
        let k = choose|k: int|
            0 <= k < latest.len() && ({
                let p = #[trigger] latest[k];
                p.name == row.name && fits(row.arch, p.arch) && p.version.text == row.version.text
            });
        assert(latest.contains(latest[k]));
        assert(rows.contains(latest[k]));
    }
}

// ---------------------------------------------------------------------------
// Provided names
// ---------------------------------------------------------------------------

/// The page of a provided name lists the packages that provide it and no
/// others, each as the list of packages shows it.
pub proof fn lemma_provided_page(
    db: DatabaseModel,
    config: ConfigModel,
    name: Seq<char>,
    shown: ProviderViewModel,
)
    ensures
        virtual_of(db, config, name, provider_names(recipes_of(db), name)).providers.contains(shown)
            <==> exists|i: int|
            0 <= i < listed_views(db).len() && ({
                let v = #[trigger] listed_views(db)[i];
                &&& shown.name == v.name && shown.arch == v.arch && shown.state == v.state
                    && shown.repo_version == v.repo_version
                &&& exists|j: int, k: int|
                    0 <= j < db.recipes.len() && 0 <= k < db.recipes[j].1.package.provides.len()
                        && db.recipes[j].1.package.name == v.name
                        && #[trigger] db.recipes[j].1.package.provides[k] == name
            }),
        virtual_of(db, config, name, provider_names(recipes_of(db), name)).name == name,
{
    let names = provider_names(recipes_of(db), name);
    let keep = |r: PackageRowModel| names.contains(r.name);
    let on = |v: PackageViewModel| names.contains(v.name);
    let all = listed_views(db);
    lemma_views_kept(db, keep, on);
    lemma_kept(all, on);
    let kept = all.filter(on);
    let views = virtual_of(db, config, name, names).providers;
    assert(views == kept.map_values(|v: PackageViewModel| provider_view(v)));
    if views.contains(shown) {
        let m = views.index_of(shown);
        let v = kept[m];
        assert(kept.contains(v));
        assert(views[m] == provider_view(v));
        let i = all.index_of(v);
        lemma_providers(db, name, v.name);
        assert(all[i] == v);
    }
    if exists|i: int|
        0 <= i < all.len() && ({
            let v = #[trigger] all[i];
            &&& shown.name == v.name && shown.arch == v.arch && shown.state == v.state
                && shown.repo_version == v.repo_version
            &&& exists|j: int, k: int|
                0 <= j < db.recipes.len() && 0 <= k < db.recipes[j].1.package.provides.len()
                    && db.recipes[j].1.package.name == v.name
                    && #[trigger] db.recipes[j].1.package.provides[k] == name
        }) {
        let i = choose|i: int|
            0 <= i < all.len() && ({
                let v = #[trigger] all[i];
                &&& shown.name == v.name && shown.arch == v.arch && shown.state == v.state
                    && shown.repo_version == v.repo_version
                &&& exists|j: int, k: int|
                    0 <= j < db.recipes.len() && 0 <= k < db.recipes[j].1.package.provides.len()
                        && db.recipes[j].1.package.name == v.name
                        && #[trigger] db.recipes[j].1.package.provides[k] == name
            });
        let v = all[i];
        lemma_providers(db, name, v.name);
        assert(names.contains(v.name));
        assert(all.contains(v) && on(v));
        assert(kept.contains(v));
        let m = kept.index_of(v);
        assert(views[m] == provider_view(v));
        assert(views[m] == shown);
    }
}

// ---------------------------------------------------------------------------
// Sizes, counts and the history
// ---------------------------------------------------------------------------

/// A size is told to the nearest tenth of a mebibyte, and the even one of two.
pub proof fn lemma_size_rounded(bytes: nat)
    ensures
        ({
            let off = 10 * bytes - 1_048_576 * mib_tenths(bytes);
            &&& -524_288 <= off <= 524_288
            &&& off == 524_288 || off == -524_288 ==> mib_tenths(bytes) % 2 == 0
        }),
        mib_text(bytes as int) == decimal(mib_tenths(bytes) / 10) + seq!['.'] + decimal(
            mib_tenths(bytes) % 10,
        ),
{
    let whole = (10 * bytes) / 1_048_576;
    let part = (10 * bytes) % 1_048_576;
    assert(10 * bytes == 1_048_576 * whole + part);
    reveal_strlit("");
    reveal_strlit(".");
    let t = mib_tenths(bytes);
    let parts = seq![""@, decimal(t / 10), "."@, decimal(t % 10)];
    reveal_with_fuel(concat, 5);
    assert(parts.drop_last() =~= seq![""@, decimal(t / 10), "."@]);
    assert(parts.drop_last().drop_last() =~= seq![""@, decimal(t / 10)]);
    assert(parts.drop_last().drop_last().drop_last() =~= seq![""@]);
    assert(parts.drop_last().drop_last().drop_last().drop_last() =~= Seq::<Seq<char>>::empty());
    assert(mib_text(bytes as int) =~= decimal(t / 10) + seq!['.'] + decimal(t % 10));
}

/// The sizes of all builds are added up, and the sizes of all categories.
pub proof fn lemma_sums(
    builds: Seq<PublishedRowModel>,
    build: PublishedRowModel,
    counts: Seq<CategoryCountModel>,
    count: CategoryCountModel,
)
    ensures
        size_sum(Seq::<PublishedRowModel>::empty()) == 0,
        size_sum(builds.push(build)) == size_sum(builds) + build.size,
        count_sum(Seq::<CategoryCountModel>::empty()) == 0,
        count_sum(counts.push(count)) == count_sum(counts) + count.count,
{
    assert(builds.push(build).drop_last() =~= builds);
    assert(counts.push(count).drop_last() =~= counts);
}

/// The history shows the synchronizations that began last, the last one first,
/// and as many as asked for where there are that many.
pub proof fn lemma_last_syncs(db: DatabaseModel, limit: int, other: SyncEntryModel)
    requires
        0 <= limit,
    ensures
        ({
            let shown = last_syncs(db, limit);
            &&& shown.len() == if limit < db.sync_log.len() {
                limit
            } else {
                db.sync_log.len() as int
            }
            &&& forall|i: int|
                0 <= i < shown.len() ==> exists|k: int|
                    0 <= k < db.sync_log.len() && (#[trigger] db.sync_log[k]).1 == #[trigger] shown[i]
            &&& forall|i: int, j: int|
                0 <= i < j < shown.len() ==> (#[trigger] shown[i]).started_at >= (
                #[trigger] shown[j]).started_at
            &&& (exists|k: int| 0 <= k < db.sync_log.len() && (#[trigger] db.sync_log[k]).1 == other)
                && !shown.contains(other) ==> forall|i: int|
                0 <= i < shown.len() ==> (#[trigger] shown[i]).started_at >= other.started_at
        }),
{
    let all = values_of(db.sync_log);
    let leq = |a: SyncEntryModel, b: SyncEntryModel| sync_leq(a, b);
    let sorted = stable_sort(all, leq);
    let shown = last_syncs(db, limit);
    lemma_sort_permutes(all, leq);
    assert(total_preorder(leq));
    lemma_sort_ascends(all, leq);
    assert forall|i: int| 0 <= i < shown.len() implies exists|k: int|
        0 <= k < db.sync_log.len() && (#[trigger] db.sync_log[k]).1 == #[trigger] shown[i] by {
        assert(shown[i] == sorted[i]);
        assert(sorted.contains(sorted[i]));
        assert(all.contains(sorted[i]));
        let k = all.index_of(sorted[i]);
        assert(db.sync_log[k].1 == shown[i]);
    }
    assert forall|i: int, j: int| 0 <= i < j < shown.len() implies (
    #[trigger] shown[i]).started_at >= (#[trigger] shown[j]).started_at by {
        assert(shown[i] == sorted[i] && shown[j] == sorted[j]);
        assert(leq(sorted[i], sorted[j]));
    }
    if (exists|k: int| 0 <= k < db.sync_log.len() && (#[trigger] db.sync_log[k]).1 == other)
        && !shown.contains(other) {
        let k = choose|k: int|
            0 <= k < db.sync_log.len() && (#[trigger] db.sync_log[k]).1 == other;
        assert(all[k] == other);
        assert(all.contains(other));
        assert(sorted.contains(other));
        let m = sorted.index_of(other);
        if m < shown.len() {
            assert(shown[m] == other);
        }
        assert forall|i: int| 0 <= i < shown.len() implies (#[trigger] shown[i]).started_at
            >= other.started_at by {
            assert(shown[i] == sorted[i]);
            assert(leq(sorted[i], sorted[m]));
        }
    }
}

/// The page about the site tells the tree, the number of builds, the last
/// synchronization and the first twelve characters of the commit.
pub proof fn lemma_about_page(db: DatabaseModel, config: ConfigModel)
    requires
        db.published.len() <= i64::MAX,
    ensures
        ({
            let page = about_of(db, config);
            let commit = entry_at(db.meta, "last_commit"@);
            &&& page.source.url == config.git_url
            &&& page.published_count == db.published.len()
            &&& page.last_sync is Some <==> db.sync_log.len() > 0
            &&& page.last_sync is Some ==> forall|k: int|
                0 <= k < db.sync_log.len() ==> (#[trigger] db.sync_log[k]).1.started_at
                    <= page.last_sync->0.started_at
            &&& commit is None ==> page.source.commit.len() == 0
            &&& commit is Some && commit->0.len() >= 12 && (forall|i: int|
                0 <= i < 12 ==> 0x80 > (#[trigger] commit->0[i]) as int) ==> page.source.commit
                == commit->0.take(12)
        }),
{
    let page = about_of(db, config);
    crate::laws_detail::lemma_uploads(db);
    let shown = last_syncs(db, 1);
    if db.sync_log.len() > 0 {
        lemma_last_syncs(db, 1, db.sync_log[0].1);
        assert forall|k: int| 0 <= k < db.sync_log.len() implies (#[trigger] db.sync_log[k]).1.started_at
            <= page.last_sync->0.started_at by {
            let other = db.sync_log[k].1;
            lemma_last_syncs(db, 1, other);
            if shown.contains(other) {
                assert(shown.index_of(other) == 0);
            }
            assert(shown[0].started_at >= other.started_at);
        }
    } else {
        lemma_last_syncs(db, 1, arbitrary());
    }
    if let Some(commit) = entry_at(db.meta, "last_commit"@) {
        if commit.len() >= 12 && (forall|i: int|
            0 <= i < 12 ==> 0x80 > (#[trigger] commit[i]) as int) {
            lemma_fitting(commit, 12);
        }
    }
}

proof fn lemma_fitting(s: Seq<char>, room: int)
    requires
        0 <= room <= s.len(),
        forall|i: int| 0 <= i < room ==> 0x80 > (#[trigger] s[i]) as int,
    ensures
        fitting(s, room) == s.take(room),
    decreases s.len(),
{
    if s.len() > 0 && room > 0 {
        let rest = s.drop_first();
        assert(0x80 > s[0] as int);
        assert forall|i: int| 0 <= i < room - 1 implies 0x80 > (#[trigger] rest[i]) as int by {
            assert(rest[i] == s[i + 1]);
        }
        lemma_fitting(rest, room - 1);
        assert(seq![s[0]] + rest.take(room - 1) =~= s.take(room));
    } else {
        assert(s.take(0) =~= Seq::<char>::empty());
    }
}

/// A name without a recipe is answered with all that provide it, and with
/// nothing just where none does.
pub proof fn lemma_provided_answer(db: DatabaseModel, name: Seq<char>, provider: Seq<char>)
    requires
        !has_recipe(db, name),
    ensures
        ({
            let provides = exists|i: int, k: int|
                0 <= i < db.recipes.len() && 0 <= k < db.recipes[i].1.package.provides.len()
                    && db.recipes[i].1.package.name == provider
                    && #[trigger] db.recipes[i].1.package.provides[k] == name;
            &&& !(package_answer(db, name) is Found)
            &&& provides ==> package_answer(db, name) is Virtual
            &&& package_answer(db, name) is Virtual ==> (package_answer(
                db,
                name,
            )->Virtual_0.contains(provider) <==> provides)
            &&& package_answer(db, name) is Virtual ==> package_answer(db, name)->Virtual_0.len() > 0
        }),
{
    let all = recipes_of(db);
    let named = |r: RecipeRecordModel| r.package.name == name;
    let rows = all.filter(named).map_values(|r: RecipeRecordModel| row_of(r));
    lemma_providers(db, name, provider);
    lemma_kept(all, named);
    lemma_sort_permutes(rows, |a: PackageRowModel, b: PackageRowModel| version_leq(a, b));
    if all.filter(named).len() > 0 {
        let r = all.filter(named)[0];
        assert(all.filter(named).contains(r));
        let k = all.index_of(r);
        assert(db.recipes[k].1.package.name == name);
    }
    let names = provider_names(all, name);
    if names.contains(provider) {
        assert(names.len() > 0);
    }
}

} // verus!
