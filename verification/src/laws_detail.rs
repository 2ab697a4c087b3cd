//! What holds of the page of a package, told of the recipes and the builds in
//! the tables.

use vstd::prelude::*;

use crate::api::package_answer;
use crate::config::ConfigModel;
use crate::db::{
    builds_of, provider_names, recipes_of, upload_leq, uploads, version_rows, DatabaseModel,
};
use crate::detail::{
    arch_page, blob_url, detail_answer, further_arches, ladder, lemma_ladder, lemma_newest_build,
    newest_build, recipe_arches, shown_arch, shown_builds, shown_versions, DetailTemplateModel,
    VersionEntryModel,
};
use crate::digits::decimal;
use crate::laws_builds::{
    compares, fits, lemma_state_beside, lemma_version_listed, lemma_version_row, row_tells,
};
use crate::laws_recipes::{lemma_providers, lemma_reverse_deps};
use crate::laws_repo::{lemma_first_row, lemma_three, newest_named};
use crate::list::lemma_kept;
use crate::model::canonical;
use crate::order::{
    ascending, lemma_filter_ascends, lemma_sort_ascends, lemma_sort_permutes, total_preorder,
};
use crate::path::below;
use crate::records::{PackageRowModel, PublishedRowModel, RecipeRecordModel};
use crate::split::without_suffix;
use crate::status::{version_of, version_order, State};
use crate::table::{entry_at, lemma_text_set, lemma_text_set_empty};
use crate::text::{concat, lemma_text_order_flip, lemma_text_order_transitive, text_order, Side};
use crate::web::{build_order, serves};

verus! {

/// There is a recipe of the package.
pub open spec fn has_recipe(db: DatabaseModel, name: Seq<char>) -> bool {
    exists|k: int| 0 <= k < db.recipes.len() && (#[trigger] db.recipes[k]).1.package.name == name
}

/// There is a recipe of the package for the architecture.
pub open spec fn has_recipe_for(db: DatabaseModel, name: Seq<char>, arch: Seq<char>) -> bool {
    exists|k: int|
        0 <= k < db.recipes.len() && (#[trigger] db.recipes[k]).1.package.name == name && canonical(
            db.recipes[k].1.package.arch,
        ) == arch
}

/// Some recipe provides the name.
pub open spec fn is_provided(db: DatabaseModel, name: Seq<char>) -> bool {
    exists|i: int, k: int|
        0 <= i < db.recipes.len() && 0 <= k < db.recipes[i].1.package.provides.len()
            && #[trigger] db.recipes[i].1.package.provides[k] == name
}

/// There is a build of the package.
pub open spec fn has_build(db: DatabaseModel, name: Seq<char>) -> bool {
    exists|j: int| 0 <= j < db.published.len() && (#[trigger] db.published[j]).1.name == name
}

/// All builds, the last published first and those of one instant by filename.
pub proof fn lemma_uploads(db: DatabaseModel)
    ensures
        uploads(builds_of(db)).len() == db.published.len(),
        forall|b: PublishedRowModel| #[trigger]
            uploads(builds_of(db)).contains(b) <==> exists|j: int|
                0 <= j < db.published.len() && (#[trigger] db.published[j]).1 == b,
        forall|i: int, j: int|
            0 <= i < j < uploads(builds_of(db)).len() ==> ({
                let a = #[trigger] uploads(builds_of(db))[i];
                let b = #[trigger] uploads(builds_of(db))[j];
                a.uploaded_at > b.uploaded_at || (a.uploaded_at == b.uploaded_at && text_order(
                    a.filename,
                    b.filename,
                ) != Side::After)
            }),
{
    let builds = builds_of(db);
    let leq = |a: PublishedRowModel, b: PublishedRowModel| upload_leq(a, b);
    let sorted = uploads(builds);
    lemma_sort_permutes(builds, leq);
    assert(total_preorder(leq)) by {
        assert forall|a: PublishedRowModel, b: PublishedRowModel| #[trigger] leq(a, b) || leq(
            b,
            a,
        ) by {
            lemma_text_order_flip(a.filename, b.filename);
        }
        assert forall|a: PublishedRowModel, b: PublishedRowModel, c: PublishedRowModel| #[trigger]
            leq(a, b) && #[trigger] leq(b, c) implies leq(a, c) by {
            if text_order(a.filename, b.filename) != Side::After && text_order(
                b.filename,
                c.filename,
            ) != Side::After {
                lemma_text_order_transitive(a.filename, b.filename, c.filename);
            }
        }
    }
    lemma_sort_ascends(builds, leq);
    assert forall|b: PublishedRowModel| #[trigger] sorted.contains(b) <==> exists|j: int|
        0 <= j < db.published.len() && (#[trigger] db.published[j]).1 == b by {
        if builds.contains(b) {
            let j = builds.index_of(b);
            assert(db.published[j].1 == b);
        }
        if exists|j: int| 0 <= j < db.published.len() && (#[trigger] db.published[j]).1 == b {
            let j = choose|j: int|
                0 <= j < db.published.len() && (#[trigger] db.published[j]).1 == b;
            assert(builds[j] == b);
            assert(builds.contains(b));
        }
    }
    assert forall|i: int, j: int| 0 <= i < j < sorted.len() implies ({
        let a = #[trigger] sorted[i];
        let b = #[trigger] sorted[j];
        a.uploaded_at > b.uploaded_at || (a.uploaded_at == b.uploaded_at && text_order(
            a.filename,
            b.filename,
        ) != Side::After)
    }) by {
        assert(leq(sorted[i], sorted[j]));
    }
}

proof fn lemma_arches(db: DatabaseModel, name: Seq<char>, arch: Seq<char>)
    ensures
        recipe_arches(version_rows(recipes_of(db), name)).contains(arch) <==> has_recipe_for(
            db,
            name,
            arch,
        ),
        forall|i: int, j: int|
            0 <= i < j < recipe_arches(version_rows(recipes_of(db), name)).len() ==> text_order(
                #[trigger] recipe_arches(version_rows(recipes_of(db), name))[i],
                #[trigger] recipe_arches(version_rows(recipes_of(db), name))[j],
            ) == Side::Before,
{
    let all = version_rows(recipes_of(db), name);
    let names = all.map_values(|v: PackageRowModel| v.arch);
    lemma_text_set(names);
    if names.contains(arch) {
        let i = names.index_of(arch);
        lemma_version_row(db, name, i);
        let k = choose|k: int|
            0 <= k < db.recipes.len() && (#[trigger] db.recipes[k]).1.package.name == name
                && row_tells(all[i], db.recipes[k].1);
        assert(canonical(db.recipes[k].1.package.arch) == arch);
    }
    if has_recipe_for(db, name, arch) {
        let k = choose|k: int|
            0 <= k < db.recipes.len() && (#[trigger] db.recipes[k]).1.package.name == name
                && canonical(db.recipes[k].1.package.arch) == arch;
        lemma_version_listed(db, k);
        let i = choose|i: int|
            0 <= i < all.len() && row_tells(#[trigger] all[i], db.recipes[k].1);
        assert(names[i] == arch);
        assert(names.contains(arch));
    }
}

/// The page of a package shows the architecture that was asked for, where it
/// has recipes for it, and else that of its newest recipe.
pub proof fn lemma_arch_shown(db: DatabaseModel, name: Seq<char>, asked: Option<Seq<char>>)
    requires
        has_recipe(db, name),
    ensures
        ({
            let arch = shown_arch(version_rows(recipes_of(db), name), asked);
            &&& arch is Some && has_recipe_for(db, name, arch->0)
            &&& asked is Some && has_recipe_for(db, name, canonical(asked->0)) ==> arch->0
                == canonical(asked->0)
            &&& asked is None || !has_recipe_for(db, name, canonical(asked->0)) ==> exists|k: int|
                0 <= k < db.recipes.len() && newest_named(db, name, k) && arch->0 == canonical(
                    (#[trigger] db.recipes[k]).1.package.arch,
                )
        }),
{
    let all = version_rows(recipes_of(db), name);
    lemma_first_row(db, name);
    let k = choose|k: int|
        0 <= k < db.recipes.len() && newest_named(db, name, k) && row_tells(
            all[0],
            (#[trigger] db.recipes[k]).1,
        );
    assert(all[0].arch == canonical(db.recipes[k].1.package.arch));
    assert(has_recipe_for(db, name, all[0].arch));
    if asked is Some {
        lemma_arches(db, name, canonical(asked->0));
    }
}

/// What a request for a page is answered: the page of the package where it has
/// a recipe; where it has none, its providers where the name is provided; and
/// where it is not, the page of its builds, if there are any. A request by a
/// program goes by recipes and providers alone.
pub proof fn lemma_pages_answered(
    db: DatabaseModel,
    config: ConfigModel,
    name: Seq<char>,
    asked: Option<Seq<char>>,
)
    ensures
        ({
            let answer = detail_answer(db, config, name, asked);
            &&& has_recipe(db, name) ==> answer is Page
            &&& !has_recipe(db, name) && is_provided(db, name) ==> answer is Virtual
            &&& !has_recipe(db, name) && !is_provided(db, name) && has_build(db, name)
                ==> answer is Page
            &&& !has_recipe(db, name) && !is_provided(db, name) && !has_build(db, name)
                ==> answer is NotFound
        }),
        ({
            let answer = package_answer(db, name);
            &&& has_recipe(db, name) <==> answer is Found
            &&& !has_recipe(db, name) && is_provided(db, name) <==> answer is Virtual
            &&& !has_recipe(db, name) && !is_provided(db, name) <==> answer is NotFound
        }),
{
    let all = version_rows(recipes_of(db), name);
    let arch = shown_arch(all, asked);
    let shown = shown_versions(all, arch);
    let named = |p: PublishedRowModel| p.name == name;
    let list = uploads(builds_of(db));
    let builds = shown_builds(list.filter(named), arch);
    lemma_first_row(db, name);
    lemma_provided(db, name);
    lemma_uploads(db);
    lemma_kept(list, named);
    if has_recipe(db, name) {
        lemma_arch_shown(db, name, asked);
        lemma_arches(db, name, arch->0);
        let names = all.map_values(|v: PackageRowModel| v.arch);
        lemma_text_set(names);
        assert(names.contains(arch->0));
        let i = names.index_of(arch->0);
        let same = |v: PackageRowModel| v.arch == arch->0;
        lemma_kept(all, same);
        assert(all.contains(all[i]) && same(all[i]));
        assert(all.filter(same).contains(all[i]));
        assert(shown.len() > 0);
    } else {
        let names = all.map_values(|v: PackageRowModel| v.arch);
        assert(names =~= Seq::<Seq<char>>::empty());
        lemma_text_set_empty();
        assert(arch is None);
        assert(builds == list.filter(named));
        if has_build(db, name) {
            let j = choose|j: int|
                0 <= j < db.published.len() && (#[trigger] db.published[j]).1.name == name;
            assert(list.contains(db.published[j].1));
            assert(builds.contains(db.published[j].1));
        } else if builds.len() > 0 {
            assert(builds.contains(builds[0]));
            assert(list.contains(builds[0]));
        }
    }
}

proof fn lemma_provided(db: DatabaseModel, name: Seq<char>)
    ensures
        provider_names(recipes_of(db), name).len() > 0 <==> is_provided(db, name),
{
    let names = provider_names(recipes_of(db), name);
    if names.len() > 0 {
        assert(names.contains(names[0]));
        lemma_providers(db, name, names[0]);
    }
    if is_provided(db, name) {
        let (i, k) = choose|i: int, k: int|
            0 <= i < db.recipes.len() && 0 <= k < db.recipes[i].1.package.provides.len()
                && #[trigger] db.recipes[i].1.package.provides[k] == name;
        let provider = db.recipes[i].1.package.name;
        lemma_providers(db, name, provider);
        assert(names.contains(provider));
    }
}

/// The page of a package with recipes is about the newest one for the
/// architecture shown.
pub proof fn lemma_page_about(
    db: DatabaseModel,
    config: ConfigModel,
    name: Seq<char>,
    asked: Option<Seq<char>>,
)
    requires
        has_recipe(db, name),
    ensures
        ({
            let pkg = detail_answer(db, config, name, asked)->Page_0.pkg;
            &&& Some(pkg.arch) == shown_arch(version_rows(recipes_of(db), name), asked)
            &&& exists|k: int|
                0 <= k < db.recipes.len() && (#[trigger] db.recipes[k]).1.package.name == name
                    && row_tells(pkg, db.recipes[k].1) && forall|j: int|
                    0 <= j < db.recipes.len() && (#[trigger] db.recipes[j]).1.package.name == name
                        && canonical(db.recipes[j].1.package.arch) == pkg.arch ==> version_order(
                        version_of(db.recipes[j].1.package.reading.full),
                        version_of(db.recipes[k].1.package.reading.full),
                    ) != Side::After
        }),
{
    let all = version_rows(recipes_of(db), name);
    lemma_arch_shown(db, name, asked);
    lemma_pages_answered(db, config, name, asked);
    lemma_first_row(db, name);
    let arch = shown_arch(all, asked);
    let same = |v: PackageRowModel| v.arch == arch->0;
    let shown = all.filter(same);
    let pkg = detail_answer(db, config, name, asked)->Page_0.pkg;
    lemma_kept(all, same);
    lemma_shown_nonempty(db, name, arch->0);
    assert(pkg == shown[0]);
    assert(shown.contains(shown[0]));
    let i = all.index_of(shown[0]);
    lemma_version_row(db, name, i);
    let k = choose|k: int|
        0 <= k < db.recipes.len() && (#[trigger] db.recipes[k]).1.package.name == name && row_tells(
            all[i],
            db.recipes[k].1,
        );
    assert forall|j: int|
        0 <= j < db.recipes.len() && (#[trigger] db.recipes[j]).1.package.name == name && canonical(
            db.recipes[j].1.package.arch,
        ) == pkg.arch implies version_order(
        version_of(db.recipes[j].1.package.reading.full),
        version_of(db.recipes[k].1.package.reading.full),
    ) != Side::After by {
        lemma_version_listed(db, j);
        let m = choose|m: int|
            0 <= m < all.len() && row_tells(#[trigger] all[m], db.recipes[j].1);
        assert(same(all[m]));
        assert(all.contains(all[m]));
        assert(shown.contains(all[m]));
        let n = shown.index_of(all[m]);
        lemma_ladder(recipes_of(db), name, arch, 0, n);
        assert(shown_versions(all, arch) == shown);
    }
}

proof fn lemma_shown_nonempty(db: DatabaseModel, name: Seq<char>, arch: Seq<char>)
    requires
        has_recipe_for(db, name, arch),
    ensures
        version_rows(recipes_of(db), name).filter(|v: PackageRowModel| v.arch == arch).len() > 0,
{
    let all = version_rows(recipes_of(db), name);
    let same = |v: PackageRowModel| v.arch == arch;
    let k = choose|k: int|
        0 <= k < db.recipes.len() && (#[trigger] db.recipes[k]).1.package.name == name && canonical(
            db.recipes[k].1.package.arch,
        ) == arch;
    lemma_version_listed(db, k);
    let i = choose|i: int| 0 <= i < all.len() && row_tells(#[trigger] all[i], db.recipes[k].1);
    lemma_kept(all, same);
    assert(same(all[i]));
    assert(all.contains(all[i]));
    assert(all.filter(same).contains(all[i]));
}

/// Where a recipe can be read: the tree without `.git` at its end, and the
/// path of the recipe below `/blob/main/`.
pub proof fn lemma_recipe_link(tree: Seq<char>, path: Seq<char>)
    requires
        !".git"@.is_suffix_of(tree),
    ensures
        blob_url(tree, path) == tree + "/blob/main/"@ + path,
        blob_url(tree + ".git"@, path) == tree + "/blob/main/"@ + path,
{
    reveal_strlit(".git");
    lemma_three(tree, "/blob/main/"@, path);
    let whole = tree + ".git"@;
    assert(whole.take(whole.len() - ".git"@.len()) =~= tree);
    assert(".git"@.is_suffix_of(whole)) by {
        assert(whole.subrange(whole.len() - ".git"@.len(), whole.len() as int) =~= ".git"@);
    }
    reveal_with_fuel(without_suffix, 2);
    assert(without_suffix(tree, ".git"@) == tree);
    assert(without_suffix(whole, ".git"@) == tree);
}

/// A step of the ladder of versions shows a recipe.
pub open spec fn step_shows(
    step: VersionEntryModel,
    record: RecipeRecordModel,
) -> bool {
    &&& step.version == record.package.version.text
    &&& step.release == decimal(record.package.release as nat)
    &&& step.github_url == blob_url(record.origin, record.recipe_path)
}

/// The page lists the recipes of the package for the architecture shown and no
/// others, and marks the first one as the latest.
pub proof fn lemma_page_ladder(
    db: DatabaseModel,
    config: ConfigModel,
    name: Seq<char>,
    asked: Option<Seq<char>>,
    i: int,
)
    requires
        has_recipe(db, name),
        0 <= i < detail_answer(db, config, name, asked)->Page_0.versions.len(),
    ensures
        ({
            let page = detail_answer(db, config, name, asked)->Page_0;
            &&& page.versions[i].latest == (i == 0)
            &&& exists|k: int|
                0 <= k < db.recipes.len() && (#[trigger] db.recipes[k]).1.package.name == name
                    && canonical(db.recipes[k].1.package.arch) == page.pkg.arch && step_shows(
                    page.versions[i],
                    db.recipes[k].1,
                )
        }),
{
    let all = version_rows(recipes_of(db), name);
    lemma_page_about(db, config, name, asked);
    lemma_pages_answered(db, config, name, asked);
    let arch = shown_arch(all, asked);
    let same = |v: PackageRowModel| v.arch == arch->0;
    let shown = all.filter(same);
    lemma_kept(all, same);
    let page = detail_answer(db, config, name, asked)->Page_0;
    assert(page.versions == ladder(shown));
    assert(shown.contains(shown[i]));
    let m = all.index_of(shown[i]);
    lemma_version_row(db, name, m);
    let k = choose|k: int|
        0 <= k < db.recipes.len() && (#[trigger] db.recipes[k]).1.package.name == name && row_tells(
            all[m],
            db.recipes[k].1,
        );
    assert(step_shows(page.versions[i], db.recipes[k].1));
}

/// Every recipe of the package for the architecture shown is on its page.
pub proof fn lemma_page_ladder_complete(
    db: DatabaseModel,
    config: ConfigModel,
    name: Seq<char>,
    asked: Option<Seq<char>>,
    k: int,
)
    requires
        0 <= k < db.recipes.len(),
        db.recipes[k].1.package.name == name,
        canonical(db.recipes[k].1.package.arch) == detail_answer(
            db,
            config,
            name,
            asked,
        )->Page_0.pkg.arch,
    ensures
        exists|i: int|
            0 <= i < detail_answer(db, config, name, asked)->Page_0.versions.len() && step_shows(
                #[trigger] detail_answer(db, config, name, asked)->Page_0.versions[i],
                db.recipes[k].1,
            ),
{
    let all = version_rows(recipes_of(db), name);
    assert(has_recipe(db, name));
    lemma_page_about(db, config, name, asked);
    lemma_pages_answered(db, config, name, asked);
    let arch = shown_arch(all, asked);
    let same = |v: PackageRowModel| v.arch == arch->0;
    let shown = all.filter(same);
    lemma_kept(all, same);
    let page = detail_answer(db, config, name, asked)->Page_0;
    assert(page.versions == ladder(shown));
    lemma_version_listed(db, k);
    let m = choose|m: int| 0 <= m < all.len() && row_tells(#[trigger] all[m], db.recipes[k].1);
    assert(same(all[m]));
    assert(all.contains(all[m]));
    assert(shown.contains(all[m]));
    let i = shown.index_of(all[m]);
    assert(step_shows(page.versions[i], db.recipes[k].1));
}

/// The page lists the builds of the package that fit the architecture shown,
/// and no others, the last published first.
pub proof fn lemma_page_builds(
    db: DatabaseModel,
    config: ConfigModel,
    name: Seq<char>,
    asked: Option<Seq<char>>,
)
    requires
        detail_answer(db, config, name, asked) is Page,
    ensures
        ({
            let page = detail_answer(db, config, name, asked)->Page_0;
            &&& forall|b: PublishedRowModel| #[trigger]
                page.published.contains(b) <==> b.name == name && (has_recipe(db, name) ==> fits(
                    page.pkg.arch,
                    canonical(b.arch),
                )) && exists|j: int|
                    0 <= j < db.published.len() && (#[trigger] db.published[j]).1 == b
            &&& forall|i: int, j: int|
                0 <= i < j < page.published.len() ==> (#[trigger] page.published[i]).uploaded_at >= (
                #[trigger] page.published[j]).uploaded_at
        }),
{
    let all = version_rows(recipes_of(db), name);
    let arch = shown_arch(all, asked);
    let named = |p: PublishedRowModel| p.name == name;
    let list = uploads(builds_of(db));
    let mine = list.filter(named);
    let page = detail_answer(db, config, name, asked)->Page_0;
    lemma_uploads(db);
    lemma_kept(list, named);
    lemma_first_row(db, name);
    let later = |a: PublishedRowModel, b: PublishedRowModel| a.uploaded_at >= b.uploaded_at;
    assert(ascending(list, later)) by {
        assert forall|i: int, j: int| 0 <= i < j < list.len() implies later(
            #[trigger] list[i],
            #[trigger] list[j],
        ) by {}
    }
    lemma_filter_ascends(list, later, named);
    if has_recipe(db, name) {
        lemma_page_about(db, config, name, asked);
        let ok = |p: PublishedRowModel| serves(arch->0, canonical(p.arch));
        lemma_kept(mine, ok);
        lemma_filter_ascends(mine, later, ok);
        assert(page.published == mine.filter(ok));
    } else {
        let names = all.map_values(|v: PackageRowModel| v.arch);
        assert(names =~= Seq::<Seq<char>>::empty());
        lemma_text_set_empty();
        assert(arch is None);
        assert(page.published == mine);
    }
    assert forall|i: int, j: int| 0 <= i < j < page.published.len() implies (
    #[trigger] page.published[i]).uploaded_at >= (#[trigger] page.published[j]).uploaded_at by {
        assert(later(page.published[i], page.published[j]));
    }
}

/// What the page tells of the build that it compares the package with: the
/// state, the files, at most the first 400 and how many there are, the log, and
/// whether it has a service.
pub open spec fn page_tells(
    page: DetailTemplateModel,
    db: DatabaseModel,
    b: PublishedRowModel,
) -> bool {
    let files = entry_at(db.files, b.filename);
    let log = entry_at(db.logs, b.filename);
    &&& forall|m: u32, n: u32|
        page.pkg.release == #[trigger] decimal(m as nat) && b.release == #[trigger] decimal(n as nat)
            ==> compares(page.state, page.pkg.version.rank, m, b.version.rank, n)
    &&& files is None ==> page.files.len() == 0 && page.files_total == 0
    &&& files is Some ==> {
        &&& page.files.len() == if files->0.len() < 400 {
            files->0.len()
        } else {
            400
        }
        &&& forall|k: int| 0 <= k < page.files.len() ==> #[trigger] page.files[k] == files->0[k]
        &&& files->0.len() <= usize::MAX ==> page.files_total == files->0.len()
    }
    &&& page.has_log == (log is Some)
    &&& log is Some ==> page.log_content == log->0.content && page.log_builder == log->0.builder
    &&& log is None ==> page.log_content.len() == 0 && page.log_builder.len() == 0
    &&& page.p_daemon == (b.meta is Some && b.meta->0.service_toml.len() > 0)
}

/// The page compares the package with the newest of the builds that it lists,
/// and tells of that one. Where it lists none, the package is missing.
pub proof fn lemma_page_build(
    db: DatabaseModel,
    config: ConfigModel,
    name: Seq<char>,
    asked: Option<Seq<char>>,
)
    requires
        detail_answer(db, config, name, asked) is Page,
    ensures
        ({
            let page = detail_answer(db, config, name, asked)->Page_0;
            &&& page.published.len() == 0 ==> page.state == State::Missing && page.files.len() == 0
                && page.files_total == 0 && !page.has_log && !page.p_daemon
            &&& page.published.len() > 0 ==> page.state != State::Missing && exists|i: int|
                0 <= i < page.published.len() && page_tells(page, db, #[trigger] page.published[i])
                    && forall|j: int|
                    0 <= j < page.published.len() ==> build_order(
                        #[trigger] page.published[j],
                        page.published[i],
                    ) != Side::After
        }),
{
    let page = detail_answer(db, config, name, asked)->Page_0;
    let builds = page.published;
    let build = newest_build(builds);
    if builds.len() > 0 {
        lemma_newest_build(builds, builds[0]);
        let b = build->0;
        let i = builds.index_of(b);
        assert(page_tells(page, db, b)) by {
            assert forall|m: u32, n: u32|
                page.pkg.release == #[trigger] decimal(m as nat) && b.release == #[trigger] decimal(
                    n as nat,
                ) implies compares(page.state, page.pkg.version.rank, m, b.version.rank, n) by {
                lemma_state_beside(page.pkg, b, m, n);
            }
        }
        assert forall|j: int| 0 <= j < builds.len() implies build_order(
            #[trigger] builds[j],
            builds[i],
        ) != Side::After by {
            assert(builds.contains(builds[j]));
            lemma_newest_build(builds, builds[j]);
        }
        assert(page_tells(page, db, builds[i]));
    }
}

/// The page names the packages that depend on this one: those that have it
/// anywhere among the dependencies of a recipe.
pub proof fn lemma_page_reverse(
    db: DatabaseModel,
    config: ConfigModel,
    name: Seq<char>,
    asked: Option<Seq<char>>,
    dependent: Seq<char>,
)
    requires
        detail_answer(db, config, name, asked) is Page,
    ensures
        detail_answer(db, config, name, asked)->Page_0.reverse.contains(dependent) <==> exists|
            i: int,
            k: int,
        |
            0 <= i < db.recipes.len() && 0 <= k < db.recipes[i].1.package.dependencies.len()
                && db.recipes[i].1.package.name == dependent && (
            #[trigger] db.recipes[i].1.package.dependencies[k]).name == name,
{
    lemma_reverse_deps(db, name, dependent);
}

/// The page links to the other architectures that the package has recipes for,
/// and names where its own recipe lies.
pub proof fn lemma_page_links(
    db: DatabaseModel,
    config: ConfigModel,
    name: Seq<char>,
    asked: Option<Seq<char>>,
    arch: Seq<char>,
)
    requires
        has_recipe(db, name),
    ensures
        ({
            let page = detail_answer(db, config, name, asked)->Page_0;
            let link = "/package/"@ + name + "?arch="@ + arch;
            &&& page.other_arches.contains((arch, link)) <==> has_recipe_for(db, name, arch) && arch
                != page.pkg.arch
            &&& forall|i: int|
                0 <= i < page.other_arches.len() && (#[trigger] page.other_arches[i]).0 == arch
                    ==> page.other_arches[i].1 == link
            &&& page.github_url == blob_url(page.pkg.origin, page.pkg.recipe_path)
            &&& detail_answer(db, config, name, asked)->Page_1 == below(
                below(below(config.state_dir, "git"@), "recipes"@),
                page.pkg.recipe_path,
            )
        }),
{
    let all = version_rows(recipes_of(db), name);
    let arches = recipe_arches(all);
    let shown = shown_arch(all, asked);
    let other = |a: Seq<char>| Some(a) != shown;
    let kept = arches.filter(other);
    let link = "/package/"@ + name + "?arch="@ + arch;
    lemma_arches(db, name, arch);
    lemma_pages_answered(db, config, name, asked);
    lemma_page_about(db, config, name, asked);
    lemma_kept(arches, other);
    let page = detail_answer(db, config, name, asked)->Page_0;
    let links = page.other_arches;
    assert(arch_page(name, arch) == link) by {
        reveal_with_fuel(concat, 5);
        let parts = seq!["/package/"@, name, "?arch="@, arch];
        assert(parts.drop_last() =~= seq!["/package/"@, name, "?arch="@]);
        assert(parts.drop_last().drop_last() =~= seq!["/package/"@, name]);
        assert(parts.drop_last().drop_last().drop_last() =~= seq!["/package/"@]);
        assert(parts.drop_last().drop_last().drop_last().drop_last() =~= Seq::<Seq<char>>::empty());
        assert(concat(parts) =~= link);
    }
    assert(links == further_arches(name, arches, shown));
    assert(links.len() == kept.len());
    assert forall|i: int|
        0 <= i < links.len() && (#[trigger] links[i]).0 == arch implies links[i].1 == link by {
        assert(links[i] == (kept[i], arch_page(name, kept[i])));
    }
    if links.contains((arch, link)) {
        let i = links.index_of((arch, link));
        assert(links[i] == (kept[i], arch_page(name, kept[i])));
        assert(kept.contains(arch));
    }
    if has_recipe_for(db, name, arch) && arch != page.pkg.arch {
        assert(arches.contains(arch) && other(arch));
        assert(kept.contains(arch));
        let i = kept.index_of(arch);
        assert(links[i] == (arch, link));
    }
}

/// The page of a package without a recipe tells what the manifest of its last
/// build says.
pub proof fn lemma_page_without_recipe(
    db: DatabaseModel,
    config: ConfigModel,
    name: Seq<char>,
    asked: Option<Seq<char>>,
)
    requires
        !has_recipe(db, name),
        detail_answer(db, config, name, asked) is Page,
    ensures
        ({
            let page = detail_answer(db, config, name, asked)->Page_0;
            let b = page.published[0];
            let stored = entry_at(db.published, b.filename);
            &&& page.published.len() > 0 && page.versions.len() == 0 && page.other_arches.len() == 0
            &&& page.pkg.name == b.name && page.pkg.slot == b.slot && page.pkg.epoch == b.epoch
            &&& page.pkg.arch == canonical(b.arch) && page.pkg.category == "orphan"@
            &&& stored is Some && stored->0.meta is Some ==> {
                let meta = stored->0.meta->0;
                &&& page.pkg.version == meta.version && page.pkg.release == meta.release
                &&& page.pkg.description == meta.description && page.pkg.license == meta.license
                &&& page.pkg.channel == meta.channel && page.pkg.provides == meta.provides
            }
            &&& stored is None || stored->0.meta is None ==> page.pkg.version == b.version
                && page.pkg.release == b.release
        }),
{
    let all = version_rows(recipes_of(db), name);
    lemma_first_row(db, name);
    let names = all.map_values(|v: PackageRowModel| v.arch);
    assert(names =~= Seq::<Seq<char>>::empty());
    lemma_text_set_empty();
    let arches = recipe_arches(all);
    assert(arches =~= Seq::<Seq<char>>::empty());
    let other = |a: Seq<char>| Some(a) != shown_arch(all, asked);
    assert(arches.filter(other).len() == 0) by {
        arches.lemma_filter_len(other);
    }
    assert(shown_arch(all, asked) is None);
}

/// The build that a page is about is the newest, and of several as new the last
/// that is listed.
pub proof fn lemma_page_build_last(rows: Seq<PublishedRowModel>) -> (i: int)
    requires
        rows.len() > 0,
    ensures
        0 <= i < rows.len(),
        newest_build(rows) == Some(rows[i]),
        forall|j: int| i < j < rows.len() ==> build_order(rows[i], #[trigger] rows[j]) == Side::After,
        forall|j: int| 0 <= j < i ==> build_order(#[trigger] rows[j], rows[i]) != Side::After,
    decreases rows.len(),
{
    let front = rows.drop_last();
    if front.len() == 0 {
        assert(newest_build(front) is None);
        0
    } else {
        let i = lemma_page_build_last(front);
        assert(newest_build(front) == Some(front[i]) && front[i] == rows[i]);
        if build_order(rows[i], rows.last()) == Side::After {
            assert forall|j: int| i < j < rows.len() implies build_order(
                rows[i],
                #[trigger] rows[j],
            ) == Side::After by {
                if j < front.len() {
                    assert(front[j] == rows[j]);
                }
            }
            assert forall|j: int| 0 <= j < i implies build_order(#[trigger] rows[j], rows[i])
                != Side::After by {
                assert(front[j] == rows[j]);
            }
            i
        } else {
            assert forall|j: int| 0 <= j < rows.len() - 1 implies build_order(
                #[trigger] rows[j],
                rows.last(),
            ) != Side::After by {
                assert(front[j] == rows[j]);
                lemma_newest_build(rows, rows[j]);
            }
            rows.len() - 1
        }
    }
}

} // verus!
