//! What holds of the pages that list packages, told of the recipes and the
//! builds in the tables.

use vstd::prelude::*;

use crate::config::ConfigModel;
use crate::db::{
    builds_of, category_size, last_syncs, latest_builds, latest_rows, newer_build, recipes_of,
    DatabaseModel,
};
use crate::digits::decimal;
use crate::laws_builds::{
    compares, fits, lemma_build_listed, lemma_listed_newest, lemma_listed_newest_build,
    lemma_package_listed, lemma_view, newer_recipe, one_package, one_target, row_tells, spelled,
    told_beside,
};
use crate::list::lemma_kept;
use crate::model::canonical;
use crate::order::{
    lemma_filter_all, lemma_filter_push, lemma_sort_ascends, lemma_sort_permutes, text_set,
    total_preorder,
};
use crate::pages::{
    about_of, all_arches, by_name, category_page, every_row, in_state, index_page,
    lemma_states_partition, lowercase, packages_page, state_count, status_of, PackageQueryModel,
};
use crate::records::{PackageRowModel, PublishedRowModel, RecipeRecordModel};
use crate::status::State;
use crate::table::{entry_at, lemma_text_set};
use crate::text::{
    lemma_text_order_flip, lemma_text_order_same, lemma_text_order_transitive, occurs, text_order,
    Side,
};
use crate::web::{nav_of, view_of, views_of, PackageViewModel};

verus! {

/// The packages as the pages list them, one for each.
pub open spec fn listed_views(db: DatabaseModel) -> Seq<PackageViewModel> {
    views_of(db, every_row())
}

/// A list shows a recipe.
pub open spec fn shows(view: PackageViewModel, record: RecipeRecordModel) -> bool {
    let p = record.package;
    &&& view.name == p.name && view.arch == canonical(p.arch)
    &&& view.version == p.version.text && view.release == decimal(p.release as nat)
    &&& view.description == p.description
    &&& view.origin == record.origin && view.category == record.category
}

/// A list shows a recipe beside a build: the version of the build, when it was
/// published, and whether it is older than the recipe, as old or newer, by
/// upstream version and then by release.
pub open spec fn shows_beside(
    view: PackageViewModel,
    record: RecipeRecordModel,
    build: PublishedRowModel,
) -> bool {
    &&& build.name == view.name && fits(view.arch, canonical(build.arch))
    &&& view.repo_version == build.version.text + seq!['-'] + build.release
    &&& view.built_at == build.uploaded_at
    &&& forall|n: u32|
        build.release == #[trigger] decimal(n as nat) ==> compares(
            view.state,
            record.package.version.rank,
            record.package.release,
            build.version.rank,
            n,
        )
}

/// No other recipe of the package is newer than the `k`-th.
pub open spec fn newest_recipe_at(db: DatabaseModel, k: int) -> bool {
    forall|j: int|
        0 <= j < db.recipes.len() && one_package((#[trigger] db.recipes[j]).1, db.recipes[k].1)
            ==> !newer_recipe(db.recipes[j].1, db.recipes[k].1)
}

/// No other build of the package is newer than the `k`-th.
pub open spec fn newest_build_at(db: DatabaseModel, k: int) -> bool {
    forall|j: int|
        0 <= j < db.published.len() && one_target(
            (#[trigger] db.published[j]).1,
            db.published[k].1,
        ) ==> !newer_build(db.published[j].1, db.published[k].1)
}

proof fn lemma_views_all(db: DatabaseModel)
    ensures
        listed_views(db).len() == latest_rows(recipes_of(db)).len(),
        forall|i: int|
            0 <= i < listed_views(db).len() ==> #[trigger] listed_views(db)[i] == view_of(
                latest_builds(builds_of(db)),
                latest_rows(recipes_of(db))[i],
            ),
{
    let rows = latest_rows(recipes_of(db));
    lemma_filter_all(rows, every_row());
}

/// Every package listed shows its newest recipe. It is missing just where no
/// fitting build of its name is published; otherwise it stands beside one of
/// those, the newest for its architecture, channel and slot.
pub proof fn lemma_listed_view(db: DatabaseModel, i: int)
    requires
        0 <= i < listed_views(db).len(),
    ensures
        ({
            let view = listed_views(db)[i];
            &&& view.state == State::Missing <==> forall|j: int|
                0 <= j < db.published.len() && (#[trigger] db.published[j]).1.name == view.name
                    ==> !fits(view.arch, canonical(db.published[j].1.arch))
            &&& view.state == State::Missing ==> view.repo_version.len() == 0 && view.built_at == 0
            &&& exists|k: int|
                0 <= k < db.recipes.len() && shows(view, (#[trigger] db.recipes[k]).1)
                    && newest_recipe_at(db, k) && (view.state != State::Missing ==> exists|j: int|
                    0 <= j < db.published.len() && shows_beside(
                        view,
                        db.recipes[k].1,
                        (#[trigger] db.published[j]).1,
                    ) && newest_build_at(db, j))
        }),
{
    let latest = latest_builds(builds_of(db));
    let rows = latest_rows(recipes_of(db));
    lemma_views_all(db);
    let row = rows[i];
    let view = listed_views(db)[i];
    assert(view == view_of(latest, row));
    lemma_view(latest, row);
    lemma_listed_newest(db, i);
    let k = choose|k: int|
        0 <= k < db.recipes.len() && row_tells(row, (#[trigger] db.recipes[k]).1) && forall|j: int|
            0 <= j < db.recipes.len() && one_package((#[trigger] db.recipes[j]).1, db.recipes[k].1)
                ==> !newer_recipe(db.recipes[j].1, db.recipes[k].1);
    let record = db.recipes[k].1;
    assert(shows(view, record));
    assert(newest_recipe_at(db, k));
    if view.state == State::Missing {
        assert forall|j: int|
            0 <= j < db.published.len() && (#[trigger] db.published[j]).1.name
                == view.name implies !fits(view.arch, canonical(db.published[j].1.arch)) by {
            lemma_build_listed(db, j);
            let p = db.published[j].1;
            let m = choose|m: int|
                0 <= m < latest.len() && ({
                    let listed = #[trigger] latest[m];
                    listed.name == p.name && listed.arch == canonical(p.arch) && listed.channel
                        == p.channel && listed.slot == p.slot
                });
            assert(latest[m].name == row.name);
        }
    } else {
        let m = choose|m: int|
            0 <= m < latest.len() && told_beside(view, row, #[trigger] latest[m]) && fits(
                row.arch,
                latest[m].arch,
            );
        lemma_listed_newest_build(db, m);
        let j = choose|j: int|
            0 <= j < db.published.len() && spelled(latest[m], (#[trigger] db.published[j]).1)
                && forall|q: int|
                0 <= q < db.published.len() && one_target(
                    (#[trigger] db.published[q]).1,
                    db.published[j].1,
                ) ==> !newer_build(db.published[q].1, db.published[j].1);
        let build = db.published[j].1;
        assert(told_beside(view, row, latest[m]));
        assert(shows_beside(view, record, build)) by {
            assert forall|n: u32| build.release == #[trigger] decimal(n as nat) implies compares(
                view.state,
                record.package.version.rank,
                record.package.release,
                build.version.rank,
                n,
            ) by {
                assert(row.release == decimal(record.package.release as nat));
            }
        }
        assert(newest_build_at(db, j));
        assert(db.published[j].1.name == view.name);
    }
}

/// Every recipe has its package on the list.
pub proof fn lemma_recipe_on_list(db: DatabaseModel, k: int)
    requires
        0 <= k < db.recipes.len(),
    ensures
        exists|i: int|
            0 <= i < listed_views(db).len() && (#[trigger] listed_views(db)[i]).name
                == db.recipes[k].1.package.name && listed_views(db)[i].arch == canonical(
                db.recipes[k].1.package.arch,
            ),
{
    lemma_views_all(db);
    lemma_package_listed(db, k);
    let rows = latest_rows(recipes_of(db));
    let p = db.recipes[k].1.package;
    let i = choose|i: int|
        0 <= i < rows.len() && ({
            let row = #[trigger] rows[i];
            row.name == p.name && row.arch == canonical(p.arch) && row.channel == p.channel
                && row.slot == p.slot
        });
    lemma_view(latest_builds(builds_of(db)), rows[i]);
    assert(listed_views(db)[i].name == p.name);
}

proof fn lemma_filter_map<A, B>(
    s: Seq<A>,
    keep: spec_fn(A) -> bool,
    f: spec_fn(A) -> B,
    shown: spec_fn(B) -> bool,
)
    requires
        forall|x: A| #[trigger] keep(x) == shown(f(x)),
    ensures
        s.filter(keep).map_values(f) == s.map_values(f).filter(shown),
    decreases s.len(),
{
    if s.len() == 0 {
        reveal(Seq::filter);
        assert(s.filter(keep).map_values(f) =~= s.map_values(f).filter(shown));
    } else {
        let less = s.drop_last();
        lemma_filter_map(less, keep, f, shown);
        assert(s =~= less.push(s.last()));
        lemma_filter_push(less, s.last(), keep);
        assert(s.map_values(f) =~= less.map_values(f).push(f(s.last())));
        lemma_filter_push(less.map_values(f), f(s.last()), shown);
        assert(keep(s.last()) == shown(f(s.last())));
        assert(s.filter(keep).map_values(f) =~= s.map_values(f).filter(shown));
    }
}

/// What is kept of the recipes is what is shown of their list.
pub proof fn lemma_views_kept(
    db: DatabaseModel,
    keep: spec_fn(PackageRowModel) -> bool,
    shown: spec_fn(PackageViewModel) -> bool,
)
    requires
        forall|r: PackageRowModel| #[trigger]
            keep(r) == shown(view_of(latest_builds(builds_of(db)), r)),
    ensures
        views_of(db, keep) == listed_views(db).filter(shown),
{
    let rows = latest_rows(recipes_of(db));
    let f = |r: PackageRowModel| view_of(latest_builds(builds_of(db)), r);
    lemma_filter_map(rows, keep, f, shown);
    lemma_filter_all(rows, every_row());
}

proof fn lemma_filter_twice<T>(
    s: Seq<T>,
    one: spec_fn(T) -> bool,
    two: spec_fn(T) -> bool,
    both: spec_fn(T) -> bool,
)
    requires
        forall|x: T| #[trigger] both(x) == (one(x) && two(x)),
    ensures
        s.filter(one).filter(two) == s.filter(both),
    decreases s.len(),
{
    if s.len() == 0 {
        reveal(Seq::filter);
        assert(s.filter(one).filter(two) =~= s.filter(both));
    } else {
        let less = s.drop_last();
        lemma_filter_twice(less, one, two, both);
        assert(s =~= less.push(s.last()));
        lemma_filter_push(less, s.last(), one);
        lemma_filter_push(less, s.last(), both);
        if one(s.last()) {
            lemma_filter_push(less.filter(one), s.last(), two);
        }
        assert(both(s.last()) == (one(s.last()) && two(s.last())));
    }
}

/// The page of a category lists just the packages of that category.
pub proof fn lemma_category_page(db: DatabaseModel, config: ConfigModel, category: Seq<char>)
    ensures
        category_page(db, config, category).rows == listed_views(db).filter(
            |v: PackageViewModel| v.category == category,
        ),
        category_page(db, config, category).category == category,
        category_page(db, config, category).rows.len() <= usize::MAX ==> category_page(
            db,
            config,
            category,
        ).total == category_page(db, config, category).rows.len(),
{
    lemma_views_kept(
        db,
        |r: PackageRowModel| r.category == category,
        |v: PackageViewModel| v.category == category,
    );
}

/// A package answers to a query: it is for the architecture, in the category
/// and in the state asked for, and has the search in its name or its
/// description, in any case. What is empty asks for nothing.
pub open spec fn answers(view: PackageViewModel, query: PackageQueryModel) -> bool {
    &&& query.arch.len() > 0 ==> view.arch == query.arch
    &&& query.category.len() > 0 ==> view.category == query.category
    &&& query.q.len() > 0 ==> occurs(lowercase(view.name), lowercase(query.q)) || occurs(
        lowercase(view.description),
        lowercase(query.q),
    )
    &&& query.state.len() == 0 || query.state == "missing"@ || query.state == "outdated"@
        || query.state == "built"@ || query.state == "ahead"@
    &&& query.state == "missing"@ ==> view.state == State::Missing
    &&& query.state == "outdated"@ ==> view.state == State::Outdated
    &&& query.state == "built"@ ==> view.state == State::Built
    &&& query.state == "ahead"@ ==> view.state == State::Ahead
}

/// The list of packages has just those that answer to the query, in the order
/// of the whole list.
pub proof fn lemma_packages_page(db: DatabaseModel, config: ConfigModel, query: PackageQueryModel)
    ensures
        packages_page(db, config, query).rows == listed_views(db).filter(
            |v: PackageViewModel| answers(v, query),
        ),
        packages_page(db, config, query).rows.len() <= usize::MAX ==> packages_page(
            db,
            config,
            query,
        ).total == packages_page(db, config, query).rows.len(),
        packages_page(db, config, query).q == query.q,
        packages_page(db, config, query).category == query.category,
        packages_page(db, config, query).state == query.state,
        packages_page(db, config, query).arch == query.arch,
{
    reveal_strlit("missing");
    reveal_strlit("outdated");
    reveal_strlit("built");
    reveal_strlit("ahead");
    assert("missing"@[0] == 'm' && "outdated"@[0] == 'o' && "built"@[0] == 'b' && "ahead"@[0]
        == 'a');
    let keep = |r: PackageRowModel|
        (query.arch.len() == 0 || r.arch == query.arch) && crate::pages::matches_search(r, query.q);
    let one = |v: PackageViewModel|
        (query.arch.len() == 0 || v.arch == query.arch) && (query.q.len() == 0 || occurs(
            lowercase(v.name),
            lowercase(query.q),
        ) || occurs(lowercase(v.description), lowercase(query.q)));
    let two = |v: PackageViewModel|
        (query.category.len() == 0 || v.category == query.category) && (query.state.len() == 0
            || v.state.label_spec() == query.state);
    let both = |v: PackageViewModel| answers(v, query);
    lemma_views_kept(db, keep, one);
    assert forall|v: PackageViewModel| #[trigger] both(v) == (one(v) && two(v)) by {}
    lemma_filter_twice(listed_views(db), one, two, both);
}

/// A list by name has the same packages as before.
proof fn lemma_by_name(views: Seq<PackageViewModel>)
    ensures
        by_name(views).len() == views.len(),
        forall|v: PackageViewModel| #[trigger] by_name(views).contains(v) <==> views.contains(v),
        forall|i: int, j: int|
            0 <= i < j < views.len() ==> text_order(
                (#[trigger] by_name(views)[i]).name,
                (#[trigger] by_name(views)[j]).name,
            ) != Side::After,
{
    let leq = |a: PackageViewModel, b: PackageViewModel| text_order(a.name, b.name) != Side::After;
    lemma_sort_permutes(views, leq);
    assert(total_preorder(leq)) by {
        assert forall|a: PackageViewModel, b: PackageViewModel| #[trigger] leq(a, b) || leq(
            b,
            a,
        ) by {
            lemma_text_order_flip(a.name, b.name);
        }
        assert forall|a: PackageViewModel, b: PackageViewModel, c: PackageViewModel| #[trigger] leq(
            a,
            b,
        ) && #[trigger] leq(b, c) implies leq(a, c) by {
            lemma_text_order_transitive(a.name, b.name, c.name);
        }
    }
    lemma_sort_ascends(views, leq);
    let sorted = by_name(views);
    assert forall|i: int, j: int| 0 <= i < j < views.len() implies text_order(
        (#[trigger] sorted[i]).name,
        (#[trigger] sorted[j]).name,
    ) != Side::After by {
        assert(leq(sorted[i], sorted[j]));
    }
    assert forall|v: PackageViewModel| #[trigger] sorted.contains(v) <==> views.contains(v) by {}
}

/// How many of the packages listed for an architecture, or for any where
/// `arch` is empty, are in a state.
pub open spec fn how_many(db: DatabaseModel, arch: Seq<char>, state: State) -> nat {
    listed_views(db).filter(
        |v: PackageViewModel| (arch.len() > 0 ==> v.arch == arch) && v.state == state,
    ).len()
}

/// The status page has under each heading just the packages in that state, by
/// name where they wait for a build, and counts those that are up to date.
pub proof fn lemma_status_page(db: DatabaseModel, config: ConfigModel, arch: Seq<char>)
    ensures
        ({
            let page = status_of(db, config, arch);
            &&& forall|v: PackageViewModel|
                #![trigger page.missing.contains(v)]
                page.missing.contains(v) <==> listed_views(db).contains(v) && v.state
                    == State::Missing && (arch.len() > 0 ==> v.arch == arch)
            &&& forall|v: PackageViewModel|
                #![trigger page.outdated.contains(v)]
                page.outdated.contains(v) <==> listed_views(db).contains(v) && v.state
                    == State::Outdated && (arch.len() > 0 ==> v.arch == arch)
            &&& forall|v: PackageViewModel|
                #![trigger page.ahead.contains(v)]
                page.ahead.contains(v) <==> listed_views(db).contains(v) && v.state == State::Ahead
                    && (arch.len() > 0 ==> v.arch == arch)
            &&& page.missing.len() == how_many(db, arch, State::Missing)
            &&& page.outdated.len() == how_many(db, arch, State::Outdated)
            &&& page.ahead.len() == how_many(db, arch, State::Ahead)
            &&& listed_views(db).len() <= usize::MAX ==> page.built == how_many(
                db,
                arch,
                State::Built,
            )
            &&& forall|i: int, j: int|
                0 <= i < j < page.missing.len() ==> text_order(
                    (#[trigger] page.missing[i]).name,
                    (#[trigger] page.missing[j]).name,
                ) != Side::After
            &&& forall|i: int, j: int|
                0 <= i < j < page.outdated.len() ==> text_order(
                    (#[trigger] page.outdated[i]).name,
                    (#[trigger] page.outdated[j]).name,
                ) != Side::After
            &&& page.arch == arch
        }),
{
    let keep = |r: PackageRowModel| arch.len() == 0 || r.arch == arch;
    let one = |v: PackageViewModel| arch.len() == 0 || v.arch == arch;
    let views = views_of(db, keep);
    lemma_views_kept(db, keep, one);
    lemma_kept(listed_views(db), one);
    lemma_state_part(db, arch, State::Missing);
    lemma_state_part(db, arch, State::Outdated);
    lemma_state_part(db, arch, State::Built);
    lemma_state_part(db, arch, State::Ahead);
    lemma_by_name(in_state(views, State::Missing));
    lemma_by_name(in_state(views, State::Outdated));
}

proof fn lemma_state_part(db: DatabaseModel, arch: Seq<char>, state: State)
    ensures
        ({
            let views = views_of(db, |r: PackageRowModel| arch.len() == 0 || r.arch == arch);
            &&& in_state(views, state).len() == how_many(db, arch, state)
            &&& state_count(views, state) == how_many(db, arch, state)
            &&& how_many(db, arch, state) <= listed_views(db).len()
            &&& forall|v: PackageViewModel|
                #![trigger in_state(views, state).contains(v)]
                in_state(views, state).contains(v) <==> listed_views(db).contains(v) && v.state
                    == state && (arch.len() > 0 ==> v.arch == arch)
        }),
{
    let keep = |r: PackageRowModel| arch.len() == 0 || r.arch == arch;
    let one = |v: PackageViewModel| arch.len() == 0 || v.arch == arch;
    let two = |v: PackageViewModel| v.state == state;
    let both = |v: PackageViewModel| (arch.len() > 0 ==> v.arch == arch) && v.state == state;
    lemma_views_kept(db, keep, one);
    lemma_filter_twice(listed_views(db), one, two, both);
    lemma_kept(listed_views(db), both);
    listed_views(db).lemma_filter_len(both);
}

/// The front page counts all packages listed, and those in each state.
pub proof fn lemma_front_page(db: DatabaseModel, config: ConfigModel)
    requires
        listed_views(db).len() <= usize::MAX,
        listed_views(db).len() <= i64::MAX,
    ensures
        ({
            let page = index_page(db, config);
            let all = Seq::<char>::empty();
            &&& page.total == listed_views(db).len()
            &&& page.missing == how_many(db, all, State::Missing)
            &&& page.outdated == how_many(db, all, State::Outdated)
            &&& page.built == how_many(db, all, State::Built)
            &&& page.ahead == how_many(db, all, State::Ahead)
            &&& page.missing + page.outdated + page.built + page.ahead == page.total
        }),
{
    let none = Seq::<char>::empty();
    let keep = |r: PackageRowModel| none.len() == 0 || r.arch == none;
    let rows = latest_rows(recipes_of(db));
    lemma_filter_all(rows, keep);
    lemma_filter_all(rows, every_row());
    assert(views_of(db, keep) =~= listed_views(db));
    lemma_state_part(db, none, State::Missing);
    lemma_state_part(db, none, State::Outdated);
    lemma_state_part(db, none, State::Built);
    lemma_state_part(db, none, State::Ahead);
    lemma_states_partition(listed_views(db));
}

/// The architectures to choose from are just those of the packages listed, in
/// order and each once.
pub proof fn lemma_arches_to_choose(db: DatabaseModel, arch: Seq<char>)
    ensures
        all_arches(db).contains(arch) <==> exists|k: int|
            0 <= k < db.recipes.len() && canonical((#[trigger] db.recipes[k]).1.package.arch)
                == arch,
        forall|i: int, j: int|
            0 <= i < j < all_arches(db).len() ==> text_order(
                #[trigger] all_arches(db)[i],
                #[trigger] all_arches(db)[j],
            ) == Side::Before,
{
    let rows = latest_rows(recipes_of(db));
    let names = rows.map_values(|r: PackageRowModel| r.arch);
    lemma_text_set(names);
    if names.contains(arch) {
        let i = names.index_of(arch);
        lemma_listed_newest(db, i);
        let k = choose|k: int|
            0 <= k < db.recipes.len() && row_tells(rows[i], (#[trigger] db.recipes[k]).1)
                && forall|j: int|
                0 <= j < db.recipes.len() && one_package(
                    (#[trigger] db.recipes[j]).1,
                    db.recipes[k].1,
                ) ==> !newer_recipe(db.recipes[j].1, db.recipes[k].1);
        assert(canonical(db.recipes[k].1.package.arch) == arch);
    }
    if exists|k: int|
        0 <= k < db.recipes.len() && canonical((#[trigger] db.recipes[k]).1.package.arch) == arch {
        let k = choose|k: int|
            0 <= k < db.recipes.len() && canonical((#[trigger] db.recipes[k]).1.package.arch)
                == arch;
        lemma_package_listed(db, k);
        let p = db.recipes[k].1.package;
        let i = choose|i: int|
            0 <= i < rows.len() && ({
                let row = #[trigger] rows[i];
                row.name == p.name && row.arch == canonical(p.arch) && row.channel == p.channel
                    && row.slot == p.slot
            });
        assert(names[i] == arch);
        assert(names.contains(arch));
    }
}

proof fn lemma_text_set_size(s: Seq<Seq<char>>)
    ensures
        text_set(s).len() == s.to_set().len(),
        text_set(s).len() <= s.len(),
{
    let r = text_set(s);
    lemma_text_set(s);
    assert forall|i: int, j: int| 0 <= i < r.len() && 0 <= j < r.len() && i != j implies r[i]
        != r[j] by {
        lemma_text_order_same(r[i], r[j]);
        if i < j {
            assert(text_order(r[i], r[j]) == Side::Before);
        } else {
            assert(text_order(r[j], r[i]) == Side::Before);
            lemma_text_order_same(r[j], r[i]);
        }
    }
    assert(r.no_duplicates());
    r.unique_seq_to_set();
    assert(r.to_set() =~= s.to_set()) by {
        assert forall|t: Seq<char>| r.to_set().contains(t) <==> s.to_set().contains(t) by {
            assert(r.contains(t) <==> s.contains(t));
        }
    }
    s.lemma_cardinality_of_set();
}

/// The front page has just the categories of the packages listed, in order,
/// each with the number of names in it.
pub proof fn lemma_categories(db: DatabaseModel, config: ConfigModel, category: Seq<char>)
    requires
        listed_views(db).len() <= i64::MAX,
    ensures
        ({
            let counts = index_page(db, config).categories;
            &&& (exists|k: int| 0 <= k < counts.len() && (#[trigger] counts[k]).name == category)
                <==> category_page(db, config, category).rows.len() > 0
            &&& forall|k: int|
                0 <= k < counts.len() && (#[trigger] counts[k]).name == category ==> counts[k].count
                    == category_page(db, config, category).rows.map_values(
                    |v: PackageViewModel| v.name,
                ).to_set().len()
            &&& forall|i: int, j: int|
                0 <= i < j < counts.len() ==> text_order(
                    (#[trigger] counts[i]).name,
                    (#[trigger] counts[j]).name,
                ) == Side::Before
        }),
{
    let rows = latest_rows(recipes_of(db));
    let counts = index_page(db, config).categories;
    let all = rows.map_values(|r: PackageRowModel| r.category);
    let inside = |r: PackageRowModel| r.category == category;
    let kept = rows.filter(inside);
    let names = kept.map_values(|r: PackageRowModel| r.name);
    let shown = category_page(db, config, category).rows;
    lemma_views_all(db);
    lemma_text_set(all);
    lemma_text_set_size(names);
    lemma_kept(rows, inside);
    rows.lemma_filter_len(inside);
    assert(shown.len() == kept.len());
    assert(names =~= shown.map_values(|v: PackageViewModel| v.name));
    let set = text_set(all);
    assert(counts.len() == set.len());
    assert forall|i: int, j: int| 0 <= i < j < counts.len() implies text_order(
        (#[trigger] counts[i]).name,
        (#[trigger] counts[j]).name,
    ) == Side::Before by {
        assert(counts[i].name == set[i] && counts[j].name == set[j]);
    }
    if shown.len() > 0 {
        assert(kept.contains(kept[0]));
        let m = rows.index_of(kept[0]);
        assert(all[m] == category);
        assert(all.contains(category));
        let k = set.index_of(category);
        assert(counts[k].name == category);
    }
    if exists|k: int| 0 <= k < counts.len() && (#[trigger] counts[k]).name == category {
        let k = choose|k: int| 0 <= k < counts.len() && (#[trigger] counts[k]).name == category;
        assert(set[k] == category);
        assert(set.contains(category));
        assert(all.contains(category));
        let m = all.index_of(category);
        assert(rows.contains(rows[m]));
        assert(inside(rows[m]));
        assert(kept.contains(rows[m]));
    }
    assert forall|k: int|
        0 <= k < counts.len() && (#[trigger] counts[k]).name == category implies counts[k].count
        == shown.map_values(|v: PackageViewModel| v.name).to_set().len() by {
        assert(set[k] == category);
        assert(counts[k].count == category_size(rows, set[k]) as i64);
        assert(category_size(rows, category) == text_set(names).len());
    }
}

/// Every page has the links of the site, and those that ask for an architecture
/// have all there are to choose from. The page of a category asks for nothing
/// else, and the front page has the last eight synchronizations and the commit
/// of the recipes in short.
pub proof fn lemma_page_frames(
    db: DatabaseModel,
    config: ConfigModel,
    query: PackageQueryModel,
    category: Seq<char>,
    arch: Seq<char>,
)
    ensures
        ({
            let front = index_page(db, config);
            let list = packages_page(db, config, query);
            let part = category_page(db, config, category);
            let states = status_of(db, config, arch);
            let commit = entry_at(db.meta, "last_commit"@);
            &&& front.nav == nav_of(config) && list.nav == nav_of(config) && part.nav == nav_of(
                config,
            ) && states.nav == nav_of(config) && about_of(db, config).nav == nav_of(config)
            &&& list.arches == all_arches(db) && states.arches == all_arches(db) && states.arch
                == arch
            &&& part.q.len() == 0 && part.state.len() == 0 && part.arch.len() == 0
                && part.arches.len() == 0
            &&& front.recent_syncs == last_syncs(db, 8)
            &&& commit is None ==> front.commit.len() == 0
            &&& commit is Some ==> front.commit == "recipes@"@ + about_of(db, config).source.commit
            &&& about_of(db, config).version == "0.1.6"@
        }),
{
}

} // verus!
