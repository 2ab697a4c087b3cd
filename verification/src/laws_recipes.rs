//! What holds of the recipes: what a synchronization takes over, and what the
//! tables tell of it.

use vstd::prelude::*;

use crate::config::{git_dir_of, ConfigModel};
use crate::db::{
    dependent_names, depends_on, lemma_recipe_table_ordered, lemma_recipes_read_back,
    provider_names, recipe_key_of, recipe_table, recipes_of, DatabaseModel,
};
use crate::digits::{decimal, is_digit, lemma_decimal_digits, lemma_numeral_round_trip};
use crate::list::lemma_kept;
use crate::model::{DependencyModel, PackageModel};
use crate::order::{lemma_filter_push, lemma_sort_permutes};
use crate::path::{components_of, is_step, origin_of};
use crate::records::RecipeRecordModel;
use crate::split::{lemma_split_concat, lemma_split_plain, split_on};
use crate::sync::{
    at_commit, category_of, collected, coordinate_leq, coordinate_order, gathered, lemma_collected,
    lemma_coordinate_order, lemma_gathered, synced, FoundRecipeModel, PulledModel,
};
use crate::table::{entry_at, lemma_entry_unique, lemma_put, lemma_text_set, values_of};
use crate::text::{text_order, Side};

verus! {

// ---------------------------------------------------------------------------
// Dependencies
// ---------------------------------------------------------------------------

/// A package is told to depend on `name` just where one of its recipes has a
/// dependency of that name, anywhere in its list. Each is told once, in order.
pub proof fn lemma_reverse_deps(db: DatabaseModel, name: Seq<char>, dependent: Seq<char>)
    ensures
        dependent_names(recipes_of(db), name).contains(dependent) <==> exists|i: int, k: int|
            0 <= i < db.recipes.len() && 0 <= k < db.recipes[i].1.package.dependencies.len()
                && db.recipes[i].1.package.name == dependent && (
            #[trigger] db.recipes[i].1.package.dependencies[k]).name == name,
        forall|a: int, b: int|
            0 <= a < b < dependent_names(recipes_of(db), name).len() ==> text_order(
                #[trigger] dependent_names(recipes_of(db), name)[a],
                #[trigger] dependent_names(recipes_of(db), name)[b],
            ) == Side::Before,
{
    let all = recipes_of(db);
    let keep = |r: RecipeRecordModel| depends_on(r, name);
    let kept = all.filter(keep);
    let names = kept.map_values(|r: RecipeRecordModel| r.package.name);
    lemma_text_set(names);
    lemma_kept(all, keep);
    if names.contains(dependent) {
        let j = names.index_of(dependent);
        let r = kept[j];
        assert(kept.contains(r));
        let i = all.index_of(r);
        assert(db.recipes[i].1 == r);
        let deps = r.package.dependencies.map_values(|d: DependencyModel| d.name);
        let k = deps.index_of(name);
        assert(deps[k] == name);
        assert(db.recipes[i].1.package.dependencies[k].name == name);
    }
    if exists|i: int, k: int|
        0 <= i < db.recipes.len() && 0 <= k < db.recipes[i].1.package.dependencies.len()
            && db.recipes[i].1.package.name == dependent && (
        #[trigger] db.recipes[i].1.package.dependencies[k]).name == name {
        let (i, k) = choose|i: int, k: int|
            0 <= i < db.recipes.len() && 0 <= k < db.recipes[i].1.package.dependencies.len()
                && db.recipes[i].1.package.name == dependent && (
            #[trigger] db.recipes[i].1.package.dependencies[k]).name == name;
        let r = db.recipes[i].1;
        let deps = r.package.dependencies.map_values(|d: DependencyModel| d.name);
        assert(deps[k] == name);
        assert(deps.contains(name));
        assert(all[i] == r);
        assert(all.contains(r) && keep(r));
        assert(kept.contains(r));
        let j = kept.index_of(r);
        assert(names[j] == dependent);
        assert(names.contains(dependent));
    }
}

/// A package is told to provide `name` just where one of its recipes lists
/// that name, anywhere. Each is told once, in order.
pub proof fn lemma_providers(db: DatabaseModel, name: Seq<char>, provider: Seq<char>)
    ensures
        provider_names(recipes_of(db), name).contains(provider) <==> exists|i: int, k: int|
            0 <= i < db.recipes.len() && 0 <= k < db.recipes[i].1.package.provides.len()
                && db.recipes[i].1.package.name == provider
                && #[trigger] db.recipes[i].1.package.provides[k] == name,
        forall|a: int, b: int|
            0 <= a < b < provider_names(recipes_of(db), name).len() ==> text_order(
                #[trigger] provider_names(recipes_of(db), name)[a],
                #[trigger] provider_names(recipes_of(db), name)[b],
            ) == Side::Before,
{
    let all = recipes_of(db);
    let keep = |r: RecipeRecordModel| r.package.provides.contains(name);
    let kept = all.filter(keep);
    let names = kept.map_values(|r: RecipeRecordModel| r.package.name);
    lemma_text_set(names);
    lemma_kept(all, keep);
    if names.contains(provider) {
        let j = names.index_of(provider);
        let r = kept[j];
        assert(kept.contains(r));
        let i = all.index_of(r);
        assert(db.recipes[i].1 == r);
        let k = r.package.provides.index_of(name);
        assert(db.recipes[i].1.package.provides[k] == name);
    }
    if exists|i: int, k: int|
        0 <= i < db.recipes.len() && 0 <= k < db.recipes[i].1.package.provides.len()
            && db.recipes[i].1.package.name == provider
            && #[trigger] db.recipes[i].1.package.provides[k] == name {
        let (i, k) = choose|i: int, k: int|
            0 <= i < db.recipes.len() && 0 <= k < db.recipes[i].1.package.provides.len()
                && db.recipes[i].1.package.name == provider
                && #[trigger] db.recipes[i].1.package.provides[k] == name;
        let r = db.recipes[i].1;
        assert(all[i] == r);
        assert(all.contains(r) && keep(r));
        assert(kept.contains(r));
        let j = kept.index_of(r);
        assert(names[j] == provider);
        assert(names.contains(provider));
    }
}

// ---------------------------------------------------------------------------
// Synchronizations
// ---------------------------------------------------------------------------

/// `category` is what `path` has before its first slash.
pub open spec fn leads(category: Seq<char>, path: Seq<char>) -> bool {
    &&& category.len() < path.len()
    &&& path[category.len() as int] == '/'
    &&& forall|m: int| 0 <= m < category.len() ==> path[m] == #[trigger] category[m]
    &&& forall|m: int| 0 <= m < category.len() ==> #[trigger] category[m] != '/'
}

/// The record of a recipe found at a path: everything that Sage read in the
/// recipe, the tree, the path and, as the category, the directory that the
/// path begins with.
pub open spec fn records_recipe(
    record: RecipeRecordModel,
    found: FoundRecipeModel,
    origin: Seq<char>,
    commit: Seq<char>,
) -> bool {
    &&& found.recipe is Ok
    &&& record.package == found.recipe->Ok_0.package
    &&& record.source_url == found.recipe->Ok_0.source_url
    &&& record.source_sha256 == found.recipe->Ok_0.source_sha256
    &&& record.origin == origin
    &&& record.recipe_path == found.path
    &&& record.git_commit == commit
    &&& forall|c: Seq<char>| c.len() > 0 && c != "."@ && #[trigger] leads(c, found.path)
        ==> record.category == c
}

/// Whatever the number of its components, the category of a path is the first.
proof fn lemma_category(path: Seq<char>, c: Seq<char>)
    requires
        c.len() > 0,
        c != "."@,
        leads(c, path),
    ensures
        category_of(path) == c,
{
    let rest = path.skip(c.len() as int + 1);
    let step = |piece: Seq<char>| is_step(piece);
    assert(path =~= c + seq!['/'] + rest);
    assert(!c.contains('/')) by {
        if c.contains('/') {
            assert(c[c.index_of('/')] == '/');
        }
    }
    lemma_split_concat(c, rest, '/');
    lemma_split_plain(c, '/');
    Seq::filter_distributes_over_add(seq![c], split_on(rest, '/'), step);
    assert(seq![c] =~= Seq::<Seq<char>>::empty().push(c));
    lemma_filter_push(Seq::<Seq<char>>::empty(), c, step);
    assert(Seq::<Seq<char>>::empty().filter(step) =~= Seq::<Seq<char>>::empty()) by {
        reveal(Seq::filter);
    }
    assert(path[0] == c[0]);
    assert(split_on(path, '/')[0] == c);
    assert(origin_of(path) =~= Seq::<Seq<char>>::empty());
    assert(components_of(path)[0] == c);
}

proof fn lemma_gathered_records(
    git_dir: Seq<char>,
    found: Seq<FoundRecipeModel>,
    origin: Seq<char>,
    i: int,
)
    requires
        gathered(git_dir, found, origin) is Ok,
        0 <= i < found.len(),
    ensures
        gathered(git_dir, found, origin)->Ok_0.len() == found.len(),
        records_recipe(
            gathered(git_dir, found, origin)->Ok_0[i],
            found[i],
            origin,
            Seq::empty(),
        ),
{
    let all = gathered(git_dir, found, origin)->Ok_0;
    lemma_gathered(git_dir, found, origin);
    assert(found[i].recipe is Ok);
    assert forall|c: Seq<char>| c.len() > 0 && c != "."@ && #[trigger] leads(
        c,
        found[i].path,
    ) implies all[i].category == c by {
        lemma_category(found[i].path, c);
    }
}

/// Every recipe found has its record.
pub proof fn lemma_recipe_recorded(
    git_dir: Seq<char>,
    found: Seq<FoundRecipeModel>,
    origin: Seq<char>,
    i: int,
)
    requires
        collected(git_dir, found, origin) is Ok,
        0 <= i < found.len(),
    ensures
        exists|k: int|
            0 <= k < collected(git_dir, found, origin)->Ok_0.len() && records_recipe(
                #[trigger] collected(git_dir, found, origin)->Ok_0[k],
                found[i],
                origin,
                Seq::empty(),
            ),
{
    let records = collected(git_dir, found, origin)->Ok_0;
    let all = gathered(git_dir, found, origin)->Ok_0;
    lemma_gathered_records(git_dir, found, origin, i);
    lemma_sort_permutes(
        all,
        |a: RecipeRecordModel, b: RecipeRecordModel| coordinate_leq(a, b),
    );
    assert(all.contains(all[i]));
    assert(records.contains(all[i]));
    let k = records.index_of(all[i]);
    assert(records_recipe(records[k], found[i], origin, Seq::empty()));
}

/// Every record is that of a recipe found, and there are as many.
pub proof fn lemma_record_found(
    git_dir: Seq<char>,
    found: Seq<FoundRecipeModel>,
    origin: Seq<char>,
    k: int,
)
    requires
        collected(git_dir, found, origin) is Ok,
        0 <= k < collected(git_dir, found, origin)->Ok_0.len(),
    ensures
        collected(git_dir, found, origin)->Ok_0.len() == found.len(),
        exists|i: int|
            0 <= i < found.len() && records_recipe(
                collected(git_dir, found, origin)->Ok_0[k],
                #[trigger] found[i],
                origin,
                Seq::empty(),
            ),
{
    let records = collected(git_dir, found, origin)->Ok_0;
    let all = gathered(git_dir, found, origin)->Ok_0;
    lemma_gathered(git_dir, found, origin);
    lemma_sort_permutes(
        all,
        |a: RecipeRecordModel, b: RecipeRecordModel| coordinate_leq(a, b),
    );
    assert(records.contains(records[k]));
    assert(all.contains(records[k]));
    let i = all.index_of(records[k]);
    lemma_gathered_records(git_dir, found, origin, i);
    assert(records_recipe(records[k], found[i], origin, Seq::empty()));
}

proof fn lemma_first_colon(x: Seq<char>, y: Seq<char>, u: Seq<char>, v: Seq<char>)
    requires
        x + seq![':'] + y == u + seq![':'] + v,
        !x.contains(':'),
        !u.contains(':'),
    ensures
        x == u,
        y == v,
{
    let s = x + seq![':'] + y;
    let t = u + seq![':'] + v;
    assert(s[x.len() as int] == ':' && t[u.len() as int] == ':');
    if x.len() < u.len() {
        assert(u[x.len() as int] == t[x.len() as int]);
        assert(u.contains(':'));
    } else if u.len() < x.len() {
        assert(x[u.len() as int] == s[u.len() as int]);
        assert(x.contains(':'));
    }
    assert(x =~= s.take(x.len() as int) && u =~= t.take(u.len() as int));
    assert(y =~= s.skip(x.len() as int + 1) && v =~= t.skip(u.len() as int + 1));
}

proof fn lemma_decimal_no_colon(n: nat)
    ensures
        !decimal(n).contains(':'),
{
    lemma_decimal_digits(n);
    if decimal(n).contains(':') {
        assert(is_digit(decimal(n)[decimal(n).index_of(':')]));
    }
}

/// None of the texts that tell packages apart has a colon.
pub open spec fn colon_free(p: PackageModel) -> bool {
    !p.channel.contains(':') && !p.name.contains(':') && !p.slot.contains(':') && !p.arch.contains(
        ':',
    )
}

/// Channel, name, slot, architecture, epoch and full version are the same.
pub open spec fn same_recipe(p: PackageModel, q: PackageModel) -> bool {
    p.channel == q.channel && p.name == q.name && p.slot == q.slot && p.arch == q.arch && p.epoch
        == q.epoch && p.coordinate == q.coordinate
}

/// Recipes share a key just where channel, name, slot, architecture, epoch
/// and full version are the same.
pub proof fn lemma_recipe_keys(a: RecipeRecordModel, b: RecipeRecordModel)
    requires
        colon_free(a.package),
        colon_free(b.package),
    ensures
        recipe_key_of(a) == recipe_key_of(b) <==> same_recipe(a.package, b.package),
{
    let p = a.package;
    let q = b.package;
    let c = seq![':'];
    lemma_decimal_no_colon(p.epoch as nat);
    lemma_decimal_no_colon(q.epoch as nat);
    lemma_numeral_round_trip(p.epoch);
    lemma_numeral_round_trip(q.epoch);
    let p5 = decimal(p.epoch as nat) + c + p.coordinate;
    let q5 = decimal(q.epoch as nat) + c + q.coordinate;
    let p4 = p.arch + c + p5;
    let q4 = q.arch + c + q5;
    let p3 = p.slot + c + p4;
    let q3 = q.slot + c + q4;
    let p2 = p.name + c + p3;
    let q2 = q.name + c + q3;
    assert(recipe_key_of(a) =~= p.channel + c + p2);
    assert(recipe_key_of(b) =~= q.channel + c + q2);
    if recipe_key_of(a) == recipe_key_of(b) {
        lemma_first_colon(p.channel, p2, q.channel, q2);
        lemma_first_colon(p.name, p3, q.name, q3);
        lemma_first_colon(p.slot, p4, q.slot, q4);
        lemma_first_colon(p.arch, p5, q.arch, q5);
        lemma_first_colon(
            decimal(p.epoch as nat),
            p.coordinate,
            decimal(q.epoch as nat),
            q.coordinate,
        );
    }
}

proof fn lemma_table_members(records: Seq<RecipeRecordModel>, k: int)
    requires
        0 <= k < recipe_table(records).len(),
    ensures
        records.contains(recipe_table(records)[k].1),
    decreases records.len(),
{
    if records.len() > 0 {
        let less = records.drop_last();
        let before = recipe_table(less);
        let key = recipe_key_of(records.last());
        let table = recipe_table(records);
        lemma_recipe_table_ordered(less);
        lemma_recipe_table_ordered(records);
        lemma_put(before, key, records.last());
        lemma_entry_unique(table, k);
        let own = table[k].0;
        if own == key {
            assert(records[records.len() - 1] == records.last());
        } else {
            assert(entry_at(before, own) == Some(table[k].1));
            let m = choose|m: int| 0 <= m < before.len() && (#[trigger] before[m]).0 == own;
            lemma_entry_unique(before, m);
            lemma_table_members(less, m);
            let n = less.index_of(before[m].1);
            assert(records[n] == less[n]);
        }
    }
}

/// A synchronization that succeeds counts the recipes found, keeps records of
/// these and no others, and leaves everything but the recipes and its notes as
/// it was.
pub proof fn lemma_sync_takes_recipes(db: DatabaseModel, config: ConfigModel, pulled: PulledModel)
    requires
        synced(db, config, pulled) is Ok,
    ensures
        ({
            let (after, report) = synced(db, config, pulled)->Ok_0;
            &&& report.count == pulled.recipes.len()
            &&& after.published == db.published && after.files == db.files && after.logs == db.logs
            &&& after.tokens == db.tokens && after.sync_log == db.sync_log && after.db_path
                == db.db_path
        }),
        forall|k: int|
            0 <= k < synced(db, config, pulled)->Ok_0.0.recipes.len() ==> exists|i: int|
                0 <= i < pulled.recipes.len() && records_recipe(
                    (#[trigger] synced(db, config, pulled)->Ok_0.0.recipes[k]).1,
                    #[trigger] pulled.recipes[i],
                    config.git_url,
                    pulled.commit,
                ),
{
    let git_dir = git_dir_of(config);
    let after = synced(db, config, pulled)->Ok_0.0;
    let records = collected(git_dir, pulled.recipes, config.git_url)->Ok_0;
    let seen = records.map_values(|r: RecipeRecordModel| at_commit(r, pulled.commit));
    lemma_collected(git_dir, pulled.recipes, config.git_url);
    assert forall|k: int| 0 <= k < after.recipes.len() implies exists|i: int|
        0 <= i < pulled.recipes.len() && records_recipe(
            (#[trigger] after.recipes[k]).1,
            #[trigger] pulled.recipes[i],
            config.git_url,
            pulled.commit,
        ) by {
        lemma_table_members(seen, k);
        let m = seen.index_of(after.recipes[k].1);
        lemma_record_found(git_dir, pulled.recipes, config.git_url, m);
        let i = choose|i: int|
            0 <= i < pulled.recipes.len() && records_recipe(
                records[m],
                #[trigger] pulled.recipes[i],
                config.git_url,
                Seq::empty(),
            );
        assert(records_recipe(seen[m], pulled.recipes[i], config.git_url, pulled.commit));
    }
}

/// A recipe found is among the records after a synchronization, unless another
/// one found is the same in all that tells recipes apart.
pub proof fn lemma_sync_keeps_recipe(
    db: DatabaseModel,
    config: ConfigModel,
    pulled: PulledModel,
    i: int,
)
    requires
        synced(db, config, pulled) is Ok,
        0 <= i < pulled.recipes.len(),
        forall|j: int|
            0 <= j < pulled.recipes.len() && (#[trigger] pulled.recipes[j]).recipe is Ok
                ==> colon_free(pulled.recipes[j].recipe->Ok_0.package) && (j != i ==> !same_recipe(
                pulled.recipes[j].recipe->Ok_0.package,
                pulled.recipes[i].recipe->Ok_0.package,
            )),
    ensures
        exists|k: int|
            0 <= k < synced(db, config, pulled)->Ok_0.0.recipes.len() && records_recipe(
                (#[trigger] synced(db, config, pulled)->Ok_0.0.recipes[k]).1,
                pulled.recipes[i],
                config.git_url,
                pulled.commit,
            ),
{
    let git_dir = git_dir_of(config);
    let after = synced(db, config, pulled)->Ok_0.0;
    let found = pulled.recipes;
    let records = collected(git_dir, found, config.git_url)->Ok_0;
    let seen = records.map_values(|r: RecipeRecordModel| at_commit(r, pulled.commit));
    lemma_recipe_recorded(git_dir, found, config.git_url, i);
    lemma_collected(git_dir, found, config.git_url);
    let n = choose|n: int|
        0 <= n < found.len() && records_recipe(
            #[trigger] records[n],
            found[i],
            config.git_url,
            Seq::empty(),
        );
    assert(records_recipe(records[n], found[i], config.git_url, Seq::empty()));
    assert forall|m: int| n < m < seen.len() implies recipe_key_of(#[trigger] seen[m])
        != recipe_key_of(seen[n]) by {
        lemma_record_found(git_dir, found, config.git_url, m);
        let j = choose|j: int|
            0 <= j < found.len() && records_recipe(
                records[m],
                #[trigger] found[j],
                config.git_url,
                Seq::empty(),
            );
        assert(coordinate_order(records[n], records[m]) == Side::Before);
        lemma_coordinate_order(records[n], records[m], records[n]);
        assert(found[j].recipe is Ok && found[i].recipe is Ok);
        assert(j != i);
        lemma_recipe_keys(seen[m], seen[n]);
    }
    lemma_recipes_read_back(seen, n);
    let values = values_of(recipe_table(seen));
    let k = values.index_of(seen[n]);
    assert(after.recipes[k].1 == seen[n]);
    assert(records_recipe(after.recipes[k].1, found[i], config.git_url, pulled.commit));
}

} // verus!
