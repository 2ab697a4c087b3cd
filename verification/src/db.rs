//! The state of the hub: its tables, the questions they answer and the
//! changes they undergo.

use vstd::prelude::*;
use vstd::string::*;
use vstd::utf8::*;

pub use crate::calendar::{time_hm_pub, time_utc};
pub use crate::records::{
    CategoryCount, FileLine, LogRow, PackageRow, PublishedRow, RecipeRecord, SyncEntry,
};
use crate::digest::{hex_of, sha256_digest, sha256_hex, to_hex};
use crate::digits::{decimal, decimal_text, padded, padded_text};
use crate::list::{
    best_of, best_per_key, find_first, first_of, first_where, keep_list, leading,
    lemma_best_per_key, map_list,
};
use crate::model::{canonical, canonical_arch, copy_list, DependencyModel};
use crate::order::{
    by_key, lemma_sort_permutes, lemma_sorted_by_key, sort_list, sorted_set, stable_sort, text_set,
};
use crate::records::{
    package_row, row_of, CategoryCountModel, FileLineModel, LogRowModel, ManifestMeta,
    ManifestMetaModel, PackageRowModel, PublishedRowModel, RecipeRecordModel, SyncEntryModel,
    TokenRecord, TokenRecordModel,
};
use crate::status::{
    lemma_version_order, order_text_versions, order_versions, version_of, version_order,
    VersionModel,
};
use crate::table::{
    drop_entry, entry_at, has_key, keys_ascend, lemma_drop, lemma_entry_unique, lemma_put,
    put_entry, values_of, Table,
};
use crate::text::{
    holds_text, int_order, joined, order_i64, order_text, order_texts, same_text, text_order,
    texts_order, Side,
};

verus! {

// ---------------------------------------------------------------------------
// The tables
// ---------------------------------------------------------------------------

/// The tables of the hub.
pub struct Database {
    pub recipes: Table<RecipeRecord>,
    pub published: Table<PublishedRow>,
    pub files: Table<Vec<FileLine>>,
    pub logs: Table<LogRow>,
    pub tokens: Table<TokenRecord>,
    pub meta: Table<String>,
    pub sync_log: Table<SyncEntry>,
    pub db_path: String,
}

#[verifier::ext_equal]
pub struct DatabaseModel {
    pub recipes: Seq<(Seq<char>, RecipeRecordModel)>,
    pub published: Seq<(Seq<char>, PublishedRowModel)>,
    pub files: Seq<(Seq<char>, Seq<FileLineModel>)>,
    pub logs: Seq<(Seq<char>, LogRowModel)>,
    pub tokens: Seq<(Seq<char>, TokenRecordModel)>,
    pub meta: Seq<(Seq<char>, Seq<char>)>,
    pub sync_log: Seq<(Seq<char>, SyncEntryModel)>,
    pub db_path: Seq<char>,
}

impl View for Database {
    type V = DatabaseModel;

    open spec fn view(&self) -> DatabaseModel {
        DatabaseModel {
            recipes: self.recipes.entries(),
            published: self.published.entries(),
            files: self.files.entries(),
            logs: self.logs.entries(),
            tokens: self.tokens.entries(),
            meta: self.meta.entries(),
            sync_log: self.sync_log.entries(),
            db_path: self.db_path@,
        }
    }
}

/// The keys of every table ascend.
pub open spec fn tables_ordered(db: DatabaseModel) -> bool {
    &&& keys_ascend(db.recipes)
    &&& keys_ascend(db.published)
    &&& keys_ascend(db.files)
    &&& keys_ascend(db.logs)
    &&& keys_ascend(db.tokens)
    &&& keys_ascend(db.meta)
    &&& keys_ascend(db.sync_log)
}

/// A state with nothing in its tables.
pub open spec fn empty_state(db_path: Seq<char>) -> DatabaseModel {
    DatabaseModel {
        recipes: Seq::empty(),
        published: Seq::empty(),
        files: Seq::empty(),
        logs: Seq::empty(),
        tokens: Seq::empty(),
        meta: Seq::empty(),
        sync_log: Seq::empty(),
        db_path,
    }
}

/// What is said where a file stands in the place of the state directory.
pub open spec fn not_a_directory(db_path: Seq<char>) -> Seq<char> {
    "database path "@ + db_path + " is a file; Sage 0.4 state requires an LMDB directory"@
}

/// The state to fill from the directory at `db_path`, of which `exists` and
/// `is_dir` tell what stands there.
pub fn open(db_path: &str, exists: bool, is_dir: bool) -> (r: Result<Database, String>)
    ensures
        r is Err <==> exists && !is_dir,
        r matches Err(message) ==> message@ == not_a_directory(db_path@),
        r matches Ok(db) ==> db@ == empty_state(db_path@),
{
    if exists && !is_dir {
        return Err(
            joined(
                &joined("database path ", db_path),
                " is a file; Sage 0.4 state requires an LMDB directory",
            ),
        );
    }
    Ok(
        Database {
            recipes: Table::new(),
            published: Table::new(),
            files: Table::new(),
            logs: Table::new(),
            tokens: Table::new(),
            meta: Table::new(),
            sync_log: Table::new(),
            db_path: db_path.to_owned(),
        },
    )
}

impl Database {
    /// Where the state is kept.
    pub fn path(&self) -> (r: &str)
        ensures
            r@ == self@.db_path,
    {
        self.db_path.as_str()
    }
}

/// The values of a table, in the order of their keys.
fn read_all<T: DeepView + Clone>(table: &Table<T>) -> (r: Vec<T>)
    requires
        forall|a: T, b: T| #[trigger]
            call_ensures(T::clone, (&a,), b) ==> b.deep_view() == a.deep_view(),
    ensures
        r.deep_view() == values_of(table.entries()),
{
    let ghost want = values_of(table.entries());
    let mut out: Vec<T> = Vec::new();
    let mut i: usize = 0;
    assert(out.deep_view() =~= want.take(0));
    while i < table.len()
        invariant
            forall|a: T, b: T| #[trigger]
                call_ensures(T::clone, (&a,), b) ==> b.deep_view() == a.deep_view(),
            want == values_of(table.entries()),
            i <= table.entries().len(),
            out.deep_view() == want.take(i as int),
        decreases table.entries().len() - i,
    {
        let copy = table.value_at(i).clone();
        let ghost c = copy.deep_view();
        let ghost before = out.deep_view();
        out.push(copy);
        assert(out.deep_view() =~= before.push(c));
        assert(want.take(i as int).push(want[i as int]) =~= want.take(i + 1));
        i += 1;
    }
    assert(want.take(i as int) =~= want);
    out
}

// ---------------------------------------------------------------------------
// Recipes
// ---------------------------------------------------------------------------

pub open spec fn recipes_of(db: DatabaseModel) -> Seq<RecipeRecordModel> {
    values_of(db.recipes)
}

/// The key of a recipe: channel, name, slot, architecture, epoch and full
/// version.
pub open spec fn recipe_key_of(record: RecipeRecordModel) -> Seq<char> {
    let p = record.package;
    p.channel + seq![':'] + p.name + seq![':'] + p.slot + seq![':'] + p.arch + seq![':'] + decimal(
        p.epoch as nat,
    ) + seq![':'] + p.coordinate
}

/// The key of a recipe.
pub fn recipe_key(record: &RecipeRecord) -> (r: String)
    ensures
        r@ == recipe_key_of(record.deep_view()),
{
    let p = &record.package;
    let mut out = p.channel.clone();
    out.push(':');
    out.append(&p.name);
    out.push(':');
    out.append(&p.slot);
    out.push(':');
    out.append(&p.arch);
    out.push(':');
    out.append(&decimal_text(p.epoch as u128));
    out.push(':');
    out.append(&p.coordinate);
    assert(out@ =~= recipe_key_of(record.deep_view()));
    out
}

/// The table of the given recipes; of two with one key the later one stays.
pub open spec fn recipe_table(records: Seq<RecipeRecordModel>) -> Seq<
    (Seq<char>, RecipeRecordModel),
>
    decreases records.len(),
{
    if records.len() == 0 {
        Seq::empty()
    } else {
        put_entry(
            recipe_table(records.drop_last()),
            recipe_key_of(records.last()),
            records.last(),
        )
    }
}

/// Replaces all recipes by the given ones.
pub fn rebuild_packages(database: &mut Database, recipes: &Vec<RecipeRecord>)
    ensures
        final(database)@ == (DatabaseModel {
            recipes: recipe_table(recipes.deep_view()),
            ..old(database)@
        }),
{
    let ghost all = recipes.deep_view();
    let mut table: Table<RecipeRecord> = Table::new();
    let mut i: usize = 0;
    assert(all.take(0) =~= Seq::<RecipeRecordModel>::empty());
    while i < recipes.len()
        invariant
            all == recipes.deep_view(),
            i <= recipes.len(),
            table.entries() == recipe_table(all.take(i as int)),
        decreases recipes.len() - i,
    {
        assert(all.take(i + 1).drop_last() =~= all.take(i as int));
        table.put(&recipe_key(&recipes[i]), recipes[i].clone());
        i += 1;
    }
    assert(all.take(i as int) =~= all);
    database.recipes = table;
}

/// The full version of a recipe.
pub open spec fn coordinate_of(record: RecipeRecordModel) -> VersionModel {
    VersionModel {
        epoch: record.package.epoch,
        rank: record.package.version.rank,
        release: record.package.release,
    }
}

/// Name, architecture, channel and slot: what tells packages apart.
pub open spec fn package_key(row: PackageRowModel) -> Seq<Seq<char>> {
    seq![row.name, row.arch, row.channel, row.slot]
}

/// The package of a recipe.
pub open spec fn record_key(record: RecipeRecordModel) -> Seq<Seq<char>> {
    package_key(row_of(record))
}

pub open spec fn row_leq(a: PackageRowModel, b: PackageRowModel) -> bool {
    texts_order(
        package_key(a) + seq![a.version.text, a.release],
        package_key(b) + seq![b.version.text, b.release],
    ) != Side::After
}

fn row_le(a: &PackageRow, b: &PackageRow) -> (r: bool)
    ensures
        r == row_leq(a.deep_view(), b.deep_view()),
{
    let left: Vec<&str> = vec![
        a.name.as_str(),
        a.arch.as_str(),
        a.channel.as_str(),
        a.slot.as_str(),
        a.version.text.as_str(),
        a.release.as_str(),
    ];
    let right: Vec<&str> = vec![
        b.name.as_str(),
        b.arch.as_str(),
        b.channel.as_str(),
        b.slot.as_str(),
        b.version.text.as_str(),
        b.release.as_str(),
    ];
    proof {
        let x = a.deep_view();
        let y = b.deep_view();
        assert(left.deep_view() =~= package_key(x) + seq![x.version.text, x.release]);
        assert(right.deep_view() =~= package_key(y) + seq![y.version.text, y.release]);
    }
    order_texts(&left, &right) != Side::After
}

/// All recipes, by name, architecture, channel, slot, version and release.
pub open spec fn package_rows(records: Seq<RecipeRecordModel>) -> Seq<PackageRowModel> {
    stable_sort(
        records.map_values(|r: RecipeRecordModel| row_of(r)),
        |a: PackageRowModel, b: PackageRowModel| row_leq(a, b),
    )
}

/// All recipes, by name, architecture, channel, slot, version and release.
pub fn all_packages(database: &Database) -> (r: Vec<PackageRow>)
    ensures
        r.deep_view() == package_rows(recipes_of(database@)),
{
    let records = read_all(&database.recipes);
    let rows = map_list(&records, package_row, Ghost(|r: RecipeRecordModel| row_of(r)));
    sort_list(rows, row_le, Ghost(|a: PackageRowModel, b: PackageRowModel| row_leq(a, b)))
}

fn same_package(a: &RecipeRecord, b: &RecipeRecord) -> (r: bool)
    ensures
        r == (record_key(a.deep_view()) == record_key(b.deep_view())),
{
    let r = same_text(&a.package.name, &b.package.name) && same_text(
        canonical_arch(&a.package.arch),
        canonical_arch(&b.package.arch),
    ) && same_text(&a.package.channel, &b.package.channel) && same_text(
        &a.package.slot,
        &b.package.slot,
    );
    proof {
        let x = record_key(a.deep_view());
        let y = record_key(b.deep_view());
        assert(x == y <==> x[0] == y[0] && x[1] == y[1] && x[2] == y[2] && x[3] == y[3]) by {
            if x[0] == y[0] && x[1] == y[1] && x[2] == y[2] && x[3] == y[3] {
                assert(x =~= y);
            }
        }
    }
    r
}

pub open spec fn newer_record(a: RecipeRecordModel, b: RecipeRecordModel) -> bool {
    version_order(coordinate_of(a), coordinate_of(b)) == Side::After
}

fn is_newer_record(a: &RecipeRecord, b: &RecipeRecord) -> (r: bool)
    ensures
        r == newer_record(a.deep_view(), b.deep_view()),
{
    order_versions(
        a.package.epoch,
        a.package.version.rank,
        a.package.release,
        b.package.epoch,
        b.package.version.rank,
        b.package.release,
    ) == Side::After
}

pub open spec fn package_leq(a: PackageRowModel, b: PackageRowModel) -> bool {
    texts_order(package_key(a), package_key(b)) != Side::After
}

fn package_le(a: &PackageRow, b: &PackageRow) -> (r: bool)
    ensures
        r == package_leq(a.deep_view(), b.deep_view()),
{
    let left: Vec<&str> = vec![
        a.name.as_str(),
        a.arch.as_str(),
        a.channel.as_str(),
        a.slot.as_str(),
    ];
    let right: Vec<&str> = vec![
        b.name.as_str(),
        b.arch.as_str(),
        b.channel.as_str(),
        b.slot.as_str(),
    ];
    assert(left.deep_view() =~= package_key(a.deep_view()));
    assert(right.deep_view() =~= package_key(b.deep_view()));
    order_texts(&left, &right) != Side::After
}

/// The newest recipe of each package, by name, architecture, channel and
/// slot.
pub open spec fn latest_rows(records: Seq<RecipeRecordModel>) -> Seq<PackageRowModel> {
    stable_sort(
        best_per_key(
            records,
            |r: RecipeRecordModel| record_key(r),
            |a: RecipeRecordModel, b: RecipeRecordModel| newer_record(a, b),
        ).map_values(|r: RecipeRecordModel| row_of(r)),
        |a: PackageRowModel, b: PackageRowModel| package_leq(a, b),
    )
}

/// The newest recipe of each package, by name, architecture, channel and
/// slot.
pub fn latest_packages(database: &Database) -> (r: Vec<PackageRow>)
    ensures
        r.deep_view() == latest_rows(recipes_of(database@)),
{
    let records = read_all(&database.recipes);
    let newest = best_of(
        &records,
        same_package,
        is_newer_record,
        Ghost(|r: RecipeRecordModel| record_key(r)),
        Ghost(|a: RecipeRecordModel, b: RecipeRecordModel| newer_record(a, b)),
    );
    let rows = map_list(&newest, package_row, Ghost(|r: RecipeRecordModel| row_of(r)));
    sort_list(rows, package_le, Ghost(|a: PackageRowModel, b: PackageRowModel| package_leq(a, b)))
}

/// `a` may stand before `b` where the newest comes first.
pub open spec fn version_leq(a: PackageRowModel, b: PackageRowModel) -> bool {
    version_order(version_of(b.reading.full), version_of(a.reading.full)) != Side::After
}

fn version_le(a: &PackageRow, b: &PackageRow) -> (r: bool)
    ensures
        r == version_leq(a.deep_view(), b.deep_view()),
{
    order_text_versions(&b.reading.full, &a.reading.full) != Side::After
}

/// The recipes named `name`, the newest first.
pub open spec fn version_rows(records: Seq<RecipeRecordModel>, name: Seq<char>) -> Seq<
    PackageRowModel,
> {
    stable_sort(
        records.filter(|r: RecipeRecordModel| r.package.name == name).map_values(
            |r: RecipeRecordModel| row_of(r),
        ),
        |a: PackageRowModel, b: PackageRowModel| version_leq(a, b),
    )
}

/// The recipes named `name`, the newest first.
pub fn package_versions(database: &Database, name: &str) -> (r: Vec<PackageRow>)
    ensures
        r.deep_view() == version_rows(recipes_of(database@), name@),
{
    let records = read_all(&database.recipes);
    let named = |r: &RecipeRecord| -> (o: bool)
        ensures
            o == (r.package.name@ == name@),
        { same_text(&r.package.name, name) };
    let kept = keep_list(&records, named, Ghost(|r: RecipeRecordModel| r.package.name == name@));
    let rows = map_list(&kept, package_row, Ghost(|r: RecipeRecordModel| row_of(r)));
    sort_list(rows, version_le, Ghost(|a: PackageRowModel, b: PackageRowModel| version_leq(a, b)))
}

/// The first of a list, if there is one.
pub open spec fn first_opt<T>(s: Seq<T>) -> Option<T> {
    if s.len() > 0 {
        Some(s[0])
    } else {
        None
    }
}

/// The newest recipe named `name`.
pub fn package_by_name(database: &Database, name: &str) -> (r: Option<PackageRow>)
    ensures
        r.deep_view() == first_opt(version_rows(recipes_of(database@), name@)),
{
    let rows = package_versions(database, name);
    if rows.len() > 0 {
        Some(rows[0].clone())
    } else {
        None
    }
}

/// The names of the packages that provide `virtual_name`.
pub open spec fn provider_names(records: Seq<RecipeRecordModel>, virtual_name: Seq<char>) -> Seq<
    Seq<char>,
> {
    text_set(
        records.filter(|r: RecipeRecordModel| r.package.provides.contains(virtual_name)).map_values(
            |r: RecipeRecordModel| r.package.name,
        ),
    )
}

fn record_name(r: &RecipeRecord) -> (o: String)
    ensures
        o@ == r.deep_view().package.name,
{
    r.package.name.clone()
}

/// The names of the packages that provide `virtual_name`, in order.
pub fn providers(database: &Database, virtual_name: &str) -> (r: Vec<String>)
    ensures
        r.deep_view() == provider_names(recipes_of(database@), virtual_name@),
{
    let records = read_all(&database.recipes);
    let provides = |r: &RecipeRecord| -> (o: bool)
        ensures
            o == r.deep_view().package.provides.contains(virtual_name@),
        { holds_text(&r.package.provides, virtual_name) };
    let kept = keep_list(
        &records,
        provides,
        Ghost(|r: RecipeRecordModel| r.package.provides.contains(virtual_name@)),
    );
    let names = map_list(&kept, record_name, Ghost(|r: RecipeRecordModel| r.package.name));
    sorted_set(&names)
}

/// `record` depends on `name`.
pub open spec fn depends_on(record: RecipeRecordModel, name: Seq<char>) -> bool {
    record.package.dependencies.map_values(|d: DependencyModel| d.name).contains(name)
}

/// The names of the packages that depend on `name`.
pub open spec fn dependent_names(records: Seq<RecipeRecordModel>, name: Seq<char>) -> Seq<
    Seq<char>,
> {
    text_set(
        records.filter(|r: RecipeRecordModel| depends_on(r, name)).map_values(
            |r: RecipeRecordModel| r.package.name,
        ),
    )
}

/// The names of the packages that depend on `name`, in order.
pub fn reverse_deps(database: &Database, name: &str) -> (r: Vec<String>)
    ensures
        r.deep_view() == dependent_names(recipes_of(database@), name@),
{
    let records = read_all(&database.recipes);
    let depends = |r: &RecipeRecord| -> (o: bool)
        ensures
            o == depends_on(r.deep_view(), name@),
        {
            let names = map_list(
                &r.package.dependencies,
                dependency_name,
                Ghost(|d: DependencyModel| d.name),
            );
            holds_text(&names, name)
        };
    let kept = keep_list(&records, depends, Ghost(|r: RecipeRecordModel| depends_on(r, name@)));
    let names = map_list(&kept, record_name, Ghost(|r: RecipeRecordModel| r.package.name));
    sorted_set(&names)
}

fn dependency_name(d: &crate::model::Dependency) -> (o: String)
    ensures
        o@ == d.deep_view().name,
{
    d.name.clone()
}

/// How many packages of `rows` are in `category`, each name counted once.
pub open spec fn category_size(rows: Seq<PackageRowModel>, category: Seq<char>) -> nat {
    text_set(
        rows.filter(|r: PackageRowModel| r.category == category).map_values(
            |r: PackageRowModel| r.name,
        ),
    ).len()
}

/// The categories of `rows`, in order, with their sizes.
pub open spec fn category_counts(rows: Seq<PackageRowModel>) -> Seq<CategoryCountModel> {
    text_set(rows.map_values(|r: PackageRowModel| r.category)).map_values(
        |c: Seq<char>| CategoryCountModel { name: c, count: category_size(rows, c) as i64 },
    )
}

fn row_category(r: &PackageRow) -> (o: String)
    ensures
        o@ == r.deep_view().category,
{
    r.category.clone()
}

fn row_name(r: &PackageRow) -> (o: String)
    ensures
        o@ == r.deep_view().name,
{
    r.name.clone()
}

/// The categories, in order, with the number of their packages.
pub fn categories(database: &Database) -> (r: Vec<CategoryCount>)
    ensures
        r.deep_view() == category_counts(latest_rows(recipes_of(database@))),
{
    let rows = latest_packages(database);
    let names = sorted_set(
        &map_list(&rows, row_category, Ghost(|r: PackageRowModel| r.category)),
    );
    let count = |c: &String| -> (o: CategoryCount)
        ensures
            o.deep_view() == (CategoryCountModel {
                name: c@,
                count: category_size(rows.deep_view(), c@) as i64,
            }),
        {
            let inside = |r: &PackageRow| -> (o: bool)
                ensures
                    o == (r.category@ == c@),
                { same_text(&r.category, c) };
            let kept = keep_list(&rows, inside, Ghost(|r: PackageRowModel| r.category == c@));
            let set = sorted_set(&map_list(&kept, row_name, Ghost(|r: PackageRowModel| r.name)));
            assert(set.len() == category_size(rows.deep_view(), c@));
            CategoryCount { name: c.clone(), count: set.len() as i64 }
        };
    map_list(
        &names,
        count,
        Ghost(
            |c: Seq<char>| CategoryCountModel { name: c, count: category_size(rows.deep_view(), c) as i64 },
        ),
    )
}

// ---------------------------------------------------------------------------
// Published builds
// ---------------------------------------------------------------------------

pub open spec fn builds_of(db: DatabaseModel) -> Seq<PublishedRowModel> {
    values_of(db.published)
}

/// A build with the canonical spelling of its architecture.
pub open spec fn canonical_build(row: PublishedRowModel) -> PublishedRowModel {
    PublishedRowModel { arch: canonical(row.arch), ..row }
}

fn canonical_row(row: &PublishedRow) -> (r: PublishedRow)
    ensures
        r.deep_view() == canonical_build(row.deep_view()),
{
    let mut copy = row.clone();
    copy.arch = canonical_arch(&row.arch).to_owned();
    copy
}

/// Name, architecture, channel and slot: what tells packages apart.
pub open spec fn build_key(row: PublishedRowModel) -> Seq<Seq<char>> {
    seq![row.name, row.arch, row.channel, row.slot]
}

fn same_build_key(a: &PublishedRow, b: &PublishedRow) -> (r: bool)
    ensures
        r == (build_key(a.deep_view()) == build_key(b.deep_view())),
{
    let r = same_text(&a.name, &b.name) && same_text(&a.arch, &b.arch) && same_text(
        &a.channel,
        &b.channel,
    ) && same_text(&a.slot, &b.slot);
    proof {
        let x = build_key(a.deep_view());
        let y = build_key(b.deep_view());
        assert(x == y <==> x[0] == y[0] && x[1] == y[1] && x[2] == y[2] && x[3] == y[3]) by {
            if x[0] == y[0] && x[1] == y[1] && x[2] == y[2] && x[3] == y[3] {
                assert(x =~= y);
            }
        }
    }
    r
}

/// A build replaces another where its full version is greater or, at the
/// same version, where it was published later.
pub open spec fn newer_build(a: PublishedRowModel, b: PublishedRowModel) -> bool {
    version_order(version_of(a.reading.full), version_of(b.reading.full)).or_spec(
        int_order(a.uploaded_at as int, b.uploaded_at as int),
    ) == Side::After
}

fn is_newer_build(a: &PublishedRow, b: &PublishedRow) -> (r: bool)
    ensures
        r == newer_build(a.deep_view(), b.deep_view()),
{
    order_text_versions(&a.reading.full, &b.reading.full).or(
        order_i64(a.uploaded_at, b.uploaded_at),
    ) == Side::After
}

pub open spec fn build_leq(a: PublishedRowModel, b: PublishedRowModel) -> bool {
    texts_order(build_key(a), build_key(b)) != Side::After
}

fn build_le(a: &PublishedRow, b: &PublishedRow) -> (r: bool)
    ensures
        r == build_leq(a.deep_view(), b.deep_view()),
{
    let left: Vec<&str> = vec![
        a.name.as_str(),
        a.arch.as_str(),
        a.channel.as_str(),
        a.slot.as_str(),
    ];
    let right: Vec<&str> = vec![
        b.name.as_str(),
        b.arch.as_str(),
        b.channel.as_str(),
        b.slot.as_str(),
    ];
    assert(left.deep_view() =~= build_key(a.deep_view()));
    assert(right.deep_view() =~= build_key(b.deep_view()));
    order_texts(&left, &right) != Side::After
}

/// The newest build of each package, by name, architecture, channel and
/// slot, with canonical architectures.
pub open spec fn latest_builds(builds: Seq<PublishedRowModel>) -> Seq<PublishedRowModel> {
    stable_sort(
        best_per_key(
            builds.map_values(|r: PublishedRowModel| canonical_build(r)),
            |r: PublishedRowModel| build_key(r),
            |a: PublishedRowModel, b: PublishedRowModel| newer_build(a, b),
        ),
        |a: PublishedRowModel, b: PublishedRowModel| build_leq(a, b),
    )
}

/// The newest build of each package, by name, architecture, channel and
/// slot.
pub fn published_latest_by_arch(database: &Database) -> (r: Vec<PublishedRow>)
    ensures
        r.deep_view() == latest_builds(builds_of(database@)),
{
    let rows = read_all(&database.published);
    let spelled = map_list(
        &rows,
        canonical_row,
        Ghost(|r: PublishedRowModel| canonical_build(r)),
    );
    let newest = best_of(
        &spelled,
        same_build_key,
        is_newer_build,
        Ghost(|r: PublishedRowModel| build_key(r)),
        Ghost(|a: PublishedRowModel, b: PublishedRowModel| newer_build(a, b)),
    );
    sort_list(
        newest,
        build_le,
        Ghost(|a: PublishedRowModel, b: PublishedRowModel| build_leq(a, b)),
    )
}

/// `a` may stand before `b` where the last published comes first.
pub open spec fn upload_leq(a: PublishedRowModel, b: PublishedRowModel) -> bool {
    int_order(b.uploaded_at as int, a.uploaded_at as int).or_spec(
        text_order(a.filename, b.filename),
    ) != Side::After
}

fn upload_le(a: &PublishedRow, b: &PublishedRow) -> (r: bool)
    ensures
        r == upload_leq(a.deep_view(), b.deep_view()),
{
    order_i64(b.uploaded_at, a.uploaded_at).or(order_text(&a.filename, &b.filename)) != Side::After
}

/// All builds, the last published first; those of one instant by filename.
pub open spec fn uploads(builds: Seq<PublishedRowModel>) -> Seq<PublishedRowModel> {
    stable_sort(builds, |a: PublishedRowModel, b: PublishedRowModel| upload_leq(a, b))
}

/// All builds, the last published first.
pub fn published_all(database: &Database) -> (r: Vec<PublishedRow>)
    ensures
        r.deep_view() == uploads(builds_of(database@)),
{
    sort_list(
        read_all(&database.published),
        upload_le,
        Ghost(|a: PublishedRowModel, b: PublishedRowModel| upload_leq(a, b)),
    )
}

/// The builds of the package `name`, the last published first.
pub fn published_for_name(database: &Database, name: &str) -> (r: Vec<PublishedRow>)
    ensures
        r.deep_view() == uploads(builds_of(database@)).filter(
            |r: PublishedRowModel| r.name == name@,
        ),
{
    let rows = published_all(database);
    let named = |r: &PublishedRow| -> (o: bool)
        ensures
            o == (r.name@ == name@),
        { same_text(&r.name, name) };
    keep_list(&rows, named, Ghost(|r: PublishedRowModel| r.name == name@))
}

/// The build published as `filename`.
pub fn published_row(database: &Database, filename: &str) -> (r: Option<PublishedRow>)
    ensures
        r.deep_view() == entry_at(database@.published, filename@),
{
    match database.published.get(filename) {
        Some(row) => Some(row.clone()),
        None => None,
    }
}

/// The manifest of the build published as `filename`.
pub open spec fn manifest_at(db: DatabaseModel, filename: Seq<char>) -> Option<ManifestMetaModel> {
    match entry_at(db.published, filename) {
        Some(row) => row.meta,
        None => None,
    }
}

/// The manifest of the build published as `filename`.
pub fn published_meta(database: &Database, filename: &str) -> (r: Option<ManifestMeta>)
    ensures
        r.deep_view() == manifest_at(database@, filename@),
{
    match published_row(database, filename) {
        Some(row) => row.meta,
        None => None,
    }
}

/// Records a build under its filename.
pub fn upsert_published(database: &mut Database, row: &PublishedRow)
    ensures
        final(database)@ == (DatabaseModel {
            published: put_entry(
                old(database)@.published,
                row.deep_view().filename,
                row.deep_view(),
            ),
            ..old(database)@
        }),
{
    database.published.put(&row.filename, row.clone());
}

/// The digest of a build.
pub open spec fn sha256_at(db: DatabaseModel, filename: Seq<char>) -> Option<Seq<char>> {
    match entry_at(db.published, filename) {
        Some(row) => Some(row.sha256),
        None => None,
    }
}

/// The digest of the build published as `filename`.
pub fn published_sha256(database: &Database, filename: &str) -> (r: Option<String>)
    ensures
        r.deep_view() == sha256_at(database@, filename@),
{
    match published_row(database, filename) {
        Some(row) => Some(row.sha256),
        None => None,
    }
}

/// The digest of the build at a path of the repository.
pub open spec fn sha256_at_path(db: DatabaseModel, repo_path: Seq<char>) -> Option<Seq<char>> {
    let rows = uploads(builds_of(db));
    match first_where(rows, |r: PublishedRowModel| r.repo_path == repo_path) {
        Some(i) => Some(rows[i].sha256),
        None => None,
    }
}

/// The digest of the build at a path of the repository.
pub fn published_sha256_for_path(database: &Database, repo_path: &str) -> (r: Option<String>)
    ensures
        r.deep_view() == sha256_at_path(database@, repo_path@),
{
    let rows = published_all(database);
    let there = |r: &PublishedRow| -> (o: bool)
        ensures
            o == (r.repo_path@ == repo_path@),
        { same_text(&r.repo_path, repo_path) };
    match find_first(&rows, there, Ghost(|r: PublishedRowModel| r.repo_path == repo_path@)) {
        Some(i) => Some(rows[i].sha256.clone()),
        None => None,
    }
}

/// The state without the build `filename`, its file list and its log.
pub open spec fn without_build(db: DatabaseModel, filename: Seq<char>) -> DatabaseModel {
    DatabaseModel {
        published: drop_entry(db.published, filename),
        files: drop_entry(db.files, filename),
        logs: drop_entry(db.logs, filename),
        ..db
    }
}

/// Takes a build away, with its file list and its log. Where nothing is
/// published as `filename`, nothing changes.
pub fn delete_published(database: &mut Database, filename: &str) -> (r: Option<PublishedRow>)
    ensures
        r.deep_view() == entry_at(old(database)@.published, filename@),
        final(database)@ == if entry_at(old(database)@.published, filename@) is Some {
            without_build(old(database)@, filename@)
        } else {
            old(database)@
        },
{
    let Some(row) = published_row(database, filename) else {
        return None;
    };
    let _ = database.published.remove(filename);
    let _ = database.files.remove(filename);
    let _ = database.logs.remove(filename);
    Some(row)
}

// ---------------------------------------------------------------------------
// Tokens
// ---------------------------------------------------------------------------

/// The token made of random bytes.
pub open spec fn token_of(raw: Seq<u8>) -> Seq<char> {
    "rt_"@ + hex_of(raw)
}

/// The key under which a token is known: its digest, never itself.
pub open spec fn token_key(token: Seq<char>) -> Seq<char> {
    hex_of(sha256_digest(encode_utf8(token)))
}

/// The state after a token was made.
pub open spec fn with_token(
    db: DatabaseModel,
    label: Seq<char>,
    raw: Seq<u8>,
    at: i64,
) -> DatabaseModel {
    DatabaseModel {
        tokens: put_entry(
            db.tokens,
            token_key(token_of(raw)),
            TokenRecordModel { label, created_at: at, last_used_at: None },
        ),
        ..db
    }
}

/// Makes a token for `label` from random bytes, at the instant `at`.
pub fn token_create_at(database: &mut Database, label: &str, raw: &[u8], at: i64) -> (r: String)
    ensures
        r@ == token_of(raw@),
        final(database)@ == with_token(old(database)@, label@, raw@, at),
{
    let token = joined("rt_", &to_hex(raw));
    let hash = sha256_hex(token.as_str().as_bytes());
    database.tokens.put(
        &hash,
        TokenRecord { label: label.to_owned(), created_at: at, last_used_at: None },
    );
    token
}

/// Makes a token for `label` from random bytes.
pub fn token_create(database: &mut Database, label: &str, raw: &[u8]) -> (r: String)
    ensures
        r@ == token_of(raw@),
        exists|at: i64| final(database)@ == with_token(old(database)@, label@, raw@, at),
{
    let at = now();
    token_create_at(database, label, raw, at)
}

/// The state after the token `presented` was used.
pub open spec fn with_use(db: DatabaseModel, presented: Seq<char>, at: i64) -> DatabaseModel {
    match entry_at(db.tokens, token_key(presented)) {
        Some(record) => DatabaseModel {
            tokens: put_entry(
                db.tokens,
                token_key(presented),
                TokenRecordModel { last_used_at: Some(at), ..record },
            ),
            ..db
        },
        None => db,
    }
}

/// The label of the token `presented`, if it is known.
pub open spec fn label_of(db: DatabaseModel, presented: Seq<char>) -> Option<Seq<char>> {
    match entry_at(db.tokens, token_key(presented)) {
        Some(record) => Some(record.label),
        None => None,
    }
}

/// The label of a token, which is noted as used at the instant `at`.
pub fn token_label_at(database: &mut Database, presented: &str, at: i64) -> (r: Option<String>)
    ensures
        r.deep_view() == label_of(old(database)@, presented@),
        final(database)@ == with_use(old(database)@, presented@, at),
{
    let hash = sha256_hex(presented.as_bytes());
    let mut record = match database.tokens.get(&hash) {
        Some(record) => record.clone(),
        None => {
            return None;
        },
    };
    record.last_used_at = Some(at);
    let label = record.label.clone();
    database.tokens.put(&hash, record);
    Some(label)
}

/// The label of a token, which is noted as used.
pub fn token_label(database: &mut Database, presented: &str) -> (r: Option<String>)
    ensures
        r.deep_view() == label_of(old(database)@, presented@),
        exists|at: i64| final(database)@ == with_use(old(database)@, presented@, at),
{
    let at = now();
    token_label_at(database, presented, at)
}

// ---------------------------------------------------------------------------
// File lists and logs
// ---------------------------------------------------------------------------

/// Records the files of a build.
pub fn replace_published_files(database: &mut Database, filename: &str, lines: &Vec<FileLine>)
    ensures
        final(database)@ == (DatabaseModel {
            files: put_entry(old(database)@.files, filename@, lines.deep_view()),
            ..old(database)@
        }),
{
    database.files.put(filename, copy_list(lines));
}

/// The files of a build.
pub open spec fn files_at(db: DatabaseModel, filename: Seq<char>) -> Seq<FileLineModel> {
    match entry_at(db.files, filename) {
        Some(lines) => lines,
        None => Seq::empty(),
    }
}

/// The files of a build; none where nothing is known of it.
pub fn file_list(database: &Database, filename: &str) -> (r: Vec<FileLine>)
    ensures
        r.deep_view() == files_at(database@, filename@),
{
    match database.files.get(filename) {
        Some(lines) => copy_list(lines),
        None => {
            let none: Vec<FileLine> = Vec::new();
            assert(none.deep_view() =~= Seq::<FileLineModel>::empty());
            none
        },
    }
}

/// The state with a build log for `filename`.
pub open spec fn with_log(
    db: DatabaseModel,
    filename: Seq<char>,
    content: Seq<char>,
    builder: Seq<char>,
    at: i64,
) -> DatabaseModel {
    DatabaseModel {
        logs: put_entry(
            db.logs,
            filename,
            LogRowModel { content, builder, uploaded_at: at },
        ),
        ..db
    }
}

/// Records a build log at the instant `at`.
pub fn log_upsert_at(
    database: &mut Database,
    filename: &str,
    content: &str,
    builder: &str,
    at: i64,
)
    ensures
        final(database)@ == with_log(old(database)@, filename@, content@, builder@, at),
{
    database.logs.put(
        filename,
        LogRow { content: content.to_owned(), builder: builder.to_owned(), uploaded_at: at },
    );
}

/// Records a build log.
pub fn log_upsert(database: &mut Database, filename: &str, content: &str, builder: &str)
    ensures
        exists|at: i64|
            final(database)@ == with_log(old(database)@, filename@, content@, builder@, at),
{
    let at = now();
    log_upsert_at(database, filename, content, builder, at);
}

/// The build log of `filename`.
pub fn log_get(database: &Database, filename: &str) -> (r: Option<LogRow>)
    ensures
        r.deep_view() == entry_at(database@.logs, filename@),
{
    match database.logs.get(filename) {
        Some(row) => Some(row.clone()),
        None => None,
    }
}

// ---------------------------------------------------------------------------
// Synchronizations
// ---------------------------------------------------------------------------

/// `a` may stand before `b` where the last begun comes first.
pub open spec fn sync_leq(a: SyncEntryModel, b: SyncEntryModel) -> bool {
    b.started_at <= a.started_at
}

fn sync_le(a: &SyncEntry, b: &SyncEntry) -> (r: bool)
    ensures
        r == sync_leq(a.deep_view(), b.deep_view()),
{
    b.started_at <= a.started_at
}

/// The last synchronizations, the last begun first, at most `limit`.
pub open spec fn last_syncs(db: DatabaseModel, limit: int) -> Seq<SyncEntryModel> {
    leading(
        stable_sort(
            values_of(db.sync_log),
            |a: SyncEntryModel, b: SyncEntryModel| sync_leq(a, b),
        ),
        limit,
    )
}

/// The last synchronizations, the last begun first, at most `limit`.
pub fn recent_syncs(database: &Database, limit: usize) -> (r: Vec<SyncEntry>)
    ensures
        r.deep_view() == last_syncs(database@, limit as int),
{
    let entries = sort_list(
        read_all(&database.sync_log),
        sync_le,
        Ghost(|a: SyncEntryModel, b: SyncEntryModel| sync_leq(a, b)),
    );
    first_of(&entries, limit)
}

/// The key of a synchronization that ended at `at`, the `id`-th of this run.
pub open spec fn sync_key(at: i64, id: u64) -> Seq<char> {
    padded(at as int, 20) + seq!['-'] + padded(id as int, 20)
}

/// The state with one more synchronization.
pub open spec fn with_sync(
    db: DatabaseModel,
    entry: SyncEntryModel,
    at: i64,
    id: u64,
) -> DatabaseModel {
    DatabaseModel { sync_log: put_entry(db.sync_log, sync_key(at, id), entry), ..db }
}

/// Records a synchronization that ended at `at`, the `id`-th of this run.
pub fn log_sync_at(
    database: &mut Database,
    trigger: &str,
    commit: &str,
    started_at: i64,
    ok: bool,
    message: &str,
    at: i64,
    id: u64,
)
    ensures
        final(database)@ == with_sync(
            old(database)@,
            (SyncEntryModel {
                trigger: trigger@,
                commit: commit@,
                started_at,
                ok,
                message: message@,
            }),
            at,
            id,
        ),
{
    let mut key = padded_text(at as i128, 20);
    key.push('-');
    key.append(&padded_text(id as i128, 20));
    assert(key@ =~= sync_key(at, id));
    database.sync_log.put(
        &key,
        SyncEntry {
            trigger: trigger.to_owned(),
            commit: commit.to_owned(),
            started_at,
            ok,
            message: message.to_owned(),
        },
    );
}

/// Records a synchronization, the `id`-th of this run.
pub fn log_sync(
    database: &mut Database,
    trigger: &str,
    commit: &str,
    started_at: i64,
    ok: bool,
    message: &str,
    id: u64,
)
    ensures
        exists|at: i64|
            final(database)@ == with_sync(
                old(database)@,
                (SyncEntryModel {
                    trigger: trigger@,
                    commit: commit@,
                    started_at,
                    ok,
                    message: message@,
                }),
                at,
                id,
            ),
{
    let at = now();
    log_sync_at(database, trigger, commit, started_at, ok, message, at, id);
}

/// What is noted under `key`.
pub fn meta_get(database: &Database, key: &str) -> (r: Option<String>)
    ensures
        r.deep_view() == entry_at(database@.meta, key@),
{
    match database.meta.get(key) {
        Some(value) => Some(value.clone()),
        None => None,
    }
}

/// Notes `value` under `key`.
pub fn meta_set(database: &mut Database, key: &str, value: &str)
    ensures
        final(database)@ == (DatabaseModel {
            meta: put_entry(old(database)@.meta, key@, value@),
            ..old(database)@
        }),
{
    database.meta.put(key, value.to_owned());
}

// ---------------------------------------------------------------------------
// The clock
// ---------------------------------------------------------------------------

/// `SystemTime::now`, as whole seconds after the beginning of 1970; `None`
/// where the clock shows an earlier instant. Nothing is stated of the
/// instant.
#[verifier::external_body]
fn clock_seconds() -> (r: Option<u64>) {
    std::time::SystemTime::now().duration_since(std::time::UNIX_EPOCH).ok().map(|d| d.as_secs())
}

/// The instant that a clock reading stands for; zero before 1970.
pub open spec fn instant_of(reading: Option<u64>) -> i64 {
    match reading {
        Some(seconds) => seconds as i64,
        None => 0,
    }
}

/// The instant that a clock reading stands for.
pub fn instant(reading: Option<u64>) -> (r: i64)
    ensures
        r == instant_of(reading),
{
    match reading {
        Some(seconds) => seconds as i64,
        None => 0,
    }
}

/// The present instant, in seconds from the beginning of 1970.
pub fn now() -> (r: i64)
    ensures
        exists|reading: Option<u64>| r == #[trigger] instant_of(reading),
{
    instant(clock_seconds())
}

// ---------------------------------------------------------------------------
// Laws
// ---------------------------------------------------------------------------

/// The tables of a state keep the order of their keys through every change.
pub proof fn lemma_changes_keep_order(
    db: DatabaseModel,
    key: Seq<char>,
    row: PublishedRowModel,
    lines: Seq<FileLineModel>,
    log: LogRowModel,
    token: TokenRecordModel,
    value: Seq<char>,
    sync: SyncEntryModel,
    records: Seq<RecipeRecordModel>,
)
    requires
        tables_ordered(db),
    ensures
        tables_ordered(DatabaseModel { published: put_entry(db.published, key, row), ..db }),
        tables_ordered(DatabaseModel { files: put_entry(db.files, key, lines), ..db }),
        tables_ordered(DatabaseModel { logs: put_entry(db.logs, key, log), ..db }),
        tables_ordered(DatabaseModel { tokens: put_entry(db.tokens, key, token), ..db }),
        tables_ordered(DatabaseModel { meta: put_entry(db.meta, key, value), ..db }),
        tables_ordered(DatabaseModel { sync_log: put_entry(db.sync_log, key, sync), ..db }),
        tables_ordered(DatabaseModel { recipes: recipe_table(records), ..db }),
        tables_ordered(without_build(db, key)),
{
    lemma_put(db.published, key, row);
    lemma_put(db.files, key, lines);
    lemma_put(db.logs, key, log);
    lemma_put(db.tokens, key, token);
    lemma_put(db.meta, key, value);
    lemma_put(db.sync_log, key, sync);
    lemma_recipe_table_ordered(records);
    lemma_drop(db.published, key);
    lemma_drop(db.files, key);
    lemma_drop(db.logs, key);
}

/// The recipes that were recorded can be read back by their keys, the last
/// one of each key.
pub proof fn lemma_recipe_table_ordered(records: Seq<RecipeRecordModel>)
    ensures
        keys_ascend(recipe_table(records)),
        records.len() > 0 ==> entry_at(recipe_table(records), recipe_key_of(records.last()))
            == Some(records.last()),
    decreases records.len(),
{
    if records.len() > 0 {
        lemma_recipe_table_ordered(records.drop_last());
        lemma_put(
            recipe_table(records.drop_last()),
            recipe_key_of(records.last()),
            records.last(),
        );
    }
}

/// A token that was made is known by its label, before and after it is used;
/// tokens whose digests differ are not affected.
pub proof fn lemma_token_known(
    db: DatabaseModel,
    label: Seq<char>,
    raw: Seq<u8>,
    made: i64,
    used: i64,
    other: Seq<char>,
)
    requires
        tables_ordered(db),
    ensures
        label_of(with_token(db, label, raw, made), token_of(raw)) == Some(label),
        label_of(with_use(with_token(db, label, raw, made), token_of(raw), used), token_of(raw))
            == Some(label),
        token_key(other) != token_key(token_of(raw)) ==> label_of(
            with_token(db, label, raw, made),
            other,
        ) == label_of(db, other),
{
    let key = token_key(token_of(raw));
    let record = TokenRecordModel { label, created_at: made, last_used_at: None };
    lemma_put(db.tokens, key, record);
    let after = with_token(db, label, raw, made);
    lemma_put(
        after.tokens,
        key,
        TokenRecordModel { last_used_at: Some(used), ..record },
    );
}

/// A presented token that is not known changes nothing.
pub proof fn lemma_unknown_token_changes_nothing(db: DatabaseModel, presented: Seq<char>, at: i64)
    requires
        label_of(db, presented) is None,
    ensures
        with_use(db, presented, at) == db,
{
}

/// What was published can be read back, other builds are as they were, and
/// taking it away leaves neither row nor files nor log.
pub proof fn lemma_publish_and_withdraw(
    db: DatabaseModel,
    row: PublishedRowModel,
    other: Seq<char>,
)
    requires
        tables_ordered(db),
    ensures
        ({
            let after = DatabaseModel {
                published: put_entry(db.published, row.filename, row),
                ..db
            };
            &&& entry_at(after.published, row.filename) == Some(row)
            &&& other != row.filename ==> entry_at(after.published, other) == entry_at(
                db.published,
                other,
            )
            &&& sha256_at(after, row.filename) == Some(row.sha256)
            &&& manifest_at(after, row.filename) == row.meta
        }),
        ({
            let gone = without_build(db, row.filename);
            &&& entry_at(gone.published, row.filename) is None
            &&& entry_at(gone.files, row.filename) is None
            &&& entry_at(gone.logs, row.filename) is None
            &&& other != row.filename ==> {
                &&& entry_at(gone.published, other) == entry_at(db.published, other)
                &&& entry_at(gone.files, other) == entry_at(db.files, other)
                &&& entry_at(gone.logs, other) == entry_at(db.logs, other)
            }
        }),
{
    lemma_put(db.published, row.filename, row);
    lemma_drop(db.published, row.filename);
    lemma_drop(db.files, row.filename);
    lemma_drop(db.logs, row.filename);
}

/// The newest recipes are listed by package, each package once, and each comes
/// from a recipe.
pub proof fn lemma_latest_rows(records: Seq<RecipeRecordModel>)
    ensures
        forall|i: int, j: int|
            0 <= i < j < latest_rows(records).len() ==> texts_order(
                package_key(#[trigger] latest_rows(records)[i]),
                package_key(#[trigger] latest_rows(records)[j]),
            ) == Side::Before,
        forall|row: PackageRowModel| #[trigger]
            latest_rows(records).contains(row) ==> exists|r: RecipeRecordModel| #[trigger]
                records.contains(r) && row_of(r) == row,
{
    let key = |r: RecipeRecordModel| record_key(r);
    let over = |a: RecipeRecordModel, b: RecipeRecordModel| newer_record(a, b);
    let best = best_per_key(records, key, over);
    let rows = best.map_values(|r: RecipeRecordModel| row_of(r));
    let leq = |a: PackageRowModel, b: PackageRowModel| package_leq(a, b);
    let sorted = stable_sort(rows, leq);
    lemma_newer_record_order();
    lemma_best_per_key(records, key, over);
    lemma_sort_permutes(rows, leq);
    assert(sorted == latest_rows(records));
    assert forall|i: int, j: int| 0 <= i < j < rows.len() implies package_key(#[trigger] rows[i])
        != package_key(#[trigger] rows[j]) by {
        assert(key(best[i]) != key(best[j]));
    }
    let row_key = |r: PackageRowModel| package_key(r);
    assert(leq =~= by_key(row_key));
    assert forall|i: int, j: int| 0 <= i < j < rows.len() implies row_key(#[trigger] rows[i])
        != row_key(#[trigger] rows[j]) by {
        assert(package_key(rows[i]) != package_key(rows[j]));
    }
    lemma_sorted_by_key(rows, row_key);
    assert forall|i: int, j: int| 0 <= i < j < sorted.len() implies texts_order(
        package_key(#[trigger] sorted[i]),
        package_key(#[trigger] sorted[j]),
    ) == Side::Before by {
        assert(texts_order(row_key(sorted[i]), row_key(sorted[j])) == Side::Before);
    }
    assert forall|row: PackageRowModel| #[trigger] sorted.contains(row) implies exists|
        r: RecipeRecordModel,
    | #[trigger] records.contains(r) && row_of(r) == row by {
        assert(rows.contains(row));
        let k = rows.index_of(row);
        assert(records.contains(best[k]));
        assert(row_of(best[k]) == row);
    }
}

/// Of every package that has a recipe, one is listed than which that recipe is
/// no newer.
pub proof fn lemma_newest_recipe_listed(records: Seq<RecipeRecordModel>, record: RecipeRecordModel)
    requires
        records.contains(record),
    ensures
        exists|best: RecipeRecordModel| #[trigger]
            latest_rows(records).contains(row_of(best)) && records.contains(best) && record_key(best)
                == record_key(record) && !newer_record(record, best),
{
    let key = |r: RecipeRecordModel| record_key(r);
    let over = |a: RecipeRecordModel, b: RecipeRecordModel| newer_record(a, b);
    let best = best_per_key(records, key, over);
    let rows = best.map_values(|r: RecipeRecordModel| row_of(r));
    lemma_newer_record_order();
    lemma_best_per_key(records, key, over);
    lemma_sort_permutes(rows, |a: PackageRowModel, b: PackageRowModel| package_leq(a, b));
    let k = choose|k: int|
        0 <= k < best.len() && key(#[trigger] best[k]) == key(record) && !over(record, best[k]);
    assert(records.contains(best[k]));
    assert(rows[k] == row_of(best[k]));
    assert(rows.contains(row_of(best[k])));
    assert(latest_rows(records).contains(row_of(best[k])));
}

/// Being the newer recipe is an order.
pub proof fn lemma_newer_record_order()
    ensures
        ({
            let over = |a: RecipeRecordModel, b: RecipeRecordModel| newer_record(a, b);
            &&& forall|a: RecipeRecordModel, b: RecipeRecordModel, c: RecipeRecordModel|
                !(#[trigger] over(a, b)) && !(#[trigger] over(b, c)) ==> !over(a, c)
            &&& forall|a: RecipeRecordModel, b: RecipeRecordModel| #[trigger]
                over(a, b) ==> !over(b, a)
            &&& forall|a: RecipeRecordModel| !#[trigger] over(a, a)
        }),
{
    let over = |a: RecipeRecordModel, b: RecipeRecordModel| newer_record(a, b);
    assert forall|a: RecipeRecordModel, b: RecipeRecordModel, c: RecipeRecordModel|
        !(#[trigger] over(a, b)) && !(#[trigger] over(b, c)) implies !over(a, c) by {
        lemma_version_order(coordinate_of(a), coordinate_of(b), coordinate_of(c));
    }
    assert forall|a: RecipeRecordModel, b: RecipeRecordModel| #[trigger] over(a, b) implies !over(
        b,
        a,
    ) by {
        lemma_version_order(coordinate_of(a), coordinate_of(b), coordinate_of(a));
    }
}

/// The newest builds are listed by package, each package once, and each is a
/// build in its canonical spelling.
pub proof fn lemma_latest_builds(builds: Seq<PublishedRowModel>)
    ensures
        forall|i: int, j: int|
            0 <= i < j < latest_builds(builds).len() ==> texts_order(
                build_key(#[trigger] latest_builds(builds)[i]),
                build_key(#[trigger] latest_builds(builds)[j]),
            ) == Side::Before,
        forall|row: PublishedRowModel| #[trigger]
            latest_builds(builds).contains(row) ==> exists|r: PublishedRowModel| #[trigger]
                builds.contains(r) && canonical_build(r) == row,
{
    let key = |r: PublishedRowModel| build_key(r);
    let over = |a: PublishedRowModel, b: PublishedRowModel| newer_build(a, b);
    let leq = |a: PublishedRowModel, b: PublishedRowModel| build_leq(a, b);
    let spelled = builds.map_values(|r: PublishedRowModel| canonical_build(r));
    let best = best_per_key(spelled, key, over);
    let sorted = stable_sort(best, leq);
    lemma_newer_build_order();
    lemma_best_per_key(spelled, key, over);
    lemma_sort_permutes(best, leq);
    assert(leq =~= by_key(key));
    lemma_sorted_by_key(best, key);
    assert forall|row: PublishedRowModel| #[trigger] sorted.contains(row) implies exists|
        r: PublishedRowModel,
    | #[trigger] builds.contains(r) && canonical_build(r) == row by {
        assert(best.contains(row));
        let k = best.index_of(row);
        assert(spelled.contains(best[k]));
        let m = spelled.index_of(row);
        assert(builds.contains(builds[m]));
        assert(canonical_build(builds[m]) == row);
    }
}

/// Of every package that has a build, one is listed than which that build is
/// no newer.
pub proof fn lemma_newest_build_listed(builds: Seq<PublishedRowModel>, build: PublishedRowModel)
    requires
        builds.contains(build),
    ensures
        exists|best: PublishedRowModel| #[trigger]
            latest_builds(builds).contains(best) && build_key(best) == build_key(
                canonical_build(build),
            ) && !newer_build(canonical_build(build), best),
{
    let key = |r: PublishedRowModel| build_key(r);
    let over = |a: PublishedRowModel, b: PublishedRowModel| newer_build(a, b);
    let spelled = builds.map_values(|r: PublishedRowModel| canonical_build(r));
    let best = best_per_key(spelled, key, over);
    lemma_newer_build_order();
    lemma_best_per_key(spelled, key, over);
    lemma_sort_permutes(best, |a: PublishedRowModel, b: PublishedRowModel| build_leq(a, b));
    let i = builds.index_of(build);
    let c = canonical_build(build);
    assert(spelled[i] == c);
    assert(spelled.contains(c));
    let k = choose|k: int|
        0 <= k < best.len() && key(#[trigger] best[k]) == key(c) && !over(c, best[k]);
    assert(best.contains(best[k]));
    assert(latest_builds(builds).contains(best[k]));
}

/// Being the newer build is an order.
pub proof fn lemma_newer_build_order()
    ensures
        ({
            let over = |a: PublishedRowModel, b: PublishedRowModel| newer_build(a, b);
            &&& forall|a: PublishedRowModel, b: PublishedRowModel, c: PublishedRowModel|
                !(#[trigger] over(a, b)) && !(#[trigger] over(b, c)) ==> !over(a, c)
            &&& forall|a: PublishedRowModel, b: PublishedRowModel| #[trigger]
                over(a, b) ==> !over(b, a)
            &&& forall|a: PublishedRowModel| !#[trigger] over(a, a)
        }),
{
    let over = |a: PublishedRowModel, b: PublishedRowModel| newer_build(a, b);
    assert forall|a: PublishedRowModel, b: PublishedRowModel, c: PublishedRowModel|
        !(#[trigger] over(a, b)) && !(#[trigger] over(b, c)) implies !over(a, c) by {
        let x = version_of(a.reading.full);
        let y = version_of(b.reading.full);
        let z = version_of(c.reading.full);
        lemma_version_order(x, y, z);
        lemma_version_order(y, z, x);
        lemma_version_order(x, z, y);
    }
    assert forall|a: PublishedRowModel, b: PublishedRowModel| #[trigger] over(a, b) implies !over(
        b,
        a,
    ) by {
        let x = version_of(a.reading.full);
        let y = version_of(b.reading.full);
        lemma_version_order(x, y, x);
    }
    assert forall|a: PublishedRowModel| !#[trigger] over(a, a) by {
        let x = version_of(a.reading.full);
        lemma_version_order(x, x, x);
    }
}

/// Every recipe recorded can be read back by its key, unless a later one has
/// taken the key.
pub proof fn lemma_recipes_read_back(records: Seq<RecipeRecordModel>, i: int)
    requires
        0 <= i < records.len(),
        forall|j: int|
            i < j < records.len() ==> recipe_key_of(#[trigger] records[j]) != recipe_key_of(
                records[i],
            ),
    ensures
        entry_at(recipe_table(records), recipe_key_of(records[i])) == Some(records[i]),
        values_of(recipe_table(records)).contains(records[i]),
    decreases records.len(),
{
    let less = records.drop_last();
    let key = recipe_key_of(records[i]);
    lemma_recipe_table_ordered(less);
    lemma_put(recipe_table(less), recipe_key_of(records.last()), records.last());
    if i < less.len() {
        assert forall|j: int| i < j < less.len() implies recipe_key_of(#[trigger] less[j])
            != recipe_key_of(less[i]) by {
            assert(records[j] == less[j]);
        }
        lemma_recipes_read_back(less, i);
        assert(recipe_key_of(records[records.len() - 1]) != key);
    }
    let table = recipe_table(records);
    assert(has_key(table, key));
    let at = choose|k: int| 0 <= k < table.len() && (#[trigger] table[k]).0 == key;
    lemma_recipe_table_ordered(records);
    lemma_entry_unique(table, at);
    assert(values_of(table)[at] == records[i]);
}

} // verus!
