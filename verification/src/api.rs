//! The listing of the repository, and what programs are told.

use vstd::arithmetic::div_mod::{lemma_hoist_over_denominator, lemma_mod_multiples_vanish};
use vstd::prelude::*;
use vstd::string::*;

use crate::config::{Config, ConfigModel};
use crate::db::{
    all_packages, builds_of, latest_builds, package_by_name, package_rows, package_versions,
    provider_names, providers, published_all, published_latest_by_arch, recipes_of, upload_leq,
    uploads, version_leq, version_rows, Database, DatabaseModel,
};
use crate::detail::{detail_answer, recipe_arches, shown_arch, shown_versions};
use crate::digits::{decimal, decimal_text};
use crate::list::map_list;
use crate::order::lemma_sort_permutes;
use crate::records::{
    row_of, PackageRow, PackageRowModel, PublishedRow, PublishedRowModel, RecipeRecordModel,
};
use crate::status::State;
use crate::table::{lemma_text_set, lemma_text_set_empty};
use crate::text::{concat, text_from};
use crate::web::{
    beside, builds_named, lemma_of_version, named_among, nav_of, of_version, pick_published,
    pick_version, picked, published_by_name, serves, state_beside, Nav, NavModel,
};

verus! {

// ---------------------------------------------------------------------------
// The listing of the repository
// ---------------------------------------------------------------------------

/// A number of bytes in tenths of a mebibyte: the nearest, and of two the
/// even one.
pub open spec fn mib_tenths(bytes: nat) -> nat {
    let whole = 10 * bytes / 1_048_576;
    let part = 10 * bytes % 1_048_576;
    if part < 524_288 || (part == 524_288 && whole % 2 == 0) {
        whole
    } else {
        whole + 1
    }
}

/// A number of bytes in mebibytes, with one decimal.
pub open spec fn mib_text(bytes: int) -> Seq<char> {
    let tenths = mib_tenths(
        if bytes < 0 {
            -bytes
        } else {
            bytes
        } as nat,
    );
    concat(
        seq![
            if bytes < 0 {
                "-"@
            } else {
                ""@
            },
            decimal(tenths / 10),
            "."@,
            decimal(tenths % 10),
        ],
    )
}

/// A number of bytes in mebibytes, with one decimal.
pub fn in_mib(bytes: i128) -> (r: String)
    requires
        bytes > i128::MIN,
    ensures
        r@ == mib_text(bytes as int),
{
    let size: u128 = if bytes < 0 {
        (-bytes) as u128
    } else {
        bytes as u128
    };
    let units_in: u128 = size / 1_048_576;
    let over: u128 = size % 1_048_576;
    let whole: u128 = 10 * units_in + 10 * over / 1_048_576;
    let part: u128 = 10 * over % 1_048_576;
    proof {
        let q = units_in as int;
        let r = over as int;
        assert(10 * size == 10 * r + (10 * q) * 1_048_576);
        lemma_hoist_over_denominator(10 * r, 10 * q, 1_048_576);
        lemma_mod_multiples_vanish(10 * q, 10 * r, 1_048_576);
    }
    let tenths: u128 = if part < 524_288 || (part == 524_288 && whole % 2 == 0) {
        whole
    } else {
        whole + 1
    };
    let units = decimal_text(tenths / 10);
    let rest = decimal_text(tenths % 10);
    let sign: &str = if bytes < 0 {
        "-"
    } else {
        ""
    };
    let parts: Vec<&str> = vec![sign, units.as_str(), ".", rest.as_str()];
    assert(tenths == mib_tenths(size as nat));
    assert(parts.deep_view() =~= seq![
        sign@, decimal((tenths / 10) as nat), "."@, decimal((tenths % 10) as nat),
    ]);
    text_from(&parts)
}

impl PublishedRow {
    /// The size of the archive in mebibytes.
    pub fn size_mib(&self) -> (r: String)
        ensures
            r@ == mib_text(self.size as int),
    {
        in_mib(self.size as i128)
    }
}

/// The listing of the repository.
#[derive(Debug)]
pub struct RepoIndexTemplate {
    pub files: Vec<PublishedRow>,
    pub total_mib: String,
    pub nav: Nav,
}

#[verifier::ext_equal]
pub struct RepoIndexTemplateModel {
    pub files: Seq<PublishedRowModel>,
    pub total_mib: Seq<char>,
    pub nav: NavModel,
}

impl DeepView for RepoIndexTemplate {
    type V = RepoIndexTemplateModel;

    open spec fn deep_view(&self) -> RepoIndexTemplateModel {
        RepoIndexTemplateModel {
            files: self.files.deep_view(),
            total_mib: self.total_mib@,
            nav: self.nav.deep_view(),
        }
    }
}

/// The sum of the sizes of builds.
pub open spec fn size_sum(rows: Seq<PublishedRowModel>) -> int
    decreases rows.len(),
{
    if rows.len() == 0 {
        0
    } else {
        size_sum(rows.drop_last()) + rows.last().size
    }
}

fn sum_sizes(rows: &Vec<PublishedRow>) -> (r: i128)
    ensures
        r == size_sum(rows.deep_view()),
        r > i128::MIN,
{
    let ghost all = rows.deep_view();
    let mut sum: i128 = 0;
    let mut i: usize = 0;
    assert(all.take(0) =~= Seq::<PublishedRowModel>::empty());
    while i < rows.len()
        invariant
            all == rows.deep_view(),
            i <= rows.len(),
            sum == size_sum(all.take(i as int)),
            -i * 0x8000_0000_0000_0000 <= sum <= i * 0x8000_0000_0000_0000,
        decreases rows.len() - i,
    {
        assert(all.take(i + 1).drop_last() =~= all.take(i as int));
        assert(all[i as int] == rows@[i as int].deep_view());
        sum = sum + rows[i].size as i128;
        i += 1;
    }
    assert(all.take(i as int) =~= all);
    sum
}

/// The listing of the repository.
pub fn repo_index(database: &Database, config: &Config) -> (r: RepoIndexTemplate)
    ensures
        r.deep_view() == (RepoIndexTemplateModel {
            files: uploads(builds_of(database@)),
            total_mib: mib_text(size_sum(uploads(builds_of(database@)))),
            nav: nav_of(config.deep_view()),
        }),
{
    let files = published_all(database);
    let total_mib = in_mib(sum_sizes(&files));
    RepoIndexTemplate { files, total_mib, nav: Nav::from_config(config) }
}

// ---------------------------------------------------------------------------
// The programming interface
// ---------------------------------------------------------------------------

/// A recipe beside its build, for programs.
#[derive(Debug)]
pub struct ApiStatusEntry {
    pub name: String,
    pub arch: String,
    pub recipe_version: String,
    pub recipe_release: String,
    pub repo_version: Option<String>,
    pub repo_release: Option<String>,
    pub state: State,
}

#[verifier::ext_equal]
pub struct ApiStatusEntryModel {
    pub name: Seq<char>,
    pub arch: Seq<char>,
    pub recipe_version: Seq<char>,
    pub recipe_release: Seq<char>,
    pub repo_version: Option<Seq<char>>,
    pub repo_release: Option<Seq<char>>,
    pub state: State,
}

impl DeepView for ApiStatusEntry {
    type V = ApiStatusEntryModel;

    open spec fn deep_view(&self) -> ApiStatusEntryModel {
        ApiStatusEntryModel {
            name: self.name@,
            arch: self.arch@,
            recipe_version: self.recipe_version@,
            recipe_release: self.recipe_release@,
            repo_version: self.repo_version.deep_view(),
            repo_release: self.repo_release.deep_view(),
            state: self.state,
        }
    }
}

/// A recipe among those of a package, for programs.
#[derive(Debug)]
pub struct ApiVersion {
    pub version: String,
    pub release: String,
    pub recipe_path: String,
}

#[verifier::ext_equal]
pub struct ApiVersionModel {
    pub version: Seq<char>,
    pub release: Seq<char>,
    pub recipe_path: Seq<char>,
}

impl DeepView for ApiVersion {
    type V = ApiVersionModel;

    open spec fn deep_view(&self) -> ApiVersionModel {
        ApiVersionModel {
            version: self.version@,
            release: self.release@,
            recipe_path: self.recipe_path@,
        }
    }
}

/// A recipe beside a build, for programs.
pub open spec fn entry_of(row: PackageRowModel, build: Option<PublishedRowModel>) -> ApiStatusEntryModel {
    ApiStatusEntryModel {
        name: row.name,
        arch: row.arch,
        recipe_version: row.version.text,
        recipe_release: row.release,
        repo_version: match build {
            Some(p) => Some(p.version.text),
            None => None,
        },
        repo_release: match build {
            Some(p) => Some(p.release),
            None => None,
        },
        state: beside(row, build),
    }
}

fn api_entry(row: &PackageRow, build: &Option<PublishedRow>) -> (r: ApiStatusEntry)
    ensures
        r.deep_view() == entry_of(row.deep_view(), build.deep_view()),
{
    ApiStatusEntry {
        name: row.name.clone(),
        arch: row.arch.clone(),
        recipe_version: row.version.text.clone(),
        recipe_release: row.release.clone(),
        repo_version: match build {
            Some(p) => Some(p.version.text.clone()),
            None => None,
        },
        repo_release: match build {
            Some(p) => Some(p.release.clone()),
            None => None,
        },
        state: state_beside(row, build),
    }
}

/// All recipes, for programs.
pub fn api_packages(database: &Database) -> (r: Vec<PackageRow>)
    ensures
        r.deep_view() == package_rows(recipes_of(database@)),
{
    all_packages(database)
}

/// The answer to a request for one package.
#[derive(Debug)]
pub enum ApiPackage {
    /// The newest recipe, how it stands to its build, and all recipes.
    Found(PackageRow, ApiStatusEntry, Vec<ApiVersion>),
    /// The packages that provide the name.
    Virtual(Vec<String>),
    NotFound,
}

pub enum ApiPackageModel {
    Found(PackageRowModel, ApiStatusEntryModel, Seq<ApiVersionModel>),
    Virtual(Seq<Seq<char>>),
    NotFound,
}

impl DeepView for ApiPackage {
    type V = ApiPackageModel;

    open spec fn deep_view(&self) -> ApiPackageModel {
        match self {
            ApiPackage::Found(pkg, entry, versions) => ApiPackageModel::Found(
                pkg.deep_view(),
                entry.deep_view(),
                versions.deep_view(),
            ),
            ApiPackage::Virtual(names) => ApiPackageModel::Virtual(names.deep_view()),
            ApiPackage::NotFound => ApiPackageModel::NotFound,
        }
    }
}

pub open spec fn api_version(v: PackageRowModel) -> ApiVersionModel {
    ApiVersionModel { version: v.version.text, release: v.release, recipe_path: v.recipe_path }
}

fn make_api_version(v: &PackageRow) -> (r: ApiVersion)
    ensures
        r.deep_view() == api_version(v.deep_view()),
{
    ApiVersion {
        version: v.version.text.clone(),
        release: v.release.clone(),
        recipe_path: v.recipe_path.clone(),
    }
}

/// The answer to a request for the package `name`.
pub open spec fn package_answer(db: DatabaseModel, name: Seq<char>) -> ApiPackageModel {
    let versions = version_rows(recipes_of(db), name);
    let names = provider_names(recipes_of(db), name);
    if versions.len() > 0 {
        let pkg = versions[0];
        ApiPackageModel::Found(
            pkg,
            entry_of(pkg, picked(builds_named(builds_of(db), name), pkg.arch, None)),
            versions.map_values(|v: PackageRowModel| api_version(v)),
        )
    } else if names.len() > 0 {
        ApiPackageModel::Virtual(names)
    } else {
        ApiPackageModel::NotFound
    }
}

/// The answer to a request for the package `name`.
pub fn api_package(database: &Database, name: &str) -> (r: ApiPackage)
    ensures
        r.deep_view() == package_answer(database@, name@),
{
    match package_by_name(database, name) {
        None => {
            let names = providers(database, name);
            if names.len() == 0 {
                ApiPackage::NotFound
            } else {
                ApiPackage::Virtual(names)
            }
        },
        Some(pkg) => {
            let build = pick_published(&published_by_name(database, name), &pkg.arch, None);
            let entry = api_entry(&pkg, &build);
            let versions = map_list(
                &package_versions(database, name),
                make_api_version,
                Ghost(|v: PackageRowModel| api_version(v)),
            );
            ApiPackage::Found(pkg, entry, versions)
        },
    }
}

/// A recipe beside a build that serves it and has its version, one of exactly
/// its architecture before others. Only where there is none, it stands beside
/// the build that recipes of any version are compared with.
pub open spec fn paired(latest: Seq<PublishedRowModel>, row: PackageRowModel) -> ApiStatusEntryModel {
    let builds = latest.filter(|p: PublishedRowModel| p.name == row.name);
    entry_of(
        row,
        match of_version(builds, row.arch, row.version.text) {
            Some(build) => Some(build),
            None => picked(builds, row.arch, None),
        },
    )
}

/// All recipes beside their builds, for programs.
pub fn api_status(database: &Database) -> (r: Vec<ApiStatusEntry>)
    ensures
        r.deep_view() == package_rows(recipes_of(database@)).map_values(
            |row: PackageRowModel| paired(latest_builds(builds_of(database@)), row),
        ),
{
    let latest = published_latest_by_arch(database);
    let rows = all_packages(database);
    let pair = |row: &PackageRow| -> (o: ApiStatusEntry)
        ensures
            o.deep_view() == paired(latest.deep_view(), row.deep_view()),
        {
            let builds = named_among(&latest, &row.name);
            let build = match pick_version(&builds, &row.arch, &row.version.text) {
                Some(build) => Some(build),
                None => pick_published(&builds, &row.arch, None),
            };
            api_entry(row, &build)
        };
    map_list(&rows, pair, Ghost(|row: PackageRowModel| paired(latest.deep_view(), row)))
}

// ---------------------------------------------------------------------------
// Laws
// ---------------------------------------------------------------------------

/// A name that a recipe provides has a page: that of its own recipe, or the
/// one that lists its providers.
pub proof fn lemma_provided_names_resolve(
    db: DatabaseModel,
    config: ConfigModel,
    name: Seq<char>,
    asked: Option<Seq<char>>,
    record: RecipeRecordModel,
)
    requires
        recipes_of(db).contains(record),
        record.package.provides.contains(name),
    ensures
        !(detail_answer(db, config, name, asked) is NotFound),
        !(package_answer(db, name) is NotFound),
        provider_names(recipes_of(db), name).contains(record.package.name),
{
    let all = recipes_of(db);
    let keep = |r: RecipeRecordModel| r.package.provides.contains(name);
    let kept = all.filter(keep);
    let names = kept.map_values(|r: RecipeRecordModel| r.package.name);
    let i = all.index_of(record);
    assert(keep(all[i]));
    all.lemma_filter_contains(keep, i);
    let k = kept.index_of(record);
    assert(names[k] == record.package.name);
    assert(names.contains(record.package.name));
    lemma_text_set(names);
    let set = provider_names(all, name);
    assert(set.contains(record.package.name));
    assert(set.len() > 0);
}

/// A name that has a recipe has a page about its recipes.
pub proof fn lemma_recipe_names_resolve(
    db: DatabaseModel,
    config: ConfigModel,
    name: Seq<char>,
    asked: Option<Seq<char>>,
    record: RecipeRecordModel,
)
    requires
        recipes_of(db).contains(record),
        record.package.name == name,
    ensures
        detail_answer(db, config, name, asked) is Page,
        package_answer(db, name) is Found,
{
    let all = version_rows(recipes_of(db), name);
    lemma_version_rows(recipes_of(db), record);
    let arches = recipe_arches(all);
    let names = all.map_values(|v: PackageRowModel| v.arch);
    lemma_text_set(names);
    assert(names[0] == all[0].arch);
    assert(names.contains(names[0]));
    assert(arches.contains(names[0]));
    let arch = shown_arch(all, asked);
    assert(arch is Some && arches.contains(arch->0));
    assert(names.contains(arch->0));
    let i = names.index_of(arch->0);
    let keep = |v: PackageRowModel| v.arch == arch->0;
    assert(keep(all[i]));
    all.lemma_filter_contains(keep, i);
    assert(all.filter(keep).contains(all[i]));
    assert(shown_versions(all, arch).len() > 0);
}

/// A name that has a build has a page.
pub proof fn lemma_build_names_resolve(
    db: DatabaseModel,
    config: ConfigModel,
    name: Seq<char>,
    asked: Option<Seq<char>>,
    build: PublishedRowModel,
)
    requires
        builds_of(db).contains(build),
        build.name == name,
    ensures
        !(detail_answer(db, config, name, asked) is NotFound),
{
    let all = version_rows(recipes_of(db), name);
    if all.len() > 0 {
        lemma_version_rows_from(recipes_of(db), name);
        let record = choose|r: RecipeRecordModel| #[trigger]
            recipes_of(db).contains(r) && r.package.name == name;
        lemma_recipe_names_resolve(db, config, name, asked, record);
    } else {
        let names = all.map_values(|v: PackageRowModel| v.arch);
        assert(names =~= Seq::<Seq<char>>::empty());
        lemma_text_set_empty();
        let arches = recipe_arches(all);
        assert(arches.len() == 0);
        assert(shown_arch(all, asked) is None);
        let keep = |p: PublishedRowModel| p.name == name;
        let list = uploads(builds_of(db));
        lemma_sort_permutes(
            builds_of(db),
            |a: PublishedRowModel, b: PublishedRowModel| upload_leq(a, b),
        );
        assert(list.contains(build));
        let i = list.index_of(build);
        assert(keep(list[i]));
        list.lemma_filter_contains(keep, i);
        assert(list.filter(keep).contains(build));
    }
}

/// A recipe is told beside a build of its own version wherever one serves it,
/// and not beside a newer one: a superseded recipe does not stay ahead.
pub proof fn lemma_paired_version(
    latest: Seq<PublishedRowModel>,
    row: PackageRowModel,
    build: PublishedRowModel,
)
    requires
        latest.contains(build),
        build.name == row.name,
        serves(row.arch, build.arch),
        build.version.text == row.version.text,
    ensures
        paired(latest, row).repo_version == Some(row.version.text),
{
    let named = |p: PublishedRowModel| p.name == row.name;
    let i = latest.index_of(build);
    assert(named(latest[i]));
    latest.lemma_filter_contains(named, i);
    assert(latest.filter(named).contains(build));
    lemma_of_version(latest.filter(named), row.arch, row.version.text);
}

proof fn lemma_version_rows(records: Seq<RecipeRecordModel>, record: RecipeRecordModel)
    requires
        records.contains(record),
    ensures
        version_rows(records, record.package.name).len() > 0,
{
    let name = record.package.name;
    let keep = |r: RecipeRecordModel| r.package.name == name;
    let i = records.index_of(record);
    assert(keep(records[i]));
    records.lemma_filter_contains(keep, i);
    let kept = records.filter(keep);
    assert(kept.contains(record));
    let rows = kept.map_values(|r: RecipeRecordModel| row_of(r));
    lemma_sort_permutes(rows, |a: PackageRowModel, b: PackageRowModel| version_leq(a, b));
}

proof fn lemma_version_rows_from(records: Seq<RecipeRecordModel>, name: Seq<char>)
    requires
        version_rows(records, name).len() > 0,
    ensures
        exists|r: RecipeRecordModel| #[trigger] records.contains(r) && r.package.name == name,
{
    let keep = |r: RecipeRecordModel| r.package.name == name;
    let kept = records.filter(keep);
    let rows = kept.map_values(|r: RecipeRecordModel| row_of(r));
    lemma_sort_permutes(rows, |a: PackageRowModel, b: PackageRowModel| version_leq(a, b));
    assert(kept.len() > 0);
    records.lemma_filter_pred(keep, 0);
    assert(keep(kept[0]));
    assert(kept.contains(kept[0]));
    records.lemma_filter_contains_rev(keep, kept[0]);
}

} // verus!
