//! What every page shares: the links, and the recipes beside their builds.

use vstd::prelude::*;
use vstd::string::*;

pub use crate::api::{
    api_package, api_packages, api_status, repo_index, ApiStatusEntry, RepoIndexTemplate,
};
pub use crate::detail::{
    github_blob_url, orphan_row, package_detail, render_virtual, DetailTemplate, ProviderView,
    VersionEntry, VirtualTemplate,
};
pub use crate::digest::verify_hmac;
pub use crate::pages::{
    about_page, category, commits_summary, index, packages, status_page, upload_page, AboutTemplate,
    CategoryTemplate, IndexTemplate, PackagesTemplate, SourceInfo, StatusTemplate, UploadTemplate,
};
pub use crate::requests::{
    authorize, github_webhook, publish, repo_file, trigger_sync, unpublish_file, upload_log,
};
use crate::calendar::{minute_text, time_hm_pub, time_utc, utc_text};
use crate::config::{Config, ConfigModel};
use crate::db::{
    builds_of, first_opt, latest_builds, latest_packages, latest_rows, published_latest_by_arch,
    recipes_of, Database, DatabaseModel,
};
use crate::list::{find_first, first_where, keep_list, lemma_first_where, map_list};
use crate::order::{lemma_sort_ascends, lemma_sort_permutes, sort_list, stable_sort, total_preorder};
use crate::records::{PackageRow, PackageRowModel, PublishedRow, PublishedRowModel};
use crate::status::{
    dashed, lemma_version_order, order_text_versions, plain_text, state_of, version_from,
    version_of, version_order, State,
};
use crate::text::{int_order, joined, order_i64, same_text, Side};

verus! {

// ---------------------------------------------------------------------------
// Navigation
// ---------------------------------------------------------------------------

/// The version of the hub.
pub const VERSION: &'static str = "0.1.6";

/// The links that every page has.
#[derive(Debug)]
pub struct Nav {
    pub home: String,
    pub packages: String,
    pub status: String,
    pub upload: String,
    pub repo: String,
    pub about: String,
}

#[verifier::ext_equal]
pub struct NavModel {
    pub home: Seq<char>,
    pub packages: Seq<char>,
    pub status: Seq<char>,
    pub upload: Seq<char>,
    pub repo: Seq<char>,
    pub about: Seq<char>,
}

impl DeepView for Nav {
    type V = NavModel;

    open spec fn deep_view(&self) -> NavModel {
        NavModel {
            home: self.home@,
            packages: self.packages@,
            status: self.status@,
            upload: self.upload@,
            repo: self.repo@,
            about: self.about@,
        }
    }
}

impl Clone for Nav {
    fn clone(&self) -> (r: Self)
        ensures
            r.deep_view() == self.deep_view(),
    {
        Nav {
            home: self.home.clone(),
            packages: self.packages.clone(),
            status: self.status.clone(),
            upload: self.upload.clone(),
            repo: self.repo.clone(),
            about: self.about.clone(),
        }
    }
}

/// The links that every page has. Pages are at the public origin of the site,
/// the repository may have a domain of its own.
pub open spec fn nav_of(config: ConfigModel) -> NavModel {
    let site = config.frontend_url;
    NavModel {
        home: site + "/"@,
        packages: site + "/packages"@,
        status: site + "/status"@,
        upload: site + "/upload"@,
        repo: if config.repo_base.len() == 0 {
            "/repo"@
        } else {
            config.repo_base
        },
        about: site + "/about"@,
    }
}

impl Nav {
    /// The version of the hub, for the footer.
    pub fn version(&self) -> (r: &'static str)
        ensures
            r@ == VERSION@,
    {
        VERSION
    }

    /// The links that every page has.
    pub fn from_config(config: &Config) -> (r: Nav)
        ensures
            r.deep_view() == nav_of(config.deep_view()),
    {
        let site = config.frontend_url.as_str();
        let repo = if config.repo_base.as_str().is_empty() {
            "/repo".to_owned()
        } else {
            config.repo_base.clone()
        };
        Nav {
            home: joined(site, "/"),
            packages: joined(site, "/packages"),
            status: joined(site, "/status"),
            upload: joined(site, "/upload"),
            repo,
            about: joined(site, "/about"),
        }
    }
}

// ---------------------------------------------------------------------------
// Recipes beside builds
// ---------------------------------------------------------------------------

/// A recipe beside its build.
#[derive(Debug)]
pub struct PackageView {
    pub name: String,
    /// The architecture of the recipe.
    pub arch: String,
    /// The tree that the recipe comes from.
    pub origin: String,
    pub category: String,
    pub version: String,
    pub release: String,
    pub description: String,
    pub state: State,
    /// Version and release of the build; empty where there is none.
    pub repo_version: String,
    /// When the build was published; 0 where there is none.
    pub built_at: i64,
}

#[verifier::ext_equal]
pub struct PackageViewModel {
    pub name: Seq<char>,
    pub arch: Seq<char>,
    pub origin: Seq<char>,
    pub category: Seq<char>,
    pub version: Seq<char>,
    pub release: Seq<char>,
    pub description: Seq<char>,
    pub state: State,
    pub repo_version: Seq<char>,
    pub built_at: i64,
}

impl DeepView for PackageView {
    type V = PackageViewModel;

    open spec fn deep_view(&self) -> PackageViewModel {
        PackageViewModel {
            name: self.name@,
            arch: self.arch@,
            origin: self.origin@,
            category: self.category@,
            version: self.version@,
            release: self.release@,
            description: self.description@,
            state: self.state,
            repo_version: self.repo_version@,
            built_at: self.built_at,
        }
    }
}

impl Clone for PackageView {
    fn clone(&self) -> (r: Self)
        ensures
            r.deep_view() == self.deep_view(),
    {
        PackageView {
            name: self.name.clone(),
            arch: self.arch.clone(),
            origin: self.origin.clone(),
            category: self.category.clone(),
            version: self.version.clone(),
            release: self.release.clone(),
            description: self.description.clone(),
            state: self.state,
            repo_version: self.repo_version.clone(),
            built_at: self.built_at,
        }
    }
}

impl PackageView {
    /// When the build was published, to the minute; empty where there is none.
    pub fn published_time(&self) -> (r: String)
        ensures
            r@ == if self.built_at > 0 {
                minute_text(self.built_at as int)
            } else {
                Seq::empty()
            },
    {
        if self.built_at > 0 {
            time_hm_pub(self.built_at)
        } else {
            let none = String::new();
            assert(none@ =~= Seq::<char>::empty());
            none
        }
    }

    /// When the build was published, in ISO 8601; empty where there is none.
    pub fn published_iso(&self) -> (r: String)
        ensures
            r@ == if self.built_at > 0 {
                utc_text(self.built_at as int)
            } else {
                Seq::empty()
            },
    {
        if self.built_at > 0 {
            time_utc(self.built_at)
        } else {
            let none = String::new();
            assert(none@ =~= Seq::<char>::empty());
            none
        }
    }

    /// Whether the repository has another version than the recipe.
    pub fn repo_differs(&self) -> (r: bool)
        ensures
            r == (self.repo_version@.len() > 0 && self.repo_version@ != dashed(
                self.version@,
                self.release@,
            )),
    {
        !self.repo_version.as_str().is_empty() && !same_text(
            &self.repo_version,
            &plain_text(&self.version, &self.release),
        )
    }
}

/// A build serves a recipe of its own architecture; a build or recipe for any
/// architecture goes with all.
pub open spec fn serves(recipe_arch: Seq<char>, pub_arch: Seq<char>) -> bool {
    recipe_arch == pub_arch || recipe_arch == "any"@ || pub_arch == "any"@
}

/// Whether a build serves a recipe.
pub fn arch_match(recipe_arch: &str, pub_arch: &str) -> (r: bool)
    ensures
        r == serves(recipe_arch@, pub_arch@),
{
    same_text(recipe_arch, pub_arch) || same_text(recipe_arch, "any") || same_text(pub_arch, "any")
}

/// The newest builds of the package `name`.
pub open spec fn builds_named(builds: Seq<PublishedRowModel>, name: Seq<char>) -> Seq<
    PublishedRowModel,
> {
    latest_builds(builds).filter(|p: PublishedRowModel| p.name == name)
}

pub(crate) fn named_among(latest: &Vec<PublishedRow>, name: &str) -> (r: Vec<PublishedRow>)
    ensures
        r.deep_view() == latest.deep_view().filter(|p: PublishedRowModel| p.name == name@),
{
    let named = |p: &PublishedRow| -> (o: bool)
        ensures
            o == (p.name@ == name@),
        { same_text(&p.name, name) };
    keep_list(latest, named, Ghost(|p: PublishedRowModel| p.name == name@))
}

/// The newest builds of the package `name`, one for each architecture,
/// channel and slot.
pub fn published_by_name(database: &Database, name: &str) -> (r: Vec<PublishedRow>)
    ensures
        r.deep_view() == builds_named(builds_of(database@), name@),
{
    named_among(&published_latest_by_arch(database), name)
}

/// How the build `a` stands to the build `b`: by version and release, then by
/// when they were published.
pub open spec fn build_order(a: PublishedRowModel, b: PublishedRowModel) -> Side {
    version_order(version_of(a.reading.plain), version_of(b.reading.plain)).or_spec(
        int_order(a.uploaded_at as int, b.uploaded_at as int),
    )
}

pub(crate) fn order_builds(a: &PublishedRow, b: &PublishedRow) -> (r: Side)
    ensures
        r == build_order(a.deep_view(), b.deep_view()),
{
    order_text_versions(&a.reading.plain, &b.reading.plain).or(
        order_i64(a.uploaded_at, b.uploaded_at),
    )
}

/// The build `a` may stand before `b` where the newer comes first.
pub open spec fn newer_leq(a: PublishedRowModel, b: PublishedRowModel) -> bool {
    build_order(b, a) != Side::After
}

fn newer_le(a: &PublishedRow, b: &PublishedRow) -> (r: bool)
    ensures
        r == newer_leq(a.deep_view(), b.deep_view()),
{
    order_builds(b, a) != Side::After
}

/// The builds that a recipe of the architecture `arch` can be compared with:
/// those of exactly that architecture, or, where there are none, all that
/// serve it.
pub open spec fn candidates(rows: Seq<PublishedRowModel>, arch: Seq<char>) -> Seq<
    PublishedRowModel,
> {
    let exact = rows.filter(|p: PublishedRowModel| p.arch == arch);
    if exact.len() > 0 {
        exact
    } else {
        rows.filter(|p: PublishedRowModel| serves(arch, p.arch))
    }
}

/// The build to compare a recipe of the architecture `arch` with: of the
/// candidates the first that has the wanted version, or else the newest.
pub open spec fn picked(
    rows: Seq<PublishedRowModel>,
    arch: Seq<char>,
    wanted: Option<Seq<char>>,
) -> Option<PublishedRowModel> {
    let pool = candidates(rows, arch);
    let same = match wanted {
        Some(version) => first_where(pool, |p: PublishedRowModel| p.version.text == version),
        None => None,
    };
    match same {
        Some(i) => Some(pool[i]),
        None => first_opt(
            stable_sort(pool, |a: PublishedRowModel, b: PublishedRowModel| newer_leq(a, b)),
        ),
    }
}

/// The build to compare a recipe with: one of exactly its architecture comes
/// before one for any, and among those the wanted version, or else the newest.
pub fn pick_published(
    rows: &Vec<PublishedRow>,
    recipe_arch: &str,
    want_same_version: Option<&str>,
) -> (r: Option<PublishedRow>)
    ensures
        r.deep_view() == picked(
            rows.deep_view(),
            recipe_arch@,
            match want_same_version {
                Some(v) => Some(v@),
                None => None,
            },
        ),
{
    let exact = |p: &PublishedRow| -> (o: bool)
        ensures
            o == (p.deep_view().arch == recipe_arch@),
        { same_text(&p.arch, recipe_arch) };
    let mut pool = keep_list(rows, exact, Ghost(|p: PublishedRowModel| p.arch == recipe_arch@));
    if pool.len() == 0 {
        let fits = |p: &PublishedRow| -> (o: bool)
            ensures
                o == serves(recipe_arch@, p.deep_view().arch),
            { arch_match(recipe_arch, &p.arch) };
        pool = keep_list(rows, fits, Ghost(|p: PublishedRowModel| serves(recipe_arch@, p.arch)));
    }
    assert(pool.deep_view() == candidates(rows.deep_view(), recipe_arch@));
    if let Some(version) = want_same_version {
        let same = |p: &PublishedRow| -> (o: bool)
            ensures
                o == (p.version.text@ == version@),
            { same_text(&p.version.text, version) };
        let hit = find_first(&pool, same, Ghost(|p: PublishedRowModel| p.version.text == version@));
        if let Some(i) = hit {
            assert(pool.deep_view()[i as int] == pool@[i as int].deep_view());
            return Some(pool[i].clone());
        }
    }
    let sorted = sort_list(
        pool,
        newer_le,
        Ghost(|a: PublishedRowModel, b: PublishedRowModel| newer_leq(a, b)),
    );
    if sorted.len() > 0 {
        assert(sorted.deep_view()[0] == sorted@[0].deep_view());
        Some(sorted[0].clone())
    } else {
        None
    }
}

/// The build of a given version for a recipe of the architecture `arch`: the
/// first of exactly that architecture, or else the first that serves it.
pub open spec fn of_version(
    rows: Seq<PublishedRowModel>,
    arch: Seq<char>,
    version: Seq<char>,
) -> Option<PublishedRowModel> {
    let exact = first_where(
        rows,
        |p: PublishedRowModel| p.arch == arch && p.version.text == version,
    );
    let fitting = first_where(
        rows,
        |p: PublishedRowModel| serves(arch, p.arch) && p.version.text == version,
    );
    match (exact, fitting) {
        (Some(i), _) => Some(rows[i]),
        (None, Some(i)) => Some(rows[i]),
        (None, None) => None,
    }
}

/// The build of a given version for a recipe.
pub fn pick_version(rows: &Vec<PublishedRow>, recipe_arch: &str, version: &str) -> (r: Option<
    PublishedRow,
>)
    ensures
        r.deep_view() == of_version(rows.deep_view(), recipe_arch@, version@),
{
    let exact = |p: &PublishedRow| -> (o: bool)
        ensures
            o == (p.arch@ == recipe_arch@ && p.version.text@ == version@),
        { same_text(&p.arch, recipe_arch) && same_text(&p.version.text, version) };
    let fitting = |p: &PublishedRow| -> (o: bool)
        ensures
            o == (serves(recipe_arch@, p.arch@) && p.version.text@ == version@),
        { arch_match(recipe_arch, &p.arch) && same_text(&p.version.text, version) };
    let hit = find_first(
        rows,
        exact,
        Ghost(|p: PublishedRowModel| p.arch == recipe_arch@ && p.version.text == version@),
    );
    if let Some(i) = hit {
        assert(rows.deep_view()[i as int] == rows@[i as int].deep_view());
        return Some(rows[i].clone());
    }
    let hit = find_first(
        rows,
        fitting,
        Ghost(|p: PublishedRowModel| serves(recipe_arch@, p.arch) && p.version.text == version@),
    );
    match hit {
        Some(i) => {
            assert(rows.deep_view()[i as int] == rows@[i as int].deep_view());
            Some(rows[i].clone())
        },
        None => None,
    }
}

/// The state of a recipe beside a build; epochs do not count.
pub open spec fn beside(row: PackageRowModel, build: Option<PublishedRowModel>) -> State {
    state_of(
        version_from(0, row.version, row.release),
        match build {
            Some(p) => Some(version_from(0, p.version, p.release)),
            None => None,
        },
    )
}

pub(crate) fn state_beside(row: &PackageRow, build: &Option<PublishedRow>) -> (r: State)
    ensures
        r == beside(row.deep_view(), build.deep_view()),
{
    match build {
        Some(p) => crate::status::derive(
            &row.version,
            &row.release,
            Some((&p.version, p.release.as_str())),
        ),
        None => crate::status::derive(&row.version, &row.release, None),
    }
}

/// A recipe beside its build, where `latest` are the newest builds.
pub open spec fn view_of(latest: Seq<PublishedRowModel>, row: PackageRowModel) -> PackageViewModel {
    let build = picked(
        latest.filter(|p: PublishedRowModel| p.name == row.name),
        row.arch,
        None,
    );
    PackageViewModel {
        name: row.name,
        arch: row.arch,
        origin: row.origin,
        category: row.category,
        version: row.version.text,
        release: row.release,
        description: row.description,
        state: beside(row, build),
        repo_version: match build {
            Some(p) => dashed(p.version.text, p.release),
            None => Seq::empty(),
        },
        built_at: match build {
            Some(p) => p.uploaded_at,
            None => 0,
        },
    }
}

fn package_view(latest: &Vec<PublishedRow>, row: &PackageRow) -> (r: PackageView)
    ensures
        r.deep_view() == view_of(latest.deep_view(), row.deep_view()),
{
    let build = pick_published(&named_among(latest, &row.name), &row.arch, None);
    let state = state_beside(row, &build);
    let repo_version = match &build {
        Some(p) => plain_text(&p.version.text, &p.release),
        None => {
            let none = String::new();
            assert(none@ =~= Seq::<char>::empty());
            none
        },
    };
    let built_at: i64 = match &build {
        Some(p) => p.uploaded_at,
        None => 0,
    };
    PackageView {
        name: row.name.clone(),
        arch: row.arch.clone(),
        origin: row.origin.clone(),
        category: row.category.clone(),
        version: row.version.text.clone(),
        release: row.release.clone(),
        description: row.description.clone(),
        state,
        repo_version,
        built_at,
    }
}

/// The newest recipes in `keep`, beside their builds.
pub open spec fn views_of(db: DatabaseModel, keep: spec_fn(PackageRowModel) -> bool) -> Seq<
    PackageViewModel,
> {
    latest_rows(recipes_of(db)).filter(keep).map_values(
        |r: PackageRowModel| view_of(latest_builds(builds_of(db)), r),
    )
}

/// The newest recipes in `filter`, which decides `keep`, beside their builds.
pub(crate) fn package_views(
    database: &Database,
    filter: impl Fn(&PackageRow) -> bool,
    Ghost(keep): Ghost<spec_fn(PackageRowModel) -> bool>,
) -> (r: Vec<PackageView>)
    requires
        forall|a: PackageRow| #[trigger] filter.requires((&a,)),
        forall|a: PackageRow, o: bool| #[trigger]
            filter.ensures((&a,), o) ==> o == keep(a.deep_view()),
    ensures
        r.deep_view() == views_of(database@, keep),
{
    let latest = published_latest_by_arch(database);
    let rows = latest_packages(database);
    let kept = keep_list(&rows, filter, Ghost(keep));
    let show = |row: &PackageRow| -> (o: PackageView)
        ensures
            o.deep_view() == view_of(latest.deep_view(), row.deep_view()),
        { package_view(&latest, row) };
    map_list(&kept, show, Ghost(|r: PackageRowModel| view_of(latest.deep_view(), r)))
}

// ---------------------------------------------------------------------------
// Laws
// ---------------------------------------------------------------------------

/// The order of builds is total.
pub proof fn lemma_build_order(a: PublishedRowModel, b: PublishedRowModel, c: PublishedRowModel)
    ensures
        build_order(b, a) == build_order(a, b).flip_spec(),
        build_order(a, b) != Side::After && build_order(b, c) != Side::After ==> build_order(a, c)
            != Side::After,
{
    lemma_version_order(
        version_of(a.reading.plain),
        version_of(b.reading.plain),
        version_of(c.reading.plain),
    );
    lemma_version_order(
        version_of(b.reading.plain),
        version_of(c.reading.plain),
        version_of(a.reading.plain),
    );
    lemma_version_order(
        version_of(a.reading.plain),
        version_of(c.reading.plain),
        version_of(b.reading.plain),
    );
}

/// The candidates serve the recipe; a build of exactly its architecture is
/// one, and then all are.
pub proof fn lemma_candidates(
    rows: Seq<PublishedRowModel>,
    arch: Seq<char>,
    build: PublishedRowModel,
)
    ensures
        candidates(rows, arch).contains(build) ==> rows.contains(build) && serves(arch, build.arch),
        rows.contains(build) && build.arch == arch ==> candidates(rows, arch).contains(build),
        rows.contains(build) && serves(arch, build.arch) && (forall|other: PublishedRowModel| #[trigger]
            rows.contains(other) ==> other.arch != arch) ==> candidates(rows, arch).contains(build),
        candidates(rows, arch).contains(build) && (exists|other: PublishedRowModel| #[trigger]
            rows.contains(other) && other.arch == arch) ==> build.arch == arch,
{
    let exact = |p: PublishedRowModel| p.arch == arch;
    let fits = |p: PublishedRowModel| serves(arch, p.arch);
    let own = rows.filter(exact);
    let all = rows.filter(fits);
    let pool = candidates(rows, arch);
    if pool.contains(build) {
        let k = pool.index_of(build);
        if own.len() > 0 {
            rows.lemma_filter_contains_rev(exact, build);
            rows.lemma_filter_pred(exact, k);
            assert(exact(own[k]));
        } else {
            rows.lemma_filter_contains_rev(fits, build);
            rows.lemma_filter_pred(fits, k);
            assert(fits(all[k]));
        }
    }
    if rows.contains(build) {
        let i = rows.index_of(build);
        if build.arch == arch {
            assert(exact(rows[i]));
            rows.lemma_filter_contains(exact, i);
        }
        if serves(arch, build.arch) {
            assert(fits(rows[i]));
            rows.lemma_filter_contains(fits, i);
        }
    }
    if own.len() > 0 {
        let first = own[0];
        assert(own.contains(first));
        rows.lemma_filter_contains_rev(exact, first);
        rows.lemma_filter_pred(exact, 0);
        assert(exact(first));
        assert(rows.contains(first));
    } else if exists|other: PublishedRowModel| #[trigger]
        rows.contains(other) && other.arch == arch {
        let other = choose|other: PublishedRowModel| #[trigger]
            rows.contains(other) && other.arch == arch;
        let i = rows.index_of(other);
        assert(exact(rows[i]));
        rows.lemma_filter_contains(exact, i);
        assert(own.contains(other));
    }
}

/// Where some build serves the recipe, one is chosen, whatever version is
/// wanted; it serves the recipe too, and is of exactly its architecture where
/// one of those is.
pub proof fn lemma_picked_serves(
    rows: Seq<PublishedRowModel>,
    arch: Seq<char>,
    wanted: Option<Seq<char>>,
    other: PublishedRowModel,
)
    requires
        rows.contains(other),
        serves(arch, other.arch),
    ensures
        ({
            let choice = picked(rows, arch, wanted);
            &&& choice is Some
            &&& candidates(rows, arch).contains(choice->0)
            &&& rows.contains(choice->0)
            &&& serves(arch, choice->0.arch)
            &&& other.arch == arch ==> choice->0.arch == arch
        }),
{
    let pool = candidates(rows, arch);
    let leq = |a: PublishedRowModel, b: PublishedRowModel| newer_leq(a, b);
    lemma_candidates(rows, arch, other);
    lemma_sort_permutes(pool, leq);
    assert(pool.len() > 0) by {
        if rows.filter(|p: PublishedRowModel| p.arch == arch).len() == 0 {
            let fits = |p: PublishedRowModel| serves(arch, p.arch);
            let i = rows.index_of(other);
            assert(fits(rows[i]));
            rows.lemma_filter_contains(fits, i);
            assert(rows.filter(fits).contains(other));
        }
    }
    let sorted = stable_sort(pool, leq);
    assert(sorted.len() == pool.len());
    assert(sorted.contains(sorted[0]));
    if let Some(version) = wanted {
        lemma_first_where(pool, |p: PublishedRowModel| p.version.text == version);
    }
    let choice = picked(rows, arch, wanted)->0;
    assert(pool.contains(choice));
    lemma_candidates(rows, arch, choice);
}

/// Of the candidates none is newer than the one chosen, unless that one has
/// the version wanted.
pub proof fn lemma_picked(
    rows: Seq<PublishedRowModel>,
    arch: Seq<char>,
    wanted: Option<Seq<char>>,
    other: PublishedRowModel,
)
    requires
        candidates(rows, arch).contains(other),
    ensures
        ({
            let choice = picked(rows, arch, wanted);
            &&& choice is Some
            &&& wanted != Some(choice->0.version.text) ==> build_order(other, choice->0)
                != Side::After
        }),
{
    let pool = candidates(rows, arch);
    let leq = |a: PublishedRowModel, b: PublishedRowModel| newer_leq(a, b);
    let sorted = stable_sort(pool, leq);
    assert(total_preorder(leq)) by {
        assert forall|a: PublishedRowModel, b: PublishedRowModel| #[trigger] leq(a, b) || leq(
            b,
            a,
        ) by {
            lemma_build_order(a, b, a);
        }
        assert forall|a: PublishedRowModel, b: PublishedRowModel, c: PublishedRowModel| #[trigger]
            leq(a, b) && #[trigger] leq(b, c) implies leq(a, c) by {
            lemma_build_order(c, b, a);
        }
    }
    lemma_sort_permutes(pool, leq);
    lemma_sort_ascends(pool, leq);
    assert(sorted.contains(other));
    let k = sorted.index_of(other);
    if k > 0 {
        assert(leq(sorted[0], sorted[k]));
    } else {
        lemma_build_order(other, other, other);
    }
    if let Some(version) = wanted {
        lemma_first_where(pool, |p: PublishedRowModel| p.version.text == version);
    }
}

/// Where a candidate has the version wanted, the build chosen has it.
pub proof fn lemma_picked_version(
    rows: Seq<PublishedRowModel>,
    arch: Seq<char>,
    version: Seq<char>,
    other: PublishedRowModel,
)
    requires
        candidates(rows, arch).contains(other),
        other.version.text == version,
    ensures
        picked(rows, arch, Some(version)) is Some,
        picked(rows, arch, Some(version))->0.version.text == version,
{
    let pool = candidates(rows, arch);
    let same = |p: PublishedRowModel| p.version.text == version;
    lemma_first_where(pool, same);
    let k = pool.index_of(other);
    assert(same(pool[k]));
}

/// Where some build that serves the recipe has the version, one is found; it
/// serves the recipe and has the version too, and is of exactly the recipe's
/// architecture where one of those is. Where none has, none is found.
pub proof fn lemma_of_version(rows: Seq<PublishedRowModel>, arch: Seq<char>, version: Seq<char>)
    ensures
        match of_version(rows, arch, version) {
            Some(p) => {
                &&& rows.contains(p) && serves(arch, p.arch) && p.version.text == version
                &&& (exists|other: PublishedRowModel| #[trigger]
                    rows.contains(other) && other.arch == arch && other.version.text == version)
                    ==> p.arch == arch
            },
            None => forall|other: PublishedRowModel| #[trigger]
                rows.contains(other) && serves(arch, other.arch) ==> other.version.text != version,
        },
{
    let exact = |p: PublishedRowModel| p.arch == arch && p.version.text == version;
    let fitting = |p: PublishedRowModel| serves(arch, p.arch) && p.version.text == version;
    lemma_first_where(rows, exact);
    lemma_first_where(rows, fitting);
    assert forall|other: PublishedRowModel| #[trigger] rows.contains(other) implies (
    first_where(rows, exact) is None ==> !exact(other)) && (first_where(rows, fitting) is None
        ==> !fitting(other)) by {
        let k = rows.index_of(other);
        assert(rows[k] == other);
    }
}

} // verus!
