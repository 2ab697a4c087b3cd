//! The page of a package.

use vstd::prelude::*;
use vstd::string::*;

use crate::config::{git_dir_of, Config, ConfigModel};
use crate::db::{
    builds_of, dependent_names, file_list, files_at, log_get, manifest_at, package_versions,
    provider_names, providers, published_for_name, published_meta, recipes_of, reverse_deps,
    uploads, version_leq, version_rows, Database, DatabaseModel,
};
use crate::list::{first_of, keep_list, leading, map_list};
use crate::model::{canonical, canonical_arch};
use crate::order::{
    lemma_filter_ascends, lemma_filter_first, lemma_sort_ascends, lemma_sort_permutes, sorted_set,
    text_set, total_preorder,
};
use crate::path::{below, path_join};
use crate::records::{
    is_daemon_row, no_deps, no_texts, row_of, FileLine, FileLineModel, LogRowModel, PackageRow,
    PackageRowModel, PublishedRow, PublishedRowModel, RecipeRecordModel,
};
use crate::split::{trim_end_text, without_suffix};
use crate::status::{lemma_version_order, version_of, State};
use crate::table::entry_at;
use crate::text::{concat, holds_text, same_text, text_from, Side};
use crate::web::{
    arch_match, beside, build_order, lemma_build_order, nav_of, order_builds, package_views, serves,
    state_beside, views_of, Nav, NavModel, PackageView, PackageViewModel,
};

verus! {

/// How many files a page lists.
pub const DETAIL_FILES_SHOWN: usize = 400;

/// One recipe among those of a package.
#[derive(Debug)]
pub struct VersionEntry {
    pub version: String,
    pub release: String,
    pub github_url: String,
    pub latest: bool,
}

#[verifier::ext_equal]
pub struct VersionEntryModel {
    pub version: Seq<char>,
    pub release: Seq<char>,
    pub github_url: Seq<char>,
    pub latest: bool,
}

impl DeepView for VersionEntry {
    type V = VersionEntryModel;

    open spec fn deep_view(&self) -> VersionEntryModel {
        VersionEntryModel {
            version: self.version@,
            release: self.release@,
            github_url: self.github_url@,
            latest: self.latest,
        }
    }
}

/// The page of a package.
#[derive(Debug)]
pub struct DetailTemplate {
    /// The further architectures of the package, with the paths of their pages.
    pub other_arches: Vec<(String, String)>,
    pub pkg: PackageRow,
    pub state: State,
    /// The builds, the last published first.
    pub published: Vec<PublishedRow>,
    /// The recipes, the newest first.
    pub versions: Vec<VersionEntry>,
    pub reverse: Vec<String>,
    pub recipe_toml: String,
    pub github_url: String,
    pub files: Vec<FileLine>,
    pub files_total: usize,
    /// Whether the build shown ships a service definition.
    pub p_daemon: bool,
    pub has_log: bool,
    pub log_content: String,
    pub log_builder: String,
    pub nav: Nav,
}

#[verifier::ext_equal]
pub struct DetailTemplateModel {
    pub other_arches: Seq<(Seq<char>, Seq<char>)>,
    pub pkg: PackageRowModel,
    pub state: State,
    pub published: Seq<PublishedRowModel>,
    pub versions: Seq<VersionEntryModel>,
    pub reverse: Seq<Seq<char>>,
    pub recipe_toml: Seq<char>,
    pub github_url: Seq<char>,
    pub files: Seq<FileLineModel>,
    pub files_total: usize,
    pub p_daemon: bool,
    pub has_log: bool,
    pub log_content: Seq<char>,
    pub log_builder: Seq<char>,
    pub nav: NavModel,
}

impl DeepView for DetailTemplate {
    type V = DetailTemplateModel;

    open spec fn deep_view(&self) -> DetailTemplateModel {
        DetailTemplateModel {
            other_arches: self.other_arches.deep_view(),
            pkg: self.pkg.deep_view(),
            state: self.state,
            published: self.published.deep_view(),
            versions: self.versions.deep_view(),
            reverse: self.reverse.deep_view(),
            recipe_toml: self.recipe_toml@,
            github_url: self.github_url@,
            files: self.files.deep_view(),
            files_total: self.files_total,
            p_daemon: self.p_daemon,
            has_log: self.has_log,
            log_content: self.log_content@,
            log_builder: self.log_builder@,
            nav: self.nav.deep_view(),
        }
    }
}

/// A package that provides a name.
#[derive(Debug)]
pub struct ProviderView {
    pub name: String,
    pub arch: String,
    pub state: State,
    pub repo_version: String,
}

#[verifier::ext_equal]
pub struct ProviderViewModel {
    pub name: Seq<char>,
    pub arch: Seq<char>,
    pub state: State,
    pub repo_version: Seq<char>,
}

impl DeepView for ProviderView {
    type V = ProviderViewModel;

    open spec fn deep_view(&self) -> ProviderViewModel {
        ProviderViewModel {
            name: self.name@,
            arch: self.arch@,
            state: self.state,
            repo_version: self.repo_version@,
        }
    }
}

/// The page of a name that packages provide.
#[derive(Debug)]
pub struct VirtualTemplate {
    pub name: String,
    pub providers: Vec<ProviderView>,
    pub nav: Nav,
}

#[verifier::ext_equal]
pub struct VirtualTemplateModel {
    pub name: Seq<char>,
    pub providers: Seq<ProviderViewModel>,
    pub nav: NavModel,
}

impl DeepView for VirtualTemplate {
    type V = VirtualTemplateModel;

    open spec fn deep_view(&self) -> VirtualTemplateModel {
        VirtualTemplateModel {
            name: self.name@,
            providers: self.providers.deep_view(),
            nav: self.nav.deep_view(),
        }
    }
}

/// Where a recipe can be read on the web.
pub open spec fn blob_url(git_url: Seq<char>, recipe_path: Seq<char>) -> Seq<char> {
    concat(seq![without_suffix(git_url, ".git"@), "/blob/main/"@, recipe_path])
}

/// Where a recipe can be read on the web.
pub fn github_blob_url(git_url: &str, recipe_path: &str) -> (r: String)
    ensures
        r@ == blob_url(git_url@, recipe_path@),
{
    proof {
        reveal_strlit(".git");
    }
    let parts: Vec<&str> = vec![trim_end_text(git_url, ".git"), "/blob/main/", recipe_path];
    assert(parts.deep_view() =~= seq![
        without_suffix(git_url@, ".git"@), "/blob/main/"@, recipe_path@,
    ]);
    text_from(&parts)
}

/// A row for a package that has builds but no recipe: what its manifest says.
pub open spec fn orphan_of(db: DatabaseModel, row: PublishedRowModel) -> PackageRowModel {
    let none = PackageRowModel {
        name: row.name,
        slot: row.slot,
        epoch: row.epoch,
        arch: canonical(row.arch),
        origin: Seq::empty(),
        category: "orphan"@,
        version: row.version,
        release: row.release,
        reading: row.reading,
        description: Seq::empty(),
        license: Seq::empty(),
        channel: Seq::empty(),
        provides: Seq::empty(),
        dependencies: Seq::empty(),
        build_dependencies: Seq::empty(),
        check_dependencies: Seq::empty(),
        conffiles: Seq::empty(),
        source_url: Seq::empty(),
        source_sha256: Seq::empty(),
        upstream_url: Seq::empty(),
        upstream_version_regex: Seq::empty(),
        recipe_path: Seq::empty(),
    };
    match manifest_at(db, row.filename) {
        Some(meta) => PackageRowModel {
            version: meta.version,
            release: meta.release,
            reading: meta.reading,
            description: meta.description,
            license: meta.license,
            channel: meta.channel,
            provides: meta.provides,
            conffiles: meta.conffiles,
            ..none
        },
        None => none,
    }
}

/// A row for a package that has builds but no recipe.
pub fn orphan_row(database: &Database, row: &PublishedRow) -> (r: PackageRow)
    ensures
        r.deep_view() == orphan_of(database@, row.deep_view()),
{
    let mut out = PackageRow {
        name: row.name.clone(),
        slot: row.slot.clone(),
        epoch: row.epoch,
        arch: canonical_arch(&row.arch).to_owned(),
        origin: String::new(),
        category: "orphan".to_owned(),
        version: row.version.clone(),
        release: row.release.clone(),
        reading: row.reading.clone(),
        description: String::new(),
        license: String::new(),
        channel: String::new(),
        provides: no_texts(),
        dependencies: no_deps(),
        build_dependencies: no_deps(),
        check_dependencies: no_deps(),
        conffiles: no_texts(),
        source_url: String::new(),
        source_sha256: String::new(),
        upstream_url: String::new(),
        upstream_version_regex: String::new(),
        recipe_path: String::new(),
    };
    if let Some(meta) = published_meta(database, &row.filename) {
        out.version = meta.version;
        out.release = meta.release;
        out.reading = meta.reading;
        out.description = meta.description;
        out.license = meta.license;
        out.channel = meta.channel;
        out.provides = meta.provides;
        out.conffiles = meta.conffiles;
    }
    assert(out.deep_view() =~= orphan_of(database@, row.deep_view()));
    out
}

/// The newest of some builds: the one with the greatest version, and of those
/// the last published, and of those the last.
pub open spec fn newest_build(rows: Seq<PublishedRowModel>) -> Option<PublishedRowModel>
    decreases rows.len(),
{
    if rows.len() == 0 {
        None
    } else {
        match newest_build(rows.drop_last()) {
            Some(best) => if build_order(best, rows.last()) == Side::After {
                Some(best)
            } else {
                Some(rows.last())
            },
            None => Some(rows.last()),
        }
    }
}

fn find_newest(rows: &Vec<PublishedRow>) -> (r: Option<PublishedRow>)
    ensures
        r.deep_view() == newest_build(rows.deep_view()),
{
    let ghost all = rows.deep_view();
    if rows.len() == 0 {
        return None;
    }
    let mut best: usize = 0;
    let mut i: usize = 1;
    proof {
        reveal_with_fuel(newest_build, 2);
        assert(all.take(1).drop_last() =~= Seq::<PublishedRowModel>::empty());
    }
    while i < rows.len()
        invariant
            all == rows.deep_view(),
            best < i <= rows.len(),
            newest_build(all.take(i as int)) == Some(all[best as int]),
        decreases rows.len() - i,
    {
        assert(all.take(i + 1).drop_last() =~= all.take(i as int));
        assert(all[i as int] == rows@[i as int].deep_view());
        assert(all[best as int] == rows@[best as int].deep_view());
        if order_builds(&rows[best], &rows[i]) != Side::After {
            best = i;
        }
        i += 1;
    }
    assert(all.take(i as int) =~= all);
    assert(all[best as int] == rows@[best as int].deep_view());
    Some(rows[best].clone())
}

/// The architectures that a package has recipes for.
pub open spec fn recipe_arches(versions: Seq<PackageRowModel>) -> Seq<Seq<char>> {
    text_set(versions.map_values(|v: PackageRowModel| v.arch))
}

/// The architecture to show, where `versions` has the newest recipe first: the
/// one asked for, where there are recipes for it, or that of the newest.
pub open spec fn shown_arch(versions: Seq<PackageRowModel>, asked: Option<Seq<char>>) -> Option<
    Seq<char>,
> {
    if asked is Some && recipe_arches(versions).contains(canonical(asked->0)) {
        Some(canonical(asked->0))
    } else if versions.len() > 0 {
        Some(versions[0].arch)
    } else {
        None
    }
}

fn choose_arch(versions: &Vec<PackageRow>, arches: &Vec<String>, asked: Option<&str>) -> (r: Option<
    String,
>)
    requires
        arches.deep_view() == recipe_arches(versions.deep_view()),
    ensures
        r.deep_view() == shown_arch(
            versions.deep_view(),
            match asked {
                Some(a) => Some(a@),
                None => None,
            },
        ),
{
    if let Some(arch) = asked {
        let want = canonical_arch(arch);
        if holds_text(arches, want) {
            return Some(want.to_owned());
        }
    }
    if versions.len() > 0 {
        assert(versions.deep_view()[0] == versions@[0].deep_view());
        Some(versions[0].arch.clone())
    } else {
        None
    }
}

/// The recipes for the architecture shown.
pub open spec fn shown_versions(versions: Seq<PackageRowModel>, arch: Option<Seq<char>>) -> Seq<
    PackageRowModel,
> {
    match arch {
        Some(a) => versions.filter(|v: PackageRowModel| v.arch == a),
        None => versions,
    }
}

fn keep_versions(versions: Vec<PackageRow>, arch: &Option<String>) -> (r: Vec<PackageRow>)
    ensures
        r.deep_view() == shown_versions(versions.deep_view(), arch.deep_view()),
{
    match arch {
        Some(a) => {
            let same = |v: &PackageRow| -> (o: bool)
                ensures
                    o == (v.arch@ == a@),
                { same_text(&v.arch, a) };
            keep_list(&versions, same, Ghost(|v: PackageRowModel| v.arch == a@))
        },
        None => versions,
    }
}

/// The builds for the architecture shown.
pub open spec fn shown_builds(builds: Seq<PublishedRowModel>, arch: Option<Seq<char>>) -> Seq<
    PublishedRowModel,
> {
    match arch {
        Some(a) => builds.filter(|p: PublishedRowModel| serves(a, canonical(p.arch))),
        None => builds,
    }
}

fn keep_builds(builds: Vec<PublishedRow>, arch: &Option<String>) -> (r: Vec<PublishedRow>)
    ensures
        r.deep_view() == shown_builds(builds.deep_view(), arch.deep_view()),
{
    match arch {
        Some(a) => {
            let fits = |p: &PublishedRow| -> (o: bool)
                ensures
                    o == serves(a@, canonical(p.deep_view().arch)),
                { arch_match(a, canonical_arch(&p.arch)) };
            keep_list(&builds, fits, Ghost(|p: PublishedRowModel| serves(a@, canonical(p.arch))))
        },
        None => builds,
    }
}

/// The recipe that a page shows first, or what takes its place.
pub enum SubjectModel {
    /// A recipe, or a row for builds without one.
    Row(PackageRowModel),
    /// A name that packages provide.
    Provided,
    Nothing,
}

/// What the page of `name` is about: its newest recipe; where there is none,
/// the packages that provide the name; where there are none either, its last
/// build.
pub open spec fn subject(
    db: DatabaseModel,
    name: Seq<char>,
    versions: Seq<PackageRowModel>,
    builds: Seq<PublishedRowModel>,
) -> SubjectModel {
    if versions.len() > 0 {
        SubjectModel::Row(versions[0])
    } else if provider_names(recipes_of(db), name).len() > 0 {
        SubjectModel::Provided
    } else if builds.len() > 0 {
        SubjectModel::Row(orphan_of(db, builds[0]))
    } else {
        SubjectModel::Nothing
    }
}

/// The recipes of a package as its page lists them.
pub open spec fn ladder(versions: Seq<PackageRowModel>) -> Seq<VersionEntryModel> {
    Seq::new(
        versions.len(),
        |i: int|
            VersionEntryModel {
                version: versions[i].version.text,
                release: versions[i].release,
                github_url: blob_url(versions[i].origin, versions[i].recipe_path),
                latest: i == 0,
            },
    )
}

fn list_versions(versions: &Vec<PackageRow>) -> (r: Vec<VersionEntry>)
    ensures
        r.deep_view() == ladder(versions.deep_view()),
{
    let ghost want = ladder(versions.deep_view());
    let mut out: Vec<VersionEntry> = Vec::new();
    let mut i: usize = 0;
    assert(out.deep_view() =~= want.take(0));
    while i < versions.len()
        invariant
            want == ladder(versions.deep_view()),
            i <= versions.len(),
            out.deep_view() == want.take(i as int),
        decreases versions.len() - i,
    {
        let v = &versions[i];
        let entry = VersionEntry {
            version: v.version.text.clone(),
            release: v.release.clone(),
            github_url: github_blob_url(&v.origin, &v.recipe_path),
            latest: i == 0,
        };
        assert(versions.deep_view()[i as int] == v.deep_view());
        assert(entry.deep_view() == want[i as int]);
        let ghost e = entry.deep_view();
        let ghost before = out.deep_view();
        out.push(entry);
        assert(out.deep_view() =~= before.push(e));
        assert(want.take(i as int).push(want[i as int]) =~= want.take(i + 1));
        i += 1;
    }
    assert(want.take(i as int) =~= want);
    out
}

/// The path of a package's page for one architecture.
pub open spec fn arch_page(name: Seq<char>, arch: Seq<char>) -> Seq<char> {
    concat(seq!["/package/"@, name, "?arch="@, arch])
}

/// The further architectures of a package, with the paths of their pages.
pub open spec fn further_arches(
    name: Seq<char>,
    arches: Seq<Seq<char>>,
    shown: Option<Seq<char>>,
) -> Seq<(Seq<char>, Seq<char>)> {
    arches.filter(|a: Seq<char>| Some(a) != shown).map_values(
        |a: Seq<char>| (a, arch_page(name, a)),
    )
}

fn list_further_arches(name: &str, arches: &Vec<String>, shown: &Option<String>) -> (r: Vec<
    (String, String),
>)
    ensures
        r.deep_view() == further_arches(name@, arches.deep_view(), shown.deep_view()),
{
    let other = |a: &String| -> (o: bool)
        ensures
            o == (Some(a@) != shown.deep_view()),
        {
            match shown {
                Some(s) => !same_text(a, s),
                None => true,
            }
        };
    let kept = keep_list(
        arches,
        other,
        Ghost(|a: Seq<char>| Some(a) != shown.deep_view()),
    );
    let link = |a: &String| -> (o: (String, String))
        ensures
            o.deep_view() == (a@, arch_page(name@, a@)),
        {
            let parts: Vec<&str> = vec!["/package/", name, "?arch=", a.as_str()];
            assert(parts.deep_view() =~= seq!["/package/"@, name@, "?arch="@, a@]);
            (a.clone(), text_from(&parts))
        };
    map_list(&kept, link, Ghost(|a: Seq<char>| (a, arch_page(name@, a))))
}

/// The log of a build.
pub open spec fn log_of(db: DatabaseModel, build: Option<PublishedRowModel>) -> Option<LogRowModel> {
    match build {
        Some(p) => entry_at(db.logs, p.filename),
        None => None,
    }
}

/// The files of a build.
pub open spec fn files_of(db: DatabaseModel, build: Option<PublishedRowModel>) -> Seq<FileLineModel> {
    match build {
        Some(p) => files_at(db, p.filename),
        None => Seq::empty(),
    }
}

/// The page of a package about `pkg`, before its recipe is read.
pub open spec fn detail_of(
    db: DatabaseModel,
    config: ConfigModel,
    name: Seq<char>,
    pkg: PackageRowModel,
    arches: Seq<Seq<char>>,
    arch: Option<Seq<char>>,
    versions: Seq<PackageRowModel>,
    builds: Seq<PublishedRowModel>,
) -> DetailTemplateModel {
    let build = newest_build(builds);
    let log = log_of(db, build);
    let files = files_of(db, build);
    DetailTemplateModel {
        other_arches: further_arches(name, arches, arch),
        pkg,
        state: beside(pkg, build),
        published: builds,
        versions: ladder(versions),
        reverse: dependent_names(recipes_of(db), name),
        recipe_toml: "<recipe not on disk>"@,
        github_url: blob_url(pkg.origin, pkg.recipe_path),
        files: leading(files, DETAIL_FILES_SHOWN as int),
        files_total: files.len() as usize,
        p_daemon: build is Some && is_daemon_row(build->0),
        has_log: log is Some,
        log_content: match log {
            Some(l) => l.content,
            None => Seq::empty(),
        },
        log_builder: match log {
            Some(l) => l.builder,
            None => Seq::empty(),
        },
        nav: nav_of(config),
    }
}

/// The answer to a request for the page of a package.
#[derive(Debug)]
pub enum Detail {
    /// The page, and the path of the recipe to show on it.
    Page(DetailTemplate, String),
    Virtual(VirtualTemplate),
    NotFound,
}

pub enum DetailModel {
    Page(DetailTemplateModel, Seq<char>),
    Virtual(VirtualTemplateModel),
    NotFound,
}

impl DeepView for Detail {
    type V = DetailModel;

    open spec fn deep_view(&self) -> DetailModel {
        match self {
            Detail::Page(page, file) => DetailModel::Page(page.deep_view(), file@),
            Detail::Virtual(page) => DetailModel::Virtual(page.deep_view()),
            Detail::NotFound => DetailModel::NotFound,
        }
    }
}

pub open spec fn provider_view(v: PackageViewModel) -> ProviderViewModel {
    ProviderViewModel { name: v.name, arch: v.arch, state: v.state, repo_version: v.repo_version }
}

fn show_provider(v: &PackageView) -> (r: ProviderView)
    ensures
        r.deep_view() == provider_view(v.deep_view()),
{
    ProviderView {
        name: v.name.clone(),
        arch: v.arch.clone(),
        state: v.state,
        repo_version: v.repo_version.clone(),
    }
}

/// The page of a name that packages provide.
pub open spec fn virtual_of(
    db: DatabaseModel,
    config: ConfigModel,
    name: Seq<char>,
    names: Seq<Seq<char>>,
) -> VirtualTemplateModel {
    VirtualTemplateModel {
        name,
        providers: views_of(db, |r: PackageRowModel| names.contains(r.name)).map_values(
            |v: PackageViewModel| provider_view(v),
        ),
        nav: nav_of(config),
    }
}

/// The page of a name that the packages `names` provide.
pub fn render_virtual(
    database: &Database,
    config: &Config,
    name: &str,
    names: &Vec<String>,
) -> (r: VirtualTemplate)
    ensures
        r.deep_view() == virtual_of(database@, config.deep_view(), name@, names.deep_view()),
{
    let wanted = |r: &PackageRow| -> (o: bool)
        ensures
            o == names.deep_view().contains(r.deep_view().name),
        { holds_text(names, &r.name) };
    let views = package_views(
        database,
        wanted,
        Ghost(|r: PackageRowModel| names.deep_view().contains(r.name)),
    );
    VirtualTemplate {
        name: name.to_owned(),
        providers: map_list(
            &views,
            show_provider,
            Ghost(|v: PackageViewModel| provider_view(v)),
        ),
        nav: Nav::from_config(config),
    }
}

/// The answer to a request for the page of `name`, for the architecture
/// `asked` where there is one.
pub open spec fn detail_answer(
    db: DatabaseModel,
    config: ConfigModel,
    name: Seq<char>,
    asked: Option<Seq<char>>,
) -> DetailModel {
    let all = version_rows(recipes_of(db), name);
    let arches = recipe_arches(all);
    let arch = shown_arch(all, asked);
    let versions = shown_versions(all, arch);
    let builds = shown_builds(
        uploads(builds_of(db)).filter(|p: PublishedRowModel| p.name == name),
        arch,
    );
    match subject(db, name, versions, builds) {
        SubjectModel::Row(pkg) => DetailModel::Page(
            detail_of(db, config, name, pkg, arches, arch, versions, builds),
            below(git_dir_of(config), pkg.recipe_path),
        ),
        SubjectModel::Provided => DetailModel::Virtual(
            virtual_of(db, config, name, provider_names(recipes_of(db), name)),
        ),
        SubjectModel::Nothing => DetailModel::NotFound,
    }
}

fn detail_page(
    database: &Database,
    config: &Config,
    name: &str,
    pkg: PackageRow,
    arches: &Vec<String>,
    arch: &Option<String>,
    versions: &Vec<PackageRow>,
    builds: Vec<PublishedRow>,
) -> (r: DetailTemplate)
    ensures
        r.deep_view() == detail_of(
            database@,
            config.deep_view(),
            name@,
            pkg.deep_view(),
            arches.deep_view(),
            arch.deep_view(),
            versions.deep_view(),
            builds.deep_view(),
        ),
{
    let build = find_newest(&builds);
    let state = state_beside(&pkg, &build);
    let files = match &build {
        Some(p) => file_list(database, &p.filename),
        None => {
            let none: Vec<FileLine> = Vec::new();
            assert(none.deep_view() =~= Seq::<FileLineModel>::empty());
            none
        },
    };
    let log = match &build {
        Some(p) => log_get(database, &p.filename),
        None => None,
    };
    assert(log.deep_view() == log_of(database@, build.deep_view()));
    assert(files.deep_view() == files_of(database@, build.deep_view()));
    let has_log = log.is_some();
    let (log_content, log_builder) = match log {
        Some(l) => (l.content, l.builder),
        None => (String::new(), String::new()),
    };
    let p_daemon = match &build {
        Some(p) => p.is_daemon(),
        None => false,
    };
    let page = DetailTemplate {
        other_arches: list_further_arches(name, arches, arch),
        state,
        published: builds,
        versions: list_versions(versions),
        reverse: reverse_deps(database, name),
        recipe_toml: "<recipe not on disk>".to_owned(),
        github_url: github_blob_url(&pkg.origin, &pkg.recipe_path),
        files: first_of(&files, DETAIL_FILES_SHOWN),
        files_total: files.len(),
        p_daemon,
        has_log,
        log_content,
        log_builder,
        pkg,
        nav: Nav::from_config(config),
    };
    assert(page.deep_view() =~= detail_of(
        database@,
        config.deep_view(),
        name@,
        pkg.deep_view(),
        arches.deep_view(),
        arch.deep_view(),
        versions.deep_view(),
        builds.deep_view(),
    ));
    page
}

fn version_arch(v: &PackageRow) -> (r: String)
    ensures
        r@ == v.deep_view().arch,
{
    v.arch.clone()
}

/// The answer to a request for the page of `name`.
pub fn package_detail(database: &Database, config: &Config, name: &str, asked: Option<&str>) -> (r:
    Detail)
    ensures
        r.deep_view() == detail_answer(
            database@,
            config.deep_view(),
            name@,
            match asked {
                Some(a) => Some(a@),
                None => None,
            },
        ),
{
    let all = package_versions(database, name);
    let arches = sorted_set(&map_list(&all, version_arch, Ghost(|v: PackageRowModel| v.arch)));
    let arch = choose_arch(&all, &arches, asked);
    let versions = keep_versions(all, &arch);
    let builds = keep_builds(published_for_name(database, name), &arch);
    let pkg = if versions.len() > 0 {
        assert(versions.deep_view()[0] == versions@[0].deep_view());
        versions[0].clone()
    } else {
        let names = providers(database, name);
        if names.len() > 0 {
            return Detail::Virtual(render_virtual(database, config, name, &names));
        }
        if builds.len() == 0 {
            return Detail::NotFound;
        }
        assert(builds.deep_view()[0] == builds@[0].deep_view());
        orphan_row(database, &builds[0])
    };
    let file = path_join(&config.git_dir(), &pkg.recipe_path);
    Detail::Page(
        detail_page(database, config, name, pkg, &arches, &arch, &versions, builds),
        file,
    )
}

impl DetailTemplate {
    /// Shows the recipe that was read.
    pub fn show_recipe(&mut self, text: &str)
        ensures
            final(self).deep_view() == (DetailTemplateModel {
                recipe_toml: text@,
                ..old(self).deep_view()
            }),
    {
        self.recipe_toml = text.to_owned();
    }
}

// ---------------------------------------------------------------------------
// Laws
// ---------------------------------------------------------------------------

/// The build that a page compares with is one of those at hand, and none has
/// a greater version, or the same and was published later: rebuilding an old
/// version does not change the state.
pub proof fn lemma_newest_build(rows: Seq<PublishedRowModel>, other: PublishedRowModel)
    requires
        rows.contains(other),
    ensures
        newest_build(rows) is Some,
        rows.contains(newest_build(rows)->0),
        build_order(other, newest_build(rows)->0) != Side::After,
    decreases rows.len(),
{
    let front = rows.drop_last();
    let last = rows.last();
    assert(rows =~= front.push(last));
    if front.len() > 0 {
        lemma_newest_build(front, front[0]);
        let best = newest_build(front)->0;
        assert(rows.contains(best)) by {
            let k = front.index_of(best);
            assert(rows[k] == best);
        }
        lemma_build_order(best, last, best);
        lemma_build_order(last, last, last);
        if other != last {
            let k = rows.index_of(other);
            assert(front[k] == other);
            lemma_newest_build(front, other);
            lemma_build_order(other, best, last);
        }
    } else {
        lemma_build_order(last, last, last);
        assert(newest_build(front) is None);
        let k = rows.index_of(other);
        assert(k == 0);
    }
    assert(rows.contains(last)) by {
        assert(rows[rows.len() - 1] == last);
    }
}

/// The page of a package has every recipe of the architecture shown.
pub proof fn lemma_ladder_complete(
    records: Seq<RecipeRecordModel>,
    arch: Option<Seq<char>>,
    record: RecipeRecordModel,
)
    requires
        records.contains(record),
        match arch {
            Some(a) => row_of(record).arch == a,
            None => true,
        },
    ensures
        shown_versions(version_rows(records, record.package.name), arch).contains(row_of(record)),
{
    let name = record.package.name;
    let named = |r: RecipeRecordModel| r.package.name == name;
    let kept = records.filter(named);
    let rows = kept.map_values(|r: RecipeRecordModel| row_of(r));
    let all = version_rows(records, name);
    lemma_sort_permutes(rows, |a: PackageRowModel, b: PackageRowModel| version_leq(a, b));
    let k = records.index_of(record);
    assert(named(records[k]));
    records.lemma_filter_contains(named, k);
    let m = kept.index_of(record);
    assert(rows[m] == row_of(record));
    assert(rows.contains(row_of(record)));
    assert(all.contains(row_of(record)));
    if let Some(a) = arch {
        let same = |v: PackageRowModel| v.arch == a;
        let n = all.index_of(row_of(record));
        assert(same(all[n]));
        all.lemma_filter_contains(same, n);
    }
}

/// The page of a package lists its recipes from the newest on, and marks the
/// first.
pub proof fn lemma_ladder(
    records: Seq<RecipeRecordModel>,
    name: Seq<char>,
    arch: Option<Seq<char>>,
    i: int,
    j: int,
)
    requires
        0 <= i <= j < shown_versions(version_rows(records, name), arch).len(),
    ensures
        ({
            let shown = shown_versions(version_rows(records, name), arch);
            &&& version_leq(shown[i], shown[j])
            &&& ladder(shown)[i].latest == (i == 0)
        }),
{
    let leq = |a: PackageRowModel, b: PackageRowModel| version_leq(a, b);
    let rows = records.filter(|r: RecipeRecordModel| r.package.name == name).map_values(
        |r: RecipeRecordModel| row_of(r),
    );
    assert(total_preorder(leq)) by {
        assert forall|a: PackageRowModel, b: PackageRowModel| #[trigger] leq(a, b) || leq(b, a) by {
            lemma_version_order(
                version_of(a.reading.full),
                version_of(b.reading.full),
                version_of(a.reading.full),
            );
        }
        assert forall|a: PackageRowModel, b: PackageRowModel, c: PackageRowModel| #[trigger]
            leq(a, b) && #[trigger] leq(b, c) implies leq(a, c) by {
            lemma_version_order(
                version_of(c.reading.full),
                version_of(b.reading.full),
                version_of(a.reading.full),
            );
        }
    }
    lemma_sort_ascends(rows, leq);
    let all = version_rows(records, name);
    if let Some(a) = arch {
        lemma_filter_ascends(all, leq, |v: PackageRowModel| v.arch == a);
    }
    let shown = shown_versions(all, arch);
    assert(leq(shown[i], shown[j]));
}

/// Where no architecture is asked for, the page is about the newest recipe of
/// the package.
pub proof fn lemma_newest_recipe_shown(
    db: DatabaseModel,
    config: ConfigModel,
    name: Seq<char>,
)
    requires
        version_rows(recipes_of(db), name).len() > 0,
    ensures
        detail_answer(db, config, name, None) is Page,
        detail_answer(db, config, name, None)->Page_0.pkg == version_rows(recipes_of(db), name)[0],
{
    let all = version_rows(recipes_of(db), name);
    lemma_filter_first(all, |v: PackageRowModel| v.arch == all[0].arch);
}

} // verus!
