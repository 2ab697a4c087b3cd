//! The pages that list packages, and the one about the site.

use vstd::prelude::*;
use vstd::string::*;

use crate::config::{Config, ConfigModel};
use crate::db::{
    builds_of, categories, category_counts, first_opt, last_syncs, latest_packages, latest_rows,
    meta_get, published_all, recent_syncs, recipes_of, uploads, Database, DatabaseModel,
};
use crate::list::{count_in, keep_list, map_list};
use crate::order::{lemma_filter_push, sort_list, sorted_set, stable_sort, text_set};
use crate::records::{
    no_texts, CategoryCount, CategoryCountModel, PackageRow, PackageRowModel, SyncEntry,
    SyncEntryModel,
};
use crate::status::State;
use crate::table::entry_at;
use crate::text::{chars_of, contains_text, joined, occurs, order_text, same_text, text_order, Side};
use crate::web::{
    nav_of, package_views, views_of, Nav, NavModel, PackageView, PackageViewModel, VERSION,
};

verus! {

// ---------------------------------------------------------------------------
// Lowercase search
// ---------------------------------------------------------------------------

/// A text in lower case.
pub uninterp spec fn lowercase(s: Seq<char>) -> Seq<char>;

/// `str::to_lowercase`: the text in lower case, as Unicode has it.
#[verifier::external_body]
fn to_lower(s: &str) -> (r: String)
    ensures
        r@ == lowercase(s@),
{
    s.to_lowercase()
}

/// Whether a package is found, where name, description and search are in
/// lower case.
pub fn found_by(name: &str, description: &str, search: &str) -> (r: bool)
    ensures
        r == (occurs(name@, search@) || occurs(description@, search@)),
{
    contains_text(name, search) || contains_text(description, search)
}

/// A recipe is found by `q` where its name or description has it, in any case.
pub open spec fn matches_search(row: PackageRowModel, q: Seq<char>) -> bool {
    q.len() == 0 || occurs(lowercase(row.name), lowercase(q)) || occurs(
        lowercase(row.description),
        lowercase(q),
    )
}

// ---------------------------------------------------------------------------
// Pages
// ---------------------------------------------------------------------------

/// The first page.
#[derive(Debug)]
pub struct IndexTemplate {
    pub total: i64,
    pub built: usize,
    pub outdated: usize,
    pub missing: usize,
    pub ahead: usize,
    pub categories: Vec<CategoryCount>,
    pub recent_syncs: Vec<SyncEntry>,
    pub commit: String,
    pub nav: Nav,
}

#[verifier::ext_equal]
pub struct IndexTemplateModel {
    pub total: i64,
    pub built: usize,
    pub outdated: usize,
    pub missing: usize,
    pub ahead: usize,
    pub categories: Seq<CategoryCountModel>,
    pub recent_syncs: Seq<SyncEntryModel>,
    pub commit: Seq<char>,
    pub nav: NavModel,
}

impl DeepView for IndexTemplate {
    type V = IndexTemplateModel;

    open spec fn deep_view(&self) -> IndexTemplateModel {
        IndexTemplateModel {
            total: self.total,
            built: self.built,
            outdated: self.outdated,
            missing: self.missing,
            ahead: self.ahead,
            categories: self.categories.deep_view(),
            recent_syncs: self.recent_syncs.deep_view(),
            commit: self.commit@,
            nav: self.nav.deep_view(),
        }
    }
}

/// How many of `views` are in `state`.
pub open spec fn state_count(views: Seq<PackageViewModel>, state: State) -> nat {
    views.filter(|v: PackageViewModel| v.state == state).len()
}

fn count_state(views: &Vec<PackageView>, state: State) -> (r: usize)
    ensures
        r == state_count(views.deep_view(), state),
{
    let inside = |v: &PackageView| -> (o: bool)
        ensures
            o == (v.deep_view().state == state),
        { v.state == state };
    count_in(views, inside, Ghost(|v: PackageViewModel| v.state == state))
}

/// How many bytes a character takes.
pub open spec fn char_width(c: char) -> int {
    let n = c as int;
    if n < 0x80 {
        1
    } else if n < 0x800 {
        2
    } else if n < 0x10000 {
        3
    } else {
        4
    }
}

/// The leading characters that take at most `room` bytes.
pub open spec fn fitting(s: Seq<char>, room: int) -> Seq<char>
    decreases s.len(),
{
    if s.len() == 0 || char_width(s[0]) > room {
        Seq::empty()
    } else {
        seq![s[0]] + fitting(s.drop_first(), room - char_width(s[0]))
    }
}

fn width_of_char(c: char) -> (r: usize)
    ensures
        r == char_width(c),
        1 <= r <= 4,
{
    let n: u32 = c as u32;
    if n < 0x80 {
        1
    } else if n < 0x800 {
        2
    } else if n < 0x10000 {
        3
    } else {
        4
    }
}

/// A commit in short.
fn short_commit(commit: &str) -> (r: String)
    ensures
        r@ == fitting(commit@, 12),
{
    let chars = chars_of(commit);
    let mut out = String::new();
    let mut room: usize = 12;
    let mut i: usize = 0;
    assert(chars@.skip(0) =~= commit@);
    assert(out@ + fitting(chars@.skip(0), 12) =~= fitting(commit@, 12));
    while i < chars.len() && width_of_char(chars[i]) <= room
        invariant
            chars@ == commit@,
            i <= chars.len(),
            out@ + fitting(chars@.skip(i as int), room as int) == fitting(commit@, 12),
        decreases chars.len() - i,
    {
        let c = chars[i];
        let ghost rest = chars@.skip(i as int);
        let ghost before = out@;
        assert(rest[0] == c);
        assert(rest.drop_first() =~= chars@.skip(i + 1));
        out.push(c);
        room = room - width_of_char(c);
        assert(out@ + fitting(chars@.skip(i + 1), room as int) =~= before + fitting(
            rest,
            room + char_width(c),
        ));
        i += 1;
    }
    assert(out@ + Seq::<char>::empty() =~= out@);
    out
}

/// The commit of the recipes in short; empty before the first
/// synchronization.
pub open spec fn commit_summary(db: DatabaseModel) -> Seq<char> {
    match entry_at(db.meta, "last_commit"@) {
        Some(commit) => "recipes@"@ + fitting(commit, 12),
        None => Seq::empty(),
    }
}

/// The commit of the recipes in short.
pub fn commits_summary(database: &Database) -> (r: String)
    ensures
        r@ == commit_summary(database@),
{
    match meta_get(database, "last_commit") {
        Some(commit) => joined("recipes@", &short_commit(&commit)),
        None => {
            let none = String::new();
            assert(none@ =~= Seq::<char>::empty());
            none
        },
    }
}

pub open spec fn every_row() -> spec_fn(PackageRowModel) -> bool {
    |r: PackageRowModel| true
}

/// The first page.
pub open spec fn index_page(db: DatabaseModel, config: ConfigModel) -> IndexTemplateModel {
    let views = views_of(db, every_row());
    IndexTemplateModel {
        total: views.len() as i64,
        built: state_count(views, State::Built) as usize,
        outdated: state_count(views, State::Outdated) as usize,
        missing: state_count(views, State::Missing) as usize,
        ahead: state_count(views, State::Ahead) as usize,
        categories: category_counts(latest_rows(recipes_of(db))),
        recent_syncs: last_syncs(db, 8),
        commit: commit_summary(db),
        nav: nav_of(config),
    }
}

fn any_row(r: &PackageRow) -> (o: bool)
    ensures
        o,
{
    true
}

/// The first page.
pub fn index(database: &Database, config: &Config) -> (r: IndexTemplate)
    ensures
        r.deep_view() == index_page(database@, config.deep_view()),
{
    let views = package_views(database, any_row, Ghost(every_row()));
    IndexTemplate {
        total: views.len() as i64,
        built: count_state(&views, State::Built),
        outdated: count_state(&views, State::Outdated),
        missing: count_state(&views, State::Missing),
        ahead: count_state(&views, State::Ahead),
        categories: categories(database),
        recent_syncs: recent_syncs(database, 8),
        commit: commits_summary(database),
        nav: Nav::from_config(config),
    }
}

/// The list of packages.
#[derive(Debug)]
pub struct PackagesTemplate {
    pub rows: Vec<PackageView>,
    pub q: String,
    pub category: String,
    pub state: String,
    pub arch: String,
    /// The architectures that occur.
    pub arches: Vec<String>,
    pub total: usize,
    pub nav: Nav,
}

#[verifier::ext_equal]
pub struct PackagesTemplateModel {
    pub rows: Seq<PackageViewModel>,
    pub q: Seq<char>,
    pub category: Seq<char>,
    pub state: Seq<char>,
    pub arch: Seq<char>,
    pub arches: Seq<Seq<char>>,
    pub total: usize,
    pub nav: NavModel,
}

impl DeepView for PackagesTemplate {
    type V = PackagesTemplateModel;

    open spec fn deep_view(&self) -> PackagesTemplateModel {
        PackagesTemplateModel {
            rows: self.rows.deep_view(),
            q: self.q@,
            category: self.category@,
            state: self.state@,
            arch: self.arch@,
            arches: self.arches.deep_view(),
            total: self.total,
            nav: self.nav.deep_view(),
        }
    }
}

/// What a list of packages is asked for; an empty field asks for nothing.
#[derive(Debug)]
pub struct PackageQuery {
    /// Part of the name or the description.
    pub q: String,
    pub category: String,
    pub state: String,
    pub arch: String,
}

#[verifier::ext_equal]
pub struct PackageQueryModel {
    pub q: Seq<char>,
    pub category: Seq<char>,
    pub state: Seq<char>,
    pub arch: Seq<char>,
}

impl DeepView for PackageQuery {
    type V = PackageQueryModel;

    open spec fn deep_view(&self) -> PackageQueryModel {
        PackageQueryModel {
            q: self.q@,
            category: self.category@,
            state: self.state@,
            arch: self.arch@,
        }
    }
}

/// The architectures of all packages.
pub open spec fn all_arches(db: DatabaseModel) -> Seq<Seq<char>> {
    text_set(latest_rows(recipes_of(db)).map_values(|r: PackageRowModel| r.arch))
}

fn row_arch(r: &PackageRow) -> (o: String)
    ensures
        o@ == r.deep_view().arch,
{
    r.arch.clone()
}

fn list_arches(database: &Database) -> (r: Vec<String>)
    ensures
        r.deep_view() == all_arches(database@),
{
    let rows = latest_packages(database);
    sorted_set(&map_list(&rows, row_arch, Ghost(|r: PackageRowModel| r.arch)))
}

/// The list of packages that a query asks for.
pub open spec fn packages_page(
    db: DatabaseModel,
    config: ConfigModel,
    query: PackageQueryModel,
) -> PackagesTemplateModel {
    let rows = views_of(
        db,
        |r: PackageRowModel|
            (query.arch.len() == 0 || r.arch == query.arch) && matches_search(r, query.q),
    ).filter(
        |v: PackageViewModel|
            (query.category.len() == 0 || v.category == query.category) && (query.state.len() == 0
                || v.state.label_spec() == query.state),
    );
    PackagesTemplateModel {
        rows,
        q: query.q,
        category: query.category,
        state: query.state,
        arch: query.arch,
        arches: all_arches(db),
        total: rows.len() as usize,
        nav: nav_of(config),
    }
}

/// The list of packages that a query asks for.
pub fn packages(database: &Database, config: &Config, query: &PackageQuery) -> (r: PackagesTemplate)
    ensures
        r.deep_view() == packages_page(database@, config.deep_view(), query.deep_view()),
{
    let search = to_lower(&query.q);
    let keep = |r: &PackageRow| -> (o: bool)
        ensures
            o == ((query.arch@.len() == 0 || r.deep_view().arch == query.arch@) && matches_search(
                r.deep_view(),
                query.q@,
            )),
        {
            (query.arch.as_str().is_empty() || same_text(&r.arch, &query.arch)) && (
            query.q.as_str().is_empty() || found_by(
                &to_lower(&r.name),
                &to_lower(&r.description),
                &search,
            ))
        };
    let found = package_views(
        database,
        keep,
        Ghost(
            |r: PackageRowModel|
                (query.deep_view().arch.len() == 0 || r.arch == query.deep_view().arch)
                    && matches_search(r, query.deep_view().q),
        ),
    );
    let shown = |v: &PackageView| -> (o: bool)
        ensures
            o == ((query.category@.len() == 0 || v.category@ == query.category@) && (
            query.state@.len() == 0 || v.state.label_spec() == query.state@)),
        {
            (query.category.as_str().is_empty() || same_text(&v.category, &query.category)) && (
            query.state.as_str().is_empty() || same_text(v.state.label(), &query.state))
        };
    let rows = keep_list(
        &found,
        shown,
        Ghost(
            |v: PackageViewModel|
                (query.deep_view().category.len() == 0 || v.category == query.deep_view().category)
                    && (query.deep_view().state.len() == 0 || v.state.label_spec()
                    == query.deep_view().state),
        ),
    );
    let total = rows.len();
    PackagesTemplate {
        rows,
        q: query.q.clone(),
        category: query.category.clone(),
        state: query.state.clone(),
        arch: query.arch.clone(),
        arches: list_arches(database),
        total,
        nav: Nav::from_config(config),
    }
}

/// The packages of a category.
#[derive(Debug)]
pub struct CategoryTemplate {
    pub rows: Vec<PackageView>,
    pub q: String,
    pub category: String,
    pub state: String,
    pub arch: String,
    pub arches: Vec<String>,
    pub total: usize,
    pub nav: Nav,
}

#[verifier::ext_equal]
pub struct CategoryTemplateModel {
    pub rows: Seq<PackageViewModel>,
    pub q: Seq<char>,
    pub category: Seq<char>,
    pub state: Seq<char>,
    pub arch: Seq<char>,
    pub arches: Seq<Seq<char>>,
    pub total: usize,
    pub nav: NavModel,
}

impl DeepView for CategoryTemplate {
    type V = CategoryTemplateModel;

    open spec fn deep_view(&self) -> CategoryTemplateModel {
        CategoryTemplateModel {
            rows: self.rows.deep_view(),
            q: self.q@,
            category: self.category@,
            state: self.state@,
            arch: self.arch@,
            arches: self.arches.deep_view(),
            total: self.total,
            nav: self.nav.deep_view(),
        }
    }
}

/// The packages of a category.
pub open spec fn category_page(db: DatabaseModel, config: ConfigModel, cat: Seq<char>) -> CategoryTemplateModel {
    let rows = views_of(db, |r: PackageRowModel| r.category == cat);
    CategoryTemplateModel {
        rows,
        q: Seq::empty(),
        category: cat,
        state: Seq::empty(),
        arch: Seq::empty(),
        arches: Seq::empty(),
        total: rows.len() as usize,
        nav: nav_of(config),
    }
}

/// The packages of a category.
pub fn category(database: &Database, config: &Config, cat: &str) -> (r: CategoryTemplate)
    ensures
        r.deep_view() == category_page(database@, config.deep_view(), cat@),
{
    let inside = |r: &PackageRow| -> (o: bool)
        ensures
            o == (r.category@ == cat@),
        { same_text(&r.category, cat) };
    let rows = package_views(
        database,
        inside,
        Ghost(|r: PackageRowModel| r.category == cat@),
    );
    let total = rows.len();
    let page = CategoryTemplate {
        rows,
        q: String::new(),
        category: cat.to_owned(),
        state: String::new(),
        arch: String::new(),
        arches: no_texts(),
        total,
        nav: Nav::from_config(config),
    };
    assert(page.deep_view() =~= category_page(database@, config.deep_view(), cat@));
    page
}

/// The packages whose builds are not up to date.
#[derive(Debug)]
pub struct StatusTemplate {
    pub missing: Vec<PackageView>,
    pub outdated: Vec<PackageView>,
    pub ahead: Vec<PackageView>,
    pub built: usize,
    pub arch: String,
    /// The architectures that occur.
    pub arches: Vec<String>,
    pub nav: Nav,
}

#[verifier::ext_equal]
pub struct StatusTemplateModel {
    pub missing: Seq<PackageViewModel>,
    pub outdated: Seq<PackageViewModel>,
    pub ahead: Seq<PackageViewModel>,
    pub built: usize,
    pub arch: Seq<char>,
    pub arches: Seq<Seq<char>>,
    pub nav: NavModel,
}

impl DeepView for StatusTemplate {
    type V = StatusTemplateModel;

    open spec fn deep_view(&self) -> StatusTemplateModel {
        StatusTemplateModel {
            missing: self.missing.deep_view(),
            outdated: self.outdated.deep_view(),
            ahead: self.ahead.deep_view(),
            built: self.built,
            arch: self.arch@,
            arches: self.arches.deep_view(),
            nav: self.nav.deep_view(),
        }
    }
}

/// The views in `state`.
pub open spec fn in_state(views: Seq<PackageViewModel>, state: State) -> Seq<PackageViewModel> {
    views.filter(|v: PackageViewModel| v.state == state)
}

fn select_state(views: &Vec<PackageView>, state: State) -> (r: Vec<PackageView>)
    ensures
        r.deep_view() == in_state(views.deep_view(), state),
{
    let inside = |v: &PackageView| -> (o: bool)
        ensures
            o == (v.deep_view().state == state),
        { v.state == state };
    keep_list(views, inside, Ghost(|v: PackageViewModel| v.state == state))
}

/// The views by name.
pub open spec fn by_name(views: Seq<PackageViewModel>) -> Seq<PackageViewModel> {
    stable_sort(
        views,
        |a: PackageViewModel, b: PackageViewModel| text_order(a.name, b.name) != Side::After,
    )
}

fn name_le(a: &PackageView, b: &PackageView) -> (r: bool)
    ensures
        r == (text_order(a.deep_view().name, b.deep_view().name) != Side::After),
{
    order_text(&a.name, &b.name) != Side::After
}

fn sort_by_name(views: Vec<PackageView>) -> (r: Vec<PackageView>)
    ensures
        r.deep_view() == by_name(views.deep_view()),
{
    sort_list(
        views,
        name_le,
        Ghost(
            |a: PackageViewModel, b: PackageViewModel| text_order(a.name, b.name) != Side::After,
        ),
    )
}

/// The packages whose builds are not up to date, for one architecture or,
/// where `arch` is empty, for all.
pub open spec fn status_of(db: DatabaseModel, config: ConfigModel, arch: Seq<char>) -> StatusTemplateModel {
    let views = views_of(db, |r: PackageRowModel| arch.len() == 0 || r.arch == arch);
    StatusTemplateModel {
        missing: by_name(in_state(views, State::Missing)),
        outdated: by_name(in_state(views, State::Outdated)),
        ahead: in_state(views, State::Ahead),
        built: state_count(views, State::Built) as usize,
        arch,
        arches: all_arches(db),
        nav: nav_of(config),
    }
}

/// The packages whose builds are not up to date.
pub fn status_page(database: &Database, config: &Config, arch: &str) -> (r: StatusTemplate)
    ensures
        r.deep_view() == status_of(database@, config.deep_view(), arch@),
{
    let inside = |r: &PackageRow| -> (o: bool)
        ensures
            o == (arch@.len() == 0 || r.arch@ == arch@),
        { arch.is_empty() || same_text(&r.arch, arch) };
    let views = package_views(
        database,
        inside,
        Ghost(|r: PackageRowModel| arch@.len() == 0 || r.arch == arch@),
    );
    StatusTemplate {
        missing: sort_by_name(select_state(&views, State::Missing)),
        outdated: sort_by_name(select_state(&views, State::Outdated)),
        ahead: select_state(&views, State::Ahead),
        built: count_state(&views, State::Built),
        arch: arch.to_owned(),
        arches: list_arches(database),
        nav: Nav::from_config(config),
    }
}

/// The tree of recipes as the page about the site shows it.
#[derive(Debug)]
pub struct SourceInfo {
    pub url: String,
    /// The commit of the last synchronization in short; empty before the first.
    pub commit: String,
}

#[verifier::ext_equal]
pub struct SourceInfoModel {
    pub url: Seq<char>,
    pub commit: Seq<char>,
}

impl DeepView for SourceInfo {
    type V = SourceInfoModel;

    open spec fn deep_view(&self) -> SourceInfoModel {
        SourceInfoModel {
            url: self.url@,
            commit: self.commit@,
        }
    }
}

/// The page about the site.
#[derive(Debug)]
pub struct AboutTemplate {
    pub version: String,
    pub source: SourceInfo,
    pub recipe_count: i128,
    pub published_count: i64,
    pub last_sync: Option<SyncEntry>,
    pub nav: Nav,
}

#[verifier::ext_equal]
pub struct AboutTemplateModel {
    pub version: Seq<char>,
    pub source: SourceInfoModel,
    pub recipe_count: i128,
    pub published_count: i64,
    pub last_sync: Option<SyncEntryModel>,
    pub nav: NavModel,
}

impl DeepView for AboutTemplate {
    type V = AboutTemplateModel;

    open spec fn deep_view(&self) -> AboutTemplateModel {
        AboutTemplateModel {
            version: self.version@,
            source: self.source.deep_view(),
            recipe_count: self.recipe_count,
            published_count: self.published_count,
            last_sync: self.last_sync.deep_view(),
            nav: self.nav.deep_view(),
        }
    }
}

/// The sum of the sizes of the categories.
pub open spec fn count_sum(counts: Seq<CategoryCountModel>) -> int
    decreases counts.len(),
{
    if counts.len() == 0 {
        0
    } else {
        count_sum(counts.drop_last()) + counts.last().count
    }
}

fn sum_counts(counts: &Vec<CategoryCount>) -> (r: i128)
    ensures
        r == count_sum(counts.deep_view()),
{
    let ghost all = counts.deep_view();
    let mut sum: i128 = 0;
    let mut i: usize = 0;
    assert(all.take(0) =~= Seq::<CategoryCountModel>::empty());
    while i < counts.len()
        invariant
            all == counts.deep_view(),
            i <= counts.len(),
            sum == count_sum(all.take(i as int)),
            -i * 0x8000_0000_0000_0000 <= sum <= i * 0x8000_0000_0000_0000,
        decreases counts.len() - i,
    {
        assert(all.take(i + 1).drop_last() =~= all.take(i as int));
        assert(all[i as int] == counts@[i as int].deep_view());
        sum = sum + counts[i].count as i128;
        i += 1;
    }
    assert(all.take(i as int) =~= all);
    sum
}

/// The page about the site.
pub open spec fn about_of(db: DatabaseModel, config: ConfigModel) -> AboutTemplateModel {
    AboutTemplateModel {
        version: VERSION@,
        source: SourceInfoModel {
            url: config.git_url,
            commit: match entry_at(db.meta, "last_commit"@) {
                Some(commit) => fitting(commit, 12),
                None => Seq::empty(),
            },
        },
        recipe_count: count_sum(category_counts(latest_rows(recipes_of(db)))) as i128,
        published_count: uploads(builds_of(db)).len() as i64,
        last_sync: first_opt(last_syncs(db, 1)),
        nav: nav_of(config),
    }
}

/// The page about the site.
pub fn about_page(database: &Database, config: &Config) -> (r: AboutTemplate)
    ensures
        r.deep_view() == about_of(database@, config.deep_view()),
{
    let commit = match meta_get(database, "last_commit") {
        Some(commit) => short_commit(&commit),
        None => {
            let none = String::new();
            assert(none@ =~= Seq::<char>::empty());
            none
        },
    };
    let syncs = recent_syncs(database, 1);
    let last_sync = if syncs.len() > 0 {
        assert(syncs.deep_view()[0] == syncs@[0].deep_view());
        Some(syncs[0].clone())
    } else {
        None
    };
    AboutTemplate {
        version: VERSION.to_owned(),
        source: SourceInfo { url: config.git_url.clone(), commit },
        recipe_count: sum_counts(&categories(database)),
        published_count: published_all(database).len() as i64,
        last_sync,
        nav: Nav::from_config(config),
    }
}

/// The page about publishing.
#[derive(Debug)]
pub struct UploadTemplate {
    pub nav: Nav,
}

#[verifier::ext_equal]
pub struct UploadTemplateModel {
    pub nav: NavModel,
}

impl DeepView for UploadTemplate {
    type V = UploadTemplateModel;

    open spec fn deep_view(&self) -> UploadTemplateModel {
        UploadTemplateModel {
            nav: self.nav.deep_view(),
        }
    }
}

/// The page about publishing.
pub fn upload_page(config: &Config) -> (r: UploadTemplate)
    ensures
        r.deep_view().nav == nav_of(config.deep_view()),
{
    UploadTemplate { nav: Nav::from_config(config) }
}

// ---------------------------------------------------------------------------
// Laws
// ---------------------------------------------------------------------------

/// Every package is in exactly one state: the four counts make up the whole.
pub proof fn lemma_states_partition(views: Seq<PackageViewModel>)
    ensures
        state_count(views, State::Missing) + state_count(views, State::Outdated) + state_count(
            views,
            State::Built,
        ) + state_count(views, State::Ahead) == views.len(),
    decreases views.len(),
{
    let missing = |v: PackageViewModel| v.state == State::Missing;
    let outdated = |v: PackageViewModel| v.state == State::Outdated;
    let built = |v: PackageViewModel| v.state == State::Built;
    let ahead = |v: PackageViewModel| v.state == State::Ahead;
    if views.len() == 0 {
        reveal(Seq::filter);
    } else {
        let less = views.drop_last();
        let last = views.last();
        lemma_states_partition(less);
        assert(views =~= less.push(last));
        lemma_filter_push(less, last, missing);
        lemma_filter_push(less, last, outdated);
        lemma_filter_push(less, last, built);
        lemma_filter_push(less, last, ahead);
    }
}

} // verus!
