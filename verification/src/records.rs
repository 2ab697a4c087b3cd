//! What the hub keeps: recipes, published builds, file lists, logs, tokens
//! and the history of synchronizations.

use vstd::prelude::*;

use crate::calendar::{minute_text, time_hm_pub, time_utc, utc_text};
use crate::digits::{decimal, decimal_text};
use crate::model::{
    canonical, canonical_arch, copy_list, shown_dep, shown_deps, Dep, DepModel, DependencyModel,
    ManagedBuildTool, Package, PackageModel,
};
use crate::status::{Reading, ReadingModel, Upstream, UpstreamModel};
use crate::text::copy_texts;

verus! {

// ---------------------------------------------------------------------------
// Recipes
// ---------------------------------------------------------------------------

/// One Sage recipe observed in the canonical source tree.
#[derive(Debug)]
pub struct RecipeRecord {
    pub package: Package,
    pub origin: String,
    pub category: String,
    pub recipe_path: String,
    pub git_commit: String,
    pub source_url: String,
    pub source_sha256: String,
}

#[verifier::ext_equal]
pub struct RecipeRecordModel {
    pub package: PackageModel,
    pub origin: Seq<char>,
    pub category: Seq<char>,
    pub recipe_path: Seq<char>,
    pub git_commit: Seq<char>,
    pub source_url: Seq<char>,
    pub source_sha256: Seq<char>,
}

impl DeepView for RecipeRecord {
    type V = RecipeRecordModel;

    open spec fn deep_view(&self) -> RecipeRecordModel {
        RecipeRecordModel {
            package: self.package.deep_view(),
            origin: self.origin@,
            category: self.category@,
            recipe_path: self.recipe_path@,
            git_commit: self.git_commit@,
            source_url: self.source_url@,
            source_sha256: self.source_sha256@,
        }
    }
}

impl Clone for RecipeRecord {
    fn clone(&self) -> (r: Self)
        ensures
            r.deep_view() == self.deep_view(),
    {
        RecipeRecord {
            package: self.package.clone(),
            origin: self.origin.clone(),
            category: self.category.clone(),
            recipe_path: self.recipe_path.clone(),
            git_commit: self.git_commit.clone(),
            source_url: self.source_url.clone(),
            source_sha256: self.source_sha256.clone(),
        }
    }
}

/// One recipe as the hub presents it.
#[derive(Debug)]
pub struct PackageRow {
    pub name: String,
    pub slot: String,
    pub epoch: u32,
    /// Canonical architecture.
    pub arch: String,
    /// URL of the source tree.
    pub origin: String,
    pub category: String,
    pub version: Upstream,
    pub release: String,
    pub reading: Reading,
    pub description: String,
    pub license: String,
    pub channel: String,
    pub provides: Vec<String>,
    pub dependencies: Vec<Dep>,
    pub build_dependencies: Vec<Dep>,
    pub check_dependencies: Vec<Dep>,
    pub conffiles: Vec<String>,
    pub source_url: String,
    pub source_sha256: String,
    pub upstream_url: String,
    pub upstream_version_regex: String,
    /// Path of the recipe below the source tree.
    pub recipe_path: String,
}

#[verifier::ext_equal]
pub struct PackageRowModel {
    pub name: Seq<char>,
    pub slot: Seq<char>,
    pub epoch: u32,
    pub arch: Seq<char>,
    pub origin: Seq<char>,
    pub category: Seq<char>,
    pub version: UpstreamModel,
    pub release: Seq<char>,
    pub reading: ReadingModel,
    pub description: Seq<char>,
    pub license: Seq<char>,
    pub channel: Seq<char>,
    pub provides: Seq<Seq<char>>,
    pub dependencies: Seq<DepModel>,
    pub build_dependencies: Seq<DepModel>,
    pub check_dependencies: Seq<DepModel>,
    pub conffiles: Seq<Seq<char>>,
    pub source_url: Seq<char>,
    pub source_sha256: Seq<char>,
    pub upstream_url: Seq<char>,
    pub upstream_version_regex: Seq<char>,
    pub recipe_path: Seq<char>,
}

impl DeepView for PackageRow {
    type V = PackageRowModel;

    open spec fn deep_view(&self) -> PackageRowModel {
        PackageRowModel {
            name: self.name@,
            slot: self.slot@,
            epoch: self.epoch,
            arch: self.arch@,
            origin: self.origin@,
            category: self.category@,
            version: self.version.deep_view(),
            release: self.release@,
            reading: self.reading.deep_view(),
            description: self.description@,
            license: self.license@,
            channel: self.channel@,
            provides: self.provides.deep_view(),
            dependencies: self.dependencies.deep_view(),
            build_dependencies: self.build_dependencies.deep_view(),
            check_dependencies: self.check_dependencies.deep_view(),
            conffiles: self.conffiles.deep_view(),
            source_url: self.source_url@,
            source_sha256: self.source_sha256@,
            upstream_url: self.upstream_url@,
            upstream_version_regex: self.upstream_version_regex@,
            recipe_path: self.recipe_path@,
        }
    }
}

impl Clone for PackageRow {
    fn clone(&self) -> (r: Self)
        ensures
            r.deep_view() == self.deep_view(),
    {
        PackageRow {
            name: self.name.clone(),
            slot: self.slot.clone(),
            epoch: self.epoch,
            arch: self.arch.clone(),
            origin: self.origin.clone(),
            category: self.category.clone(),
            version: self.version.clone(),
            release: self.release.clone(),
            reading: self.reading.clone(),
            description: self.description.clone(),
            license: self.license.clone(),
            channel: self.channel.clone(),
            provides: copy_texts(&self.provides),
            dependencies: copy_list(&self.dependencies),
            build_dependencies: copy_list(&self.build_dependencies),
            check_dependencies: copy_list(&self.check_dependencies),
            conffiles: copy_texts(&self.conffiles),
            source_url: self.source_url.clone(),
            source_sha256: self.source_sha256.clone(),
            upstream_url: self.upstream_url.clone(),
            upstream_version_regex: self.upstream_version_regex.clone(),
            recipe_path: self.recipe_path.clone(),
        }
    }
}

// ---------------------------------------------------------------------------
// Published builds
// ---------------------------------------------------------------------------

/// What the manifest of a package archive says.
#[derive(Debug)]
pub struct ManifestMeta {
    pub schema_version: u32,
    pub name: String,
    pub slot: String,
    pub version: Upstream,
    pub release: String,
    pub epoch: u32,
    pub reading: Reading,
    pub description: String,
    pub license: String,
    pub channel: String,
    pub arch: String,
    pub installed_size: u64,
    /// The service definition of the package; empty where it ships none.
    pub service_toml: String,
    pub dependencies: Vec<String>,
    pub check_dependencies: Vec<String>,
    pub provides: Vec<String>,
    pub conflicts: Vec<String>,
    pub features: Vec<String>,
    pub conffiles: Vec<String>,
    pub managed_build_tools: Vec<ManagedBuildTool>,
}

#[verifier::ext_equal]
pub struct ManifestMetaModel {
    pub schema_version: u32,
    pub name: Seq<char>,
    pub slot: Seq<char>,
    pub version: UpstreamModel,
    pub release: Seq<char>,
    pub epoch: u32,
    pub reading: ReadingModel,
    pub description: Seq<char>,
    pub license: Seq<char>,
    pub channel: Seq<char>,
    pub arch: Seq<char>,
    pub installed_size: u64,
    pub service_toml: Seq<char>,
    pub dependencies: Seq<Seq<char>>,
    pub check_dependencies: Seq<Seq<char>>,
    pub provides: Seq<Seq<char>>,
    pub conflicts: Seq<Seq<char>>,
    pub features: Seq<Seq<char>>,
    pub conffiles: Seq<Seq<char>>,
    pub managed_build_tools: Seq<Seq<u8>>,
}

impl DeepView for ManifestMeta {
    type V = ManifestMetaModel;

    open spec fn deep_view(&self) -> ManifestMetaModel {
        ManifestMetaModel {
            schema_version: self.schema_version,
            name: self.name@,
            slot: self.slot@,
            version: self.version.deep_view(),
            release: self.release@,
            epoch: self.epoch,
            reading: self.reading.deep_view(),
            description: self.description@,
            license: self.license@,
            channel: self.channel@,
            arch: self.arch@,
            installed_size: self.installed_size,
            service_toml: self.service_toml@,
            dependencies: self.dependencies.deep_view(),
            check_dependencies: self.check_dependencies.deep_view(),
            provides: self.provides.deep_view(),
            conflicts: self.conflicts.deep_view(),
            features: self.features.deep_view(),
            conffiles: self.conffiles.deep_view(),
            managed_build_tools: self.managed_build_tools.deep_view(),
        }
    }
}

impl Clone for ManifestMeta {
    fn clone(&self) -> (r: Self)
        ensures
            r.deep_view() == self.deep_view(),
    {
        ManifestMeta {
            schema_version: self.schema_version,
            name: self.name.clone(),
            slot: self.slot.clone(),
            version: self.version.clone(),
            release: self.release.clone(),
            epoch: self.epoch,
            reading: self.reading.clone(),
            description: self.description.clone(),
            license: self.license.clone(),
            channel: self.channel.clone(),
            arch: self.arch.clone(),
            installed_size: self.installed_size,
            service_toml: self.service_toml.clone(),
            dependencies: copy_texts(&self.dependencies),
            check_dependencies: copy_texts(&self.check_dependencies),
            provides: copy_texts(&self.provides),
            conflicts: copy_texts(&self.conflicts),
            features: copy_texts(&self.features),
            conffiles: copy_texts(&self.conffiles),
            managed_build_tools: copy_list(&self.managed_build_tools),
        }
    }
}

/// One published build.
#[derive(Debug)]
pub struct PublishedRow {
    pub filename: String,
    /// Path below the public root of the repository.
    pub repo_path: String,
    pub name: String,
    pub slot: String,
    pub version: Upstream,
    pub release: String,
    pub epoch: u32,
    pub reading: Reading,
    pub arch: String,
    pub channel: String,
    pub size: i64,
    pub sha256: String,
    pub builder: String,
    /// Seconds from the beginning of 1970.
    pub uploaded_at: i64,
    pub meta: Option<ManifestMeta>,
}

#[verifier::ext_equal]
pub struct PublishedRowModel {
    pub filename: Seq<char>,
    pub repo_path: Seq<char>,
    pub name: Seq<char>,
    pub slot: Seq<char>,
    pub version: UpstreamModel,
    pub release: Seq<char>,
    pub epoch: u32,
    pub reading: ReadingModel,
    pub arch: Seq<char>,
    pub channel: Seq<char>,
    pub size: i64,
    pub sha256: Seq<char>,
    pub builder: Seq<char>,
    pub uploaded_at: i64,
    pub meta: Option<ManifestMetaModel>,
}

impl DeepView for PublishedRow {
    type V = PublishedRowModel;

    open spec fn deep_view(&self) -> PublishedRowModel {
        PublishedRowModel {
            filename: self.filename@,
            repo_path: self.repo_path@,
            name: self.name@,
            slot: self.slot@,
            version: self.version.deep_view(),
            release: self.release@,
            epoch: self.epoch,
            reading: self.reading.deep_view(),
            arch: self.arch@,
            channel: self.channel@,
            size: self.size,
            sha256: self.sha256@,
            builder: self.builder@,
            uploaded_at: self.uploaded_at,
            meta: self.meta.deep_view(),
        }
    }
}

impl Clone for PublishedRow {
    fn clone(&self) -> (r: Self)
        ensures
            r.deep_view() == self.deep_view(),
    {
        PublishedRow {
            filename: self.filename.clone(),
            repo_path: self.repo_path.clone(),
            name: self.name.clone(),
            slot: self.slot.clone(),
            version: self.version.clone(),
            release: self.release.clone(),
            epoch: self.epoch,
            reading: self.reading.clone(),
            arch: self.arch.clone(),
            channel: self.channel.clone(),
            size: self.size,
            sha256: self.sha256.clone(),
            builder: self.builder.clone(),
            uploaded_at: self.uploaded_at,
            meta: match &self.meta {
                Some(v) => Some(v.clone()),
                None => None,
            },
        }
    }
}

impl PublishedRow {
    /// When the build was published, to the minute.
    pub fn built_at(&self) -> (r: String)
        ensures
            r@ == minute_text(self.uploaded_at as int),
    {
        time_hm_pub(self.uploaded_at)
    }

    /// When the build was published, in ISO 8601.
    pub fn built_iso(&self) -> (r: String)
        ensures
            r@ == utc_text(self.uploaded_at as int),
    {
        time_utc(self.uploaded_at)
    }

    /// Whether the build ships a service definition.
    pub fn is_daemon(&self) -> (r: bool)
        ensures
            r == is_daemon_row(self.deep_view()),
    {
        match &self.meta {
            Some(meta) => !meta.service_toml.as_str().is_empty(),
            None => false,
        }
    }

    /// The build tools that Sage manages for the package; none where the
    /// build has no manifest.
    pub fn managed_build_tools(&self) -> (r: Vec<ManagedBuildTool>)
        ensures
            r.deep_view() == match self.deep_view().meta {
                Some(meta) => meta.managed_build_tools,
                None => Seq::empty(),
            },
    {
        match &self.meta {
            Some(meta) => copy_list(&meta.managed_build_tools),
            None => {
                let none: Vec<ManagedBuildTool> = Vec::new();
                assert(none.deep_view() =~= Seq::<Seq<u8>>::empty());
                none
            },
        }
    }
}

pub open spec fn is_daemon_row(row: PublishedRowModel) -> bool {
    row.meta matches Some(meta) && meta.service_toml.len() > 0
}

// ---------------------------------------------------------------------------
// File lists, logs, tokens and synchronizations
// ---------------------------------------------------------------------------

/// One file of a published build.
#[derive(Debug)]
pub struct FileLine {
    pub path: String,
    pub kind: String,
    pub size: i64,
}

#[verifier::ext_equal]
pub struct FileLineModel {
    pub path: Seq<char>,
    pub kind: Seq<char>,
    pub size: i64,
}

impl DeepView for FileLine {
    type V = FileLineModel;

    open spec fn deep_view(&self) -> FileLineModel {
        FileLineModel {
            path: self.path@,
            kind: self.kind@,
            size: self.size,
        }
    }
}

impl Clone for FileLine {
    fn clone(&self) -> (r: Self)
        ensures
            r.deep_view() == self.deep_view(),
    {
        FileLine {
            path: self.path.clone(),
            kind: self.kind.clone(),
            size: self.size,
        }
    }
}

/// The build log of a published build.
#[derive(Debug)]
pub struct LogRow {
    pub content: String,
    pub builder: String,
    pub uploaded_at: i64,
}

#[verifier::ext_equal]
pub struct LogRowModel {
    pub content: Seq<char>,
    pub builder: Seq<char>,
    pub uploaded_at: i64,
}

impl DeepView for LogRow {
    type V = LogRowModel;

    open spec fn deep_view(&self) -> LogRowModel {
        LogRowModel {
            content: self.content@,
            builder: self.builder@,
            uploaded_at: self.uploaded_at,
        }
    }
}

impl Clone for LogRow {
    fn clone(&self) -> (r: Self)
        ensures
            r.deep_view() == self.deep_view(),
    {
        LogRow {
            content: self.content.clone(),
            builder: self.builder.clone(),
            uploaded_at: self.uploaded_at,
        }
    }
}

/// What is kept of a publish token; the token itself is not.
#[derive(Debug)]
pub struct TokenRecord {
    pub label: String,
    pub created_at: i64,
    pub last_used_at: Option<i64>,
}

#[verifier::ext_equal]
pub struct TokenRecordModel {
    pub label: Seq<char>,
    pub created_at: i64,
    pub last_used_at: Option<i64>,
}

impl DeepView for TokenRecord {
    type V = TokenRecordModel;

    open spec fn deep_view(&self) -> TokenRecordModel {
        TokenRecordModel {
            label: self.label@,
            created_at: self.created_at,
            last_used_at: self.last_used_at.deep_view(),
        }
    }
}

impl Clone for TokenRecord {
    fn clone(&self) -> (r: Self)
        ensures
            r.deep_view() == self.deep_view(),
    {
        TokenRecord {
            label: self.label.clone(),
            created_at: self.created_at,
            last_used_at: self.last_used_at,
        }
    }
}

/// One synchronization.
#[derive(Debug)]
pub struct SyncEntry {
    pub trigger: String,
    pub commit: String,
    pub started_at: i64,
    pub ok: bool,
    pub message: String,
}

#[verifier::ext_equal]
pub struct SyncEntryModel {
    pub trigger: Seq<char>,
    pub commit: Seq<char>,
    pub started_at: i64,
    pub ok: bool,
    pub message: Seq<char>,
}

impl DeepView for SyncEntry {
    type V = SyncEntryModel;

    open spec fn deep_view(&self) -> SyncEntryModel {
        SyncEntryModel {
            trigger: self.trigger@,
            commit: self.commit@,
            started_at: self.started_at,
            ok: self.ok,
            message: self.message@,
        }
    }
}

impl Clone for SyncEntry {
    fn clone(&self) -> (r: Self)
        ensures
            r.deep_view() == self.deep_view(),
    {
        SyncEntry {
            trigger: self.trigger.clone(),
            commit: self.commit.clone(),
            started_at: self.started_at,
            ok: self.ok,
            message: self.message.clone(),
        }
    }
}

impl SyncEntry {
    /// When the synchronization began, to the minute.
    pub fn when(&self) -> (r: String)
        ensures
            r@ == minute_text(self.started_at as int),
    {
        time_hm_pub(self.started_at)
    }

    /// When the synchronization began, in ISO 8601.
    pub fn when_iso(&self) -> (r: String)
        ensures
            r@ == utc_text(self.started_at as int),
    {
        time_utc(self.started_at)
    }
}

/// How many packages a category has.
#[derive(Debug)]
pub struct CategoryCount {
    pub name: String,
    pub count: i64,
}

#[verifier::ext_equal]
pub struct CategoryCountModel {
    pub name: Seq<char>,
    pub count: i64,
}

impl DeepView for CategoryCount {
    type V = CategoryCountModel;

    open spec fn deep_view(&self) -> CategoryCountModel {
        CategoryCountModel {
            name: self.name@,
            count: self.count,
        }
    }
}

// ---------------------------------------------------------------------------
// Recipes as rows
// ---------------------------------------------------------------------------

/// The row that presents a recipe.
pub open spec fn row_of(record: RecipeRecordModel) -> PackageRowModel {
    let package = record.package;
    PackageRowModel {
        name: package.name,
        slot: package.slot,
        epoch: package.epoch,
        arch: canonical(package.arch),
        origin: record.origin,
        category: record.category,
        version: package.version,
        release: decimal(package.release as nat),
        reading: package.reading,
        description: package.description,
        license: package.license,
        channel: package.channel,
        provides: package.provides,
        dependencies: package.dependencies.map_values(|d: DependencyModel| shown_dep(d)),
        build_dependencies: Seq::empty(),
        check_dependencies: Seq::empty(),
        conffiles: Seq::empty(),
        source_url: record.source_url,
        source_sha256: record.source_sha256,
        upstream_url: Seq::empty(),
        upstream_version_regex: Seq::empty(),
        recipe_path: record.recipe_path,
    }
}

/// A list of nothing.
pub fn no_texts() -> (r: Vec<String>)
    ensures
        r.deep_view() == Seq::<Seq<char>>::empty(),
{
    let r: Vec<String> = Vec::new();
    assert(r.deep_view() =~= Seq::<Seq<char>>::empty());
    r
}

/// A list of no dependencies.
pub fn no_deps() -> (r: Vec<Dep>)
    ensures
        r.deep_view() == Seq::<DepModel>::empty(),
{
    let r: Vec<Dep> = Vec::new();
    assert(r.deep_view() =~= Seq::<DepModel>::empty());
    r
}

/// Presents a recipe.
pub fn package_row(record: &RecipeRecord) -> (r: PackageRow)
    ensures
        r.deep_view() == row_of(record.deep_view()),
{
    let package = &record.package;
    PackageRow {
        name: package.name.clone(),
        slot: package.slot.clone(),
        epoch: package.epoch,
        arch: canonical_arch(&package.arch).to_owned(),
        origin: record.origin.clone(),
        category: record.category.clone(),
        version: package.version.clone(),
        release: decimal_text(package.release as u128),
        reading: package.reading.clone(),
        description: package.description.clone(),
        license: package.license.clone(),
        channel: package.channel.clone(),
        provides: copy_texts(&package.provides),
        dependencies: shown_deps(&package.dependencies),
        build_dependencies: no_deps(),
        check_dependencies: no_deps(),
        conffiles: no_texts(),
        source_url: record.source_url.clone(),
        source_sha256: record.source_sha256.clone(),
        upstream_url: String::new(),
        upstream_version_regex: String::new(),
        recipe_path: record.recipe_path.clone(),
    }
}

} // verus!
