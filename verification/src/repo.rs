//! The network repository: which archives it takes, where they lie, what is
//! recorded of them and which directories are indexed.

use vstd::prelude::*;
use vstd::string::*;

pub use crate::model::ManagedBuildTool;
pub use crate::records::ManifestMeta;
use crate::config::{Config, ConfigModel};
use crate::db::{
    builds_of, delete_published, files_at, first_opt, now, package_by_name, published_all,
    published_row, recipes_of, replace_published_files, sha256_at, tables_ordered, upload_leq,
    uploads, upsert_published, version_rows, without_build, Database, DatabaseModel,
};
use crate::digest::{
    ed25519_public_key, hex_of, hex_text, is_hex_text, lemma_hex_lower, public_key, same_bytes,
    sha256_digest, sha256_hex, Intake,
};
use crate::digits::{decimal, decimal_text};
use crate::list::{keep_list, map_list};
use crate::model::{
    canonical, canonical_arch, copy_list, lemma_trim_keeps, Dependency, DependencyModel, Package,
    PackageModel,
};
use crate::order::{lemma_filter_push, lemma_sort_permutes};
use crate::path::{
    below, components_of, file_name, file_name_of, is_absolute, is_plain_path, is_step,
    lemma_below_components, lemma_parent, lemma_path_set, lemma_plain_below, parent, parent_of,
    path_join, path_set, path_set_of, plain_path,
};
use crate::records::{
    no_texts, FileLine, FileLineModel, ManifestMetaModel, PublishedRow, PublishedRowModel,
};
use crate::split::{
    join_with, lemma_split_concat, lemma_split_join, lemma_split_plain, split, split_on, trim,
    trim_slashes, trimmed, unslashed, white_space,
};
use crate::status::{derive_with_epoch, state_of, version_from, State};
use crate::table::{
    entry_at, keys_ascend, lemma_drop_absent, lemma_drop_undoes_put, lemma_entry_unique, lemma_put,
    lemma_put_twice, put_entry, values_of, Table,
};
use crate::text::{
    chars_of, concat, contains_char, copy_texts, ends_with, joined, same_text, starts_with,
    text_from,
};
use crate::utf8::{lossy_text, read_lossy};

verus! {

// ---------------------------------------------------------------------------
// Names
// ---------------------------------------------------------------------------

/// A letter, a digit or one of `.`, `_`, `-` and `+`.
pub open spec fn name_char(c: char) -> bool {
    let n = c as int;
    ||| 48 <= n <= 57
    ||| 65 <= n <= 90
    ||| 97 <= n <= 122
    ||| c == '.'
    ||| c == '_'
    ||| c == '-'
    ||| c == '+'
}

pub open spec fn name_chars(s: Seq<char>) -> bool {
    forall|i: int| 0 <= i < s.len() ==> name_char(#[trigger] s[i])
}

fn is_name_char(c: char) -> (r: bool)
    ensures
        r == name_char(c),
{
    let n: u32 = c as u32;
    (48 <= n && n <= 57) || (65 <= n && n <= 90) || (97 <= n && n <= 122) || c == '.' || c == '_'
        || c == '-' || c == '+'
}

fn has_name_chars(s: &str) -> (r: bool)
    ensures
        r == name_chars(s@),
{
    let chars = chars_of(s);
    let mut i: usize = 0;
    while i < chars.len()
        invariant
            chars@ == s@,
            i <= chars.len(),
            forall|j: int| 0 <= j < i ==> name_char(#[trigger] s@[j]),
        decreases chars.len() - i,
    {
        if !is_name_char(chars[i]) {
            assert(!name_char(s@[i as int]));
            return false;
        }
        i += 1;
    }
    true
}

/// The basename of a Sage package archive.
pub open spec fn archive_name(name: Seq<char>) -> bool {
    &&& name.len() <= 255
    &&& ".pkg.tar.zst"@.is_suffix_of(name)
    &&& name[0] != '.'
    &&& name_chars(name)
}

/// Whether `name` is the basename of a Sage package archive.
pub fn valid_filename(name: &str) -> (r: bool)
    ensures
        r == archive_name(name@),
{
    proof {
        reveal_strlit(".pkg.tar.zst");
        reveal_strlit(".");
    }
    let r = name.unicode_len() <= 255 && ends_with(name, ".pkg.tar.zst") && !starts_with(name, ".")
        && has_name_chars(name);
    proof {
        if ".pkg.tar.zst"@.is_suffix_of(name@) {
            assert("."@.is_prefix_of(name@) <==> name@[0] == '.') by {
                let first = name@.subrange(0, "."@.len() as int);
                assert(first[0] == name@[0]);
                if name@[0] == '.' {
                    assert(first =~= "."@);
                }
            }
        }
    }
    r
}

/// A name between the slashes of a channel.
pub open spec fn channel_segment(s: Seq<char>) -> bool {
    0 < s.len() <= 128 && name_chars(s)
}

/// Whether `value` may stand between the slashes of a channel.
pub fn valid_channel_segment(value: &str) -> (r: bool)
    ensures
        r == channel_segment(value@),
{
    !value.is_empty() && value.unicode_len() <= 128 && has_name_chars(value)
}

// ---------------------------------------------------------------------------
// Channels
// ---------------------------------------------------------------------------

/// The channel that a manifest names, `system` where it names none.
pub open spec fn named_channel(channel: Seq<char>) -> Seq<char> {
    if trimmed(channel).len() == 0 {
        "system"@
    } else {
        trimmed(channel)
    }
}

fn name_channel(channel: &str) -> (r: &str)
    ensures
        r@ == named_channel(channel@),
{
    let cut = trim(channel);
    if cut.is_empty() {
        "system"
    } else {
        cut
    }
}

/// The channel with its root.
pub open spec fn rooted_channel(config: ConfigModel, channel: Seq<char>) -> Seq<char> {
    let named = named_channel(channel);
    if named.contains('/') {
        named
    } else {
        concat(seq![unslashed(config.repo_channel), "/"@, named])
    }
}

/// A root and a subchannel.
pub open spec fn channel_pair(channel: Seq<char>) -> bool {
    let parts = split_on(channel, '/');
    parts.len() == 2 && channel_segment(parts[0]) && channel_segment(parts[1])
}

pub open spec fn invalid_channel(channel: Seq<char>) -> Seq<char> {
    concat(seq!["invalid Sage channel '"@, named_channel(channel), "'"@])
}

/// The channel with its root, where both are well formed.
pub open spec fn qualified(config: ConfigModel, channel: Seq<char>) -> Result<
    Seq<char>,
    Seq<char>,
> {
    if channel_pair(rooted_channel(config, channel)) {
        Ok(rooted_channel(config, channel))
    } else {
        Err(invalid_channel(channel))
    }
}

/// The channel with its root: `system` becomes `main/system` where `main` is
/// the root channel, and `main/python3.14` stays as it is.
pub fn qualified_channel(config: &Config, channel: &str) -> (r: Result<String, String>)
    ensures
        match r {
            Ok(q) => qualified(config.deep_view(), channel@) == Ok::<Seq<char>, Seq<char>>(q@),
            Err(e) => qualified(config.deep_view(), channel@) == Err::<Seq<char>, Seq<char>>(e@),
        },
{
    let named = name_channel(channel);
    let whole = if contains_char(named, '/') {
        named.to_owned()
    } else {
        let parts: Vec<&str> = vec![trim_slashes(&config.repo_channel), "/", named];
        assert(parts.deep_view() =~= seq![
            unslashed(config.repo_channel@), "/"@, named_channel(channel@),
        ]);
        text_from(&parts)
    };
    let parts = split(&whole, '/');
    if parts.len() == 2 {
        assert(parts.deep_view()[0] == parts@[0]@ && parts.deep_view()[1] == parts@[1]@);
        if valid_channel_segment(&parts[0]) && valid_channel_segment(&parts[1]) {
            return Ok(whole);
        }
    }
    Err(invalid_channel_text(named))
}

/// Where the files of a well-formed channel lie below the repository: the
/// root channel is the repository itself.
pub open spec fn physical(config: ConfigModel, qualified: Seq<char>) -> Seq<char> {
    let parts = split_on(qualified, '/');
    if parts[0] == unslashed(config.repo_channel) {
        parts[1]
    } else {
        qualified
    }
}

/// The directory of a channel below the repository. One that would lead
/// elsewhere is refused.
pub open spec fn channel_place(config: ConfigModel, channel: Seq<char>) -> Result<
    Seq<char>,
    Seq<char>,
> {
    match qualified(config, channel) {
        Err(e) => Err(e),
        Ok(whole) => if plain_path(physical(config, whole)) {
            Ok(physical(config, whole))
        } else {
            Err(invalid_channel(channel))
        },
    }
}

fn invalid_channel_text(named: &str) -> (r: String)
    ensures
        r@ == concat(seq!["invalid Sage channel '"@, named@, "'"@]),
{
    let message: Vec<&str> = vec!["invalid Sage channel '", named, "'"];
    assert(message.deep_view() =~= seq!["invalid Sage channel '"@, named@, "'"@]);
    text_from(&message)
}

/// The directory of a channel below the repository, and its path.
pub fn channel_dir(config: &Config, channel: &str) -> (r: Result<(String, String), String>)
    ensures
        match r {
            Ok((dir, path)) => {
                &&& channel_place(config.deep_view(), channel@) == Ok::<Seq<char>, Seq<char>>(dir@)
                &&& path@ == below(config.deep_view().repo_dir, dir@)
            },
            Err(e) => channel_place(config.deep_view(), channel@) == Err::<Seq<char>, Seq<char>>(
                e@,
            ),
        },
{
    let whole = match qualified_channel(config, channel) {
        Ok(whole) => whole,
        Err(e) => {
            return Err(e);
        },
    };
    let parts = split(&whole, '/');
    assert(parts.deep_view()[0] == parts@[0]@ && parts.deep_view()[1] == parts@[1]@);
    let dir = if same_text(&parts[0], trim_slashes(&config.repo_channel)) {
        parts[1].clone()
    } else {
        whole
    };
    if !is_plain_path(&dir) {
        return Err(invalid_channel_text(name_channel(channel)));
    }
    let path = path_join(&config.repo_dir, &dir);
    Ok((dir, path))
}

// ---------------------------------------------------------------------------
// The signing key
// ---------------------------------------------------------------------------

/// Where the private key lies.
pub fn signing_key_path(config: &Config) -> (r: &str)
    ensures
        r@ == config.deep_view().repo_signing_key,
{
    config.repo_signing_key.as_str()
}

/// A name without what follows its last dot, unless that dot begins it.
pub open spec fn stem_of(name: Seq<char>) -> Seq<char> {
    match crate::list::last_where(name, |c: char| c == '.') {
        Some(i) => if i == 0 {
            name
        } else {
            name.take(i)
        },
        None => name,
    }
}

fn stem(name: &str) -> (r: String)
    ensures
        r@ == stem_of(name@),
{
    let chars = chars_of(name);
    let dot = |c: &char| -> (o: bool)
        ensures
            o == (*c == '.'),
        { *c == '.' };
    assert(chars.deep_view() =~= name@);
    match crate::list::find_last(&chars, dot, Ghost(|c: char| c == '.')) {
        Some(i) => if i == 0 {
            name.to_owned()
        } else {
            assert(chars@.subrange(0, i as int) =~= name@.take(i as int));
            crate::text::text_between(&chars, 0, i)
        },
        None => name.to_owned(),
    }
}

/// Where the public key lies: beside the private one, under the extension
/// `pub`.
pub open spec fn public_key_path(key_path: Seq<char>) -> Seq<char> {
    match (file_name_of(key_path), parent_of(key_path)) {
        (Some(name), Some(dir)) => below(dir, stem_of(name) + ".pub"@),
        _ => key_path,
    }
}

/// The path of the public key.
pub fn public_key_file(key_path: &str) -> (r: String)
    ensures
        r@ == public_key_path(key_path@),
{
    match (file_name(key_path), parent(key_path)) {
        (Some(name), Some(dir)) => path_join(&dir, &joined(&stem(&name), ".pub")),
        _ => key_path.to_owned(),
    }
}

pub open spec fn opt_bytes(bytes: Option<&[u8]>) -> Option<Seq<u8>> {
    match bytes {
        Some(b) => Some(b@),
        None => None,
    }
}

/// The public key that has to be written beside a private one, where `found` is
/// what lies there: the matching one, unless it lies there.
pub open spec fn public_key_due(private: Seq<u8>, found: Option<Seq<u8>>) -> Option<Seq<u8>> {
    if found == Some(ed25519_public_key(private)) {
        None
    } else {
        Some(ed25519_public_key(private))
    }
}

/// What to write beside the private key, of which `key` holds the 32 bytes or
/// what is wrong with it, where `found` is what lies at the path of the public
/// key: the matching public key and that path, or nothing where it lies there.
pub fn ensure_signing_key(
    config: &Config,
    key: Result<[u8; 32], String>,
    found: Option<&[u8]>,
) -> (r: Result<Option<(String, [u8; 32])>, String>)
    ensures
        match r {
            Err(e) => key is Err && e@ == concat(
                seq!["invalid Ed25519 repository key: "@, key->Err_0@],
            ),
            Ok(None) => key is Ok && public_key_due(key->Ok_0@, opt_bytes(found)) is None,
            Ok(Some((path, public))) => {
                &&& key is Ok
                &&& public_key_due(key->Ok_0@, opt_bytes(found)) == Some(public@)
                &&& path@ == public_key_path(config.deep_view().repo_signing_key)
            },
        },
{
    match key {
        Err(e) => {
            let parts: Vec<&str> = vec!["invalid Ed25519 repository key: ", e.as_str()];
            assert(parts.deep_view() =~= seq!["invalid Ed25519 repository key: "@, e@]);
            Err(text_from(&parts))
        },
        Ok(private) => {
            let public = public_key(&private);
            if let Some(bytes) = found {
                if same_bytes(bytes, public.as_slice()) {
                    return Ok(None);
                }
            }
            Ok(Some((public_key_file(signing_key_path(config)), public)))
        },
    }
}

// ---------------------------------------------------------------------------
// Indexes
// ---------------------------------------------------------------------------

/// A directory below the repository.
#[derive(Debug)]
pub struct FoundDir {
    pub path: String,
    /// Whether it holds an index.
    pub has_index: bool,
}

#[verifier::ext_equal]
pub struct FoundDirModel {
    pub path: Seq<char>,
    pub has_index: bool,
}

impl DeepView for FoundDir {
    type V = FoundDirModel;

    open spec fn deep_view(&self) -> FoundDirModel {
        FoundDirModel {
            path: self.path@,
            has_index: self.has_index,
        }
    }
}

impl Clone for FoundDir {
    fn clone(&self) -> (r: Self)
        ensures
            r.deep_view() == self.deep_view(),
    {
        FoundDir {
            path: self.path.clone(),
            has_index: self.has_index,
        }
    }
}

fn indexed(d: &FoundDir) -> (r: bool)
    ensures
        r == d.deep_view().has_index,
{
    d.has_index
}

fn dir_path(d: &FoundDir) -> (r: String)
    ensures
        r@ == d.deep_view().path,
{
    d.path.clone()
}

/// The directories that hold an index.
pub open spec fn indexed_dirs(found: Seq<FoundDirModel>) -> Seq<Seq<char>> {
    found.filter(|d: FoundDirModel| d.has_index).map_values(|d: FoundDirModel| d.path)
}

/// The directories that hold an index.
pub fn collect_index_dirs(found: &Vec<FoundDir>) -> (r: Vec<String>)
    ensures
        r.deep_view() == indexed_dirs(found.deep_view()),
{
    let kept = keep_list(found, indexed, Ghost(|d: FoundDirModel| d.has_index));
    map_list(&kept, dir_path, Ghost(|d: FoundDirModel| d.path))
}

/// The directories of the given builds.
pub open spec fn build_dirs(repo_dir: Seq<char>, builds: Seq<PublishedRowModel>) -> Option<
    Seq<Seq<char>>,
>
    decreases builds.len(),
{
    if builds.len() == 0 {
        Some(Seq::empty())
    } else {
        match (build_dirs(repo_dir, builds.drop_last()), parent_of(builds.last().repo_path)) {
            (Some(dirs), Some(dir)) => Some(dirs.push(below(repo_dir, dir))),
            _ => None,
        }
    }
}

/// The directories to index, in order and each once: that of the channel
/// `system`, those of the builds, and those that hold an index already.
pub open spec fn index_dirs(db: DatabaseModel, config: ConfigModel, found: Seq<FoundDirModel>) -> Result<
    Seq<Seq<char>>,
    Seq<char>,
> {
    match channel_place(config, "system"@) {
        Err(e) => Err(e),
        Ok(channel) => match build_dirs(config.repo_dir, uploads(builds_of(db))) {
            None => Err("published repo path has no channel"@),
            Some(dirs) => Ok(
                path_set_of(
                    seq![below(config.repo_dir, channel)] + dirs + indexed_dirs(
                        found,
                    ),
                ),
            ),
        },
    }
}

fn list_build_dirs(repo_dir: &str, builds: &Vec<PublishedRow>) -> (r: Option<Vec<String>>)
    ensures
        r.deep_view() == build_dirs(repo_dir@, builds.deep_view()),
{
    let ghost all = builds.deep_view();
    let mut out: Vec<String> = Vec::new();
    let mut i: usize = 0;
    assert(all.take(0) =~= Seq::<PublishedRowModel>::empty());
    assert(out.deep_view() =~= Seq::<Seq<char>>::empty());
    while i < builds.len()
        invariant
            all == builds.deep_view(),
            i <= builds.len(),
            build_dirs(repo_dir@, all.take(i as int)) == Some(out.deep_view()),
        decreases builds.len() - i,
    {
        assert(all.take(i + 1).drop_last() =~= all.take(i as int));
        assert(all[i as int] == builds@[i as int].deep_view());
        match parent(&builds[i].repo_path) {
            Some(dir) => {
                let ghost before = out.deep_view();
                let path = path_join(repo_dir, &dir);
                let ghost p = path@;
                out.push(path);
                assert(out.deep_view() =~= before.push(p));
            },
            None => {
                proof {
                    lemma_no_dirs(repo_dir@, all, i + 1);
                }
                return None;
            },
        }
        i += 1;
    }
    assert(all.take(i as int) =~= all);
    Some(out)
}

proof fn lemma_no_dirs(repo_dir: Seq<char>, builds: Seq<PublishedRowModel>, i: int)
    requires
        0 <= i <= builds.len(),
        build_dirs(repo_dir, builds.take(i)) is None,
    ensures
        build_dirs(repo_dir, builds) is None,
    decreases builds.len() - i,
{
    if i < builds.len() {
        assert(builds.take(i + 1).drop_last() =~= builds.take(i));
        lemma_no_dirs(repo_dir, builds, i + 1);
    } else {
        assert(builds.take(i) =~= builds);
    }
}

/// The directories to index, where `found` has those that are below the
/// repository.
pub fn regenerate_index(database: &Database, config: &Config, found: &Vec<FoundDir>) -> (r: Result<
    Vec<String>,
    String,
>)
    ensures
        match r {
            Ok(dirs) => index_dirs(database@, config.deep_view(), found.deep_view()) == Ok::<
                Seq<Seq<char>>,
                Seq<char>,
            >(dirs.deep_view()),
            Err(e) => index_dirs(database@, config.deep_view(), found.deep_view()) == Err::<
                Seq<Seq<char>>,
                Seq<char>,
            >(e@),
        },
{
    let first = match channel_dir(config, "system") {
        Ok((_, path)) => path,
        Err(e) => {
            return Err(e);
        },
    };
    let mut dirs = match list_build_dirs(&config.repo_dir, &published_all(database)) {
        Some(dirs) => dirs,
        None => {
            return Err("published repo path has no channel".to_owned());
        },
    };
    let mut held = collect_index_dirs(found);
    let mut all: Vec<String> = Vec::new();
    let ghost f = first@;
    let ghost d = dirs.deep_view();
    let ghost h = held.deep_view();
    all.push(first);
    all.append(&mut dirs);
    all.append(&mut held);
    assert(all.deep_view() =~= seq![f] + d + h);
    Ok(path_set(&all))
}

/// The directories to index.
pub fn regenerate_indexes(database: &Database, config: &Config, found: &Vec<FoundDir>) -> (r:
    Result<Vec<String>, String>)
    ensures
        match r {
            Ok(dirs) => index_dirs(database@, config.deep_view(), found.deep_view()) == Ok::<
                Seq<Seq<char>>,
                Seq<char>,
            >(dirs.deep_view()),
            Err(e) => index_dirs(database@, config.deep_view(), found.deep_view()) == Err::<
                Seq<Seq<char>>,
                Seq<char>,
            >(e@),
        },
{
    regenerate_index(database, config, found)
}

// ---------------------------------------------------------------------------
// Archives
// ---------------------------------------------------------------------------

/// One file of an archive.
#[derive(Debug)]
pub struct InspectedFile {
    pub path: String,
    pub size: u64,
}

#[verifier::ext_equal]
pub struct InspectedFileModel {
    pub path: Seq<char>,
    pub size: u64,
}

impl DeepView for InspectedFile {
    type V = InspectedFileModel;

    open spec fn deep_view(&self) -> InspectedFileModel {
        InspectedFileModel {
            path: self.path@,
            size: self.size,
        }
    }
}

impl Clone for InspectedFile {
    fn clone(&self) -> (r: Self)
        ensures
            r.deep_view() == self.deep_view(),
    {
        InspectedFile {
            path: self.path.clone(),
            size: self.size,
        }
    }
}

/// What Sage reads in an archive.
pub struct Inspection {
    pub manifest: Package,
    /// The further files of the archive's metadata, by path.
    pub optional: Table<Vec<u8>>,
    pub files: Vec<InspectedFile>,
}

#[verifier::ext_equal]
pub struct InspectionModel {
    pub manifest: PackageModel,
    pub optional: Seq<(Seq<char>, Seq<u8>)>,
    pub files: Seq<InspectedFileModel>,
}

impl DeepView for Inspection {
    type V = InspectionModel;

    open spec fn deep_view(&self) -> InspectionModel {
        InspectionModel {
            manifest: self.manifest.deep_view(),
            optional: self.optional.entries(),
            files: self.files.deep_view(),
        }
    }
}

/// What the hub keeps of an archive's manifest.
pub open spec fn meta_of(archive: InspectionModel) -> ManifestMetaModel {
    let package = archive.manifest;
    ManifestMetaModel {
        schema_version: package.schema_version,
        name: package.name,
        slot: package.slot,
        version: package.version,
        release: decimal(package.release as nat),
        epoch: package.epoch,
        reading: package.reading,
        description: package.description,
        license: package.license,
        channel: package.channel,
        arch: canonical(package.arch),
        installed_size: package.installed_size,
        service_toml: match entry_at(archive.optional, ".METADATA/service.toml"@) {
            Some(bytes) => lossy_text(bytes),
            None => Seq::empty(),
        },
        dependencies: package.dependencies.map_values(|d: DependencyModel| d.text),
        check_dependencies: Seq::empty(),
        provides: package.provides,
        conflicts: package.conflicts,
        features: package.features,
        conffiles: Seq::empty(),
        managed_build_tools: package.managed_build_tools,
    }
}

fn dependency_text(d: &Dependency) -> (r: String)
    ensures
        r@ == d.deep_view().text,
{
    d.text.clone()
}

impl ManifestMeta {
    /// What the hub keeps of an archive's manifest.
    pub fn from(archive: &Inspection) -> (r: ManifestMeta)
        ensures
            r.deep_view() == meta_of(archive.deep_view()),
    {
        let package = &archive.manifest;
        let service_toml = match archive.optional.get(".METADATA/service.toml") {
            Some(bytes) => {
                assert(bytes.deep_view() =~= bytes@);
                read_lossy(bytes.as_slice())
            },
            None => String::new(),
        };
        ManifestMeta {
            schema_version: package.schema_version,
            name: package.name.clone(),
            slot: package.slot.clone(),
            version: package.version.clone(),
            release: decimal_text(package.release as u128),
            epoch: package.epoch,
            reading: package.reading.clone(),
            description: package.description.clone(),
            license: package.license.clone(),
            channel: package.channel.clone(),
            arch: canonical_arch(&package.arch).to_owned(),
            installed_size: package.installed_size,
            service_toml,
            dependencies: map_list(
                &package.dependencies,
                dependency_text,
                Ghost(|d: DependencyModel| d.text),
            ),
            check_dependencies: no_texts(),
            provides: copy_texts(&package.provides),
            conflicts: copy_texts(&package.conflicts),
            features: copy_texts(&package.features),
            conffiles: no_texts(),
            managed_build_tools: copy_list(&package.managed_build_tools),
        }
    }
}

/// A file as it is listed.
pub open spec fn line_of(file: InspectedFileModel) -> FileLineModel {
    FileLineModel { path: file.path, kind: "file"@, size: file.size as i64 }
}

fn file_line(file: &InspectedFile) -> (r: FileLine)
    ensures
        r.deep_view() == line_of(file.deep_view()),
{
    FileLine { path: file.path.clone(), kind: "file".to_owned(), size: file.size as i64 }
}

/// The files of an archive as they are listed.
pub open spec fn lines_of_archive(archive: InspectionModel) -> Seq<FileLineModel> {
    archive.files.map_values(|f: InspectedFileModel| line_of(f))
}

fn archive_lines(archive: &Inspection) -> (r: Vec<FileLine>)
    ensures
        r.deep_view() == lines_of_archive(archive.deep_view()),
{
    map_list(&archive.files, file_line, Ghost(|f: InspectedFileModel| line_of(f)))
}

/// What is said of an archive that Sage cannot read.
pub open spec fn invalid_archive(error: Seq<char>) -> Seq<char> {
    concat(seq!["invalid Sage archive: "@, error])
}

fn invalid_archive_text(error: &str) -> (r: String)
    ensures
        r@ == invalid_archive(error@),
{
    let parts: Vec<&str> = vec!["invalid Sage archive: ", error];
    assert(parts.deep_view() =~= seq!["invalid Sage archive: "@, error@]);
    text_from(&parts)
}

/// The manifest of an archive, of which `inspected` holds what Sage reads in
/// it or why it cannot.
pub fn read_manifest_meta(inspected: Result<&Inspection, &str>) -> (r: Result<ManifestMeta, String>)
    ensures
        match r {
            Ok(meta) => inspected is Ok && meta.deep_view() == meta_of(
                inspected->Ok_0.deep_view(),
            ),
            Err(e) => inspected is Err && e@ == invalid_archive(inspected->Err_0@),
        },
{
    match inspected {
        Ok(archive) => Ok(ManifestMeta::from(archive)),
        Err(e) => Err(invalid_archive_text(e)),
    }
}

/// The file list of an archive, of which `inspected` holds what Sage reads in
/// it or why it cannot.
pub fn read_file_list(inspected: Result<&Inspection, &str>) -> (r: Result<Vec<FileLine>, String>)
    ensures
        match r {
            Ok(lines) => inspected is Ok && lines.deep_view() == lines_of_archive(
                inspected->Ok_0.deep_view(),
            ),
            Err(e) => inspected is Err && e@ == invalid_archive(inspected->Err_0@),
        },
{
    match inspected {
        Ok(archive) => Ok(archive_lines(archive)),
        Err(e) => Err(invalid_archive_text(e)),
    }
}

/// The SHA-256 digest of a file's content, in hexadecimal.
pub fn sha256_file(content: &[u8]) -> (r: String)
    ensures
        r@ == hex_of(sha256_digest(content@)),
        is_hex_text(r@, 64),
{
    sha256_hex(content)
}

// ---------------------------------------------------------------------------
// Publishing
// ---------------------------------------------------------------------------

/// An archive that was handed in.
#[derive(Debug)]
pub struct Upload {
    pub filename: String,
    /// The digest of what arrived.
    pub sha256: String,
    /// The digest that the client declared.
    pub declared: Option<String>,
    /// The label of the token.
    pub builder: String,
    /// The size of what arrived.
    pub size: u64,
}

#[verifier::ext_equal]
pub struct UploadModel {
    pub filename: Seq<char>,
    pub sha256: Seq<char>,
    pub declared: Option<Seq<char>>,
    pub builder: Seq<char>,
    pub size: u64,
}

impl DeepView for Upload {
    type V = UploadModel;

    open spec fn deep_view(&self) -> UploadModel {
        UploadModel {
            filename: self.filename@,
            sha256: self.sha256@,
            declared: self.declared.deep_view(),
            builder: self.builder@,
            size: self.size,
        }
    }
}

impl Clone for Upload {
    fn clone(&self) -> (r: Self)
        ensures
            r.deep_view() == self.deep_view(),
    {
        Upload {
            filename: self.filename.clone(),
            sha256: self.sha256.clone(),
            declared: match &self.declared {
                Some(v) => Some(v.clone()),
                None => None,
            },
            builder: self.builder.clone(),
            size: self.size,
        }
    }
}

/// Where an archive goes.
#[derive(Debug)]
pub struct Placement {
    /// The directory of its channel.
    pub directory: String,
    /// Its path below the repository.
    pub repo_path: String,
    /// Its path.
    pub destination: String,
    /// The path of an earlier build under its name, which has to go.
    pub stale: Option<String>,
}

#[verifier::ext_equal]
pub struct PlacementModel {
    pub directory: Seq<char>,
    pub repo_path: Seq<char>,
    pub destination: Seq<char>,
    pub stale: Option<Seq<char>>,
}

impl DeepView for Placement {
    type V = PlacementModel;

    open spec fn deep_view(&self) -> PlacementModel {
        PlacementModel {
            directory: self.directory@,
            repo_path: self.repo_path@,
            destination: self.destination@,
            stale: self.stale.deep_view(),
        }
    }
}

impl Clone for Placement {
    fn clone(&self) -> (r: Self)
        ensures
            r.deep_view() == self.deep_view(),
    {
        Placement {
            directory: self.directory.clone(),
            repo_path: self.repo_path.clone(),
            destination: self.destination.clone(),
            stale: match &self.stale {
                Some(v) => Some(v.clone()),
                None => None,
            },
        }
    }
}

/// What a publisher is told.
#[derive(Debug)]
pub struct Receipt {
    pub filename: String,
    pub repo_path: String,
    pub name: String,
    pub version: String,
    pub release: String,
    pub size: i64,
    pub sha256: String,
    pub state: State,
}

#[verifier::ext_equal]
pub struct ReceiptModel {
    pub filename: Seq<char>,
    pub repo_path: Seq<char>,
    pub name: Seq<char>,
    pub version: Seq<char>,
    pub release: Seq<char>,
    pub size: i64,
    pub sha256: Seq<char>,
    pub state: State,
}

impl DeepView for Receipt {
    type V = ReceiptModel;

    open spec fn deep_view(&self) -> ReceiptModel {
        ReceiptModel {
            filename: self.filename@,
            repo_path: self.repo_path@,
            name: self.name@,
            version: self.version@,
            release: self.release@,
            size: self.size,
            sha256: self.sha256@,
            state: self.state,
        }
    }
}

/// What is said of a filename that is none of an archive.
pub open spec fn invalid_filename(filename: Seq<char>) -> Seq<char> {
    concat(seq!["invalid package filename '"@, filename, "'"@])
}

fn invalid_filename_text(filename: &str) -> (r: String)
    ensures
        r@ == invalid_filename(filename@),
{
    let parts: Vec<&str> = vec!["invalid package filename '", filename, "'"];
    assert(parts.deep_view() =~= seq!["invalid package filename '"@, filename@, "'"@]);
    text_from(&parts)
}

/// Why an upload is refused before it is read: its name, a digest other than
/// the declared one, or no digest at all.
pub open spec fn refusal(upload: UploadModel) -> Option<Seq<char>> {
    if !archive_name(upload.filename) {
        Some(invalid_filename(upload.filename))
    } else if upload.declared is Some && upload.declared->0 != upload.sha256 {
        Some("sha256 mismatch between client declaration and upload"@)
    } else if !is_hex_text(upload.sha256, 64) {
        Some("invalid SHA-256"@)
    } else {
        None
    }
}

/// The upload of an archive that has arrived.
pub open spec fn upload_of(
    content: Seq<u8>,
    filename: Seq<char>,
    declared: Option<Seq<char>>,
    builder: Seq<char>,
) -> UploadModel {
    UploadModel {
        filename,
        sha256: hex_of(sha256_digest(content)),
        declared,
        builder,
        size: content.len() as u64,
    }
}

/// The upload of an archive that has arrived. It is refused before it is read
/// only for its name, or where the client declared another digest than that of
/// the bytes.
pub fn received(intake: Intake, filename: &str, declared: Option<String>, builder: &str) -> (r:
    Upload)
    requires
        intake.counted(),
    ensures
        r.deep_view() == upload_of(
            intake.content(),
            filename@,
            declared.deep_view(),
            builder@,
        ),
        r.size as nat == intake.content().len(),
        refusal(r.deep_view()) is None <==> archive_name(filename@) && (declared is None
            || declared->0@ == hex_of(sha256_digest(intake.content()))),
{
    let size = intake.size();
    Upload {
        filename: filename.to_owned(),
        sha256: intake.finish(),
        declared,
        builder: builder.to_owned(),
        size,
    }
}

/// Why an upload is refused before it is read.
pub fn check_upload(upload: &Upload) -> (r: Option<String>)
    ensures
        r.deep_view() == refusal(upload.deep_view()),
{
    if !valid_filename(&upload.filename) {
        return Some(invalid_filename_text(&upload.filename));
    }
    if let Some(declared) = &upload.declared {
        if !same_text(declared, &upload.sha256) {
            return Some("sha256 mismatch between client declaration and upload".to_owned());
        }
    }
    if !hex_text(&upload.sha256, 64) {
        return Some("invalid SHA-256".to_owned());
    }
    None
}

/// The path of an archive in a directory of the repository.
pub open spec fn path_in(dir: Seq<char>, filename: Seq<char>) -> Seq<char> {
    concat(seq![dir, "/"@, filename])
}

/// Where an archive of the given channel goes.
pub open spec fn placement(
    db: DatabaseModel,
    config: ConfigModel,
    filename: Seq<char>,
    channel: Seq<char>,
) -> PlacementModel {
    let dir = channel_place(config, channel)->Ok_0;
    let repo_path = path_in(dir, filename);
    PlacementModel {
        directory: below(config.repo_dir, dir),
        repo_path,
        destination: below(below(config.repo_dir, dir), filename),
        stale: match entry_at(db.published, filename) {
            Some(previous) => if previous.repo_path != repo_path {
                Some(below(config.repo_dir, previous.repo_path))
            } else {
                None
            },
            None => None,
        },
    }
}

/// Where an upload goes, or why it is refused.
pub open spec fn planned(
    db: DatabaseModel,
    config: ConfigModel,
    upload: UploadModel,
    inspected: Result<InspectionModel, Seq<char>>,
) -> Result<PlacementModel, Seq<char>> {
    match refusal(upload) {
        Some(e) => Err(e),
        None => match inspected {
            Err(e) => Err(invalid_archive(e)),
            Ok(archive) => match channel_place(config, archive.manifest.channel) {
                Err(e) => Err(e),
                Ok(_) => Ok(placement(db, config, upload.filename, archive.manifest.channel)),
            },
        },
    }
}

pub open spec fn inspected_view(inspected: Result<&Inspection, &str>) -> Result<
    InspectionModel,
    Seq<char>,
> {
    match inspected {
        Ok(archive) => Ok(archive.deep_view()),
        Err(e) => Err(e@),
    }
}

/// Where an upload goes, or why it is refused.
pub fn plan_ingest(
    database: &Database,
    config: &Config,
    upload: &Upload,
    inspected: Result<&Inspection, &str>,
) -> (r: Result<Placement, String>)
    ensures
        match r {
            Ok(place) => planned(
                database@,
                config.deep_view(),
                upload.deep_view(),
                inspected_view(inspected),
            ) == Ok::<PlacementModel, Seq<char>>(place.deep_view()),
            Err(e) => planned(
                database@,
                config.deep_view(),
                upload.deep_view(),
                inspected_view(inspected),
            ) == Err::<PlacementModel, Seq<char>>(e@),
        },
{
    if let Some(e) = check_upload(upload) {
        return Err(e);
    }
    let archive = match inspected {
        Ok(archive) => archive,
        Err(e) => {
            return Err(invalid_archive_text(e));
        },
    };
    let (dir, directory) = match channel_dir(config, &archive.manifest.channel) {
        Ok(found) => found,
        Err(e) => {
            return Err(e);
        },
    };
    let parts: Vec<&str> = vec![dir.as_str(), "/", upload.filename.as_str()];
    assert(parts.deep_view() =~= seq![dir@, "/"@, upload.filename@]);
    let repo_path = text_from(&parts);
    let stale = match published_row(database, &upload.filename) {
        Some(previous) => if same_text(&previous.repo_path, &repo_path) {
            None
        } else {
            Some(path_join(&config.repo_dir, &previous.repo_path))
        },
        None => None,
    };
    let destination = path_join(&directory, &upload.filename);
    Ok(Placement { directory, repo_path, destination, stale })
}

/// Hexadecimal digits in lower case.
pub open spec fn lower_hex(s: Seq<char>) -> Seq<char> {
    s.map_values(
        |c: char|
            if 65 <= c as int <= 90 {
                ((c as int) + 32) as char
            } else {
                c
            },
    )
}

fn lower_char(c: char) -> (r: char)
    ensures
        r == if 65 <= c as int <= 90 {
            ((c as int) + 32) as char
        } else {
            c
        },
{
    let n: u32 = c as u32;
    if 65 <= n && n <= 90 {
        let m: u8 = (n + 32) as u8;
        m as char
    } else {
        c
    }
}

fn to_lower_hex(s: &str) -> (r: String)
    ensures
        r@ == lower_hex(s@),
{
    let chars = chars_of(s);
    let mut out = String::new();
    let mut i: usize = 0;
    assert(out@ =~= lower_hex(s@).take(0));
    while i < chars.len()
        invariant
            chars@ == s@,
            i <= chars.len(),
            out@ == lower_hex(s@).take(i as int),
        decreases chars.len() - i,
    {
        out.push(lower_char(chars[i]));
        assert(lower_hex(s@).take(i as int).push(lower_hex(s@)[i as int]) =~= lower_hex(s@).take(
            i + 1,
        ));
        i += 1;
    }
    assert(lower_hex(s@).take(i as int) =~= lower_hex(s@));
    out
}

/// The row of a build.
pub open spec fn published(
    upload: UploadModel,
    meta: ManifestMetaModel,
    repo_path: Seq<char>,
    at: i64,
) -> PublishedRowModel {
    PublishedRowModel {
        filename: upload.filename,
        repo_path,
        name: meta.name,
        slot: meta.slot,
        version: meta.version,
        release: meta.release,
        epoch: meta.epoch,
        reading: meta.reading,
        arch: meta.arch,
        channel: meta.channel,
        size: upload.size as i64,
        sha256: lower_hex(upload.sha256),
        builder: upload.builder,
        uploaded_at: at,
        meta: Some(meta),
    }
}

/// The state after a build was published with its files.
pub open spec fn with_build(
    db: DatabaseModel,
    row: PublishedRowModel,
    lines: Seq<FileLineModel>,
) -> DatabaseModel {
    DatabaseModel {
        published: put_entry(db.published, row.filename, row),
        files: put_entry(db.files, row.filename, lines),
        ..db
    }
}

/// How a build stands to the newest recipe of its name; missing where there
/// is no recipe.
pub open spec fn published_state(db: DatabaseModel, row: PublishedRowModel) -> State {
    match first_opt(version_rows(recipes_of(db), row.name)) {
        Some(recipe) => state_of(
            version_from(recipe.epoch, recipe.version, recipe.release),
            Some(version_from(row.epoch, row.version, row.release)),
        ),
        None => State::Missing,
    }
}

/// What a publisher is told of a build.
pub open spec fn receipt_of(db: DatabaseModel, row: PublishedRowModel) -> ReceiptModel {
    ReceiptModel {
        filename: row.filename,
        repo_path: row.repo_path,
        name: row.name,
        version: row.version.text,
        release: row.release,
        size: row.size,
        sha256: row.sha256,
        state: published_state(db, row),
    }
}

/// What becomes of an upload at the instant `at`: the state and the receipt,
/// or why it is refused.
pub open spec fn ingested(
    db: DatabaseModel,
    config: ConfigModel,
    upload: UploadModel,
    inspected: Result<InspectionModel, Seq<char>>,
    at: i64,
) -> Result<(DatabaseModel, ReceiptModel), Seq<char>> {
    match planned(db, config, upload, inspected) {
        Err(e) => Err(e),
        Ok(place) => {
            let archive = inspected->Ok_0;
            let row = published(upload, meta_of(archive), place.repo_path, at);
            let after = with_build(db, row, lines_of_archive(archive));
            Ok((after, receipt_of(after, row)))
        },
    }
}

/// Records an upload at the instant `at`. A refused upload changes nothing.
pub fn ingest_at(
    database: &mut Database,
    config: &Config,
    upload: &Upload,
    inspected: Result<&Inspection, &str>,
    at: i64,
) -> (r: Result<Receipt, String>)
    ensures
        match r {
            Ok(receipt) => ingested(
                old(database)@,
                config.deep_view(),
                upload.deep_view(),
                inspected_view(inspected),
                at,
            ) == Ok::<(DatabaseModel, ReceiptModel), Seq<char>>(
                (final(database)@, receipt.deep_view()),
            ),
            Err(e) => ingested(
                old(database)@,
                config.deep_view(),
                upload.deep_view(),
                inspected_view(inspected),
                at,
            ) == Err::<(DatabaseModel, ReceiptModel), Seq<char>>(e@) && final(database)@ == old(
                database,
            )@,
        },
{
    let place = match plan_ingest(database, config, upload, inspected) {
        Ok(place) => place,
        Err(e) => {
            return Err(e);
        },
    };
    let archive = match inspected {
        Ok(archive) => archive,
        Err(e) => {
            return Err(invalid_archive_text(e));
        },
    };
    let meta = ManifestMeta::from(archive);
    let row = PublishedRow {
        filename: upload.filename.clone(),
        repo_path: place.repo_path,
        name: meta.name.clone(),
        slot: meta.slot.clone(),
        version: meta.version.clone(),
        release: meta.release.clone(),
        epoch: meta.epoch,
        reading: meta.reading.clone(),
        arch: meta.arch.clone(),
        channel: meta.channel.clone(),
        size: upload.size as i64,
        sha256: to_lower_hex(&upload.sha256),
        builder: upload.builder.clone(),
        uploaded_at: at,
        meta: Some(meta),
    };
    upsert_published(database, &row);
    replace_published_files(database, &upload.filename, &archive_lines(archive));
    let state = match package_by_name(database, &row.name) {
        Some(recipe) => derive_with_epoch(
            recipe.epoch,
            &recipe.version,
            &recipe.release,
            Some((row.epoch, &row.version, row.release.as_str())),
        ),
        None => State::Missing,
    };
    Ok(
        Receipt {
            filename: row.filename,
            repo_path: row.repo_path,
            name: row.name,
            version: row.version.text,
            release: row.release,
            size: row.size,
            sha256: row.sha256,
            state,
        },
    )
}

/// Records an upload. A refused upload changes nothing.
pub fn ingest(
    database: &mut Database,
    config: &Config,
    upload: &Upload,
    inspected: Result<&Inspection, &str>,
) -> (r: Result<Receipt, String>)
    ensures
        match r {
            Ok(receipt) => exists|at: i64|
                #[trigger] ingested(
                    old(database)@,
                    config.deep_view(),
                    upload.deep_view(),
                    inspected_view(inspected),
                    at,
                ) == Ok::<(DatabaseModel, ReceiptModel), Seq<char>>(
                    (final(database)@, receipt.deep_view()),
                ),
            Err(e) => planned(
                old(database)@,
                config.deep_view(),
                upload.deep_view(),
                inspected_view(inspected),
            ) == Err::<PlacementModel, Seq<char>>(e@) && final(database)@ == old(database)@,
        },
{
    let at = now();
    ingest_at(database, config, upload, inspected, at)
}

/// What is said of a build that is not there.
pub open spec fn not_published(filename: Seq<char>) -> Seq<char> {
    concat(seq!["'"@, filename, "' is not published"@])
}

/// Withdraws a build: its row, its files and its log go. The result is the
/// path of the archive, which has to go too.
pub fn unpublish(database: &mut Database, config: &Config, filename: &str) -> (r: Result<
    String,
    String,
>)
    ensures
        match r {
            Ok(path) => {
                &&& archive_name(filename@)
                &&& entry_at(old(database)@.published, filename@) is Some
                &&& path@ == below(
                    config.deep_view().repo_dir,
                    entry_at(old(database)@.published, filename@)->0.repo_path,
                )
                &&& final(database)@ == without_build(old(database)@, filename@)
            },
            Err(e) => {
                &&& final(database)@ == old(database)@
                &&& if archive_name(filename@) {
                    &&& entry_at(old(database)@.published, filename@) is None
                    &&& e@ == not_published(filename@)
                } else {
                    e@ == invalid_filename(filename@)
                }
            },
        },
{
    if !valid_filename(filename) {
        return Err(invalid_filename_text(filename));
    }
    match delete_published(database, filename) {
        Some(row) => Ok(path_join(&config.repo_dir, &row.repo_path)),
        None => {
            let parts: Vec<&str> = vec!["'", filename, "' is not published"];
            assert(parts.deep_view() =~= seq!["'"@, filename@, "' is not published"@]);
            Err(text_from(&parts))
        },
    }
}

/// How the removal of a file went.
#[derive(Debug)]
pub enum Removal {
    Done,
    /// There was no such file.
    Absent,
    Failed(String),
}

/// A file that was not there counts as removed.
pub fn remove_if_file(path: &str, removal: Removal) -> (r: Result<(), String>)
    ensures
        r is Err <==> removal is Failed,
        r matches Err(e) ==> e@ == concat(seq!["removing "@, path@, ": "@, removal->Failed_0@]),
{
    match removal {
        Removal::Failed(error) => {
            let parts: Vec<&str> = vec!["removing ", path, ": ", error.as_str()];
            assert(parts.deep_view() =~= seq!["removing "@, path@, ": "@, error@]);
            Err(text_from(&parts))
        },
        _ => Ok(()),
    }
}

// ---------------------------------------------------------------------------
// Laws
// ---------------------------------------------------------------------------

proof fn lemma_name_chars_plain(s: Seq<char>)
    requires
        name_chars(s),
        s.len() > 0,
    ensures
        !s.contains('/'),
        !white_space(s[0]),
        !white_space(s.last()),
{
    if s.contains('/') {
        let i = s.index_of('/');
        assert(name_char(s[i]));
    }
    assert(name_char(s[0]));
    assert(name_char(s[s.len() - 1]));
}

/// A channel that has its root stays as it is, so naming a channel twice is
/// the same as naming it once.
pub proof fn lemma_qualified_twice(config: ConfigModel, channel: Seq<char>)
    requires
        qualified(config, channel) is Ok,
    ensures
        qualified(config, qualified(config, channel)->Ok_0) == qualified(config, channel),
{
    lemma_pair_stays(config, qualified(config, channel)->Ok_0);
}

/// A well-formed pair of root and subchannel stays as it is.
pub proof fn lemma_pair_stays(config: ConfigModel, channel: Seq<char>)
    requires
        channel_pair(channel),
    ensures
        qualified(config, channel) == Ok::<Seq<char>, Seq<char>>(channel),
{
    let parts = split_on(channel, '/');
    lemma_split_join(channel, '/');
    lemma_name_chars_plain(parts[0]);
    lemma_name_chars_plain(parts[1]);
    let sep = seq!['/'];
    assert(parts.drop_last() =~= seq![parts[0]]);
    assert(join_with(parts.drop_last(), sep) == parts[0]);
    assert(channel =~= parts[0] + sep + parts[1]);
    assert(channel[0] == parts[0][0]);
    assert(channel.last() == parts[1].last());
    lemma_trim_keeps(channel);
    assert(channel[parts[0].len() as int] == '/');
    assert(channel.contains('/'));
}

/// The channel `system` lies in the directory `system`, whatever the root
/// channel is called.
pub proof fn lemma_system_directory(config: ConfigModel)
    requires
        channel_segment(unslashed(config.repo_channel)),
    ensures
        channel_place(config, "system"@) == Ok::<Seq<char>, Seq<char>>("system"@),
{
    reveal_strlit("system");
    reveal_strlit(".");
    reveal_strlit("..");
    let root = unslashed(config.repo_channel);
    lemma_name_chars_plain(root);
    assert(name_chars("system"@));
    assert(channel_segment("system"@));
    lemma_name_chars_plain("system"@);
    lemma_subchannel_directory(config, "system"@);
}

/// A plain channel lies in the directory of its name: the root channel is the
/// repository itself.
pub proof fn lemma_subchannel_directory(config: ConfigModel, channel: Seq<char>)
    requires
        channel_segment(unslashed(config.repo_channel)),
        channel_segment(channel),
        channel != "."@,
        channel != ".."@,
    ensures
        channel_place(config, channel) == Ok::<Seq<char>, Seq<char>>(channel),
{
    let root = unslashed(config.repo_channel);
    lemma_name_chars_plain(root);
    lemma_name_chars_plain(channel);
    lemma_trim_keeps(channel);
    let whole = rooted_channel(config, channel);
    reveal_strlit("/");
    reveal_with_fuel(concat, 4);
    assert(seq![root, "/"@, channel].drop_last().drop_last() =~= seq![root]);
    assert(seq![root, "/"@, channel].drop_last() =~= seq![root, "/"@]);
    assert(seq![root].drop_last() =~= Seq::<Seq<char>>::empty());
    assert(whole =~= root + seq!['/'] + channel);
    lemma_split_concat(root, channel, '/');
    lemma_split_plain(root, '/');
    lemma_split_plain(channel, '/');
    assert(split_on(whole, '/') =~= seq![root, channel]);
}

/// Whatever lay beside the private key, the matching public key lies there
/// afterwards, and nothing is left to write.
pub proof fn lemma_public_key_matches(private: Seq<u8>, found: Option<Seq<u8>>)
    ensures
        ({
            let after = match public_key_due(private, found) {
                Some(public) => Some(public),
                None => found,
            };
            &&& after == Some(ed25519_public_key(private))
            &&& public_key_due(private, after) is None
        }),
{
}

/// The directory of a channel lies below the repository: its path goes on from
/// there step by step, and never up.
pub proof fn lemma_channel_below(config: ConfigModel, channel: Seq<char>)
    requires
        channel_place(config, channel) is Ok,
        config.repo_dir.len() > 0,
    ensures
        ({
            let dir = channel_place(config, channel)->Ok_0;
            &&& components_of(below(config.repo_dir, dir)) == components_of(config.repo_dir)
                + split_on(dir, '/')
            &&& split_on(dir, '/').len() > 0
            &&& !split_on(dir, '/').contains(".."@)
        }),
{
    lemma_plain_below(config.repo_dir, channel_place(config, channel)->Ok_0);
}

/// The name of an archive is one step of a path: it leads neither upward nor
/// into another directory.
pub proof fn lemma_archive_name_is_a_step(name: Seq<char>)
    requires
        archive_name(name),
    ensures
        components_of(name) == seq![name],
        file_name_of(name) == Some(name),
{
    reveal_strlit(".pkg.tar.zst");
    reveal_strlit(".");
    reveal_strlit("..");
    reveal_strlit("/");
    lemma_name_chars_plain(name);
    lemma_split_plain(name, '/');
    let step = |piece: Seq<char>| is_step(piece);
    assert(name.len() >= 12);
    assert(seq![name] =~= Seq::<Seq<char>>::empty().push(name));
    lemma_filter_push(Seq::<Seq<char>>::empty(), name, step);
    assert(Seq::<Seq<char>>::empty().filter(step) =~= Seq::<Seq<char>>::empty()) by {
        reveal(Seq::filter);
    }
    assert(name[0] != '/') by {
        assert(name_char(name[0]));
    }
    assert(components_of(name) =~= seq![name]);
    assert(name != "/"@ && name != "."@ && name != ".."@);
}

/// What was published can be read back: the row with its digest, and the
/// files. Everything else is as it was.
pub proof fn lemma_ingest_reads_back(
    db: DatabaseModel,
    config: ConfigModel,
    upload: UploadModel,
    archive: InspectionModel,
    at: i64,
    other: Seq<char>,
)
    requires
        tables_ordered(db),
        planned(db, config, upload, Ok(archive)) is Ok,
    ensures
        ({
            let outcome = ingested(db, config, upload, Ok(archive), at);
            let after = outcome->Ok_0.0;
            let receipt = outcome->Ok_0.1;
            let row = entry_at(after.published, upload.filename);
            &&& tables_ordered(after)
            &&& row == Some(
                published(
                    upload,
                    meta_of(archive),
                    planned(db, config, upload, Ok(archive))->Ok_0.repo_path,
                    at,
                ),
            )
            &&& receipt.repo_path == row->0.repo_path
            &&& receipt.sha256 == lower_hex(upload.sha256)
            &&& sha256_at(after, upload.filename) == Some(lower_hex(upload.sha256))
            &&& files_at(after, upload.filename) == lines_of_archive(archive)
            &&& after.recipes == db.recipes && after.logs == db.logs && after.tokens == db.tokens
            &&& after.meta == db.meta && after.sync_log == db.sync_log
            &&& other != upload.filename ==> {
                &&& entry_at(after.published, other) == entry_at(db.published, other)
                &&& entry_at(after.files, other) == entry_at(db.files, other)
            }
        }),
{
    let place = planned(db, config, upload, Ok(archive))->Ok_0;
    let row = published(upload, meta_of(archive), place.repo_path, at);
    lemma_put(db.published, upload.filename, row);
    lemma_put(db.files, upload.filename, lines_of_archive(archive));
}

/// The row of a build has the digest of the bytes that arrived.
pub proof fn lemma_row_has_digest(
    content: Seq<u8>,
    filename: Seq<char>,
    declared: Option<Seq<char>>,
    builder: Seq<char>,
    meta: ManifestMetaModel,
    repo_path: Seq<char>,
    at: i64,
)
    ensures
        published(upload_of(content, filename, declared, builder), meta, repo_path, at).sha256
            == hex_of(sha256_digest(content)),
{
    let digest = sha256_digest(content);
    let text = hex_of(digest);
    lemma_hex_lower(digest);
    assert(lower_hex(text) =~= text);
}

/// Withdrawing a build that was new undoes its publication.
pub proof fn lemma_unpublish_undoes_ingest(
    db: DatabaseModel,
    config: ConfigModel,
    upload: UploadModel,
    archive: InspectionModel,
    at: i64,
)
    requires
        tables_ordered(db),
        planned(db, config, upload, Ok(archive)) is Ok,
        entry_at(db.published, upload.filename) is None,
        entry_at(db.files, upload.filename) is None,
        entry_at(db.logs, upload.filename) is None,
    ensures
        without_build(ingested(db, config, upload, Ok(archive), at)->Ok_0.0, upload.filename) == db,
{
    let place = planned(db, config, upload, Ok(archive))->Ok_0;
    let row = published(upload, meta_of(archive), place.repo_path, at);
    let lines = lines_of_archive(archive);
    lemma_drop_undoes_put(db.published, upload.filename, row);
    lemma_drop_undoes_put(db.files, upload.filename, lines);
    lemma_drop_absent(db.logs, upload.filename);
}

/// Publishing the same archive again, later, leaves one build under its name.
pub proof fn lemma_ingest_replaces(
    db: DatabaseModel,
    config: ConfigModel,
    upload: UploadModel,
    archive: InspectionModel,
    first: i64,
    second: i64,
)
    requires
        tables_ordered(db),
        planned(db, config, upload, Ok(archive)) is Ok,
    ensures
        ({
            let once = ingested(db, config, upload, Ok(archive), first)->Ok_0.0;
            let twice = ingested(once, config, upload, Ok(archive), second);
            &&& twice is Ok
            &&& twice->Ok_0.0 == ingested(db, config, upload, Ok(archive), second)->Ok_0.0
            &&& planned(once, config, upload, Ok(archive))->Ok_0.stale is None
        }),
{
    let place = planned(db, config, upload, Ok(archive))->Ok_0;
    let a = published(upload, meta_of(archive), place.repo_path, first);
    let b = published(upload, meta_of(archive), place.repo_path, second);
    let lines = lines_of_archive(archive);
    lemma_put(db.published, upload.filename, a);
    lemma_put_twice(db.published, upload.filename, a, b);
    lemma_put_twice(db.files, upload.filename, lines, lines);
}

/// Publishing leads to an index: the directory that a build was put into is
/// among those that are indexed then.
pub proof fn lemma_published_directory_indexed(
    db: DatabaseModel,
    config: ConfigModel,
    upload: UploadModel,
    archive: InspectionModel,
    at: i64,
    found: Seq<FoundDirModel>,
)
    requires
        tables_ordered(db),
        planned(db, config, upload, Ok(archive)) is Ok,
        index_dirs(ingested(db, config, upload, Ok(archive), at)->Ok_0.0, config, found) is Ok,
    ensures
        exists|dir: Seq<char>| #[trigger]
            index_dirs(
                ingested(db, config, upload, Ok(archive), at)->Ok_0.0,
                config,
                found,
            )->Ok_0.contains(dir) && components_of(dir) == components_of(
                planned(db, config, upload, Ok(archive))->Ok_0.directory,
            ),
{
    let place = planned(db, config, upload, Ok(archive))->Ok_0;
    let after = ingested(db, config, upload, Ok(archive), at)->Ok_0.0;
    let row = published(upload, meta_of(archive), place.repo_path, at);
    let channel = qualified(config, archive.manifest.channel)->Ok_0;
    let builds = builds_of(after);
    assert(uploads(builds).contains(row)) by {
        lemma_put(db.published, upload.filename, row);
        lemma_entry_listed(after.published, upload.filename);
        lemma_sort_permutes(
            builds,
            |a: PublishedRowModel, b: PublishedRowModel| upload_leq(a, b),
        );
    }
    lemma_build_directory(config, channel, upload.filename);
    let indexed = below(config.repo_dir, parent_of(place.repo_path)->0);
    assert(components_of(indexed) == components_of(place.directory));
    lemma_dirs_listed(config.repo_dir, uploads(builds), row);
    let dirs = build_dirs(config.repo_dir, uploads(builds))->0;
    let first = below(config.repo_dir, channel_place(config, "system"@)->Ok_0);
    lemma_listed_dir(first, dirs, indexed_dirs(found), indexed);
    let set = path_set_of(seq![first] + dirs + indexed_dirs(found));
    assert(index_dirs(after, config, found)->Ok_0 == set);
    let q = choose|q: Seq<char>| #[trigger]
        set.contains(q) && components_of(q) == components_of(indexed);
    assert(index_dirs(after, config, found)->Ok_0.contains(q));
}

proof fn lemma_listed_dir(
    first: Seq<char>,
    dirs: Seq<Seq<char>>,
    more: Seq<Seq<char>>,
    dir: Seq<char>,
)
    requires
        dirs.contains(dir),
    ensures
        exists|q: Seq<char>| #[trigger]
            path_set_of(seq![first] + dirs + more).contains(q) && components_of(q)
                == components_of(dir),
{
    let list = seq![first] + dirs + more;
    let k = dirs.index_of(dir);
    assert(list[k + 1] == dir);
    assert(list.contains(dir));
    lemma_path_set(list);
}

/// The file `name` of a well-formed channel lies in the directory of the
/// channel.
proof fn lemma_build_directory(config: ConfigModel, channel: Seq<char>, name: Seq<char>)
    requires
        channel_pair(channel),
        archive_name(name),
    ensures
        ({
            let dir = physical(config, channel);
            let up = parent_of(path_in(dir, name));
            &&& up is Some
            &&& components_of(below(config.repo_dir, up->0)) == components_of(
                below(config.repo_dir, dir),
            )
        }),
{
    let dir = physical(config, channel);
    lemma_pair_shape(config, channel);
    lemma_archive_name_is_a_step(name);
    lemma_name_chars_plain(name);
    reveal_strlit(".");
    reveal_strlit("/");
    reveal_strlit(".pkg.tar.zst");
    let parts = seq![dir, "/"@, name];
    let path = concat(parts);
    assert(path =~= dir + seq!['/'] + name) by {
        reveal_with_fuel(concat, 4);
        assert(parts.drop_last() =~= seq![dir, "/"@]);
        assert(parts.drop_last().drop_last() =~= seq![dir]);
        assert(parts.drop_last().drop_last().drop_last() =~= Seq::<Seq<char>>::empty());
    }
    assert(is_step(name));
    lemma_parent(dir, name);
    lemma_below_components(config.repo_dir, parent_of(path)->0);
    lemma_below_components(config.repo_dir, dir);
}

/// The directory of a well-formed channel is relative, and its first part is
/// not empty.
proof fn lemma_pair_shape(config: ConfigModel, channel: Seq<char>)
    requires
        channel_pair(channel),
    ensures
        ({
            let dir = physical(config, channel);
            &&& dir.len() > 0
            &&& !is_absolute(dir)
            &&& split_on(dir, '/')[0].len() > 0
        }),
{
    let parts = split_on(channel, '/');
    lemma_split_join(channel, '/');
    lemma_name_chars_plain(parts[0]);
    lemma_name_chars_plain(parts[1]);
    let sep = seq!['/'];
    assert(parts.drop_last() =~= seq![parts[0]]);
    assert(join_with(parts.drop_last(), sep) == parts[0]);
    assert(channel =~= parts[0] + sep + parts[1]);
    assert(name_char(parts[0][0]) && name_char(parts[1][0]));
    assert(channel[0] == parts[0][0]);
    lemma_split_plain(parts[1], '/');
}

proof fn lemma_entry_listed(table: Seq<(Seq<char>, PublishedRowModel)>, key: Seq<char>)
    requires
        keys_ascend(table),
        entry_at(table, key) is Some,
    ensures
        values_of(table).contains(entry_at(table, key)->0),
{
    let i = choose|i: int| 0 <= i < table.len() && (#[trigger] table[i]).0 == key;
    lemma_entry_unique(table, i);
    assert(values_of(table)[i] == entry_at(table, key)->0);
}

/// The directory of every build is among those of the builds.
pub proof fn lemma_dirs_listed(
    repo_dir: Seq<char>,
    builds: Seq<PublishedRowModel>,
    row: PublishedRowModel,
)
    requires
        builds.contains(row),
        build_dirs(repo_dir, builds) is Some,
    ensures
        parent_of(row.repo_path) is Some,
        build_dirs(repo_dir, builds)->0.contains(below(repo_dir, parent_of(row.repo_path)->0)),
    decreases builds.len(),
{
    let less = builds.drop_last();
    let dirs = build_dirs(repo_dir, builds)->0;
    let before = build_dirs(repo_dir, less)->0;
    let i = builds.index_of(row);
    if i < less.len() {
        assert(less[i] == row);
        lemma_dirs_listed(repo_dir, less, row);
        let wanted = below(repo_dir, parent_of(row.repo_path)->0);
        let k = before.index_of(wanted);
        assert(dirs[k] == wanted);
    } else {
        assert(dirs[dirs.len() - 1] == below(repo_dir, parent_of(row.repo_path)->0));
    }
}

} // verus!
