//! What holds of publishing: what is recorded of an archive, where it goes and
//! what the pages tell of it then.

use vstd::prelude::*;

use crate::config::ConfigModel;
use crate::db::{
    builds_of, files_at, recipes_of, tables_ordered, uploads, version_rows, DatabaseModel,
};
use crate::digest::is_hex_digit;
use crate::digits::{decimal, lemma_numeral_round_trip};
use crate::laws_builds::{
    compares, fits, lemma_version_listed, lemma_version_row, lemma_versions_descend, row_tells,
};
use crate::laws_detail::lemma_uploads;
use crate::laws_pages::{lemma_listed_view, listed_views, newest_recipe_at, shows, shows_beside};
use crate::laws_paths::lemma_root_unslashed;
use crate::laws_sync::lemma_file_name;
use crate::list::{last_where, lemma_kept, lemma_last_where};
use crate::model::{canonical, lemma_canonical_twice, lemma_trim_keeps};
use crate::order::lemma_filter_push;
use crate::path::{
    below, components_of, is_step, lemma_path_set, parent_of, path_order, path_set_of, plain_path,
};
use crate::records::{FileLineModel, ManifestMetaModel, PublishedRowModel};
use crate::repo::{
    archive_name, build_dirs, channel_place, channel_segment, index_dirs, indexed_dirs, ingested,
    lemma_dirs_listed, lemma_pair_stays, lines_of_archive, lower_hex, meta_of, name_char,
    name_chars, planned, public_key_path, published, published_state, qualified, stem_of,
    FoundDirModel, InspectionModel, PlacementModel, UploadModel,
};
use crate::split::{
    lemma_split_concat, lemma_split_plain, split_on, trim_start_by, trimmed, unslashed, white_space,
};
use crate::status::{version_of, version_order, State};
use crate::table::{entry_at, lemma_entry_unique, lemma_put};
use crate::text::{concat, Side};
use crate::utf8::lossy_text;

verus! {

/// The text of three parts.
pub proof fn lemma_three(a: Seq<char>, b: Seq<char>, c: Seq<char>)
    ensures
        concat(seq![a, b, c]) == a + b + c,
{
    reveal_with_fuel(concat, 4);
    let parts = seq![a, b, c];
    assert(parts.drop_last() =~= seq![a, b]);
    assert(parts.drop_last().drop_last() =~= seq![a]);
    assert(parts.drop_last().drop_last().drop_last() =~= Seq::<Seq<char>>::empty());
    assert(concat(parts) =~= a + b + c);
}

/// What the hub keeps of a manifest is what stands in it, with the canonical
/// architecture and the release as a numeral.
pub open spec fn keeps_manifest(meta: ManifestMetaModel, archive: InspectionModel) -> bool {
    let p = archive.manifest;
    &&& meta.name == p.name && meta.slot == p.slot && meta.version == p.version && meta.epoch
        == p.epoch
    &&& meta.release == decimal(p.release as nat) && meta.arch == canonical(p.arch)
    &&& meta.schema_version == p.schema_version && meta.reading == p.reading
    &&& meta.description == p.description && meta.license == p.license && meta.channel == p.channel
    &&& meta.installed_size == p.installed_size
    &&& meta.provides == p.provides && meta.conflicts == p.conflicts && meta.features == p.features
    &&& meta.managed_build_tools == p.managed_build_tools
    &&& meta.check_dependencies.len() == 0 && meta.conffiles.len() == 0
    &&& meta.service_toml == match entry_at(archive.optional, ".METADATA/service.toml"@) {
        Some(bytes) => lossy_text(bytes),
        None => Seq::empty(),
    }
    &&& meta.dependencies.len() == p.dependencies.len()
    &&& forall|k: int|
        0 <= k < p.dependencies.len() ==> #[trigger] meta.dependencies[k] == p.dependencies[k].text
}

/// The row of a build: what stands in the manifest, and how it was handed in.
pub open spec fn records_build(
    row: PublishedRowModel,
    upload: UploadModel,
    archive: InspectionModel,
    at: i64,
) -> bool {
    let p = archive.manifest;
    &&& row.name == p.name && row.slot == p.slot && row.version == p.version && row.epoch == p.epoch
    &&& row.release == decimal(p.release as nat) && row.arch == canonical(p.arch) && row.channel
        == p.channel
    &&& row.reading == p.reading
    &&& row.filename == upload.filename && row.builder == upload.builder && row.uploaded_at == at
    &&& upload.size <= i64::MAX ==> row.size == upload.size
    &&& row.sha256.len() == upload.sha256.len()
    &&& forall|i: int|
        0 <= i < row.sha256.len() ==> {
            let c = upload.sha256[i];
            #[trigger] row.sha256[i] as int == if 'A' as int <= c as int <= 'Z' as int {
                c as int + 32
            } else {
                c as int
            }
        }
    &&& row.meta is Some && keeps_manifest(row.meta->0, archive)
}

/// The file list of a build is that of its archive.
pub open spec fn lists_files(lines: Seq<FileLineModel>, archive: InspectionModel) -> bool {
    &&& lines.len() == archive.files.len()
    &&& forall|k: int|
        0 <= k < lines.len() ==> {
            &&& (#[trigger] lines[k]).path == archive.files[k].path
            &&& lines[k].kind == "file"@
            &&& archive.files[k].size <= i64::MAX ==> lines[k].size == archive.files[k].size
        }
}

/// After an archive was published, the build under its filename has what the
/// manifest says, and lies in the directory of its channel; its files are those
/// of the archive; and the publisher is told just that.
pub proof fn lemma_published_build(
    db: DatabaseModel,
    config: ConfigModel,
    upload: UploadModel,
    archive: InspectionModel,
    at: i64,
)
    requires
        tables_ordered(db),
        ingested(db, config, upload, Ok(archive), at) is Ok,
    ensures
        ({
            let (after, receipt) = ingested(db, config, upload, Ok(archive), at)->Ok_0;
            let row = entry_at(after.published, upload.filename);
            let dir = channel_place(config, archive.manifest.channel);
            &&& tables_ordered(after)
            &&& row is Some && records_build(row->0, upload, archive, at)
            &&& dir is Ok && row->0.repo_path == dir->Ok_0 + seq!['/'] + upload.filename
            &&& lists_files(files_at(after, upload.filename), archive)
            &&& receipt.filename == upload.filename && receipt.repo_path == row->0.repo_path
            &&& receipt.name == archive.manifest.name && receipt.version
                == archive.manifest.version.text
            &&& receipt.release == decimal(archive.manifest.release as nat) && receipt.sha256
                == row->0.sha256 && receipt.size == row->0.size
        }),
{
    reveal_strlit("/");
    let place = planned(db, config, upload, Ok(archive))->Ok_0;
    let meta = meta_of(archive);
    let row = published(upload, meta, place.repo_path, at);
    let lines = lines_of_archive(archive);
    let after = ingested(db, config, upload, Ok(archive), at)->Ok_0.0;
    lemma_put(db.published, upload.filename, row);
    lemma_put(db.files, upload.filename, lines);
    let dir = channel_place(config, archive.manifest.channel)->Ok_0;
    lemma_three(dir, "/"@, upload.filename);
    assert("/"@ =~= seq!['/']);
    assert(entry_at(after.published, upload.filename) == Some(row));
    assert(keeps_manifest(meta, archive)) by {
        assert forall|k: int| 0 <= k < archive.manifest.dependencies.len() implies
        #[trigger] meta.dependencies[k] == archive.manifest.dependencies[k].text by {}
    }
    assert(records_build(row, upload, archive, at)) by {
        assert forall|i: int| 0 <= i < row.sha256.len() implies {
            let c = upload.sha256[i];
            #[trigger] row.sha256[i] as int == if 'A' as int <= c as int <= 'Z' as int {
                c as int + 32
            } else {
                c as int
            }
        } by {
            assert(row.sha256[i] == lower_hex(upload.sha256)[i]);
        }
    }
    assert(files_at(after, upload.filename) == lines);
    assert(lists_files(lines, archive)) by {
        assert forall|k: int| 0 <= k < lines.len() implies {
            &&& (#[trigger] lines[k]).path == archive.files[k].path
            &&& lines[k].kind == "file"@
            &&& archive.files[k].size <= i64::MAX ==> lines[k].size == archive.files[k].size
        } by {}
    }
}

/// Where nothing was published under the name of an archive before, every
/// package of that name that the archive fits stands beside it afterwards:
/// built where recipe and archive have the same version and release, outdated
/// where those of the archive are smaller, and ahead where they are greater.
pub proof fn lemma_publishing_builds(
    db: DatabaseModel,
    config: ConfigModel,
    upload: UploadModel,
    archive: InspectionModel,
    at: i64,
    i: int,
)
    requires
        tables_ordered(db),
        ingested(db, config, upload, Ok(archive), at) is Ok,
        forall|j: int|
            0 <= j < db.published.len() ==> (#[trigger] db.published[j]).1.name
                != archive.manifest.name,
        0 <= i < listed_views(ingested(db, config, upload, Ok(archive), at)->Ok_0.0).len(),
        listed_views(ingested(db, config, upload, Ok(archive), at)->Ok_0.0)[i].name
            == archive.manifest.name,
        fits(
            listed_views(ingested(db, config, upload, Ok(archive), at)->Ok_0.0)[i].arch,
            canonical(archive.manifest.arch),
        ),
    ensures
        ({
            let view = listed_views(ingested(db, config, upload, Ok(archive), at)->Ok_0.0)[i];
            let p = archive.manifest;
            &&& view.state != State::Missing
            &&& view.repo_version == p.version.text + seq!['-'] + decimal(p.release as nat)
            &&& view.built_at == at
            &&& exists|k: int|
                0 <= k < db.recipes.len() && shows(view, (#[trigger] db.recipes[k]).1)
                    && newest_recipe_at(db, k) && compares(
                    view.state,
                    db.recipes[k].1.package.version.rank,
                    db.recipes[k].1.package.release,
                    p.version.rank,
                    p.release,
                )
        }),
{
    let after = ingested(db, config, upload, Ok(archive), at)->Ok_0.0;
    let view = listed_views(after)[i];
    let p = archive.manifest;
    lemma_published_build(db, config, upload, archive, at);
    lemma_listed_view(after, i);
    let row = entry_at(after.published, upload.filename)->0;
    lemma_canonical_twice(p.arch);
    let n = choose|n: int|
        0 <= n < after.published.len() && (#[trigger] after.published[n]).0 == upload.filename;
    lemma_entry_unique(after.published, n);
    assert(after.published[n].1 == row);
    assert(row.name == view.name && fits(view.arch, canonical(row.arch)));
    assert(view.state != State::Missing);
    let k = choose|k: int|
        0 <= k < after.recipes.len() && shows(view, (#[trigger] after.recipes[k]).1)
            && newest_recipe_at(after, k) && (view.state != State::Missing ==> exists|j: int|
            0 <= j < after.published.len() && shows_beside(
                view,
                after.recipes[k].1,
                (#[trigger] after.published[j]).1,
            ));
    let j = choose|j: int|
        0 <= j < after.published.len() && shows_beside(
            view,
            after.recipes[k].1,
            (#[trigger] after.published[j]).1,
        );
    lemma_entry_unique(after.published, j);
    let key = after.published[j].0;
    assert(key == upload.filename) by {
        if key != upload.filename {
            let place = planned(db, config, upload, Ok(archive))->Ok_0;
            lemma_put(
                db.published,
                upload.filename,
                published(upload, meta_of(archive), place.repo_path, at),
            );
            assert(entry_at(db.published, key) == Some(after.published[j].1));
            let m = choose|m: int| 0 <= m < db.published.len() && (#[trigger] db.published[m]).0 == key;
            lemma_entry_unique(db.published, m);
            assert(db.published[m].1.name != p.name);
        }
    }
    assert(after.published[j].1 == row);
    assert(row.release == decimal(p.release as nat));
    assert(after.recipes == db.recipes);
    assert(newest_recipe_at(db, k));
}

/// What `state` says of a recipe and a build where the epochs count too.
pub open spec fn compares_in_epochs(
    state: State,
    recipe_epoch: u32,
    recipe_rank: u64,
    recipe_release: u32,
    build_epoch: u32,
    build_rank: u64,
    build_release: u32,
) -> bool {
    &&& build_epoch == recipe_epoch ==> compares(
        state,
        recipe_rank,
        recipe_release,
        build_rank,
        build_release,
    )
    &&& build_epoch < recipe_epoch ==> state == State::Outdated
    &&& build_epoch > recipe_epoch ==> state == State::Ahead
}

/// The `k`-th recipe is one of the package `name`, and none of those is newer.
pub open spec fn newest_named(db: DatabaseModel, name: Seq<char>, k: int) -> bool {
    &&& db.recipes[k].1.package.name == name
    &&& forall|j: int|
        0 <= j < db.recipes.len() && (#[trigger] db.recipes[j]).1.package.name == name
            ==> version_order(
            version_of(db.recipes[j].1.package.reading.full),
            version_of(db.recipes[k].1.package.reading.full),
        ) != Side::After
}

/// The first row of a package presents its newest recipe, and there is one
/// just where the package has a recipe.
pub proof fn lemma_first_row(db: DatabaseModel, name: Seq<char>)
    ensures
        version_rows(recipes_of(db), name).len() > 0 <==> exists|k: int|
            0 <= k < db.recipes.len() && (#[trigger] db.recipes[k]).1.package.name == name,
        version_rows(recipes_of(db), name).len() > 0 ==> exists|k: int|
            0 <= k < db.recipes.len() && newest_named(db, name, k) && row_tells(
                version_rows(recipes_of(db), name)[0],
                (#[trigger] db.recipes[k]).1,
            ),
{
    let sorted = version_rows(recipes_of(db), name);
    if sorted.len() > 0 {
        lemma_version_row(db, name, 0);
        let k = choose|k: int|
            0 <= k < db.recipes.len() && (#[trigger] db.recipes[k]).1.package.name == name
                && row_tells(sorted[0], db.recipes[k].1);
        assert forall|j: int|
            0 <= j < db.recipes.len() && (#[trigger] db.recipes[j]).1.package.name
                == name implies version_order(
            version_of(db.recipes[j].1.package.reading.full),
            version_of(db.recipes[k].1.package.reading.full),
        ) != Side::After by {
            lemma_version_listed(db, j);
            let s = choose|s: int|
                0 <= s < sorted.len() && row_tells(#[trigger] sorted[s], db.recipes[j].1);
            lemma_versions_descend(db, name, 0, s);
        }
        assert(newest_named(db, name, k));
    } else if exists|k: int|
        0 <= k < db.recipes.len() && (#[trigger] db.recipes[k]).1.package.name == name {
        let k = choose|k: int|
            0 <= k < db.recipes.len() && (#[trigger] db.recipes[k]).1.package.name == name;
        lemma_version_listed(db, k);
    }
}

/// The publisher is told how the build stands to the newest recipe of its
/// name, epochs included; missing where there is no recipe.
pub proof fn lemma_receipt_state(
    db: DatabaseModel,
    config: ConfigModel,
    upload: UploadModel,
    archive: InspectionModel,
    at: i64,
)
    requires
        ingested(db, config, upload, Ok(archive), at) is Ok,
    ensures
        ({
            let receipt = ingested(db, config, upload, Ok(archive), at)->Ok_0.1;
            let p = archive.manifest;
            ||| receipt.state == State::Missing && forall|k: int|
                0 <= k < db.recipes.len() ==> (#[trigger] db.recipes[k]).1.package.name != p.name
            ||| receipt.state != State::Missing && exists|k: int|
                0 <= k < db.recipes.len() && newest_named(db, p.name, k) && compares_in_epochs(
                    receipt.state,
                    (#[trigger] db.recipes[k]).1.package.epoch,
                    db.recipes[k].1.package.version.rank,
                    db.recipes[k].1.package.release,
                    p.epoch,
                    p.version.rank,
                    p.release,
                )
        }),
{
    let (after, receipt) = ingested(db, config, upload, Ok(archive), at)->Ok_0;
    let p = archive.manifest;
    let sorted = version_rows(recipes_of(db), p.name);
    assert(recipes_of(after) == recipes_of(db));
    lemma_first_row(db, p.name);
    if sorted.len() > 0 {
        let k = choose|k: int|
            0 <= k < db.recipes.len() && newest_named(db, p.name, k) && row_tells(
                sorted[0],
                (#[trigger] db.recipes[k]).1,
            );
        let r = db.recipes[k].1;
        lemma_numeral_round_trip(r.package.release);
        lemma_numeral_round_trip(p.release);
        assert(sorted[0].release == decimal(r.package.release as nat));
        let row = published(
            upload,
            meta_of(archive),
            planned(db, config, upload, Ok(archive))->Ok_0.repo_path,
            at,
        );
        assert(receipt.state == published_state(after, row));
        assert(compares_in_epochs(
            receipt.state,
            r.package.epoch,
            r.package.version.rank,
            r.package.release,
            p.epoch,
            p.version.rank,
            p.release,
        ));
    }
}

/// An upload is taken just where its name is that of an archive, the digest is
/// one and the one declared, Sage can read it and its channel has a directory.
/// A refused one is told the first of these that fails.
pub proof fn lemma_upload_taken(
    db: DatabaseModel,
    config: ConfigModel,
    upload: UploadModel,
    inspected: Result<InspectionModel, Seq<char>>,
    at: i64,
)
    ensures
        ({
            let named = archive_name(upload.filename);
            let declared = upload.declared is None || upload.declared->0 == upload.sha256;
            let digest = upload.sha256.len() == 64 && forall|i: int|
                0 <= i < 64 ==> is_hex_digit(#[trigger] upload.sha256[i]);
            let outcome = ingested(db, config, upload, inspected, at);
            let outset = planned(db, config, upload, inspected);
            &&& outcome is Ok <==> outset is Ok
            &&& outcome is Ok <==> named && declared && digest && inspected is Ok && channel_place(
                config,
                inspected->Ok_0.manifest.channel,
            ) is Ok
            &&& outcome is Err ==> outset == Err::<PlacementModel, Seq<char>>(outcome->Err_0)
            &&& !named ==> outcome->Err_0 == "invalid package filename '"@ + upload.filename + "'"@
            &&& named && !declared ==> outcome->Err_0
                == "sha256 mismatch between client declaration and upload"@
            &&& named && declared && !digest ==> outcome->Err_0 == "invalid SHA-256"@
            &&& named && declared && digest && inspected is Err ==> outcome->Err_0
                == "invalid Sage archive: "@ + inspected->Err_0
        }),
{
    lemma_three("invalid package filename '"@, upload.filename, "'"@);
    if inspected is Err {
        lemma_two("invalid Sage archive: "@, inspected->Err_0);
    }
}

/// The text of two parts.
pub proof fn lemma_two(a: Seq<char>, b: Seq<char>)
    ensures
        concat(seq![a, b]) == a + b,
{
    reveal_with_fuel(concat, 3);
    let parts = seq![a, b];
    assert(parts.drop_last() =~= seq![a]);
    assert(parts.drop_last().drop_last() =~= Seq::<Seq<char>>::empty());
    assert(concat(parts) =~= a + b);
}

/// A letter or digit of ASCII, or one of `.`, `_`, `-` and `+`.
pub open spec fn plain_char(c: char) -> bool {
    ('0' as int <= c as int <= '9' as int) || ('a' as int <= c as int <= 'z' as int) || ('A' as int
        <= c as int <= 'Z' as int) || c == '.' || c == '_' || c == '-' || c == '+'
}

/// The name of an archive is that of a file: something before `.pkg.tar.zst`,
/// not hidden, of plain characters only, at most 255 of them.
pub proof fn lemma_archive_names(name: Seq<char>)
    ensures
        archive_name(name) <==> 12 <= name.len() <= 255 && name.skip(name.len() - 12)
            == ".pkg.tar.zst"@ && name[0] != '.' && forall|i: int|
            0 <= i < name.len() ==> plain_char(#[trigger] name[i]),
{
    reveal_strlit(".pkg.tar.zst");
    let end = ".pkg.tar.zst"@;
    assert(end.len() == 12);
    if archive_name(name) {
        assert(name.skip(name.len() - 12) =~= end);
        assert forall|i: int| 0 <= i < name.len() implies plain_char(#[trigger] name[i]) by {
            assert(name_char(name[i]));
        }
    }
    if 12 <= name.len() <= 255 && name.skip(name.len() - 12) == end && name[0] != '.' && (forall|
        i: int,
    |
        0 <= i < name.len() ==> plain_char(#[trigger] name[i])) {
        assert(name.subrange(name.len() - end.len(), name.len() as int) =~= end);
        assert(end.is_suffix_of(name));
        assert(name_chars(name));
    }
}

/// A channel below the root channel lies in the directory of its own name, and
/// one below another root in a directory of that root.
pub proof fn lemma_pair_directory(config: ConfigModel, root: Seq<char>, sub: Seq<char>)
    requires
        channel_segment(root),
        channel_segment(sub),
        root != "."@ && root != ".."@,
        sub != "."@ && sub != ".."@,
    ensures
        channel_place(config, root + seq!['/'] + sub) == Ok::<Seq<char>, Seq<char>>(
            if root == unslashed(config.repo_channel) {
                sub
            } else {
                root + seq!['/'] + sub
            },
        ),
{
    let whole = root + seq!['/'] + sub;
    lemma_no_slash(root);
    lemma_no_slash(sub);
    lemma_split_concat(root, sub, '/');
    lemma_split_plain(root, '/');
    lemma_split_plain(sub, '/');
    assert(split_on(whole, '/') =~= seq![root, sub]);
    lemma_pair_stays(config, whole);
}

proof fn lemma_no_slash(s: Seq<char>)
    requires
        channel_segment(s),
    ensures
        !s.contains('/'),
{
    if s.contains('/') {
        assert(name_char(s[s.index_of('/')]));
    }
}

/// An archive that names no channel goes where those of the channel `system`
/// go.
pub proof fn lemma_unnamed_channel(config: ConfigModel, channel: Seq<char>)
    requires
        forall|i: int| 0 <= i < channel.len() ==> white_space(#[trigger] channel[i]),
    ensures
        channel_place(config, channel) == channel_place(config, "system"@),
{
    reveal_strlit("system");
    lemma_trim_keeps("system"@);
    lemma_trim_all(channel);
}

proof fn lemma_trim_all(s: Seq<char>)
    requires
        forall|i: int| 0 <= i < s.len() ==> white_space(#[trigger] s[i]),
    ensures
        trimmed(s).len() == 0,
    decreases s.len(),
{
    let p = |c: char| white_space(c);
    if s.len() > 0 {
        assert(white_space(s[0]));
        let less = s.drop_first();
        assert forall|i: int| 0 <= i < less.len() implies white_space(#[trigger] less[i]) by {
            assert(less[i] == s[i + 1]);
        }
        lemma_trim_all(less);
        assert(trim_start_by(s, p) == trim_start_by(less, p));
    }
}

/// An archive is put into the directory of its channel under its filename, and
/// an earlier one of that name has to go just where it lay elsewhere.
pub proof fn lemma_placement(
    db: DatabaseModel,
    config: ConfigModel,
    upload: UploadModel,
    archive: InspectionModel,
)
    requires
        planned(db, config, upload, Ok(archive)) is Ok,
    ensures
        ({
            let place = planned(db, config, upload, Ok(archive))->Ok_0;
            let dir = channel_place(config, archive.manifest.channel)->Ok_0;
            let before = entry_at(db.published, upload.filename);
            &&& place.repo_path == dir + seq!['/'] + upload.filename
            &&& place.directory == below(config.repo_dir, dir)
            &&& place.destination == below(place.directory, upload.filename)
            &&& place.stale is Some <==> before is Some && before->0.repo_path != place.repo_path
            &&& place.stale is Some ==> place.stale->0 == below(
                config.repo_dir,
                before->0.repo_path,
            )
        }),
{
    reveal_strlit("/");
    assert("/"@ =~= seq!['/']);
    lemma_three(channel_place(config, archive.manifest.channel)->Ok_0, "/"@, upload.filename);
}

// ---------------------------------------------------------------------------
// Indexes
// ---------------------------------------------------------------------------

proof fn lemma_dirs_come_from(
    repo_dir: Seq<char>,
    builds: Seq<PublishedRowModel>,
    dir: Seq<char>,
) -> (row: PublishedRowModel)
    requires
        build_dirs(repo_dir, builds) is Some,
        build_dirs(repo_dir, builds)->0.contains(dir),
    ensures
        builds.contains(row),
        parent_of(row.repo_path) is Some,
        dir == below(repo_dir, parent_of(row.repo_path)->0),
    decreases builds.len(),
{
    let dirs = build_dirs(repo_dir, builds)->0;
    let k = dirs.index_of(dir);
    let less = builds.drop_last();
    let before = build_dirs(repo_dir, less)->0;
    if k < before.len() {
        assert(before[k] == dir);
        let row = lemma_dirs_come_from(repo_dir, less, dir);
        let i = less.index_of(row);
        assert(builds[i] == row);
        row
    } else {
        assert(builds[builds.len() - 1] == builds.last());
        builds.last()
    }
}

/// Where an index belongs: the directory of the channel `system`, that of a
/// build, and any that holds one already.
pub open spec fn needs_index(
    db: DatabaseModel,
    config: ConfigModel,
    found: Seq<FoundDirModel>,
    dir: Seq<char>,
) -> bool {
    ||| channel_place(config, "system"@) is Ok && dir == below(
        config.repo_dir,
        channel_place(config, "system"@)->Ok_0,
    )
    ||| exists|j: int|
        0 <= j < db.published.len() && parent_of((#[trigger] db.published[j]).1.repo_path) is Some
            && dir == below(config.repo_dir, parent_of(db.published[j].1.repo_path)->0)
    ||| exists|k: int| 0 <= k < found.len() && (#[trigger] found[k]).has_index && found[k].path == dir
}

/// Just the directories where an index belongs are indexed, each once up to its
/// spelling and in the order of paths.
pub proof fn lemma_indexed(
    db: DatabaseModel,
    config: ConfigModel,
    found: Seq<FoundDirModel>,
    dir: Seq<char>,
)
    requires
        index_dirs(db, config, found) is Ok,
    ensures
        index_dirs(db, config, found)->Ok_0.contains(dir) ==> needs_index(db, config, found, dir),
        needs_index(db, config, found, dir) ==> exists|q: Seq<char>| #[trigger]
            index_dirs(db, config, found)->Ok_0.contains(q) && components_of(q) == components_of(dir),
        forall|i: int, j: int|
            0 <= i < j < index_dirs(db, config, found)->Ok_0.len() ==> path_order(
                #[trigger] index_dirs(db, config, found)->Ok_0[i],
                #[trigger] index_dirs(db, config, found)->Ok_0[j],
            ) != Side::After,
{
    let builds = uploads(builds_of(db));
    let dirs = build_dirs(config.repo_dir, builds)->0;
    let first = below(config.repo_dir, channel_place(config, "system"@)->Ok_0);
    let more = indexed_dirs(found);
    let all = seq![first] + dirs + more;
    let keep = |d: FoundDirModel| d.has_index;
    let kept = found.filter(keep);
    lemma_path_set(all);
    lemma_kept(found, keep);
    lemma_uploads(db);
    if path_set_of(all).contains(dir) {
        assert(all.contains(dir));
        let n = all.index_of(dir);
        if n == 0 {
            assert(dir == first);
        } else if n <= dirs.len() {
            assert(dirs[n - 1] == dir);
            assert(dirs.contains(dir));
            let row = lemma_dirs_come_from(config.repo_dir, builds, dir);
            let j = choose|j: int| 0 <= j < db.published.len() && (#[trigger] db.published[j]).1 == row;
            assert(db.published[j].1 == row);
        } else {
            let m = n - 1 - dirs.len();
            assert(more[m] == dir);
            assert(kept.contains(kept[m]));
            let k = found.index_of(kept[m]);
            assert(found[k].path == dir);
        }
    }
    if needs_index(db, config, found, dir) {
        if dir == first {
            assert(all[0] == dir);
            assert(all.contains(dir));
        } else if exists|j: int|
            0 <= j < db.published.len() && parent_of((#[trigger] db.published[j]).1.repo_path)
                is Some && dir == below(
                config.repo_dir,
                parent_of(db.published[j].1.repo_path)->0,
            ) {
            let j = choose|j: int|
                0 <= j < db.published.len() && parent_of((#[trigger] db.published[j]).1.repo_path)
                    is Some && dir == below(
                    config.repo_dir,
                    parent_of(db.published[j].1.repo_path)->0,
                );
            assert(builds.contains(db.published[j].1));
            lemma_dirs_listed(config.repo_dir, builds, db.published[j].1);
            let n = dirs.index_of(dir);
            assert(all[n + 1] == dir);
            assert(all.contains(dir));
        } else {
            let k = choose|k: int|
                0 <= k < found.len() && (#[trigger] found[k]).has_index && found[k].path == dir;
            assert(found.contains(found[k]));
            assert(kept.contains(found[k]));
            let m = kept.index_of(found[k]);
            assert(more[m] == dir);
            assert(all[m + 1 + dirs.len()] == dir);
            assert(all.contains(dir));
        }
    }
}

/// A name without its extension: what stands before the last dot. A name
/// without a dot stays.
pub proof fn lemma_stem(stem: Seq<char>, extension: Seq<char>)
    requires
        stem.len() > 0,
        !extension.contains('.'),
    ensures
        stem_of(stem + seq!['.'] + extension) == stem,
        stem_of(extension) == extension,
{
    let name = stem + seq!['.'] + extension;
    let dot = |c: char| c == '.';
    lemma_last_where(name, dot);
    lemma_last_where(extension, dot);
    assert(dot(name[stem.len() as int]));
    match last_where(name, dot) {
        Some(i) => {
            if i > stem.len() {
                assert(extension[i - stem.len() - 1] == name[i]);
            }
            assert(name.take(i) =~= stem);
        },
        None => {},
    }
    match last_where(extension, dot) {
        Some(i) => {
            assert(extension.contains(extension[i]));
        },
        None => {},
    }
}

/// The public key lies in the directory of the private one, under the same name
/// with the extension `pub`.
pub proof fn lemma_public_key_beside(dir: Seq<char>, stem: Seq<char>, extension: Seq<char>)
    requires
        dir.len() > 0,
        stem.len() > 0,
        !stem.contains('/'),
        stem[0] != '.',
        !extension.contains('.'),
        !extension.contains('/'),
    ensures
        ({
            let key = dir + seq!['/'] + stem + seq!['.'] + extension;
            &&& parent_of(key) is Some && components_of(key) == components_of(dir).push(
                stem + seq!['.'] + extension,
            )
            &&& public_key_path(key) == below(parent_of(key)->0, stem + ".pub"@)
        }),
{
    reveal_strlit(".");
    reveal_strlit("..");
    reveal_strlit("/");
    let name = stem + seq!['.'] + extension;
    let key = dir + seq!['/'] + stem + seq!['.'] + extension;
    assert(key =~= dir + seq!['/'] + name);
    assert(name[0] == stem[0]);
    assert(!name.contains('/')) by {
        if name.contains('/') {
            let i = name.index_of('/');
            assert(name[i] == '/');
            if i < stem.len() {
                assert(stem[i] == '/');
            } else if i > stem.len() {
                assert(extension[i - stem.len() - 1] == '/');
            }
        }
    }
    lemma_file_name(dir, name);
    lemma_stem(stem, extension);
    let step = |piece: Seq<char>| is_step(piece);
    lemma_split_concat(dir, name, '/');
    lemma_split_plain(name, '/');
    Seq::filter_distributes_over_add(split_on(dir, '/'), seq![name], step);
    assert(seq![name] =~= Seq::<Seq<char>>::empty().push(name));
    lemma_filter_push(Seq::<Seq<char>>::empty(), name, step);
    assert(Seq::<Seq<char>>::empty().filter(step) =~= Seq::<Seq<char>>::empty()) by {
        reveal(Seq::filter);
    }
    assert(components_of(key) =~= components_of(dir).push(name));
}

/// A part of a channel has from one to 128 characters, each a letter, a digit,
/// a dot, an underscore, a dash or a plus sign.
pub proof fn lemma_channel_part(s: Seq<char>)
    ensures
        channel_segment(s) <==> 1 <= s.len() <= 128 && forall|i: int|
            0 <= i < s.len() ==> plain_char(#[trigger] s[i]),
{
    assert forall|c: char| #[trigger] plain_char(c) == name_char(c) by {}
    if channel_segment(s) {
        assert forall|i: int| 0 <= i < s.len() implies plain_char(#[trigger] s[i]) by {
            assert(name_char(s[i]));
        }
    }
    if forall|i: int| 0 <= i < s.len() ==> plain_char(#[trigger] s[i]) {
        assert forall|i: int| 0 <= i < s.len() implies name_char(#[trigger] s[i]) by {
            assert(plain_char(s[i]));
        }
    }
}

/// A channel that names no root is one of the root channel, whose slashes on
/// either side do not count, and lies in the directory of its own name.
pub proof fn lemma_channel_rooted(
    config: ConfigModel,
    channel: Seq<char>,
    root: Seq<char>,
    before: nat,
    after: nat,
)
    requires
        config.repo_channel == Seq::new(before, |i: int| '/') + root + Seq::new(after, |i: int| '/'),
        channel_segment(root),
        channel_segment(trimmed(channel)),
        trimmed(channel) != "."@ && trimmed(channel) != ".."@,
    ensures
        qualified(config, channel) == Ok::<Seq<char>, Seq<char>>(
            root + seq!['/'] + trimmed(channel),
        ),
        channel_place(config, channel) == Ok::<Seq<char>, Seq<char>>(trimmed(channel)),
{
    let sub = trimmed(channel);
    let whole = root + seq!['/'] + sub;
    lemma_no_slash(root);
    lemma_no_slash(sub);
    assert(root.contains(root[0]) && root.contains(root.last()));
    lemma_root_unslashed(root, before, after);
    lemma_three(root, "/"@, sub);
    reveal_strlit("/");
    assert("/"@ =~= seq!['/']);
    lemma_split_concat(root, sub, '/');
    lemma_split_plain(root, '/');
    lemma_split_plain(sub, '/');
    assert(split_on(whole, '/') =~= seq![root, sub]);
    assert(split_on(sub, '/')[0] == sub);
    assert(plain_path(sub));
}

} // verus!
