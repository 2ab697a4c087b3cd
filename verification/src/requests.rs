//! Requests that change something or ask for files: who may, and what they
//! are answered.

use vstd::prelude::*;
use vstd::string::*;
use vstd::utf8::*;

use crate::config::{Config, ConfigModel};
use crate::db::{
    builds_of, label_of, log_upsert_at, now, published_sha256, published_sha256_for_path,
    sha256_at_path, tables_ordered, token_label_at, upload_leq, uploads, with_log, with_use,
    without_build, Database, DatabaseModel,
};
use crate::digest::{signature_of, verify_hmac};
use crate::digits::{decimal, decimal_text};
use crate::list::{first_where, lemma_first_where};
use crate::order::lemma_sort_permutes;
use crate::path::{below, components_of, is_plain_path, lemma_plain_below, path_join, plain_path};
use crate::records::PublishedRowModel;
use crate::repo::{
    archive_name, channel_place, ingest_at, ingested, inspected_view, lines_of_archive, meta_of,
    name_char, path_in, planned, published, unpublish, valid_filename, Inspection, InspectionModel,
    Receipt, ReceiptModel, Upload, UploadModel,
};
use crate::split::{
    end_trimmed, lemma_split_concat, lemma_split_plain, split_on, trim, trim_end, trimmed,
};
use crate::sync::{opt_text, summary_of, SyncReport};
use crate::table::{entry_at, lemma_drop, lemma_entry_unique, lemma_put};
use crate::text::{concat, same_text, strip_prefix, text_from};
use crate::utf8::read_utf8;

verus! {

/// A refused request: the status code and what is said.
#[derive(Debug)]
pub struct Refusal {
    pub status: u16,
    pub message: String,
}

#[verifier::ext_equal]
pub struct RefusalModel {
    pub status: u16,
    pub message: Seq<char>,
}

impl DeepView for Refusal {
    type V = RefusalModel;

    open spec fn deep_view(&self) -> RefusalModel {
        RefusalModel {
            status: self.status,
            message: self.message@,
        }
    }
}

pub open spec fn refuse(status: u16, message: Seq<char>) -> RefusalModel {
    RefusalModel { status, message }
}

fn refused(status: u16, message: &str) -> (r: Refusal)
    ensures
        r.deep_view() == refuse(status, message@),
{
    Refusal { status, message: message.to_owned() }
}

/// A refusal that names its cause.
pub open spec fn because(status: u16, what: Seq<char>, cause: Seq<char>) -> RefusalModel {
    refuse(status, concat(seq![what, cause]))
}

fn refused_because(status: u16, what: &str, cause: &str) -> (r: Refusal)
    ensures
        r.deep_view() == because(status, what@, cause@),
{
    let parts: Vec<&str> = vec![what, cause];
    assert(parts.deep_view() =~= seq![what@, cause@]);
    Refusal { status, message: text_from(&parts) }
}

// ---------------------------------------------------------------------------
// Tokens
// ---------------------------------------------------------------------------

/// The token in an authorization header.
pub open spec fn presented_token(header: Option<Seq<char>>) -> Option<Seq<char>> {
    match header {
        Some(h) => if "Bearer "@.is_prefix_of(h) {
            Some(trimmed(h.skip("Bearer "@.len() as int)))
        } else {
            None
        },
        None => None,
    }
}

/// The label of the token in an authorization header, or why there is none.
pub open spec fn authorized(db: DatabaseModel, header: Option<Seq<char>>) -> Result<
    Seq<char>,
    RefusalModel,
> {
    match presented_token(header) {
        None => Err(refuse(401, "missing bearer token"@)),
        Some(token) => match label_of(db, token) {
            Some(label) => Ok(label),
            None => Err(refuse(401, "invalid token"@)),
        },
    }
}

/// The state after the token in an authorization header was used.
pub open spec fn after_use(db: DatabaseModel, header: Option<Seq<char>>, at: i64) -> DatabaseModel {
    match presented_token(header) {
        Some(token) => with_use(db, token, at),
        None => db,
    }
}

/// The label of the token in an authorization header, which is noted as used
/// at the instant `at`.
pub fn authorize_at(database: &mut Database, header: Option<&str>, at: i64) -> (r: Result<
    String,
    Refusal,
>)
    ensures
        final(database)@ == after_use(old(database)@, opt_text(header), at),
        match r {
            Ok(label) => authorized(old(database)@, opt_text(header)) == Ok::<
                Seq<char>,
                RefusalModel,
            >(label@),
            Err(e) => authorized(old(database)@, opt_text(header)) == Err::<
                Seq<char>,
                RefusalModel,
            >(e.deep_view()),
        },
{
    let rest = match header {
        Some(h) => strip_prefix(h, "Bearer "),
        None => None,
    };
    let token = match rest {
        Some(rest) => {
            assert(header->0@.skip("Bearer "@.len() as int) =~= rest@);
            assert("Bearer "@.is_prefix_of(header->0@));
            trim(rest)
        },
        None => {
            return Err(refused(401, "missing bearer token"));
        },
    };
    match token_label_at(database, token, at) {
        Some(label) => Ok(label),
        None => Err(refused(401, "invalid token")),
    }
}

/// The label of the token in an authorization header, which is noted as used.
pub fn authorize(database: &mut Database, header: Option<&str>) -> (r: Result<String, Refusal>)
    ensures
        exists|at: i64|
            final(database)@ == #[trigger] after_use(old(database)@, opt_text(header), at),
        match r {
            Ok(label) => authorized(old(database)@, opt_text(header)) == Ok::<
                Seq<char>,
                RefusalModel,
            >(label@),
            Err(e) => authorized(old(database)@, opt_text(header)) == Err::<
                Seq<char>,
                RefusalModel,
            >(e.deep_view()),
        },
{
    let at = now();
    authorize_at(database, header, at)
}

// ---------------------------------------------------------------------------
// Publishing
// ---------------------------------------------------------------------------

/// An upload that may begin: who sends it, and where it is put first.
#[derive(Debug)]
pub struct Staged {
    pub builder: String,
    pub path: String,
}

#[verifier::ext_equal]
pub struct StagedModel {
    pub builder: Seq<char>,
    pub path: Seq<char>,
}

impl DeepView for Staged {
    type V = StagedModel;

    open spec fn deep_view(&self) -> StagedModel {
        StagedModel {
            builder: self.builder@,
            path: self.path@,
        }
    }
}

/// Where an upload is put first.
pub open spec fn staging_path(config: ConfigModel, process: u32, filename: Seq<char>) -> Seq<char> {
    below(
        config.repo_dir,
        concat(seq![".incoming-"@, decimal(process as nat), "-"@, filename]),
    )
}

/// Whether an upload may begin.
pub open spec fn publish_begun(
    db: DatabaseModel,
    config: ConfigModel,
    header: Option<Seq<char>>,
    filename: Seq<char>,
    process: u32,
) -> Result<StagedModel, RefusalModel> {
    match authorized(db, header) {
        Err(e) => Err(e),
        Ok(builder) => if archive_name(filename) {
            Ok(StagedModel { builder, path: staging_path(config, process, filename) })
        } else {
            Err(refuse(400, "invalid package filename"@))
        },
    }
}

/// Whether an upload may begin, asked at the instant `at` by the process
/// `process`.
pub fn begin_publish(
    database: &mut Database,
    config: &Config,
    header: Option<&str>,
    filename: &str,
    process: u32,
    at: i64,
) -> (r: Result<Staged, Refusal>)
    ensures
        final(database)@ == after_use(old(database)@, opt_text(header), at),
        match r {
            Ok(staged) => publish_begun(
                old(database)@,
                config.deep_view(),
                opt_text(header),
                filename@,
                process,
            ) == Ok::<StagedModel, RefusalModel>(staged.deep_view()),
            Err(e) => publish_begun(
                old(database)@,
                config.deep_view(),
                opt_text(header),
                filename@,
                process,
            ) == Err::<StagedModel, RefusalModel>(e.deep_view()),
        },
{
    let builder = match authorize_at(database, header, at) {
        Ok(label) => label,
        Err(e) => {
            return Err(e);
        },
    };
    if !valid_filename(filename) {
        return Err(refused(400, "invalid package filename"));
    }
    let number = decimal_text(process as u128);
    let parts: Vec<&str> = vec![".incoming-", number.as_str(), "-", filename];
    assert(parts.deep_view() =~= seq![".incoming-"@, decimal(process as nat), "-"@, filename@]);
    let path = path_join(&config.repo_dir, &text_from(&parts));
    Ok(Staged { builder, path })
}

/// What went wrong with an upload on its way.
#[derive(Debug)]
pub enum UploadFault {
    /// It could not be put anywhere.
    Stage(String),
    /// It could not be written.
    Write(String),
    /// It broke off.
    Interrupted(String),
    /// The task that takes it in died.
    Panicked(String),
}

pub open spec fn fault_answer(fault: UploadFault) -> RefusalModel {
    match fault {
        UploadFault::Stage(e) => because(500, "cannot stage upload: "@, e@),
        UploadFault::Write(e) => because(400, "cannot write upload: "@, e@),
        UploadFault::Interrupted(e) => because(400, "upload interrupted: "@, e@),
        UploadFault::Panicked(e) => because(500, "publish task panicked: "@, e@),
    }
}

/// What is answered to an upload that went wrong on its way.
pub fn upload_fault(fault: UploadFault) -> (r: Refusal)
    ensures
        r.deep_view() == fault_answer(fault),
{
    match fault {
        UploadFault::Stage(e) => refused_because(500, "cannot stage upload: ", &e),
        UploadFault::Write(e) => refused_because(400, "cannot write upload: ", &e),
        UploadFault::Interrupted(e) => refused_because(400, "upload interrupted: ", &e),
        UploadFault::Panicked(e) => refused_because(500, "publish task panicked: ", &e),
    }
}

/// What is answered where an upload is not taken in.
pub open spec fn publish_rejected(error: Seq<char>) -> RefusalModel {
    because(422, "publish rejected: "@, error)
}

/// What is answered where an upload is not taken in.
pub fn reject_publish(error: &str) -> (r: Refusal)
    ensures
        r.deep_view() == publish_rejected(error@),
{
    refused_because(422, "publish rejected: ", error)
}

/// Takes in an upload that has arrived, at the instant `at`.
pub fn publish(
    database: &mut Database,
    config: &Config,
    upload: &Upload,
    inspected: Result<&Inspection, &str>,
    at: i64,
) -> (r: Result<Receipt, Refusal>)
    ensures
        match r {
            Ok(receipt) => ingested(
                old(database)@,
                config.deep_view(),
                upload.deep_view(),
                inspected_view(inspected),
                at,
            ) == Ok::<(DatabaseModel, ReceiptModel), Seq<char>>(
                (final(database)@, receipt.deep_view()),
            ),
            Err(e) => {
                let outcome = planned(
                    old(database)@,
                    config.deep_view(),
                    upload.deep_view(),
                    inspected_view(inspected),
                );
                &&& outcome is Err
                &&& e.deep_view() == publish_rejected(outcome->Err_0)
                &&& final(database)@ == old(database)@
            },
        },
{
    match ingest_at(database, config, upload, inspected, at) {
        Ok(receipt) => Ok(receipt),
        Err(e) => Err(reject_publish(&e)),
    }
}

// ---------------------------------------------------------------------------
// Withdrawing
// ---------------------------------------------------------------------------

/// A build that was withdrawn: its filename, who asked, and the archive that
/// has to go.
#[derive(Debug)]
pub struct Withdrawn {
    pub deleted: String,
    pub by: String,
    pub archive: String,
}

#[verifier::ext_equal]
pub struct WithdrawnModel {
    pub deleted: Seq<char>,
    pub by: Seq<char>,
    pub archive: Seq<char>,
}

impl DeepView for Withdrawn {
    type V = WithdrawnModel;

    open spec fn deep_view(&self) -> WithdrawnModel {
        WithdrawnModel {
            deleted: self.deleted@,
            by: self.by@,
            archive: self.archive@,
        }
    }
}

/// Whether a build is withdrawn.
pub open spec fn withdrawal(
    db: DatabaseModel,
    config: ConfigModel,
    header: Option<Seq<char>>,
    filename: Seq<char>,
) -> Result<WithdrawnModel, RefusalModel> {
    match authorized(db, header) {
        Err(e) => Err(e),
        Ok(by) => if !archive_name(filename) {
            Err(refuse(400, "invalid package filename"@))
        } else {
            match entry_at(db.published, filename) {
                None => Err(because(404, filename, " is not published"@)),
                Some(row) => Ok(
                    WithdrawnModel {
                        deleted: filename,
                        by,
                        archive: below(config.repo_dir, row.repo_path),
                    },
                ),
            }
        },
    }
}

/// What is answered where the rest of a withdrawal fails.
pub fn unpublish_failed(error: &str) -> (r: Refusal)
    ensures
        r.deep_view() == because(422, "unpublish failed: "@, error@),
{
    refused_because(422, "unpublish failed: ", error)
}

/// Withdraws a build, asked at the instant `at`: row, files and log go.
pub fn unpublish_file(
    database: &mut Database,
    config: &Config,
    header: Option<&str>,
    filename: &str,
    at: i64,
) -> (r: Result<Withdrawn, Refusal>)
    ensures
        match r {
            Ok(done) => {
                &&& withdrawal(old(database)@, config.deep_view(), opt_text(header), filename@)
                    == Ok::<WithdrawnModel, RefusalModel>(done.deep_view())
                &&& final(database)@ == without_build(
                    after_use(old(database)@, opt_text(header), at),
                    filename@,
                )
            },
            Err(e) => {
                &&& withdrawal(old(database)@, config.deep_view(), opt_text(header), filename@)
                    == Err::<WithdrawnModel, RefusalModel>(e.deep_view())
                &&& final(database)@ == after_use(old(database)@, opt_text(header), at)
            },
        },
{
    let by = match authorize_at(database, header, at) {
        Ok(label) => label,
        Err(e) => {
            return Err(e);
        },
    };
    if !valid_filename(filename) {
        return Err(refused(400, "invalid package filename"));
    }
    if published_sha256(database, filename).is_none() {
        return Err(refused_because(404, filename, " is not published"));
    }
    match unpublish(database, config, filename) {
        Ok(archive) => Ok(Withdrawn { deleted: filename.to_owned(), by, archive }),
        Err(e) => Err(unpublish_failed(&e)),
    }
}

// ---------------------------------------------------------------------------
// Build logs
// ---------------------------------------------------------------------------

/// The greatest build log, in bytes.
pub const MAX_LOG_BYTES: usize = 1_048_576;

/// Why a build log is refused.
pub open spec fn log_refusal(
    db: DatabaseModel,
    header: Option<Seq<char>>,
    filename: Seq<char>,
    body: Seq<u8>,
) -> Option<RefusalModel> {
    match authorized(db, header) {
        Err(e) => Some(e),
        Ok(_) => if !archive_name(filename) {
            Some(refuse(400, "invalid package filename"@))
        } else if body.len() > MAX_LOG_BYTES {
            Some(refuse(413, "log exceeds 1 MiB"@))
        } else if !valid_utf8(body) {
            Some(refuse(415, "log must be UTF-8 text"@))
        } else if entry_at(db.published, filename) is None {
            Some(refuse(422, concat(seq!["log upload rejected: "@, filename, " is not published"@])))
        } else {
            None
        },
    }
}

/// Keeps the build log of a published build, handed in at the instant `at`,
/// without the white space at its end. The result is the size of what came.
pub fn upload_log(
    database: &mut Database,
    header: Option<&str>,
    filename: &str,
    body: &[u8],
    at: i64,
) -> (r: Result<usize, Refusal>)
    ensures
        match r {
            Ok(stored) => {
                &&& log_refusal(old(database)@, opt_text(header), filename@, body@) is None
                &&& stored == body@.len()
                &&& final(database)@ == with_log(
                    after_use(old(database)@, opt_text(header), at),
                    filename@,
                    end_trimmed(decode_utf8(body@)),
                    authorized(old(database)@, opt_text(header))->Ok_0,
                    at,
                )
            },
            Err(e) => {
                &&& log_refusal(old(database)@, opt_text(header), filename@, body@) == Some(
                    e.deep_view(),
                )
                &&& final(database)@ == after_use(old(database)@, opt_text(header), at)
            },
        },
{
    let builder = match authorize_at(database, header, at) {
        Ok(label) => label,
        Err(e) => {
            return Err(e);
        },
    };
    if !valid_filename(filename) {
        return Err(refused(400, "invalid package filename"));
    }
    if body.len() > MAX_LOG_BYTES {
        return Err(refused(413, "log exceeds 1 MiB"));
    }
    let content = match read_utf8(body) {
        Some(text) => text,
        None => {
            return Err(refused(415, "log must be UTF-8 text"));
        },
    };
    if published_sha256(database, filename).is_none() {
        let parts: Vec<&str> = vec!["log upload rejected: ", filename, " is not published"];
        assert(parts.deep_view() =~= seq![
            "log upload rejected: "@, filename@, " is not published"@,
        ]);
        return Err(Refusal { status: 422, message: text_from(&parts) });
    }
    log_upsert_at(database, filename, trim_end(&content), &builder, at);
    Ok(body.len())
}

// ---------------------------------------------------------------------------
// Files
// ---------------------------------------------------------------------------

/// The path of a file that was asked for, where it may be given.
pub fn repo_file_path(config: &Config, path: &str) -> (r: Option<String>)
    ensures
        r.deep_view() == if plain_path(path@) {
            Some(below(config.deep_view().repo_dir, path@))
        } else {
            None
        },
{
    if is_plain_path(path) {
        Some(path_join(&config.repo_dir, path))
    } else {
        None
    }
}

/// A digest as an entity tag.
pub open spec fn quoted(sha256: Seq<char>) -> Seq<char> {
    concat(seq!["\""@, sha256, "\""@])
}

fn quote(sha256: &str) -> (r: String)
    ensures
        r@ == quoted(sha256@),
{
    let parts: Vec<&str> = vec!["\"", sha256, "\""];
    assert(parts.deep_view() =~= seq!["\""@, sha256@, "\""@]);
    text_from(&parts)
}

/// The entity tag of a published archive: its digest.
pub open spec fn archive_tag_of(db: DatabaseModel, filename: Seq<char>) -> Option<Seq<char>> {
    match entry_at(db.published, filename) {
        Some(row) => Some(quoted(row.sha256)),
        None => None,
    }
}

/// The entity tag of a published archive, by which a publisher tells whether
/// the archive at hand is the one that was published.
pub fn archive_tag(database: &Database, filename: &str) -> (r: Option<String>)
    ensures
        r.deep_view() == archive_tag_of(database@, filename@),
{
    match published_sha256(database, filename) {
        Some(sha256) => Some(quote(&sha256)),
        None => None,
    }
}

/// The answer to a request for a file.
#[derive(Debug)]
pub enum FileAnswer {
    NotFound,
    /// The client has it under this entity tag.
    NotModified(String),
    /// The file, with its entity tag.
    Send(Option<String>),
}

pub enum FileAnswerModel {
    NotFound,
    NotModified(Seq<char>),
    Send(Option<Seq<char>>),
}

impl DeepView for FileAnswer {
    type V = FileAnswerModel;

    open spec fn deep_view(&self) -> FileAnswerModel {
        match self {
            FileAnswer::NotFound => FileAnswerModel::NotFound,
            FileAnswer::NotModified(tag) => FileAnswerModel::NotModified(tag@),
            FileAnswer::Send(tag) => FileAnswerModel::Send(tag.deep_view()),
        }
    }
}

/// The entity tag of the file at `path`: the digest of the build there. The
/// index has none.
pub open spec fn entity_tag(db: DatabaseModel, path: Seq<char>) -> Option<Seq<char>> {
    if path == "index.toml"@ {
        None
    } else {
        match sha256_at_path(db, path) {
            Some(sha256) => Some(quoted(sha256)),
            None => None,
        }
    }
}

/// The answer to a request for the file at `path`, where `is_file` tells
/// whether it is there and `known` is the tag that the client has.
pub open spec fn file_answer(
    db: DatabaseModel,
    path: Seq<char>,
    is_file: bool,
    known: Option<Seq<char>>,
) -> FileAnswerModel {
    if !plain_path(path) || !is_file {
        FileAnswerModel::NotFound
    } else {
        match (entity_tag(db, path), known) {
            (Some(tag), Some(k)) => if trimmed(k) == tag {
                FileAnswerModel::NotModified(tag)
            } else {
                FileAnswerModel::Send(Some(tag))
            },
            (tag, _) => FileAnswerModel::Send(tag),
        }
    }
}

/// The answer to a request for the file at `path`.
pub fn repo_file(database: &Database, path: &str, is_file: bool, if_none_match: Option<&str>) -> (r:
    FileAnswer)
    ensures
        r.deep_view() == file_answer(database@, path@, is_file, opt_text(if_none_match)),
{
    if !is_plain_path(path) || !is_file {
        return FileAnswer::NotFound;
    }
    let sha256 = if same_text(path, "index.toml") {
        None
    } else {
        published_sha256_for_path(database, path)
    };
    let tag = match sha256 {
        Some(sha256) => quote(&sha256),
        None => {
            return FileAnswer::Send(None);
        },
    };
    if let Some(known) = if_none_match {
        if same_text(trim(known), &tag) {
            return FileAnswer::NotModified(tag);
        }
    }
    FileAnswer::Send(Some(tag))
}

/// What is answered where a file cannot be opened.
pub fn cannot_open(path: &str, error: &str) -> (r: Refusal)
    ensures
        r.deep_view() == refuse(500, concat(seq!["cannot open "@, path@, ": "@, error@])),
{
    let parts: Vec<&str> = vec!["cannot open ", path, ": ", error];
    assert(parts.deep_view() =~= seq!["cannot open "@, path@, ": "@, error@]);
    Refusal { status: 500, message: text_from(&parts) }
}

// ---------------------------------------------------------------------------
// Synchronization on request
// ---------------------------------------------------------------------------

/// Why a webhook call is refused: none is set up, it is not signed, or not
/// with the secret.
pub open spec fn webhook_refusal(
    config: ConfigModel,
    signature: Option<Seq<char>>,
    body: Seq<u8>,
) -> Option<RefusalModel> {
    match (config.webhook_secret, signature) {
        (None, _) => Some(refuse(403, "webhook not configured"@)),
        (Some(_), None) => Some(refuse(401, "missing signature"@)),
        (Some(secret), Some(s)) => if s == signature_of(secret, body) {
            None
        } else {
            Some(refuse(401, "bad signature"@))
        },
    }
}

/// Why a webhook call is refused.
pub fn github_webhook(config: &Config, signature: Option<&str>, body: &[u8]) -> (r: Option<Refusal>)
    ensures
        r.deep_view() == webhook_refusal(config.deep_view(), opt_text(signature), body@),
{
    let secret = match &config.webhook_secret {
        Some(secret) => secret,
        None => {
            return Some(refused(403, "webhook not configured"));
        },
    };
    match signature {
        None => Some(refused(401, "missing signature")),
        Some(s) => if verify_hmac(secret, s, body) {
            None
        } else {
            Some(refused(401, "bad signature"))
        },
    }
}

/// How a synchronization on request ended.
#[derive(Debug)]
pub enum SyncEnd {
    /// One was running already.
    Busy,
    Done(SyncReport),
    Failed(String),
    Panicked(String),
}

pub open spec fn sync_answer(end: SyncEnd) -> RefusalModel {
    match end {
        SyncEnd::Busy => refuse(200, "sync already in progress"@),
        SyncEnd::Done(report) => because(200, "synced: "@, summary_of(report.deep_view())),
        SyncEnd::Failed(e) => because(500, "sync failed: "@, e@),
        SyncEnd::Panicked(e) => because(500, "sync task panicked: "@, e@),
    }
}

/// The status code and text that a request for a synchronization is answered
/// with.
pub fn trigger_sync(end: SyncEnd) -> (r: Refusal)
    ensures
        r.deep_view() == sync_answer(end),
{
    match end {
        SyncEnd::Busy => refused(200, "sync already in progress"),
        SyncEnd::Done(report) => refused_because(200, "synced: ", &report.summary()),
        SyncEnd::Failed(e) => refused_because(500, "sync failed: ", &e),
        SyncEnd::Panicked(e) => refused_because(500, "sync task panicked: ", &e),
    }
}

/// Keeps synchronizations from running into each other.
#[derive(Debug)]
pub struct SyncGate {
    pub running: bool,
}

/// What a request for a synchronization comes to, where `running` tells
/// whether one runs: whether one runs then, and the answer, or none where this
/// one may run.
pub open spec fn sync_begun(running: bool) -> (bool, Option<RefusalModel>) {
    (
        true,
        if running {
            Some(sync_answer(SyncEnd::Busy))
        } else {
            None
        },
    )
}

/// What the end of a synchronization comes to: whether one runs then, and the
/// answer to the request for it.
pub open spec fn sync_finished(end: SyncEnd) -> (bool, RefusalModel) {
    (false, sync_answer(end))
}

impl SyncGate {
    /// No synchronization runs.
    pub fn new() -> (r: SyncGate)
        ensures
            !r.running,
    {
        SyncGate { running: false }
    }

    /// Lets a synchronization begin, or answers that one runs.
    pub fn begin(&mut self) -> (r: Option<Refusal>)
        ensures
            (final(self).running, r.deep_view()) == sync_begun(old(self).running),
    {
        if self.running {
            Some(trigger_sync(SyncEnd::Busy))
        } else {
            self.running = true;
            None
        }
    }

    /// Notes the end of the synchronization that was let begin, and answers
    /// the request for it.
    pub fn finish(&mut self, end: SyncEnd) -> (r: Refusal)
        ensures
            (final(self).running, r.deep_view()) == sync_finished(end),
    {
        self.running = false;
        trigger_sync(end)
    }
}

/// Whether a poll leads to a synchronization: none runs, and the remote named
/// a commit other than the one that was noted.
pub fn poll_syncs(running: bool, remote: Option<&str>, noted: Option<&str>) -> (r: bool)
    ensures
        r == (!running && remote is Some && remote->0@ != match noted {
            Some(commit) => commit@,
            None => ""@,
        }),
{
    if running {
        return false;
    }
    match (remote, noted) {
        (Some(sha), Some(commit)) => !same_text(sha, commit),
        (Some(sha), None) => !same_text(sha, ""),
        (None, _) => false,
    }
}

// ---------------------------------------------------------------------------
// Laws
// ---------------------------------------------------------------------------

/// A request while a synchronization runs is answered at once and leaves it
/// running. Any other runs one, after which none runs, and is answered by how
/// that one ended.
pub proof fn lemma_sync_request(running: bool, end: SyncEnd)
    requires
        !(end is Busy),
    ensures
        running ==> sync_begun(running) == (running, Some(
            refuse(200, "sync already in progress"@),
        )),
        !running ==> sync_begun(running) == (true, None::<RefusalModel>),
        sync_finished(end) == (false, sync_answer(end)),
        sync_answer(end).status == if end is Done {
            200u16
        } else {
            500u16
        },
{
}

/// A request for a synchronization, or the end of one that was let begin.
pub enum SyncEvent {
    Request,
    End(SyncEnd),
}

/// Whether a synchronization counts as running after some events, and how many
/// do run then.
pub open spec fn syncs_after(events: Seq<SyncEvent>) -> (bool, int)
    decreases events.len(),
{
    if events.len() == 0 {
        (false, 0)
    } else {
        let (running, count) = syncs_after(events.drop_last());
        match events.last() {
            SyncEvent::Request => (
                sync_begun(running).0,
                if sync_begun(running).1 is None {
                    count + 1
                } else {
                    count
                },
            ),
            SyncEvent::End(end) => (sync_finished(end).0, count - 1),
        }
    }
}

/// Only what runs comes to an end.
pub open spec fn orderly(events: Seq<SyncEvent>) -> bool {
    forall|i: int|
        0 <= i < events.len() && (#[trigger] events[i]) is End ==> syncs_after(events.take(i)).1 > 0
}

/// At most one synchronization runs at a time, whatever asks for one, and one
/// counts as running just while one runs.
pub proof fn lemma_one_sync_at_a_time(events: Seq<SyncEvent>)
    requires
        orderly(events),
    ensures
        0 <= syncs_after(events).1 <= 1,
        syncs_after(events).0 == (syncs_after(events).1 == 1),
    decreases events.len(),
{
    if events.len() > 0 {
        let before = events.drop_last();
        assert(orderly(before)) by {
            assert forall|i: int| 0 <= i < before.len() && (
            #[trigger] before[i]) is End implies syncs_after(before.take(i)).1 > 0 by {
                assert(events[i] == before[i]);
                assert(events.take(i) =~= before.take(i));
            }
        }
        lemma_one_sync_at_a_time(before);
        assert(events.take(events.len() - 1) =~= before);
        assert(events[events.len() - 1] == events.last());
    }
}

/// Without a known token nothing is published, withdrawn or logged: every
/// request is answered with 401, and the state stays as it is.
pub proof fn lemma_unauthorized(
    db: DatabaseModel,
    config: ConfigModel,
    header: Option<Seq<char>>,
    filename: Seq<char>,
    process: u32,
    body: Seq<u8>,
    at: i64,
)
    requires
        presented_token(header) is None || label_of(db, presented_token(header)->0) is None,
    ensures
        after_use(db, header, at) == db,
        publish_begun(db, config, header, filename, process) is Err,
        publish_begun(db, config, header, filename, process)->Err_0.status == 401,
        withdrawal(db, config, header, filename) is Err,
        withdrawal(db, config, header, filename)->Err_0.status == 401,
        log_refusal(db, header, filename, body) is Some,
        log_refusal(db, header, filename, body)->0.status == 401,
{
}

/// A log that was taken can be read back, whole but for the white space at
/// its end, with the label of who sent it.
pub proof fn lemma_log_reads_back(
    db: DatabaseModel,
    header: Option<Seq<char>>,
    filename: Seq<char>,
    body: Seq<u8>,
    at: i64,
)
    requires
        tables_ordered(db),
        log_refusal(db, header, filename, body) is None,
    ensures
        ({
            let after = with_log(
                after_use(db, header, at),
                filename,
                end_trimmed(decode_utf8(body)),
                authorized(db, header)->Ok_0,
                at,
            );
            &&& entry_at(after.logs, filename) is Some
            &&& entry_at(after.logs, filename)->0.content == end_trimmed(decode_utf8(body))
            &&& entry_at(after.logs, filename)->0.builder == authorized(db, header)->Ok_0
            &&& after.published == db.published
        }),
{
    let used = after_use(db, header, at);
    let row = crate::records::LogRowModel {
        content: end_trimmed(decode_utf8(body)),
        builder: authorized(db, header)->Ok_0,
        uploaded_at: at,
    };
    assert(used.logs == db.logs);
    lemma_put(used.logs, filename, row);
}

proof fn lemma_quoted(sha256: Seq<char>)
    ensures
        quoted(sha256) == seq!['"'] + sha256 + seq!['"'],
        trimmed(quoted(sha256)) == quoted(sha256),
{
    reveal_strlit("\"");
    reveal_with_fuel(concat, 4);
    let parts = seq!["\""@, sha256, "\""@];
    assert(parts.drop_last() =~= seq!["\""@, sha256]);
    assert(parts.drop_last().drop_last() =~= seq!["\""@]);
    assert(parts.drop_last().drop_last().drop_last() =~= Seq::<Seq<char>>::empty());
    let tag = quoted(sha256);
    assert(tag =~= seq!['"'] + sha256 + seq!['"']);
    assert(tag[0] == '"' && tag.last() == '"');
    crate::model::lemma_trim_keeps(tag);
}

/// A publisher skips an archive just where the server has one of the same
/// name and digest.
pub proof fn lemma_same_archive_skipped(
    db: DatabaseModel,
    filename: Seq<char>,
    sha256: Seq<char>,
)
    ensures
        (archive_tag_of(db, filename) is Some && trimmed(archive_tag_of(db, filename)->0)
            == quoted(sha256)) == (entry_at(db.published, filename) is Some && entry_at(
            db.published,
            filename,
        )->0.sha256 == sha256),
{
    lemma_quoted(sha256);
    if let Some(row) = entry_at(db.published, filename) {
        let stored = row.sha256;
        lemma_quoted(stored);
        if quoted(stored) == quoted(sha256) {
            assert(stored =~= quoted(stored).subrange(1, quoted(stored).len() - 1));
            assert(sha256 =~= quoted(sha256).subrange(1, quoted(sha256).len() - 1));
        }
    }
}

/// A file whose tag the client has is not sent again, and the tag sent with a
/// file is one that saves sending it again.
pub proof fn lemma_tag_saves_sending(
    db: DatabaseModel,
    path: Seq<char>,
    known: Option<Seq<char>>,
)
    ensures
        match file_answer(db, path, true, known) {
            FileAnswerModel::Send(Some(tag)) => file_answer(db, path, true, Some(tag))
                == FileAnswerModel::NotModified(tag),
            _ => true,
        },
{
    if let FileAnswerModel::Send(Some(tag)) = file_answer(db, path, true, known) {
        lemma_quoted(sha256_at_path(db, path)->0);
    }
}

/// A file that is given lies below the repository: its path goes on from
/// there step by step, and never up.
pub proof fn lemma_given_files_below(config: ConfigModel, path: Seq<char>)
    requires
        plain_path(path),
        config.repo_dir.len() > 0,
    ensures
        components_of(below(config.repo_dir, path)) == components_of(config.repo_dir) + split_on(
            path,
            '/',
        ),
        !split_on(path, '/').contains(".."@),
{
    lemma_plain_below(config.repo_dir, path);
}

/// The archive `name` lies at `path`.
pub open spec fn placed_at(path: Seq<char>, name: Seq<char>) -> bool {
    exists|dir: Seq<char>| path == #[trigger] path_in(dir, name)
}

/// Every build is kept under its filename, and lies below the repository, at
/// the end of its path under that name.
pub open spec fn well_placed(db: DatabaseModel) -> bool {
    forall|name: Seq<char>|
        match #[trigger] entry_at(db.published, name) {
            Some(row) => row.filename == name && archive_name(name) && placed_at(
                row.repo_path,
                name,
            ) && plain_path(row.repo_path),
            None => true,
        }
}

/// Publishing keeps every build at its place.
pub proof fn lemma_ingest_well_placed(
    db: DatabaseModel,
    config: ConfigModel,
    upload: UploadModel,
    archive: InspectionModel,
    at: i64,
)
    requires
        tables_ordered(db),
        well_placed(db),
        planned(db, config, upload, Ok(archive)) is Ok,
    ensures
        tables_ordered(ingested(db, config, upload, Ok(archive), at)->Ok_0.0),
        well_placed(ingested(db, config, upload, Ok(archive), at)->Ok_0.0),
{
    let place = planned(db, config, upload, Ok(archive))->Ok_0;
    let row = published(upload, meta_of(archive), place.repo_path, at);
    let after = ingested(db, config, upload, Ok(archive), at)->Ok_0.0;
    lemma_put(db.published, upload.filename, row);
    lemma_put(db.files, upload.filename, lines_of_archive(archive));
    assert forall|name: Seq<char>|
        match #[trigger] entry_at(after.published, name) {
            Some(row) => row.filename == name && archive_name(name) && placed_at(
                row.repo_path,
                name,
            ) && plain_path(row.repo_path),
            None => true,
        } by {
        if name == upload.filename {
            assert(placed_at(place.repo_path, name));
            lemma_plain_in(channel_place(config, archive.manifest.channel)->Ok_0, name);
        } else {
            assert(entry_at(after.published, name) == entry_at(db.published, name));
        }
    }
}

/// Withdrawing keeps every build at its place.
pub proof fn lemma_withdrawal_well_placed(db: DatabaseModel, filename: Seq<char>)
    requires
        tables_ordered(db),
        well_placed(db),
    ensures
        tables_ordered(without_build(db, filename)),
        well_placed(without_build(db, filename)),
{
    let after = without_build(db, filename);
    lemma_drop(db.published, filename);
    lemma_drop(db.files, filename);
    lemma_drop(db.logs, filename);
    assert forall|name: Seq<char>|
        match #[trigger] entry_at(after.published, name) {
            Some(row) => row.filename == name && archive_name(name) && placed_at(
                row.repo_path,
                name,
            ) && plain_path(row.repo_path),
            None => true,
        } by {
        if name != filename {
            assert(entry_at(after.published, name) == entry_at(db.published, name));
        }
    }
}

proof fn lemma_plain_in(dir: Seq<char>, name: Seq<char>)
    requires
        plain_path(dir),
        archive_name(name),
    ensures
        plain_path(path_in(dir, name)),
{
    reveal_strlit("/");
    reveal_strlit(".");
    reveal_strlit("..");
    reveal_strlit(".pkg.tar.zst");
    let path = path_in(dir, name);
    let parts = seq![dir, "/"@, name];
    assert(path =~= dir + seq!['/'] + name) by {
        reveal_with_fuel(concat, 4);
        assert(parts.drop_last() =~= seq![dir, "/"@]);
        assert(parts.drop_last().drop_last() =~= seq![dir]);
        assert(parts.drop_last().drop_last().drop_last() =~= Seq::<Seq<char>>::empty());
    }
    assert(!name.contains('/')) by {
        if name.contains('/') {
            let i = name.index_of('/');
            assert(name_char(name[i]));
        }
    }
    lemma_split_concat(dir, name, '/');
    lemma_split_plain(name, '/');
    let all = split_on(path, '/');
    let first = split_on(dir, '/');
    assert forall|i: int| 0 <= i < all.len() implies {
        let part = #[trigger] all[i];
        part.len() > 0 && part != ".."@ && part != "."@
    } by {
        if i < first.len() {
            assert(all[i] == first[i]);
        } else {
            assert(all[i] == name);
        }
    }
}

proof fn lemma_one_name(path: Seq<char>, a: Seq<char>, b: Seq<char>)
    requires
        placed_at(path, a),
        placed_at(path, b),
        archive_name(a),
        archive_name(b),
    ensures
        a == b,
        path.contains('/'),
{
    lemma_last_piece(path, a);
    lemma_last_piece(path, b);
}

proof fn lemma_last_piece(path: Seq<char>, name: Seq<char>)
    requires
        placed_at(path, name),
        archive_name(name),
    ensures
        split_on(path, '/').last() == name,
        path.contains('/'),
{
    reveal_strlit("/");
    reveal_strlit(".pkg.tar.zst");
    let dir = choose|dir: Seq<char>| path == #[trigger] path_in(dir, name);
    let parts = seq![dir, "/"@, name];
    assert(path =~= dir + seq!['/'] + name) by {
        reveal_with_fuel(concat, 4);
        assert(parts.drop_last() =~= seq![dir, "/"@]);
        assert(parts.drop_last().drop_last() =~= seq![dir]);
        assert(parts.drop_last().drop_last().drop_last() =~= Seq::<Seq<char>>::empty());
    }
    assert(!name.contains('/')) by {
        if name.contains('/') {
            let i = name.index_of('/');
            assert(name_char(name[i]));
        }
    }
    lemma_split_concat(dir, name, '/');
    lemma_split_plain(name, '/');
    assert(path[dir.len() as int] == '/');
}

/// The tag of a published archive is its digest: a client that has the same
/// archive can tell and skip it, and one that has none is sent the archive
/// with the tag.
pub proof fn lemma_published_tag(db: DatabaseModel, filename: Seq<char>)
    requires
        tables_ordered(db),
        well_placed(db),
        entry_at(db.published, filename) is Some,
    ensures
        entity_tag(db, entry_at(db.published, filename)->0.repo_path) == Some(
            quoted(entry_at(db.published, filename)->0.sha256),
        ),
        file_answer(
            db,
            entry_at(db.published, filename)->0.repo_path,
            true,
            None,
        ) == FileAnswerModel::Send(Some(quoted(entry_at(db.published, filename)->0.sha256))),
{
    reveal_strlit("index.toml");
    let row = entry_at(db.published, filename)->0;
    let path = row.repo_path;
    lemma_last_piece(path, filename);
    assert(path != "index.toml"@) by {
        if path == "index.toml"@ {
            let i = path.index_of('/');
            assert("index.toml"@[i] == '/');
        }
    }
    let builds = builds_of(db);
    let rows = uploads(builds);
    let there = |r: PublishedRowModel| r.repo_path == path;
    lemma_sort_permutes(builds, |a: PublishedRowModel, b: PublishedRowModel| upload_leq(a, b));
    lemma_first_where(rows, there);
    let table = db.published;
    let at = choose|i: int| 0 <= i < table.len() && (#[trigger] table[i]).0 == filename;
    lemma_entry_unique(table, at);
    assert(builds[at] == row);
    assert(builds.contains(row));
    assert(rows.contains(row));
    let k = rows.index_of(row);
    assert(there(rows[k]));
    let first = first_where(rows, there)->0;
    let other = rows[first];
    assert(there(other));
    assert(rows.contains(other));
    assert(builds.contains(other));
    let m = builds.index_of(other);
    lemma_entry_unique(table, m);
    assert(table[m].1 == other);
    let name = table[m].0;
    assert(entry_at(table, name) == Some(other));
    lemma_one_name(path, filename, name);
    assert(other == row);
}

} // verus!
