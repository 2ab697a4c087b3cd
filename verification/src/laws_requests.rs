//! What holds of requests: who may do what, what is kept of it and what is
//! answered.

use vstd::prelude::*;
use vstd::utf8::*;

use crate::config::ConfigModel;
use crate::db::{
    builds_of, sha256_at_path, tables_ordered, token_of, uploads, with_log, with_token,
    without_build, DatabaseModel,
};
use crate::digest::{hex_of, hmac_sha256_tag, sha256_digest};
use crate::digits::decimal;
use crate::laws_detail::lemma_uploads;
use crate::laws_repo::{lemma_three, lemma_two};
use crate::list::lemma_first_where;
use crate::path::{below, plain_path};
use crate::records::PublishedRowModel;
use crate::repo::archive_name;
use crate::requests::{
    after_use, authorized, fault_answer, file_answer, log_refusal, publish_begun, publish_rejected,
    sync_answer, webhook_refusal, withdrawal, RefusalModel, StagedModel, SyncEnd, UploadFault,
    WithdrawnModel,
};
use crate::split::{end_trimmed, trim_end_by, trim_start_by, trimmed, white_space};
use crate::sync::summary_of;
use crate::table::{entry_at, lemma_drop, lemma_put};
use crate::text::concat;

verus! {

// ---------------------------------------------------------------------------
// Trimming
// ---------------------------------------------------------------------------

/// Cutting at the end leaves the rest up to the last character that stays.
pub proof fn lemma_end_cut(s: Seq<char>, p: spec_fn(char) -> bool)
    ensures
        ({
            let r = trim_end_by(s, p);
            &&& r.len() <= s.len() && r == s.take(r.len() as int)
            &&& r.len() > 0 ==> !p(r.last())
            &&& forall|i: int| r.len() <= i < s.len() ==> p(#[trigger] s[i])
        }),
    decreases s.len(),
{
    if s.len() > 0 && p(s.last()) {
        let less = s.drop_last();
        lemma_end_cut(less, p);
        let r = trim_end_by(s, p);
        assert(r =~= s.take(r.len() as int));
        assert forall|i: int| r.len() <= i < s.len() implies p(#[trigger] s[i]) by {
            if i < less.len() {
                assert(less[i] == s[i]);
            }
        }
    } else {
        assert(s.take(s.len() as int) =~= s);
    }
}

/// Cutting at the start leaves the rest from the first character that stays.
pub proof fn lemma_start_cut(s: Seq<char>, p: spec_fn(char) -> bool)
    ensures
        ({
            let r = trim_start_by(s, p);
            &&& r.len() <= s.len() && r == s.skip(s.len() - r.len())
            &&& r.len() > 0 ==> !p(r[0])
            &&& forall|i: int| 0 <= i < s.len() - r.len() ==> p(#[trigger] s[i])
        }),
    decreases s.len(),
{
    if s.len() > 0 && p(s[0]) {
        let less = s.drop_first();
        lemma_start_cut(less, p);
        let r = trim_start_by(s, p);
        assert(r =~= s.skip(s.len() - r.len()));
        assert forall|i: int| 0 <= i < s.len() - r.len() implies p(#[trigger] s[i]) by {
            if i > 0 {
                assert(less[i - 1] == s[i]);
            }
        }
    } else {
        assert(s.skip(0) =~= s);
    }
}

/// A text without the white space at its end begins like the text, ends in
/// something else, and all that was left out is white space.
pub proof fn lemma_end_trimmed(s: Seq<char>)
    ensures
        end_trimmed(s).len() <= s.len(),
        end_trimmed(s) == s.take(end_trimmed(s).len() as int),
        end_trimmed(s).len() > 0 ==> !white_space(end_trimmed(s).last()),
        forall|i: int| end_trimmed(s).len() <= i < s.len() ==> white_space(#[trigger] s[i]),
{
    let p = |c: char| white_space(c);
    lemma_end_cut(s, p);
    assert forall|i: int| end_trimmed(s).len() <= i < s.len() implies white_space(
        #[trigger] s[i],
    ) by {
        assert(p(s[i]));
    }
}

/// A trimmed text is the part of the text between the white space at its ends.
pub proof fn lemma_trimmed(s: Seq<char>)
    ensures
        exists|from: int|
            0 <= from && from + trimmed(s).len() <= s.len() && trimmed(s) == #[trigger] s.subrange(
                from,
                from + trimmed(s).len(),
            ) && (forall|i: int| 0 <= i < from ==> white_space(#[trigger] s[i])) && (forall|i: int|
                from + trimmed(s).len() <= i < s.len() ==> white_space(#[trigger] s[i])),
        trimmed(s).len() > 0 ==> !white_space(trimmed(s)[0]) && !white_space(trimmed(s).last()),
{
    let p = |c: char| white_space(c);
    let a = trim_start_by(s, p);
    let r = trimmed(s);
    lemma_start_cut(s, p);
    lemma_end_cut(a, p);
    let from = s.len() - a.len();
    assert(r =~= s.subrange(from, from + r.len()));
    assert forall|i: int| 0 <= i < from implies white_space(#[trigger] s[i]) by {
        assert(p(s[i]));
    }
    assert forall|i: int| from + r.len() <= i < s.len() implies white_space(#[trigger] s[i]) by {
        assert(a[i - from] == s[i]);
        assert(p(a[i - from]));
    }
    if r.len() > 0 {
        assert(r[0] == a[0]);
        assert(!p(a[0]) && !p(r.last()));
    }
    assert(s.subrange(from, from + r.len()) == r);
}

// ---------------------------------------------------------------------------
// Tokens
// ---------------------------------------------------------------------------

/// The key of a token: the digest of its bytes in hexadecimal.
pub open spec fn digest_key(token: Seq<char>) -> Seq<char> {
    hex_of(sha256_digest(encode_utf8(token)))
}

/// A request has the rights of the token behind `Bearer` in its header: those
/// of the label under which the digest of the token is kept. A request without
/// such a header, or with another token, is answered with 401.
pub proof fn lemma_authorized(db: DatabaseModel, header: Option<Seq<char>>, token: Seq<char>)
    ensures
        header is None ==> authorized(db, header) == Err::<Seq<char>, RefusalModel>(
            RefusalModel { status: 401, message: "missing bearer token"@ },
        ),
        header is Some && !"Bearer "@.is_prefix_of(header->0) ==> authorized(db, header) == Err::<
            Seq<char>,
            RefusalModel,
        >(RefusalModel { status: 401, message: "missing bearer token"@ }),
        authorized(db, Some("Bearer "@ + token)) == match entry_at(
            db.tokens,
            digest_key(trimmed(token)),
        ) {
            Some(record) => Ok::<Seq<char>, RefusalModel>(record.label),
            None => Err::<Seq<char>, RefusalModel>(
                RefusalModel { status: 401, message: "invalid token"@ },
            ),
        },
{
    let whole = "Bearer "@ + token;
    assert("Bearer "@.is_prefix_of(whole)) by {
        assert(whole.subrange(0, "Bearer "@.len() as int) =~= "Bearer "@);
    }
    assert(whole.skip("Bearer "@.len() as int) =~= token);
}

/// A known token that was presented is noted as used, and stays what it was
/// otherwise. Nothing else changes.
pub proof fn lemma_use_noted(db: DatabaseModel, token: Seq<char>, at: i64, other: Seq<char>)
    requires
        tables_ordered(db),
    ensures
        ({
            let after = after_use(db, Some("Bearer "@ + token), at);
            let before = entry_at(db.tokens, digest_key(trimmed(token)));
            let now = entry_at(after.tokens, digest_key(trimmed(token)));
            &&& before is None ==> after == db
            &&& before is Some ==> {
                &&& now is Some && now->0.label == before->0.label && now->0.created_at
                    == before->0.created_at
                &&& now->0.last_used_at == Some(at)
            }
            &&& other != digest_key(trimmed(token)) ==> entry_at(after.tokens, other) == entry_at(
                db.tokens,
                other,
            )
            &&& after.recipes == db.recipes && after.published == db.published && after.files
                == db.files
            &&& after.logs == db.logs && after.meta == db.meta && after.sync_log == db.sync_log
        }),
        after_use(db, None, at) == db,
{
    let whole = "Bearer "@ + token;
    assert("Bearer "@.is_prefix_of(whole)) by {
        assert(whole.subrange(0, "Bearer "@.len() as int) =~= "Bearer "@);
    }
    assert(whole.skip("Bearer "@.len() as int) =~= token);
    if let Some(record) = entry_at(db.tokens, digest_key(trimmed(token))) {
        lemma_put(
            db.tokens,
            digest_key(trimmed(token)),
            crate::records::TokenRecordModel { last_used_at: Some(at), ..record },
        );
    }
}

/// A token is `rt_` and its random bytes in hexadecimal. It is kept under its
/// digest, with its label and the instant, and as never used.
pub proof fn lemma_token_kept(
    db: DatabaseModel,
    label: Seq<char>,
    raw: Seq<u8>,
    at: i64,
    other: Seq<char>,
)
    requires
        tables_ordered(db),
    ensures
        token_of(raw) == "rt_"@ + hex_of(raw),
        ({
            let after = with_token(db, label, raw, at);
            let kept = entry_at(after.tokens, digest_key("rt_"@ + hex_of(raw)));
            &&& kept is Some && kept->0.label == label && kept->0.created_at == at
                && kept->0.last_used_at is None
            &&& other != digest_key("rt_"@ + hex_of(raw)) ==> entry_at(after.tokens, other)
                == entry_at(db.tokens, other)
            &&& after.recipes == db.recipes && after.published == db.published && after.files
                == db.files
            &&& after.logs == db.logs && after.meta == db.meta && after.sync_log == db.sync_log
        }),
{
    lemma_put(
        db.tokens,
        digest_key(token_of(raw)),
        crate::records::TokenRecordModel { label, created_at: at, last_used_at: None },
    );
}

// ---------------------------------------------------------------------------
// Publishing and withdrawing
// ---------------------------------------------------------------------------

/// An upload may begin just where the request is authorized and the name is
/// that of an archive. It is noted with the label of the token, and goes first
/// to a hidden file of its own in the repository.
pub proof fn lemma_upload_begins(
    db: DatabaseModel,
    config: ConfigModel,
    header: Option<Seq<char>>,
    filename: Seq<char>,
    process: u32,
)
    ensures
        ({
            let begun = publish_begun(db, config, header, filename, process);
            let who = authorized(db, header);
            &&& begun is Ok <==> who is Ok && archive_name(filename)
            &&& begun is Ok ==> begun->Ok_0.builder == who->Ok_0 && begun->Ok_0.path == below(
                config.repo_dir,
                ".incoming-"@ + decimal(process as nat) + "-"@ + filename,
            )
            &&& who is Err ==> begun == Err::<StagedModel, RefusalModel>(who->Err_0)
            &&& who is Ok && !archive_name(filename) ==> begun == Err::<StagedModel, RefusalModel>(
                RefusalModel { status: 400, message: "invalid package filename"@ },
            )
        }),
{
    lemma_four(".incoming-"@, decimal(process as nat), "-"@, filename);
}

/// The text of four parts.
pub proof fn lemma_four(a: Seq<char>, b: Seq<char>, c: Seq<char>, d: Seq<char>)
    ensures
        concat(seq![a, b, c, d]) == a + b + c + d,
{
    let parts = seq![a, b, c, d];
    assert(parts.drop_last() =~= seq![a, b, c]);
    lemma_three(a, b, c);
}

/// A build is withdrawn just where the request is authorized, the name is that
/// of an archive and it is published. Then its row, its files and its log go
/// and nothing else does, the archive that has to go is the one at its path,
/// and the answer names the filename and who asked. Otherwise the answer is
/// 401, 400 or 404.
pub proof fn lemma_withdrawn(
    db: DatabaseModel,
    config: ConfigModel,
    header: Option<Seq<char>>,
    filename: Seq<char>,
    other: Seq<char>,
)
    requires
        tables_ordered(db),
    ensures
        ({
            let answer = withdrawal(db, config, header, filename);
            let who = authorized(db, header);
            let row = entry_at(db.published, filename);
            &&& answer is Ok <==> who is Ok && archive_name(filename) && row is Some
            &&& answer is Ok ==> {
                &&& answer->Ok_0.deleted == filename && answer->Ok_0.by == who->Ok_0
                &&& answer->Ok_0.archive == below(config.repo_dir, row->0.repo_path)
            }
            &&& who is Err ==> answer == Err::<WithdrawnModel, RefusalModel>(who->Err_0)
            &&& who is Ok && !archive_name(filename) ==> answer->Err_0.status == 400
                && answer->Err_0.message == "invalid package filename"@
            &&& who is Ok && archive_name(filename) && row is None ==> answer->Err_0.status == 404
                && answer->Err_0.message == filename + " is not published"@
        }),
        ({
            let gone = without_build(db, filename);
            &&& entry_at(gone.published, filename) is None && entry_at(gone.files, filename) is None
                && entry_at(gone.logs, filename) is None
            &&& other != filename ==> {
                &&& entry_at(gone.published, other) == entry_at(db.published, other)
                &&& entry_at(gone.files, other) == entry_at(db.files, other)
                &&& entry_at(gone.logs, other) == entry_at(db.logs, other)
            }
            &&& gone.recipes == db.recipes && gone.tokens == db.tokens && gone.meta == db.meta
                && gone.sync_log == db.sync_log
        }),
{
    lemma_two(filename, " is not published"@);
    lemma_drop(db.published, filename);
    lemma_drop(db.files, filename);
    lemma_drop(db.logs, filename);
}

/// What is answered where an upload fails: 500 where it could not be put
/// anywhere or its task died, 400 where it broke off or could not be written,
/// and 422 where it was not taken.
pub proof fn lemma_upload_faults(cause: String)
    ensures
        fault_answer(UploadFault::Stage(cause)) == (RefusalModel {
            status: 500,
            message: "cannot stage upload: "@ + cause@,
        }),
        fault_answer(UploadFault::Write(cause)) == (RefusalModel {
            status: 400,
            message: "cannot write upload: "@ + cause@,
        }),
        fault_answer(UploadFault::Interrupted(cause)) == (RefusalModel {
            status: 400,
            message: "upload interrupted: "@ + cause@,
        }),
        fault_answer(UploadFault::Panicked(cause)) == (RefusalModel {
            status: 500,
            message: "publish task panicked: "@ + cause@,
        }),
        publish_rejected(cause@) == (RefusalModel {
            status: 422,
            message: "publish rejected: "@ + cause@,
        }),
{
    lemma_two("cannot stage upload: "@, cause@);
    lemma_two("cannot write upload: "@, cause@);
    lemma_two("upload interrupted: "@, cause@);
    lemma_two("publish task panicked: "@, cause@);
    lemma_two("publish rejected: "@, cause@);
}

// ---------------------------------------------------------------------------
// Logs
// ---------------------------------------------------------------------------

/// A log is taken just where the request is authorized, the name is that of an
/// archive, the log has at most a mebibyte of UTF-8 text and the build is
/// published. Otherwise the answer is 401, 400, 413, 415 or 422, by the first
/// of these that fails.
pub proof fn lemma_log_taken(
    db: DatabaseModel,
    header: Option<Seq<char>>,
    filename: Seq<char>,
    body: Seq<u8>,
)
    ensures
        ({
            let refusal = log_refusal(db, header, filename, body);
            let who = authorized(db, header);
            let named = archive_name(filename);
            let short = body.len() <= 1024 * 1024;
            let text = valid_utf8(body);
            let there = entry_at(db.published, filename) is Some;
            &&& refusal is None <==> who is Ok && named && short && text && there
            &&& who is Err ==> refusal == Some(who->Err_0)
            &&& who is Ok && !named ==> refusal->0.status == 400
            &&& who is Ok && named && !short ==> refusal->0.status == 413
            &&& who is Ok && named && short && !text ==> refusal->0.status == 415
            &&& who is Ok && named && short && text && !there ==> refusal->0.status == 422
        }),
{
}

/// A log is kept under its filename with its text, who sent it and when, and
/// the logs of other builds stay as they are.
pub proof fn lemma_log_kept(
    db: DatabaseModel,
    filename: Seq<char>,
    content: Seq<char>,
    builder: Seq<char>,
    at: i64,
    other: Seq<char>,
)
    requires
        tables_ordered(db),
    ensures
        ({
            let after = with_log(db, filename, content, builder, at);
            let log = entry_at(after.logs, filename);
            &&& log is Some && log->0.content == content && log->0.builder == builder
                && log->0.uploaded_at == at
            &&& other != filename ==> entry_at(after.logs, other) == entry_at(db.logs, other)
            &&& after.published == db.published && after.files == db.files && after.recipes
                == db.recipes && after.tokens == db.tokens
        }),
{
    lemma_put(
        db.logs,
        filename,
        crate::records::LogRowModel { content, builder, uploaded_at: at },
    );
}

// ---------------------------------------------------------------------------
// Files
// ---------------------------------------------------------------------------

/// The digest at a path of the repository is that of a build there, the last
/// published one, and there is one just where there is a build.
pub proof fn lemma_digest_at_path(db: DatabaseModel, path: Seq<char>)
    ensures
        sha256_at_path(db, path) is Some <==> exists|j: int|
            0 <= j < db.published.len() && (#[trigger] db.published[j]).1.repo_path == path,
        sha256_at_path(db, path) is Some ==> exists|j: int|
            0 <= j < db.published.len() && (#[trigger] db.published[j]).1.repo_path == path
                && sha256_at_path(db, path) == Some(db.published[j].1.sha256) && forall|m: int|
                0 <= m < db.published.len() && (#[trigger] db.published[m]).1.repo_path == path
                    ==> db.published[m].1.uploaded_at <= db.published[j].1.uploaded_at,
{
    let rows = uploads(builds_of(db));
    let there = |r: PublishedRowModel| r.repo_path == path;
    lemma_uploads(db);
    lemma_first_where(rows, there);
    if sha256_at_path(db, path) is Some {
        let i = crate::list::first_where(rows, there)->0;
        assert(rows.contains(rows[i]));
        let j = choose|j: int| 0 <= j < db.published.len() && (#[trigger] db.published[j]).1
            == rows[i];
        assert forall|m: int|
            0 <= m < db.published.len() && (#[trigger] db.published[m]).1.repo_path
                == path implies db.published[m].1.uploaded_at <= db.published[j].1.uploaded_at by {
            let b = db.published[m].1;
            assert(rows.contains(b));
            let k = rows.index_of(b);
            assert(there(rows[k]));
            if k < i {
                assert(!there(rows[k]));
            }
        }
        assert(db.published[j].1.repo_path == path);
    }
    if exists|j: int| 0 <= j < db.published.len() && (#[trigger] db.published[j]).1.repo_path
        == path {
        let j = choose|j: int|
            0 <= j < db.published.len() && (#[trigger] db.published[j]).1.repo_path == path;
        assert(rows.contains(db.published[j].1));
        let k = rows.index_of(db.published[j].1);
        assert(there(rows[k]));
    }
}

/// A file is sent where it is there and its path leads only downward. The
/// client that has the build there, by its digest between quotes, is told so
/// instead, but never of the index.
pub proof fn lemma_file_answered(
    db: DatabaseModel,
    path: Seq<char>,
    is_file: bool,
    known: Option<Seq<char>>,
)
    ensures
        ({
            let answer = file_answer(db, path, is_file, known);
            let sha256 = sha256_at_path(db, path);
            let tag = seq!['"'] + sha256->0 + seq!['"'];
            &&& answer is NotFound <==> !is_file || !plain_path(path)
            &&& answer is NotModified <==> is_file && plain_path(path) && path != "index.toml"@
                && sha256 is Some && known is Some && trimmed(known->0) == tag
            &&& answer is NotModified ==> answer->NotModified_0 == tag
            &&& answer is Send && path != "index.toml"@ && sha256 is Some ==> answer->Send_0 == Some(
                tag,
            )
            &&& answer is Send && (path == "index.toml"@ || sha256 is None)
                ==> answer->Send_0 is None
        }),
{
    reveal_strlit("\"");
    assert("\""@ =~= seq!['"']);
    if let Some(sha256) = sha256_at_path(db, path) {
        lemma_three("\""@, sha256, "\""@);
    }
}

// ---------------------------------------------------------------------------
// Synchronization on request
// ---------------------------------------------------------------------------

/// A webhook call leads to a synchronization just where a secret is set and
/// the call is signed with it: `sha256=` and the tag of its body in
/// hexadecimal. Otherwise it is answered with 403 or 401.
pub proof fn lemma_webhook(config: ConfigModel, signature: Option<Seq<char>>, body: Seq<u8>)
    ensures
        ({
            let refusal = webhook_refusal(config, signature, body);
            let secret = config.webhook_secret;
            let due = "sha256="@ + hex_of(hmac_sha256_tag(encode_utf8(secret->0), body));
            &&& refusal is None <==> secret is Some && signature == Some(due)
            &&& secret is None ==> refusal->0.status == 403
            &&& secret is Some && signature != Some(due) ==> refusal->0.status == 401
        }),
{
}

/// How a request for a synchronization is answered by its end.
pub proof fn lemma_sync_answers(cause: String, end: SyncEnd)
    ensures
        sync_answer(SyncEnd::Busy) == (RefusalModel {
            status: 200,
            message: "sync already in progress"@,
        }),
        sync_answer(SyncEnd::Failed(cause)) == (RefusalModel {
            status: 500,
            message: "sync failed: "@ + cause@,
        }),
        sync_answer(SyncEnd::Panicked(cause)) == (RefusalModel {
            status: 500,
            message: "sync task panicked: "@ + cause@,
        }),
        end matches SyncEnd::Done(report) ==> sync_answer(end) == (RefusalModel {
            status: 200,
            message: "synced: "@ + summary_of(report.deep_view()),
        }),
{
    lemma_two("sync failed: "@, cause@);
    lemma_two("sync task panicked: "@, cause@);
    if let SyncEnd::Done(report) = end {
        lemma_two("synced: "@, summary_of(report.deep_view()));
    }
}

} // verus!
