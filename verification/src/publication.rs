//! The publisher at work: which archive comes next, what is sent, and what is
//! said of it.

use vstd::prelude::*;
use vstd::string::*;

use crate::cli::{
    already_published, archive_url, log_path, log_url, publish_url, published_summary, skipped_line,
    summary_line, upload_line, uploaded_line, ClientConfig, ClientConfigModel, Told, ToldModel,
};
use crate::path::{file_name, file_name_of};
use crate::requests::quoted;
use crate::split::trimmed;
use crate::text::{concat, text_from};

verus! {

/// The archives to publish, and how far the work has come.
#[derive(Debug)]
pub struct Publication {
    pub files: Vec<String>,
    /// How many of them are done.
    pub done: usize,
    pub uploaded: usize,
    pub uptodate: usize,
}

#[verifier::ext_equal]
pub struct PublicationModel {
    pub files: Seq<Seq<char>>,
    pub done: nat,
    pub uploaded: nat,
    pub uptodate: nat,
}

impl DeepView for Publication {
    type V = PublicationModel;

    open spec fn deep_view(&self) -> PublicationModel {
        PublicationModel {
            files: self.files.deep_view(),
            done: self.done as nat,
            uploaded: self.uploaded as nat,
            uptodate: self.uptodate as nat,
        }
    }
}

/// Every archive that is done was either sent or known to the server.
pub open spec fn counted(p: PublicationModel) -> bool {
    p.uploaded + p.uptodate == p.done && p.done <= p.files.len()
}

/// What has happened.
#[derive(Debug)]
pub enum PublishEvent {
    /// The next archive can be looked at.
    Ready,
    /// The archive at hand has the digest `sha256`, and the server has
    /// something under the tag `etag`.
    Looked { etag: Option<String>, sha256: String },
    /// The archive at hand was sent, with so many bytes.
    Sent { told: Told, size: u64 },
    /// The archive at hand could not be sent.
    Failed(String),
}

pub enum PublishEventModel {
    Ready,
    Looked { etag: Option<Seq<char>>, sha256: Seq<char> },
    Sent { told: ToldModel, size: u64 },
    Failed(Seq<char>),
}

impl DeepView for PublishEvent {
    type V = PublishEventModel;

    open spec fn deep_view(&self) -> PublishEventModel {
        match self {
            PublishEvent::Ready => PublishEventModel::Ready,
            PublishEvent::Looked { etag, sha256 } => PublishEventModel::Looked {
                etag: etag.deep_view(),
                sha256: sha256@,
            },
            PublishEvent::Sent { told, size } => PublishEventModel::Sent {
                told: told.deep_view(),
                size: *size,
            },
            PublishEvent::Failed(e) => PublishEventModel::Failed(e@),
        }
    }
}

/// What to do.
#[derive(Debug)]
pub enum PublishAction {
    /// Digest the archive, and ask at the URL for its tag.
    Look { file: String, url: String },
    /// Send the archive to the URL, with its digest.
    Upload { file: String, url: String, sha256: String },
    /// Say that the server has the archive.
    Skip { line: String },
    /// Say that the archive was sent, and hand in its log where there is one.
    Attach { line: String, log: String, url: String },
    /// Say how it all went.
    Finish { line: String },
    /// Give up.
    Fail(String),
}

#[verifier::ext_equal]
pub enum PublishActionModel {
    Look { file: Seq<char>, url: Seq<char> },
    Upload { file: Seq<char>, url: Seq<char>, sha256: Seq<char> },
    Skip { line: Seq<char> },
    Attach { line: Seq<char>, log: Seq<char>, url: Seq<char> },
    Finish { line: Seq<char> },
    Fail(Seq<char>),
}

impl DeepView for PublishAction {
    type V = PublishActionModel;

    open spec fn deep_view(&self) -> PublishActionModel {
        match self {
            PublishAction::Look { file, url } => PublishActionModel::Look {
                file: file@,
                url: url@,
            },
            PublishAction::Upload { file, url, sha256 } => PublishActionModel::Upload {
                file: file@,
                url: url@,
                sha256: sha256@,
            },
            PublishAction::Skip { line } => PublishActionModel::Skip { line: line@ },
            PublishAction::Attach { line, log, url } => PublishActionModel::Attach {
                line: line@,
                log: log@,
                url: url@,
            },
            PublishAction::Finish { line } => PublishActionModel::Finish { line: line@ },
            PublishAction::Fail(e) => PublishActionModel::Fail(e@),
        }
    }
}

/// The server has the archive with this digest.
pub open spec fn has_archive(etag: Option<Seq<char>>, sha256: Seq<char>) -> bool {
    etag is Some && trimmed(etag->0) == quoted(sha256)
}

/// What follows an event: an archive that the server has is skipped, any other
/// is sent; then the next one is looked at, and after the last the counts are
/// told. An archive whose path has no name, or that cannot be sent, ends it.
pub open spec fn publish_next(
    config: ClientConfigModel,
    p: PublicationModel,
    event: PublishEventModel,
) -> (PublicationModel, PublishActionModel) {
    if p.done >= p.files.len() {
        (p, PublishActionModel::Finish { line: summary_line(p.uploaded, p.uptodate, p.files.len()) })
    } else {
        let file = p.files[p.done as int];
        match file_name_of(file) {
            None => (p, PublishActionModel::Fail("bad filename"@)),
            Some(name) => {
                let url = publish_url(config.url, name);
                match event {
                    PublishEventModel::Ready => (p, PublishActionModel::Look { file, url }),
                    PublishEventModel::Looked { etag, sha256 } => if has_archive(etag, sha256) {
                        (
                            PublicationModel { done: p.done + 1, uptodate: p.uptodate + 1, ..p },
                            PublishActionModel::Skip {
                                line: concat(seq!["= "@, name, " (already published)"@]),
                            },
                        )
                    } else {
                        (p, PublishActionModel::Upload { file, url, sha256 })
                    },
                    PublishEventModel::Sent { told, size } => (
                        PublicationModel { done: p.done + 1, uploaded: p.uploaded + 1, ..p },
                        PublishActionModel::Attach {
                            line: upload_line(name, told, size),
                            log: file + ".log"@,
                            url: url + "/log"@,
                        },
                    ),
                    PublishEventModel::Failed(e) => (
                        p,
                        PublishActionModel::Fail(
                            concat(seq!["upload failed for "@, name, ": "@, e]),
                        ),
                    ),
                }
            },
        }
    }
}

impl Publication {
    /// Nothing is done yet.
    pub fn new(files: Vec<String>) -> (r: Publication)
        ensures
            r.deep_view() == (PublicationModel {
                files: files.deep_view(),
                done: 0,
                uploaded: 0,
                uptodate: 0,
            }),
            counted(r.deep_view()),
    {
        Publication { files, done: 0, uploaded: 0, uptodate: 0 }
    }

    /// Takes up what has happened, and says what to do.
    pub fn step(&mut self, config: &ClientConfig, event: PublishEvent) -> (r: PublishAction)
        requires
            counted(old(self).deep_view()),
        ensures
            (final(self).deep_view(), r.deep_view()) == publish_next(
                config.deep_view(),
                old(self).deep_view(),
                event.deep_view(),
            ),
            counted(final(self).deep_view()),
    {
        if self.done >= self.files.len() {
            return PublishAction::Finish {
                line: published_summary(self.uploaded, self.uptodate, self.files.len()),
            };
        }
        let file = self.files[self.done].clone();
        assert(self.files.deep_view()[self.done as int] == file@);
        let name = match file_name(&file) {
            Some(name) => name,
            None => {
                return PublishAction::Fail("bad filename".to_owned());
            },
        };
        let url = archive_url(config, &name);
        match event {
            PublishEvent::Ready => PublishAction::Look { file, url },
            PublishEvent::Looked { etag, sha256 } => {
                let tag = match &etag {
                    Some(tag) => Some(tag.as_str()),
                    None => None,
                };
                if already_published(tag, &sha256) {
                    self.done = self.done + 1;
                    self.uptodate = self.uptodate + 1;
                    PublishAction::Skip { line: skipped_line(&name) }
                } else {
                    PublishAction::Upload { file, url, sha256 }
                }
            },
            PublishEvent::Sent { told, size } => {
                self.done = self.done + 1;
                self.uploaded = self.uploaded + 1;
                PublishAction::Attach {
                    line: uploaded_line(&name, &told, size),
                    log: log_path(&file),
                    url: log_url(config, &name),
                }
            },
            PublishEvent::Failed(e) => {
                let parts: Vec<&str> = vec!["upload failed for ", name.as_str(), ": ", e.as_str()];
                assert(parts.deep_view() =~= seq!["upload failed for "@, name@, ": "@, e@]);
                PublishAction::Fail(text_from(&parts))
            },
        }
    }
}

// ---------------------------------------------------------------------------
// Laws
// ---------------------------------------------------------------------------

/// The work ends well only when every archive is done, and then each was
/// either sent or skipped: the counts that are told make up the whole.
pub proof fn lemma_publication_ends(
    config: ClientConfigModel,
    p: PublicationModel,
    event: PublishEventModel,
)
    requires
        counted(p),
    ensures
        counted(publish_next(config, p, event).0),
        publish_next(config, p, event).1 is Finish <==> p.done == p.files.len(),
        publish_next(config, p, event).1 is Finish ==> p.uploaded + p.uptodate == p.files.len(),
{
}

/// Every archive is done by being skipped or sent, one at a time and in
/// order; nothing else moves the work on.
pub proof fn lemma_publication_moves(
    config: ClientConfigModel,
    p: PublicationModel,
    event: PublishEventModel,
)
    ensures
        publish_next(config, p, event).0.files == p.files,
        publish_next(config, p, event).0.done == p.done + if publish_next(config, p, event).1
            is Skip || publish_next(config, p, event).1 is Attach {
            1nat
        } else {
            0nat
        },
{
}

/// An archive that the server has under the same digest is never sent.
pub proof fn lemma_known_archive_not_sent(
    config: ClientConfigModel,
    p: PublicationModel,
    etag: Option<Seq<char>>,
    sha256: Seq<char>,
)
    requires
        has_archive(etag, sha256),
    ensures
        !(publish_next(config, p, PublishEventModel::Looked { etag, sha256 }).1 is Upload),
{
}

} // verus!
