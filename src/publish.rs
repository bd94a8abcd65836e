use vstd::prelude::*;
use crate::events::{UploadFileAdded, UploadFileCompleted, UploadFileProgress, UploadFileRemoved};
use crate::manifest::{
    has_name, find_name, lemma_find_name, manifest_bytes, manifest_text, names_unique,
    remove_name, upsert, ContentId, File, FileView, Files, FilesView,
};
use crate::throttle::Pacer;
use crate::transfer::{percent, percent_of};

verus! {

/// Least time between two ingest progress notifications, in microseconds.
pub const INGEST_INTERVAL_MICROS: u64 = 32_000;

/// Why a publish step was refused.
#[derive(Debug, Clone, Copy, PartialEq, Eq, Structural)]
pub enum PublishError {
    /// A file of that name is already shared.
    DuplicateName,
    /// No shared file has that name.
    NotFound,
    /// The transport's ingest stream ended without a content id.
    Incomplete,
    /// The transport's ingest stream reported an error or an abort.
    Failed,
}

/// Whether a file called `name` may join the shared set.
pub open spec fn admission(files: Seq<FileView>, name: Seq<char>) -> Result<(), PublishError> {
    if has_name(files, name) {
        Err(PublishError::DuplicateName)
    } else {
        Ok(())
    }
}

/// Duplicate names: once a file is shared, another file of the same name is refused,
/// so its content is never ingested.
pub proof fn lemma_duplicate_name(files: Seq<FileView>, f: FileView, g: FileView)
    requires
        names_unique(files),
        g.name == f.name,
    ensures
        admission(upsert(files, f), g.name) == Err::<(), PublishError>(PublishError::DuplicateName),
{
    crate::manifest::lemma_upsert_unique(files, f);
}

/// A transport error is fatal to the publish step: once an ingest has seen an error or
/// an abort, no later event undoes it, so its `finish` is `Failed`.
pub proof fn lemma_ingest_failure_sticks(v: IngestView, ev: AddEventView, now: u64)
    requires
        v.failed,
    ensures
        ingest_step(v, ev, now).0.failed,
{
}

/// One event of the transport's ingest stream.
pub enum AddEvent {
    /// The file was located, with this size.
    Found { size: u64 },
    /// Bytes up to `offset` are ingested.
    Progress { offset: u64 },
    /// Ingestion is complete, under this content id.
    Done { hash: ContentId },
    /// Ingestion was aborted: the file is not published.
    Abort,
    /// The stream is over.
    AllDone,
    /// The stream reported an error: the file is not published.
    Error,
}

pub ghost enum AddEventView {
    Found { size: u64 },
    Progress { offset: u64 },
    Done { hash: Seq<u8> },
    Abort,
    AllDone,
    Error,
}

impl View for AddEvent {
    type V = AddEventView;

    open spec fn view(&self) -> AddEventView {
        match self {
            AddEvent::Found { size } => AddEventView::Found { size: *size },
            AddEvent::Progress { offset } => AddEventView::Progress { offset: *offset },
            AddEvent::Done { hash } => AddEventView::Done { hash: hash@ },
            AddEvent::Abort => AddEventView::Abort,
            AddEvent::AllDone => AddEventView::AllDone,
            AddEvent::Error => AddEventView::Error,
        }
    }
}

/// A notification of the publish side.
pub enum UploadNote {
    Added(UploadFileAdded),
    Progress(UploadFileProgress),
    Completed(UploadFileCompleted),
    Removed(UploadFileRemoved),
}

pub ghost enum UploadNoteView {
    Added { name: Seq<char>, icon: Seq<char>, path: Seq<char>, size: u64 },
    Progress { path: Seq<char>, progress: u64 },
    Completed { name: Seq<char> },
    Removed { name: Seq<char> },
}

impl View for UploadNote {
    type V = UploadNoteView;

    open spec fn view(&self) -> UploadNoteView {
        match self {
            UploadNote::Added(a) => UploadNoteView::Added {
                name: a.name@,
                icon: a.icon@,
                path: a.path@,
                size: a.size,
            },
            UploadNote::Progress(p) => UploadNoteView::Progress { path: p.path@, progress: p.progress },
            UploadNote::Completed(c) => UploadNoteView::Completed { name: c.name@ },
            UploadNote::Removed(r) => UploadNoteView::Removed { name: r.name@ },
        }
    }
}

pub ghost struct IngestView {
    pub name: Seq<char>,
    pub icon: Seq<char>,
    pub path: Seq<char>,
    pub size: u64,
    pub hash: Option<Seq<u8>>,
    pub pacer: Pacer,
    pub over: bool,
    pub failed: bool,
}

/// What one ingest event does: the new state and the notification, if any.
pub open spec fn ingest_step(v: IngestView, ev: AddEventView, now: u64) -> (IngestView, Option<UploadNoteView>) {
    if v.over {
        (v, None)
    } else {
        match ev {
            AddEventView::Found { size } => (
                IngestView { size, ..v },
                Some(UploadNoteView::Added { name: v.name, icon: v.icon, path: v.path, size }),
            ),
            AddEventView::Progress { offset } => if v.pacer.ready(now) {
                (
                    IngestView { pacer: v.pacer.after(now), ..v },
                    if v.size > 0 {
                        Some(UploadNoteView::Progress { path: v.name, progress: percent_of(offset, v.size) })
                    } else {
                        None
                    },
                )
            } else {
                (v, None)
            },
            AddEventView::Done { hash } => (
                IngestView { hash: Some(hash), ..v },
                Some(UploadNoteView::Completed { name: v.name }),
            ),
            AddEventView::AllDone => (IngestView { over: true, ..v }, None),
            AddEventView::Abort => (IngestView { failed: true, ..v }, None),
            AddEventView::Error => (IngestView { failed: true, ..v }, None),
        }
    }
}

/// The ingestion of one admitted local file. It can only be had from `Publisher::begin_add`.
pub struct Ingest {
    name: String,
    icon: String,
    path: String,
    size: u64,
    hash: Option<ContentId>,
    pacer: Pacer,
    over: bool,
    failed: bool,
}

impl View for Ingest {
    type V = IngestView;

    closed spec fn view(&self) -> IngestView {
        IngestView {
            name: self.name@,
            icon: self.icon@,
            path: self.path@,
            size: self.size,
            hash: match self.hash {
                Some(h) => Some(h@),
                None => None,
            },
            pacer: self.pacer,
            over: self.over,
            failed: self.failed,
        }
    }
}

impl Ingest {
    /// Whether the stream is over.
    pub fn is_over(&self) -> (r: bool)
        ensures
            r == self@.over,
    {
        self.over
    }

    /// Handles one ingest event at `now` microseconds.
    pub fn on_event(&mut self, ev: AddEvent, now: u64) -> (r: Option<UploadNote>)
        ensures
            final(self)@ == ingest_step(old(self)@, ev@, now).0,
            match r {
                None => ingest_step(old(self)@, ev@, now).1 is None,
                Some(n) => ingest_step(old(self)@, ev@, now).1 == Some(n@),
            },
    {
        if self.over {
            return None;
        }
        match ev {
            AddEvent::Found { size } => {
                self.size = size;
                Some(
                    UploadNote::Added(
                        UploadFileAdded {
                            name: self.name.clone(),
                            icon: self.icon.clone(),
                            path: self.path.clone(),
                            size,
                        },
                    ),
                )
            },
            AddEvent::Progress { offset } => {
                if self.pacer.pass_at(now) {
                    if self.size > 0 {
                        Some(
                            UploadNote::Progress(
                                UploadFileProgress {
                                    path: self.name.clone(),
                                    progress: percent(offset, self.size),
                                },
                            ),
                        )
                    } else {
                        None
                    }
                } else {
                    None
                }
            },
            AddEvent::Done { hash } => {
                self.hash = Some(hash);
                Some(UploadNote::Completed(UploadFileCompleted { name: self.name.clone() }))
            },
            AddEvent::AllDone => {
                self.over = true;
                None
            },
            AddEvent::Abort | AddEvent::Error => {
                self.failed = true;
                None
            },
        }
    }

    /// The file as it will be shared: the transport's size and content id. After an
    /// error or an abort of the stream the ingest has `Failed`; without a content id it
    /// is `Incomplete`.
    pub fn finish(self) -> (r: Result<File, PublishError>)
        ensures
            self@.failed ==> r == Err::<File, PublishError>(PublishError::Failed),
            !self@.failed ==> match self@.hash {
                None => r == Err::<File, PublishError>(PublishError::Incomplete),
                Some(h) => r is Ok && r->Ok_0@ == (FileView {
                    name: self@.name,
                    icon: self@.icon,
                    size: self@.size,
                    hash: h,
                }),
            },
    {
        if self.failed {
            return Err(PublishError::Failed);
        }
        match self.hash {
            None => Err(PublishError::Incomplete),
            Some(hash) => Ok(File { name: self.name, icon: self.icon, size: self.size, hash }),
        }
    }
}

/// What is to be deleted from the transport when the shared set is cleared.
pub struct CleanupPlan {
    /// Each shared file's name with its content id.
    pub files: Vec<(String, ContentId)>,
    /// The content id of every manifest minted so far.
    pub manifests: Vec<ContentId>,
}

pub ghost struct PublisherView {
    pub files: FilesView,
    pub manifests: Seq<Seq<u8>>,
}

/// The publish side's state: the shared files and every manifest minted from them.
pub struct Publisher {
    files: Files,
    manifests: Vec<ContentId>,
}

impl View for Publisher {
    type V = PublisherView;

    closed spec fn view(&self) -> PublisherView {
        PublisherView {
            files: self.files@,
            manifests: self.manifests@.map_values(|c: ContentId| c@),
        }
    }
}

impl Publisher {
    pub open spec fn wf(&self) -> bool {
        names_unique(self@.files.files)
    }

    /// Nothing shared yet.
    pub fn new() -> (r: Publisher)
        ensures
            r.wf(),
            r@.files.version == crate::manifest::VERSION,
            r@.files.files.len() == 0,
            r@.manifests.len() == 0,
    {
        let r = Publisher { files: Files::new(), manifests: Vec::new() };
        assert(r@.manifests =~= Seq::<Seq<u8>>::empty());
        r
    }

    /// The shared files.
    pub fn files(&self) -> (r: &Files)
        ensures
            r@ == self@.files,
            self.wf() ==> r.wf(),
    {
        &self.files
    }

    /// Admits a local file for ingestion: refused with `DuplicateName` where a shared
    /// file has the same name (exact, case-sensitive), so nothing is ingested for it.
    pub fn begin_add(&self, name: String, icon: String, path: String) -> (r: Result<Ingest, PublishError>)
        ensures
            match r {
                Err(e) => admission(self@.files.files, name@) == Err::<(), PublishError>(e),
                Ok(j) => admission(self@.files.files, name@) is Ok && j@ == (IngestView {
                    name: name@,
                    icon: icon@,
                    path: path@,
                    size: 0,
                    hash: None,
                    pacer: Pacer { interval: INGEST_INTERVAL_MICROS, last: None },
                    over: false,
                    failed: false,
                }),
            },
    {
        if self.files.has_file(name.as_str()) {
            return Err(PublishError::DuplicateName);
        }
        Ok(
            Ingest {
                name,
                icon,
                path,
                size: 0,
                hash: None,
                pacer: Pacer::new(INGEST_INTERVAL_MICROS),
                over: false,
                failed: false,
            },
        )
    }

    /// Adds an ingested file to the shared set.
    pub fn commit(&mut self, file: File)
        requires
            old(self).wf(),
        ensures
            final(self).wf(),
            final(self)@ == (PublisherView {
                files: FilesView {
                    version: old(self)@.files.version,
                    files: upsert(old(self)@.files.files, file@),
                },
                manifests: old(self)@.manifests,
            }),
    {
        self.files.add_file(file);
    }

    /// The text of the manifest of the shared set, to be stored in the transport.
    pub fn manifest_text(&self) -> (r: String)
        requires
            manifest_bytes(self@.files).len() <= usize::MAX / 512,
        ensures
            r@ == manifest_text(self@.files),
    {
        self.files.to_string()
    }

    /// Remembers a minted manifest, so that clearing the shared set deletes it too.
    pub fn record_manifest(&mut self, id: ContentId)
        ensures
            final(self)@.files == old(self)@.files,
            final(self)@.manifests == old(self)@.manifests.push(id@),
            old(self).wf() ==> final(self).wf(),
    {
        let ghost m = self.manifests@;
        self.manifests.push(id);
        assert(self@.manifests =~= old(self)@.manifests.push(id@)) by {
            assert(self.manifests@ == m.push(id));
        }
    }

    /// The content id of the shared file called `name`, which the transport is to delete.
    pub fn removal_target(&self, name: &str) -> (r: Result<ContentId, PublishError>)
        ensures
            r is Err <==> !has_name(self@.files.files, name@),
            r is Err ==> r->Err_0 == PublishError::NotFound,
            r is Ok ==> r->Ok_0@ == self@.files.files[find_name(self@.files.files, name@)].hash,
    {
        proof {
            lemma_find_name(self@.files.files, name@);
        }
        match self.files.get(name) {
            None => Err(PublishError::NotFound),
            Some(f) => Ok(f.hash.duplicate()),
        }
    }

    /// Drops the file called `name` once its content is deleted, with the note to send.
    pub fn forget(&mut self, name: &str) -> (r: UploadNote)
        requires
            old(self).wf(),
        ensures
            final(self).wf(),
            final(self)@ == (PublisherView {
                files: FilesView {
                    version: old(self)@.files.version,
                    files: remove_name(old(self)@.files.files, name@),
                },
                manifests: old(self)@.manifests,
            }),
            r@ == (UploadNoteView::Removed { name: name@ }),
    {
        self.files.remove_file(name);
        UploadNote::Removed(UploadFileRemoved { name: name.to_owned() })
    }

    /// Every deletion that clearing the shared set calls for: each shared file's content
    /// and each minted manifest.
    pub fn cleanup_plan(&self) -> (r: CleanupPlan)
        ensures
            r.files@.len() == self@.files.files.len(),
            forall|i: int|
                0 <= i < r.files@.len() ==> (#[trigger] r.files@[i]).0@ == self@.files.files[i].name
                    && r.files@[i].1@ == self@.files.files[i].hash,
            r.manifests@.map_values(|c: ContentId| c@) == self@.manifests,
    {
        let mut files: Vec<(String, ContentId)> = Vec::new();
        let mut i: usize = 0;
        while i < self.files.files.len()
            invariant
                i <= self.files.files.len(),
                files@.len() == i,
                forall|k: int|
                    0 <= k < i ==> (#[trigger] files@[k]).0@ == self@.files.files[k].name
                        && files@[k].1@ == self@.files.files[k].hash,
            decreases self.files.files.len() - i,
        {
            let f = &self.files.files[i];
            files.push((f.name.clone(), f.hash.duplicate()));
            i += 1;
        }
        let mut manifests: Vec<ContentId> = Vec::new();
        let mut k: usize = 0;
        while k < self.manifests.len()
            invariant
                k <= self.manifests.len(),
                manifests@.len() == k,
                forall|j: int| 0 <= j < k ==> (#[trigger] manifests@[j])@ == self.manifests@[j]@,
            decreases self.manifests.len() - k,
        {
            manifests.push(self.manifests[k].duplicate());
            k += 1;
        }
        assert(manifests@.map_values(|c: ContentId| c@) =~= self@.manifests);
        CleanupPlan { files, manifests }
    }

    /// Empties the shared set and forgets the minted manifests, after the deletions were
    /// attempted; a failed deletion does not keep anything back.
    pub fn clear(&mut self)
        ensures
            final(self).wf(),
            final(self)@.files.version == old(self)@.files.version,
            final(self)@.files.files.len() == 0,
            final(self)@.manifests.len() == 0,
    {
        self.files.files = Vec::new();
        self.manifests = Vec::new();
        assert(self@.files.files =~= Seq::<FileView>::empty());
        assert(self@.manifests =~= Seq::<Seq<u8>>::empty());
    }
}

} // verus!
