use vstd::prelude::*;
use crate::events::{
    DownloadFileAborted, DownloadFileAdded, DownloadFileCompleted, DownloadFileError,
    DownloadFileProgress,
};
use crate::manifest::{text_decodes_to, File, FileView, Files, FilesView, ManifestError};
use vstd::string::StringSliceAdditionalSpecFns;
use crate::search::{find_key, lemma_find_key};
use crate::text::text_eq;
use crate::throttle::Pacer;
use vstd::string::StringExecFns;

verus! {

/// Least time between two progress notifications of one job, in microseconds.
pub const PROGRESS_INTERVAL_MICROS: u64 = 100_000;

/// Where one file's transfer stands. The last three are terminal: nothing leaves them.
#[derive(Debug, Clone, Copy, PartialEq, Eq, Structural)]
pub enum JobState {
    Pending,
    InProgress,
    Completed,
    Failed,
    Aborted,
}

impl JobState {
    pub open spec fn is_terminal(self) -> bool {
        self is Completed || self is Failed || self is Aborted
    }
}

/// One event of the transport's download progress stream.
pub enum DownloadEvent {
    /// The blob is already held locally, with this size.
    FoundLocal { size: u64 },
    /// The remote peer has the blob, with this size.
    Found { size: u64 },
    /// Bytes up to `offset` have arrived.
    Progress { offset: u64 },
    /// The stream is done: the blob is complete.
    AllDone,
    /// The stream failed.
    Error { reason: String },
    /// Any other event of the stream, which changes nothing here.
    Other,
}

pub ghost enum EventView {
    FoundLocal { size: u64 },
    Found { size: u64 },
    Progress { offset: u64 },
    AllDone,
    Error { reason: Seq<char> },
    Other,
}

impl View for DownloadEvent {
    type V = EventView;

    open spec fn view(&self) -> EventView {
        match self {
            DownloadEvent::FoundLocal { size } => EventView::FoundLocal { size: *size },
            DownloadEvent::Found { size } => EventView::Found { size: *size },
            DownloadEvent::Progress { offset } => EventView::Progress { offset: *offset },
            DownloadEvent::AllDone => EventView::AllDone,
            DownloadEvent::Error { reason } => EventView::Error { reason: reason@ },
            DownloadEvent::Other => EventView::Other,
        }
    }
}

/// A notification for listeners, tagged with the file it concerns.
pub enum FetchNote {
    Added(DownloadFileAdded),
    Progress(DownloadFileProgress),
    Completed(DownloadFileCompleted),
    Failed(DownloadFileError),
    Aborted(DownloadFileAborted),
    AllComplete,
}

pub ghost enum NoteView {
    Added { name: Seq<char>, icon: Seq<char>, size: u64 },
    Progress { name: Seq<char>, progress: u64, speed: u64 },
    Completed { name: Seq<char>, path: Seq<char> },
    Failed { name: Seq<char>, error: Seq<char> },
    Aborted { name: Seq<char>, reason: Seq<char> },
    AllComplete,
}

impl View for FetchNote {
    type V = NoteView;

    open spec fn view(&self) -> NoteView {
        match self {
            FetchNote::Added(a) => NoteView::Added { name: a.name@, icon: a.icon@, size: a.size },
            FetchNote::Progress(p) => NoteView::Progress {
                name: p.name@,
                progress: p.progress,
                speed: p.speed,
            },
            FetchNote::Completed(c) => NoteView::Completed { name: c.name@, path: c.path@ },
            FetchNote::Failed(e) => NoteView::Failed { name: e.name@, error: e.error@ },
            FetchNote::Aborted(a) => NoteView::Aborted { name: a.name@, reason: a.reason@ },
            FetchNote::AllComplete => NoteView::AllComplete,
        }
    }
}

impl NoteView {
    /// A note that ends the transfer of the file called `name`.
    pub open spec fn ends(self, name: Seq<char>) -> bool {
        match self {
            NoteView::Completed { name: n, .. } => n == name,
            NoteView::Failed { name: n, .. } => n == name,
            NoteView::Aborted { name: n, .. } => n == name,
            _ => false,
        }
    }
}

/// What the caller must do next for a job.
#[derive(Debug, Clone, Copy, PartialEq, Eq, Structural)]
pub enum Action {
    Nothing,
    /// Open the transport's download stream for the job's content id.
    Download { job: usize },
    /// Copy the finished blob to the job's destination.
    Export { job: usize },
    /// Stop the job's running task.
    Abort { job: usize },
}

pub ghost struct JobView {
    pub name: Seq<char>,
    pub icon: Seq<char>,
    pub hash: Seq<u8>,
    pub state: JobState,
    pub exporting: bool,
    pub size: u64,
    pub transferred: u64,
    pub last_offset: u64,
    pub last_time: u64,
    pub pacer: Pacer,
}

pub ghost struct SessionView {
    pub jobs: Seq<JobView>,
    pub registry: Seq<(Seq<char>, usize)>,
    pub finished: bool,
}

/// One input to a fetch: a job's start, a stream event, an export's outcome, a
/// cancellation request, or the closing check.
pub ghost enum InputView {
    Start { job: usize, dest_exists: bool },
    Event { job: usize, event: EventView, now: u64 },
    Exported { job: usize, result: Result<Seq<char>, Seq<char>> },
    Cancel { name: Seq<char> },
    Abandon { job: usize, reason: Seq<char> },
    Finish,
}

pub ghost struct Outcome {
    pub next: SessionView,
    pub notes: Seq<NoteView>,
    pub action: Action,
}

pub open spec fn exists_reason() -> Seq<char> {
    "File already exists"@
}

pub open spec fn cancel_reason() -> Seq<char> {
    "Cancelled by user"@
}

/// Percent of `size` that `done` bytes make, at most 100.
pub open spec fn percent_of(done: u64, size: u64) -> u64
    recommends
        size > 0,
{
    if done >= size {
        100
    } else {
        (done as int * 100 / size as int) as u64
    }
}

/// Bytes per second for `bytes` over `micros` microseconds; zero time gives zero.
pub open spec fn speed_of(bytes: u64, micros: u64) -> u64 {
    if micros == 0 {
        0
    } else if bytes as int * 1_000_000 / micros as int > u64::MAX {
        u64::MAX
    } else {
        (bytes as int * 1_000_000 / micros as int) as u64
    }
}

/// `a - b`, or zero where `b` is larger.
pub open spec fn sub_or_zero(a: u64, b: u64) -> u64 {
    if a >= b {
        (a - b) as u64
    } else {
        0
    }
}

/// A registry entry's name, the key that entries are found by.
pub open spec fn reg_key(e: (Seq<char>, usize)) -> Seq<char> {
    e.0
}

/// First position at or after `k` of the registry entry for `name`, or -1.
pub open spec fn reg_find_from(r: Seq<(Seq<char>, usize)>, name: Seq<char>, k: int) -> int {
    find_key(r, |e: (Seq<char>, usize)| reg_key(e), name, k)
}

pub open spec fn reg_find(r: Seq<(Seq<char>, usize)>, name: Seq<char>) -> int {
    reg_find_from(r, name, 0)
}

pub open spec fn reg_has(r: Seq<(Seq<char>, usize)>, name: Seq<char>) -> bool {
    exists|k: int| 0 <= k < r.len() && r[k].0 == name
}

/// The registry without the entry for `name`.
pub open spec fn reg_remove(r: Seq<(Seq<char>, usize)>, name: Seq<char>) -> Seq<(Seq<char>, usize)> {
    let k = reg_find(r, name);
    if k < 0 {
        r
    } else {
        r.remove(k)
    }
}

pub proof fn lemma_reg_find_from(r: Seq<(Seq<char>, usize)>, name: Seq<char>, k: int)
    requires
        0 <= k,
    ensures
        -1 <= reg_find_from(r, name, k) < r.len(),
        reg_find_from(r, name, k) >= 0 ==> reg_find_from(r, name, k) >= k && r[reg_find_from(r, name, k)].0 == name,
        reg_find_from(r, name, k) < 0 <==> (forall|j: int| k <= j < r.len() ==> r[j].0 != name),
{
    lemma_find_key(r, |e: (Seq<char>, usize)| reg_key(e), name, k);
}

pub proof fn lemma_reg_find(r: Seq<(Seq<char>, usize)>, name: Seq<char>)
    ensures
        -1 <= reg_find(r, name) < r.len(),
        reg_find(r, name) >= 0 ==> r[reg_find(r, name)].0 == name,
        reg_find(r, name) >= 0 <==> reg_has(r, name),
{
    lemma_reg_find_from(r, name, 0);
}

/// The entries that stay in the registry after removing `name`, and nothing else.
pub proof fn lemma_reg_remove(r: Seq<(Seq<char>, usize)>, name: Seq<char>)
    requires
        forall|a: int, b: int| 0 <= a < b < r.len() ==> r[a].0 != r[b].0,
    ensures
        forall|a: int, b: int|
            0 <= a < b < reg_remove(r, name).len() ==> reg_remove(r, name)[a].0 != reg_remove(r, name)[b].0,
        !reg_has(reg_remove(r, name), name),
        forall|e: (Seq<char>, usize)|
            #![trigger reg_remove(r, name).contains(e)]
            reg_remove(r, name).contains(e) <==> (r.contains(e) && e.0 != name),
{
    lemma_reg_find(r, name);
    let k = reg_find(r, name);
    let q = reg_remove(r, name);
    if k >= 0 {
        assert forall|a: int, b: int| 0 <= a < b < q.len() implies q[a].0 != q[b].0 by {
            let a2 = if a < k { a } else { a + 1 };
            let b2 = if b < k { b } else { b + 1 };
            assert(q[a] == r[a2] && q[b] == r[b2]);
        }
        assert forall|e: (Seq<char>, usize)| q.contains(e) <==> (r.contains(e) && e.0 != name) by {
            if q.contains(e) {
                let j = choose|j: int| 0 <= j < q.len() && q[j] == e;
                let j2 = if j < k { j } else { j + 1 };
                assert(q[j] == r[j2]);
            }
            if r.contains(e) && e.0 != name {
                let j = choose|j: int| 0 <= j < r.len() && r[j] == e;
                if j < k {
                    assert(q[j] == r[j]);
                } else {
                    assert(j != k);
                    assert(q[j - 1] == r[j]);
                }
            }
        }
        if reg_has(q, name) {
            let j = choose|j: int| 0 <= j < q.len() && q[j].0 == name;
            let j2 = if j < k { j } else { j + 1 };
            assert(q[j] == r[j2]);
        }
    } else {
        assert forall|e: (Seq<char>, usize)| q.contains(e) <==> (r.contains(e) && e.0 != name) by {
            if r.contains(e) {
                let j = choose|j: int| 0 <= j < r.len() && r[j] == e;
                assert(r[j].0 != name);
            }
        }
    }
}

impl SessionView {
    /// The job `i` replaced by `j`.
    pub open spec fn with_job(self, i: int, j: JobView) -> SessionView {
        SessionView { jobs: self.jobs.update(i, j), ..self }
    }

    /// Job `i` moved to the terminal state `st` and dropped from the registry.
    pub open spec fn terminate(self, i: int, st: JobState) -> SessionView {
        SessionView {
            jobs: self.jobs.update(i, JobView { state: st, ..self.jobs[i] }),
            registry: reg_remove(self.registry, self.jobs[i].name),
            finished: self.finished,
        }
    }

    pub open spec fn all_terminal(self) -> bool {
        forall|i: int| 0 <= i < self.jobs.len() ==> #[trigger] self.jobs[i].state.is_terminal()
    }

    /// The session's invariant: names are unique, the registry holds exactly the jobs
    /// that have not ended, under their names, and the fetch closes only once all ended.
    pub open spec fn inv(self) -> bool {
        &&& forall|a: int, b: int|
            0 <= a < b < self.jobs.len() ==> self.jobs[a].name != self.jobs[b].name
        &&& forall|a: int, b: int|
            0 <= a < b < self.registry.len() ==> self.registry[a].0 != self.registry[b].0
        &&& forall|k: int|
            0 <= k < self.registry.len() ==> {
                &&& (#[trigger] self.registry[k]).1 < self.jobs.len()
                &&& self.jobs[self.registry[k].1 as int].name == self.registry[k].0
                &&& !self.jobs[self.registry[k].1 as int].state.is_terminal()
            }
        &&& forall|i: int|
            0 <= i < self.jobs.len() && !(#[trigger] self.jobs[i]).state.is_terminal()
                ==> self.registry.contains((self.jobs[i].name, i as usize))
        &&& self.finished ==> self.all_terminal()
    }
}

pub open spec fn unchanged(s: SessionView) -> Outcome {
    Outcome { next: s, notes: Seq::empty(), action: Action::Nothing }
}

/// A job starts: it fails at once where its destination already exists, and asks for
/// the download otherwise.
pub open spec fn start_spec(s: SessionView, i: usize, dest_exists: bool) -> Outcome {
    if i >= s.jobs.len() || s.jobs[i as int].state != JobState::Pending {
        unchanged(s)
    } else if dest_exists {
        Outcome {
            next: s.terminate(i as int, JobState::Failed),
            notes: seq![NoteView::Failed { name: s.jobs[i as int].name, error: exists_reason() }],
            action: Action::Nothing,
        }
    } else {
        Outcome {
            next: s.with_job(i as int, JobView { state: JobState::InProgress, ..s.jobs[i as int] }),
            notes: Seq::empty(),
            action: Action::Download { job: i },
        }
    }
}

/// A progress event at time `now`: the count of bytes never goes back; a notification
/// goes out only when the job's pacer opens and the size is known.
pub open spec fn progress_spec(s: SessionView, i: usize, offset: u64, now: u64) -> Outcome {
    let j = s.jobs[i as int];
    let t = if offset > j.transferred { offset } else { j.transferred };
    if j.pacer.ready(now) {
        let j2 = JobView {
            transferred: t,
            pacer: j.pacer.after(now),
            last_offset: t,
            last_time: now,
            ..j
        };
        let note = NoteView::Progress {
            name: j.name,
            progress: percent_of(t, j.size),
            speed: speed_of(sub_or_zero(t, j.last_offset), sub_or_zero(now, j.last_time)),
        };
        Outcome {
            next: s.with_job(i as int, j2),
            notes: if j.size > 0 { seq![note] } else { Seq::empty() },
            action: Action::Nothing,
        }
    } else {
        Outcome {
            next: s.with_job(i as int, JobView { transferred: t, ..j }),
            notes: Seq::empty(),
            action: Action::Nothing,
        }
    }
}

/// An event of job `i`'s download stream. Events of a job that is not streaming are ignored.
pub open spec fn event_spec(s: SessionView, i: usize, ev: EventView, now: u64) -> Outcome {
    if i >= s.jobs.len() || s.jobs[i as int].state != JobState::InProgress
        || s.jobs[i as int].exporting {
        unchanged(s)
    } else {
        let j = s.jobs[i as int];
        match ev {
            EventView::FoundLocal { size } => unchanged(s.with_job(i as int, JobView { size, ..j })),
            EventView::Found { size } => unchanged(s.with_job(i as int, JobView { size, ..j })),
            EventView::Progress { offset } => progress_spec(s, i, offset, now),
            EventView::AllDone => Outcome {
                next: s.with_job(i as int, JobView { exporting: true, ..j }),
                notes: Seq::empty(),
                action: Action::Export { job: i },
            },
            EventView::Error { reason } => Outcome {
                next: s.terminate(i as int, JobState::Failed),
                notes: seq![NoteView::Failed { name: j.name, error: reason }],
                action: Action::Nothing,
            },
            EventView::Other => unchanged(s),
        }
    }
}

/// The outcome of exporting job `i`: the destination path, or why it failed.
pub open spec fn exported_spec(s: SessionView, i: usize, result: Result<Seq<char>, Seq<char>>) -> Outcome {
    if i >= s.jobs.len() || s.jobs[i as int].state != JobState::InProgress
        || !s.jobs[i as int].exporting {
        unchanged(s)
    } else {
        let name = s.jobs[i as int].name;
        match result {
            Ok(path) => Outcome {
                next: s.terminate(i as int, JobState::Completed),
                notes: seq![NoteView::Completed { name, path }],
                action: Action::Nothing,
            },
            Err(error) => Outcome {
                next: s.terminate(i as int, JobState::Failed),
                notes: seq![NoteView::Failed { name, error }],
                action: Action::Nothing,
            },
        }
    }
}

/// A cancellation request: acts only where the registry still holds the name.
pub open spec fn cancel_spec(s: SessionView, name: Seq<char>) -> Outcome {
    let k = reg_find(s.registry, name);
    if k < 0 || s.registry[k].1 >= s.jobs.len() {
        unchanged(s)
    } else {
        let i = s.registry[k].1;
        Outcome {
            next: s.terminate(i as int, JobState::Aborted),
            notes: seq![NoteView::Aborted { name, reason: cancel_reason() }],
            action: Action::Abort { job: i },
        }
    }
}

/// A job whose task stopped without reaching an end: where it has not ended, it fails
/// with `reason`.
pub open spec fn abandon_spec(s: SessionView, i: usize, reason: Seq<char>) -> Outcome {
    if i >= s.jobs.len() || s.jobs[i as int].state.is_terminal() {
        unchanged(s)
    } else {
        Outcome {
            next: s.terminate(i as int, JobState::Failed),
            notes: seq![NoteView::Failed { name: s.jobs[i as int].name, error: reason }],
            action: Action::Nothing,
        }
    }
}

/// The closing check: once every job has ended, the fetch reports it, once.
pub open spec fn finish_spec(s: SessionView) -> Outcome {
    if !s.finished && s.all_terminal() {
        Outcome {
            next: SessionView { finished: true, ..s },
            notes: seq![NoteView::AllComplete],
            action: Action::Nothing,
        }
    } else {
        unchanged(s)
    }
}

pub open spec fn step(s: SessionView, x: InputView) -> Outcome {
    match x {
        InputView::Start { job, dest_exists } => start_spec(s, job, dest_exists),
        InputView::Event { job, event, now } => event_spec(s, job, event, now),
        InputView::Exported { job, result } => exported_spec(s, job, result),
        InputView::Cancel { name } => cancel_spec(s, name),
        InputView::Abandon { job, reason } => abandon_spec(s, job, reason),
        InputView::Finish => finish_spec(s),
    }
}

/// The state after a sequence of inputs, and every notification on the way, in order.
pub open spec fn run(s: SessionView, xs: Seq<InputView>) -> (SessionView, Seq<NoteView>)
    decreases xs.len(),
{
    if xs.len() == 0 {
        (s, Seq::empty())
    } else {
        let o = step(s, xs[0]);
        let r = run(o.next, xs.drop_first());
        (r.0, o.notes + r.1)
    }
}

/// The session at the start of a fetch: one pending job per file, each in the registry.
pub open spec fn initial(files: Seq<FileView>) -> SessionView {
    SessionView {
        jobs: files.map_values(
            |f: FileView|
                JobView {
                    name: f.name,
                    icon: f.icon,
                    hash: f.hash,
                    state: JobState::Pending,
                    exporting: false,
                    size: f.size,
                    transferred: 0,
                    last_offset: 0,
                    last_time: 0,
                    pacer: Pacer { interval: PROGRESS_INTERVAL_MICROS, last: None },
                },
        ),
        registry: Seq::new(files.len(), |i: int| (files[i].name, i as usize)),
        finished: false,
    }
}

/// The notifications that open a fetch: one per file.
pub open spec fn added_notes(files: Seq<FileView>) -> Seq<NoteView> {
    files.map_values(|f: FileView| NoteView::Added { name: f.name, icon: f.icon, size: f.size })
}

proof fn lemma_terminate_inv(s: SessionView, i: int, st: JobState)
    requires
        s.inv(),
        0 <= i < s.jobs.len(),
        st.is_terminal(),
    ensures
        s.terminate(i, st).inv(),
{
    let n = s.terminate(i, st);
    lemma_reg_remove(s.registry, s.jobs[i].name);
    assert forall|k: int| 0 <= k < n.registry.len() implies {
        &&& (#[trigger] n.registry[k]).1 < n.jobs.len()
        &&& n.jobs[n.registry[k].1 as int].name == n.registry[k].0
        &&& !n.jobs[n.registry[k].1 as int].state.is_terminal()
    } by {
        assert(n.registry.contains(n.registry[k]));
        let k2 = choose|k2: int| 0 <= k2 < s.registry.len() && s.registry[k2] == n.registry[k];
        assert(s.registry[k2].0 != s.jobs[i].name);
    }
    assert forall|a: int|
        0 <= a < n.jobs.len() && !(#[trigger] n.jobs[a]).state.is_terminal() implies n.registry.contains(
        (n.jobs[a].name, a as usize)) by {
        assert(a != i);
        assert(s.jobs[a] == n.jobs[a]);
    }
    if n.finished {
        assert forall|a: int| 0 <= a < n.jobs.len() implies #[trigger] n.jobs[a].state.is_terminal() by {
            assert(s.jobs[a].state.is_terminal());
        }
    }
}

proof fn lemma_with_job_inv(s: SessionView, i: int, j: JobView)
    requires
        s.inv(),
        0 <= i < s.jobs.len(),
        j.name == s.jobs[i].name,
        !j.state.is_terminal(),
        !s.jobs[i].state.is_terminal(),
    ensures
        s.with_job(i, j).inv(),
{
    let n = s.with_job(i, j);
    assert forall|k: int| 0 <= k < n.registry.len() implies {
        &&& (#[trigger] n.registry[k]).1 < n.jobs.len()
        &&& n.jobs[n.registry[k].1 as int].name == n.registry[k].0
        &&& !n.jobs[n.registry[k].1 as int].state.is_terminal()
    } by {
        assert(s.registry[k] == n.registry[k]);
    }
    assert forall|a: int|
        0 <= a < n.jobs.len() && !(#[trigger] n.jobs[a]).state.is_terminal() implies n.registry.contains(
        (n.jobs[a].name, a as usize)) by {
        if a != i {
            assert(s.jobs[a] == n.jobs[a]);
        } else {
            assert(!s.jobs[a].state.is_terminal());
        }
    }
}

/// `next` keeps the invariant of `s`, its jobs' number and names, and every ended job.
pub open spec fn keeps(s: SessionView, next: SessionView) -> bool {
    &&& next.inv()
    &&& next.jobs.len() == s.jobs.len()
    &&& forall|i: int| 0 <= i < s.jobs.len() ==> #[trigger] next.jobs[i].name == s.jobs[i].name
    &&& forall|i: int|
        0 <= i < s.jobs.len() && s.jobs[i].state.is_terminal() ==> #[trigger] next.jobs[i]
            == s.jobs[i]
}

proof fn lemma_event_keeps(s: SessionView, job: usize, event: EventView, now: u64)
    requires
        s.inv(),
    ensures
        keeps(s, event_spec(s, job, event, now).next),
{
    if job < s.jobs.len() && s.jobs[job as int].state == JobState::InProgress
        && !s.jobs[job as int].exporting {
        let j = s.jobs[job as int];
        match event {
            EventView::FoundLocal { size } => lemma_with_job_inv(s, job as int, JobView { size, ..j }),
            EventView::Found { size } => lemma_with_job_inv(s, job as int, JobView { size, ..j }),
            EventView::Progress { offset } => {
                let t = if offset > j.transferred { offset } else { j.transferred };
                if j.pacer.ready(now) {
                    lemma_with_job_inv(s, job as int, JobView {
                        transferred: t,
                        pacer: j.pacer.after(now),
                        last_offset: t,
                        last_time: now,
                        ..j
                    });
                } else {
                    lemma_with_job_inv(s, job as int, JobView { transferred: t, ..j });
                }
            },
            EventView::AllDone => lemma_with_job_inv(s, job as int, JobView { exporting: true, ..j }),
            EventView::Error { reason } => lemma_terminate_inv(s, job as int, JobState::Failed),
            EventView::Other => {},
        }
    }
}

proof fn lemma_other_keeps(s: SessionView, x: InputView)
    requires
        s.inv(),
        !(x is Event),
    ensures
        keeps(s, step(s, x).next),
{
    match x {
        InputView::Start { job, dest_exists } => {
            if job < s.jobs.len() && s.jobs[job as int].state == JobState::Pending {
                if dest_exists {
                    lemma_terminate_inv(s, job as int, JobState::Failed);
                } else {
                    lemma_with_job_inv(s, job as int, JobView { state: JobState::InProgress, ..s.jobs[job as int] });
                }
            }
        },
        InputView::Exported { job, result } => {
            if job < s.jobs.len() && s.jobs[job as int].state == JobState::InProgress
                && s.jobs[job as int].exporting {
                match result {
                    Ok(_) => lemma_terminate_inv(s, job as int, JobState::Completed),
                    Err(_) => lemma_terminate_inv(s, job as int, JobState::Failed),
                }
            }
        },
        InputView::Cancel { name } => {
            lemma_reg_find(s.registry, name);
            let k = reg_find(s.registry, name);
            if k >= 0 && s.registry[k].1 < s.jobs.len() {
                lemma_terminate_inv(s, s.registry[k].1 as int, JobState::Aborted);
            }
        },
        InputView::Abandon { job, reason } => {
            if job < s.jobs.len() && !s.jobs[job as int].state.is_terminal() {
                lemma_terminate_inv(s, job as int, JobState::Failed);
            }
        },
        _ => {},
    }
}

/// Every input keeps the session's invariant, the jobs' number and their names.
pub proof fn lemma_step_inv(s: SessionView, x: InputView)
    requires
        s.inv(),
    ensures
        step(s, x).next.inv(),
        step(s, x).next.jobs.len() == s.jobs.len(),
        forall|i: int| 0 <= i < s.jobs.len() ==> #[trigger] step(s, x).next.jobs[i].name == s.jobs[i].name,
        forall|i: int|
            0 <= i < s.jobs.len() && s.jobs[i].state.is_terminal() ==> #[trigger] step(s, x).next.jobs[i]
                == s.jobs[i],
{
    match x {
        InputView::Event { job, event, now } => lemma_event_keeps(s, job, event, now),
        _ => lemma_other_keeps(s, x),
    }
}

impl NoteView {
    /// A note about the file called `name`.
    pub open spec fn about(self, name: Seq<char>) -> bool {
        match self {
            NoteView::Added { name: n, .. } => n == name,
            NoteView::Progress { name: n, .. } => n == name,
            NoteView::Completed { name: n, .. } => n == name,
            NoteView::Failed { name: n, .. } => n == name,
            NoteView::Aborted { name: n, .. } => n == name,
            NoteView::AllComplete => false,
        }
    }
}

/// Whether input `x` is addressed to job `i` of `s`.
pub open spec fn addresses(s: SessionView, x: InputView, i: int) -> bool {
    match x {
        InputView::Start { job, .. } => job == i,
        InputView::Event { job, .. } => job == i,
        InputView::Exported { job, .. } => job == i,
        InputView::Abandon { job, .. } => job == i,
        InputView::Cancel { name } => name == s.jobs[i].name,
        InputView::Finish => false,
    }
}

/// An event of another job leaves job `i` alone.
proof fn lemma_isolation_event(s: SessionView, job: usize, event: EventView, now: u64, i: int)
    requires
        s.inv(),
        0 <= i < s.jobs.len(),
        job != i,
    ensures
        event_spec(s, job, event, now).next.jobs[i] == s.jobs[i],
        forall|k: int|
            0 <= k < event_spec(s, job, event, now).notes.len() ==> !(#[trigger] event_spec(
                s,
                job,
                event,
                now,
            ).notes[k]).about(s.jobs[i].name),
{
    if job < s.jobs.len() {
        assert(s.jobs[job as int].name != s.jobs[i].name);
    }
}

/// Failure isolation: an input addressed to one job leaves every other job as it was
/// and says nothing of it.
#[verifier::rlimit(30)]
pub proof fn lemma_isolation(s: SessionView, x: InputView, i: int)
    requires
        s.inv(),
        0 <= i < s.jobs.len(),
        !addresses(s, x, i),
    ensures
        step(s, x).next.jobs[i] == s.jobs[i],
        forall|k: int| 0 <= k < step(s, x).notes.len() ==> !(#[trigger] step(s, x).notes[k]).about(s.jobs[i].name),
{
    match x {
        InputView::Event { job, event, now } => lemma_isolation_event(s, job, event, now, i),
        InputView::Cancel { name } => {
            lemma_reg_find(s.registry, name);
            let k = reg_find(s.registry, name);
            if k >= 0 && s.registry[k].1 < s.jobs.len() {
                assert(s.jobs[s.registry[k].1 as int].name == name);
                assert(s.registry[k].1 != i);
            }
        },
        InputView::Start { job, .. } => {
            if job < s.jobs.len() {
                assert(s.jobs[job as int].name != s.jobs[i].name);
            }
        },
        InputView::Exported { job, .. } => {
            if job < s.jobs.len() {
                assert(s.jobs[job as int].name != s.jobs[i].name);
            }
        },
        InputView::Abandon { job, .. } => {
            if job < s.jobs.len() {
                assert(s.jobs[job as int].name != s.jobs[i].name);
            }
        },
        InputView::Finish => {},
    }
}

/// Existing destination: starting a pending job whose destination already exists fails
/// it at once with one note, asks for no download, and leaves every other job as it was.
pub proof fn lemma_existing_destination(s: SessionView, i: int)
    requires
        s.inv(),
        0 <= i < s.jobs.len(),
        i <= usize::MAX,
        s.jobs[i].state == JobState::Pending,
    ensures
        start_spec(s, i as usize, true).action == Action::Nothing,
        start_spec(s, i as usize, true).next.jobs[i].state == JobState::Failed,
        start_spec(s, i as usize, true).notes == seq![
            NoteView::Failed { name: s.jobs[i].name, error: exists_reason() },
        ],
        forall|k: int|
            0 <= k < s.jobs.len() && k != i ==> #[trigger] start_spec(s, i as usize, true).next.jobs[k]
                == s.jobs[k],
{
}

/// The order of a job's states: pending, then in progress, then terminal.
pub open spec fn rank(st: JobState) -> int {
    match st {
        JobState::Pending => 0,
        JobState::InProgress => 1,
        _ => 2,
    }
}

/// States only move forward: no input takes a job back to an earlier state, and a
/// terminal state never changes.
pub proof fn lemma_state_order(s: SessionView, x: InputView, i: int)
    requires
        s.inv(),
        0 <= i < s.jobs.len(),
    ensures
        rank(step(s, x).next.jobs[i].state) >= rank(s.jobs[i].state),
        s.jobs[i].state.is_terminal() ==> step(s, x).next.jobs[i].state == s.jobs[i].state,
{
    lemma_step_inv(s, x);
    if let InputView::Cancel { name } = x {
        lemma_reg_find(s.registry, name);
    }
}

/// Progress never goes back: no input lowers a job's count of bytes received.
pub proof fn lemma_transferred_monotone(s: SessionView, x: InputView, i: int)
    requires
        s.inv(),
        0 <= i < s.jobs.len(),
    ensures
        step(s, x).next.jobs[i].transferred >= s.jobs[i].transferred,
{
    lemma_step_inv(s, x);
    if let InputView::Cancel { name } = x {
        lemma_reg_find(s.registry, name);
    }
}

/// A job that has ended stays as it is and is named in no note that ends a transfer,
/// whatever inputs follow.
pub proof fn lemma_ended_job_quiet(s: SessionView, i: int, xs: Seq<InputView>)
    requires
        s.inv(),
        0 <= i < s.jobs.len(),
        s.jobs[i].state.is_terminal(),
    ensures
        run(s, xs).0.jobs[i] == s.jobs[i],
        forall|k: int| 0 <= k < run(s, xs).1.len() ==> !(#[trigger] run(s, xs).1[k]).ends(s.jobs[i].name),
    decreases xs.len(),
{
    if xs.len() > 0 {
        let x = xs[0];
        let o = step(s, x);
        lemma_step_inv(s, x);
        lemma_reg_find(s.registry, s.jobs[i].name);
        if let InputView::Cancel { name } = x {
            lemma_reg_find(s.registry, name);
            let k = reg_find(s.registry, name);
            if k >= 0 && s.registry[k].1 < s.jobs.len() {
                assert(s.jobs[s.registry[k].1 as int].name == name);
                assert(s.registry[k].1 != i);
            }
        }
        assert forall|k: int| 0 <= k < o.notes.len() implies !(#[trigger] o.notes[k]).ends(s.jobs[i].name) by {
            match x {
                InputView::Start { job, .. } => { assert(job != i); },
                InputView::Event { job, .. } => { assert(job != i); },
                InputView::Exported { job, .. } => { assert(job != i); },
                InputView::Abandon { job, .. } => { assert(job != i); },
                _ => {},
            }
        }
        lemma_ended_job_quiet(o.next, i, xs.drop_first());
        let r = run(o.next, xs.drop_first());
        assert forall|k: int| 0 <= k < run(s, xs).1.len() implies !(#[trigger] run(s, xs).1[k]).ends(s.jobs[i].name) by {
            if k < o.notes.len() {
                assert(run(s, xs).1[k] == o.notes[k]);
            } else {
                assert(run(s, xs).1[k] == r.1[k - o.notes.len()]);
            }
        }
    }
}

/// Cancelling a job that has already ended does nothing: no note, no change.
pub proof fn lemma_cancel_after_end(s: SessionView, i: int)
    requires
        s.inv(),
        0 <= i < s.jobs.len(),
        s.jobs[i].state.is_terminal(),
    ensures
        cancel_spec(s, s.jobs[i].name) == unchanged(s),
{
    lemma_reg_find(s.registry, s.jobs[i].name);
    let k = reg_find(s.registry, s.jobs[i].name);
    if k >= 0 {
        assert(s.jobs[s.registry[k].1 as int].name == s.jobs[i].name);
    }
}

/// Cancelling a job that has not ended aborts it with exactly one note, and no later
/// input brings another note that ends it.
pub proof fn lemma_cancel_in_flight(s: SessionView, i: int, xs: Seq<InputView>)
    requires
        s.inv(),
        0 <= i < s.jobs.len(),
        !s.jobs[i].state.is_terminal(),
    ensures
        cancel_spec(s, s.jobs[i].name).notes == seq![
            NoteView::Aborted { name: s.jobs[i].name, reason: cancel_reason() },
        ],
        cancel_spec(s, s.jobs[i].name).action == (Action::Abort { job: i as usize }),
        cancel_spec(s, s.jobs[i].name).next.jobs[i].state == JobState::Aborted,
        run(cancel_spec(s, s.jobs[i].name).next, xs).0.jobs[i].state == JobState::Aborted,
        forall|k: int|
            0 <= k < run(cancel_spec(s, s.jobs[i].name).next, xs).1.len() ==> !(#[trigger] run(
                cancel_spec(s, s.jobs[i].name).next,
                xs,
            ).1[k]).ends(s.jobs[i].name),
{
    let name = s.jobs[i].name;
    lemma_reg_find(s.registry, name);
    assert(s.registry.contains((name, i as usize)));
    let k = reg_find(s.registry, name);
    let k2 = choose|k2: int| 0 <= k2 < s.registry.len() && s.registry[k2] == (name, i as usize);
    if k != k2 {
        assert(s.registry[k].0 == s.registry[k2].0);
    }
    let x = InputView::Cancel { name };
    lemma_step_inv(s, x);
    lemma_ended_job_quiet(cancel_spec(s, name).next, i, xs);
}

/// Every job that has ended in `s` has a note in `notes` that ends it.
pub open spec fn ends_reported(s: SessionView, notes: Seq<NoteView>) -> bool {
    forall|i: int|
        0 <= i < s.jobs.len() && (#[trigger] s.jobs[i]).state.is_terminal() ==> exists|j: int|
            0 <= j < notes.len() && (#[trigger] notes[j]).ends(s.jobs[i].name)
}

/// Each closing note in `notes` comes after a note that ends each job of `s`.
pub open spec fn closes_last(s: SessionView, notes: Seq<NoteView>) -> bool {
    forall|k: int, i: int|
        0 <= k < notes.len() && (#[trigger] notes[k]) is AllComplete && 0 <= i < s.jobs.len()
            ==> exists|j: int| 0 <= j < k && (#[trigger] notes[j]).ends(#[trigger] s.jobs[i].name)
}

#[verifier::rlimit(30)]
proof fn lemma_step_reports(s: SessionView, x: InputView, prior: Seq<NoteView>)
    requires
        s.inv(),
        ends_reported(s, prior),
        closes_last(s, prior),
    ensures
        ends_reported(step(s, x).next, prior + step(s, x).notes),
        closes_last(s, prior + step(s, x).notes),
{
    let o = step(s, x);
    let all = prior + o.notes;
    lemma_step_inv(s, x);
    assert forall|i: int|
        0 <= i < o.next.jobs.len() && (#[trigger] o.next.jobs[i]).state.is_terminal() implies exists|j: int|
        0 <= j < all.len() && (#[trigger] all[j]).ends(o.next.jobs[i].name) by {
        if s.jobs[i].state.is_terminal() {
            let j = choose|j: int| 0 <= j < prior.len() && (#[trigger] prior[j]).ends(s.jobs[i].name);
            assert(all[j] == prior[j]);
        } else {
            assert(all[prior.len() as int] == o.notes[0]) by {
                match x {
                    InputView::Cancel { name } => {
                        lemma_reg_find(s.registry, name);
                    },
                    _ => {},
                }
            }
            match x {
                InputView::Cancel { name } => {
                    lemma_reg_find(s.registry, name);
                    let k = reg_find(s.registry, name);
                    assert(s.jobs[s.registry[k].1 as int].name == name);
                },
                _ => {},
            }
        }
    }
    assert forall|k: int, i: int|
        0 <= k < all.len() && (#[trigger] all[k]) is AllComplete && 0 <= i < s.jobs.len() implies exists|j: int|
        0 <= j < k && (#[trigger] all[j]).ends(#[trigger] s.jobs[i].name) by {
        if k < prior.len() {
            assert(prior[k] == all[k]);
            let j = choose|j: int| 0 <= j < k && (#[trigger] prior[j]).ends(s.jobs[i].name);
            assert(all[j] == prior[j]);
        } else {
            assert(x is Finish) by {
                match x {
                    InputView::Cancel { name } => {
                        lemma_reg_find(s.registry, name);
                    },
                    _ => {},
                }
            }
            assert(s.jobs[i].state.is_terminal());
            let j = choose|j: int| 0 <= j < prior.len() && (#[trigger] prior[j]).ends(s.jobs[i].name);
            assert(all[j] == prior[j]);
        }
    }
}

proof fn lemma_run_reports(s: SessionView, xs: Seq<InputView>, prior: Seq<NoteView>)
    requires
        s.inv(),
        ends_reported(s, prior),
        closes_last(s, prior),
    ensures
        closes_last(s, prior + run(s, xs).1),
    decreases xs.len(),
{
    if xs.len() == 0 {
        assert(prior + run(s, xs).1 =~= prior);
    } else {
        let o = step(s, xs[0]);
        lemma_step_inv(s, xs[0]);
        lemma_step_reports(s, xs[0], prior);
        let sofar = prior + o.notes;
        assert(closes_last(o.next, sofar)) by {
            assert forall|k: int, i: int|
                0 <= k < sofar.len() && (#[trigger] sofar[k]) is AllComplete && 0 <= i < o.next.jobs.len()
                implies exists|j: int| 0 <= j < k && (#[trigger] sofar[j]).ends(#[trigger] o.next.jobs[i].name) by {
                assert(o.next.jobs[i].name == s.jobs[i].name);
            }
        }
        lemma_run_reports(o.next, xs.drop_first(), sofar);
        let r = run(o.next, xs.drop_first());
        assert(prior + run(s, xs).1 =~= sofar + r.1);
        assert forall|k: int, i: int|
            0 <= k < (sofar + r.1).len() && (#[trigger] (sofar + r.1)[k]) is AllComplete && 0 <= i < s.jobs.len()
            implies exists|j: int| 0 <= j < k && (#[trigger] (sofar + r.1)[j]).ends(#[trigger] s.jobs[i].name) by {
            assert(o.next.jobs[i].name == s.jobs[i].name);
        }
    }
}

/// Completion order: in the notes of a fetch whose jobs have not ended yet, the closing
/// "all transfers complete" note comes after a note that ends each job.
pub proof fn lemma_all_complete_last(s: SessionView, xs: Seq<InputView>)
    requires
        s.inv(),
        forall|i: int| 0 <= i < s.jobs.len() ==> !(#[trigger] s.jobs[i]).state.is_terminal(),
    ensures
        forall|k: int, i: int|
            0 <= k < run(s, xs).1.len() && (#[trigger] run(s, xs).1[k]) is AllComplete && 0 <= i
                < s.jobs.len() ==> exists|j: int|
                0 <= j < k && (#[trigger] run(s, xs).1[j]).ends(#[trigger] s.jobs[i].name),
{
    let e = Seq::<NoteView>::empty();
    lemma_run_reports(s, xs, e);
    assert(e + run(s, xs).1 =~= run(s, xs).1);
}

/// Whether `notes` holds a closing note.
pub open spec fn has_close(notes: Seq<NoteView>) -> bool {
    exists|k: int| 0 <= k < notes.len() && (#[trigger] notes[k]) is AllComplete
}

/// At most one closing note: a closed fetch sends none, and an open one sends it at most once.
pub proof fn lemma_closes_once(s: SessionView, xs: Seq<InputView>)
    ensures
        s.finished ==> !has_close(run(s, xs).1),
        forall|a: int, b: int|
            0 <= a < b < run(s, xs).1.len() && (#[trigger] run(s, xs).1[a]) is AllComplete
                ==> !((#[trigger] run(s, xs).1[b]) is AllComplete),
    decreases xs.len(),
{
    if xs.len() > 0 {
        let o = step(s, xs[0]);
        let r = run(o.next, xs.drop_first());
        let all = run(s, xs).1;
        assert(all == o.notes + r.1);
        lemma_closes_once(o.next, xs.drop_first());
        assert(s.finished ==> o.next.finished);
        assert(o.notes.len() <= 1);
        assert(has_close(o.notes) ==> o.next.finished) by {
            if has_close(o.notes) {
                let k = choose|k: int| 0 <= k < o.notes.len() && (#[trigger] o.notes[k]) is AllComplete;
                assert(xs[0] is Finish);
            }
        }
        assert(s.finished ==> !has_close(o.notes));
        if s.finished {
            assert forall|k: int| 0 <= k < all.len() implies !((#[trigger] all[k]) is AllComplete) by {
                if k < o.notes.len() {
                    assert(all[k] == o.notes[k]);
                } else {
                    assert(all[k] == r.1[k - o.notes.len()]);
                }
            }
        }
        assert forall|a: int, b: int|
            0 <= a < b < all.len() && (#[trigger] all[a]) is AllComplete implies !((#[trigger] all[b]) is AllComplete) by {
            if b < o.notes.len() {
            } else if a < o.notes.len() {
                assert(all[a] == o.notes[a]);
                assert(has_close(o.notes));
                assert(all[b] == r.1[b - o.notes.len()]);
            } else {
                assert(all[a] == r.1[a - o.notes.len()]);
                assert(all[b] == r.1[b - o.notes.len()]);
            }
        }
    }
}

/// A fresh fetch over files of distinct names satisfies the invariant, with no job ended.
pub proof fn lemma_initial(files: Seq<FileView>)
    requires
        crate::manifest::names_unique(files),
        files.len() <= usize::MAX,
    ensures
        initial(files).inv(),
        initial(files).jobs.len() == files.len(),
        forall|i: int| 0 <= i < files.len() ==> !(#[trigger] initial(files).jobs[i]).state.is_terminal(),
{
    let s = initial(files);
    assert forall|i: int|
        0 <= i < s.jobs.len() && !(#[trigger] s.jobs[i]).state.is_terminal() implies s.registry.contains(
        (s.jobs[i].name, i as usize)) by {
        assert(s.registry[i] == (s.jobs[i].name, i as usize));
    }
    assert forall|k: int| 0 <= k < s.registry.len() implies {
        &&& (#[trigger] s.registry[k]).1 < s.jobs.len()
        &&& s.jobs[s.registry[k].1 as int].name == s.registry[k].0
        &&& !s.jobs[s.registry[k].1 as int].state.is_terminal()
    } by {
        assert(s.registry[k].1 == k);
    }
    assert forall|a: int, b: int| 0 <= a < b < s.registry.len() implies s.registry[a].0 != s.registry[b].0 by {
        assert(s.registry[a].0 == files[a].name && s.registry[b].0 == files[b].name);
    }
}

/// One file's transfer.
pub struct Job {
    pub file: File,
    pub state: JobState,
    pub exporting: bool,
    pub size: u64,
    pub transferred: u64,
    pub last_offset: u64,
    pub last_time: u64,
    pub pacer: Pacer,
}

impl View for Job {
    type V = JobView;

    open spec fn view(&self) -> JobView {
        JobView {
            name: self.file.name@,
            icon: self.file.icon@,
            hash: self.file.hash@,
            state: self.state,
            exporting: self.exporting,
            size: self.size,
            transferred: self.transferred,
            last_offset: self.last_offset,
            last_time: self.last_time,
            pacer: self.pacer,
        }
    }
}

/// A registry entry: the cancellation handle of a live job, under the file's name.
pub struct Handle {
    pub name: String,
    pub job: usize,
}

/// Notifications to send and what to do next, after one input.
pub struct Reply {
    pub notes: Vec<FetchNote>,
    pub action: Action,
}

impl Reply {
    pub open spec fn agrees(&self, o: Outcome) -> bool {
        &&& self.notes@.map_values(|n: FetchNote| n@) == o.notes
        &&& self.action == o.action
    }

    fn quiet() -> (r: Reply)
        ensures
            r.notes@.map_values(|n: FetchNote| n@) == Seq::<NoteView>::empty(),
            r.action == Action::Nothing,
    {
        Reply::act(Action::Nothing)
    }

    fn act(action: Action) -> (r: Reply)
        ensures
            r.notes@.map_values(|n: FetchNote| n@) == Seq::<NoteView>::empty(),
            r.action == action,
    {
        let notes: Vec<FetchNote> = Vec::new();
        assert(notes@.map_values(|n: FetchNote| n@) =~= Seq::<NoteView>::empty());
        Reply { notes, action }
    }

    fn one(note: FetchNote, action: Action) -> (r: Reply)
        ensures
            r.notes@.map_values(|n: FetchNote| n@) == seq![note@],
            r.action == action,
    {
        let mut notes: Vec<FetchNote> = Vec::new();
        notes.push(note);
        assert(notes@.map_values(|n: FetchNote| n@) =~= seq![note@]);
        Reply { notes, action }
    }
}

/// The orchestrator of one fetch: a job per file of the manifest, the registry of jobs
/// that can still be cancelled, and whether the closing note has gone out.
pub struct FetchSession {
    jobs: Vec<Job>,
    registry: Vec<Handle>,
    finished: bool,
}

impl View for FetchSession {
    type V = SessionView;

    closed spec fn view(&self) -> SessionView {
        SessionView {
            jobs: self.jobs@.map_values(|j: Job| j@),
            registry: self.registry@.map_values(|h: Handle| (h.name@, h.job)),
            finished: self.finished,
        }
    }
}

/// Percent of `size` that `done` bytes make, at most 100.
pub fn percent(done: u64, size: u64) -> (r: u64)
    requires
        size > 0,
    ensures
        r == percent_of(done, size),
        r <= 100,
{
    if done >= size {
        100
    } else {
        assert((done as int) * 100 / (size as int) < 100) by (nonlinear_arith)
            requires
                done < size,
                size > 0,
        ;
        assert((done as int) * 100 <= u64::MAX as int * 100) by (nonlinear_arith)
            requires
                done <= u64::MAX,
        ;
        ((done as u128) * 100 / (size as u128)) as u64
    }
}

/// Bytes per second for `bytes` over `micros` microseconds; zero time gives zero.
pub fn speed(bytes: u64, micros: u64) -> (r: u64)
    ensures
        r == speed_of(bytes, micros),
{
    if micros == 0 {
        return 0;
    }
    assert((bytes as int) * 1_000_000 <= u64::MAX as int * 1_000_000) by (nonlinear_arith)
        requires
            bytes <= u64::MAX,
    ;
    let q: u128 = (bytes as u128) * 1_000_000 / (micros as u128);
    if q > u64::MAX as u128 {
        u64::MAX
    } else {
        q as u64
    }
}

fn sub_or_zero_exec(a: u64, b: u64) -> (r: u64)
    ensures
        r == sub_or_zero(a, b),
{
    if a >= b {
        a - b
    } else {
        0
    }
}

impl FetchSession {
    /// The session's invariant holds.
    pub open spec fn wf(&self) -> bool {
        self@.inv()
    }

    /// Opens a fetch over a decoded manifest: one pending job per file, each registered
    /// under its name, and one note per file.
    pub fn new(manifest: Files) -> (r: (FetchSession, Vec<FetchNote>))
        requires
            manifest.wf(),
        ensures
            r.0.wf(),
            r.0@ == initial(manifest@.files),
            r.1@.map_values(|n: FetchNote| n@) == added_notes(manifest@.files),
    {
        let ghost fs = manifest@.files;
        let ghost init = initial(fs);
        let mut files = manifest.files;
        let total: usize = files.len();
        assert(fs.len() == total);
        let mut jobs: Vec<Job> = Vec::new();
        let mut registry: Vec<Handle> = Vec::new();
        let mut notes: Vec<FetchNote> = Vec::new();
        let mut i: usize = 0;
        while files.len() > 0
            invariant
                i + files@.len() == fs.len(),
                files@.map_values(|f: File| f@) == fs.skip(i as int),
                jobs@.map_values(|j: Job| j@) == init.jobs.take(i as int),
                registry@.map_values(|h: Handle| (h.name@, h.job)) == init.registry.take(i as int),
                notes@.map_values(|n: FetchNote| n@) == added_notes(fs).take(i as int),
                init == initial(fs),
                fs.len() <= usize::MAX,
                jobs@.len() == i,
                registry@.len() == i,
                notes@.len() == i,
            decreases files.len(),
        {
            let ghost before = files@;
            let f = files.remove(0);
            assert(f@ == fs[i as int]) by {
                assert(fs.skip(i as int)[0] == fs[i as int]);
                assert(before.map_values(|f: File| f@)[0] == before[0]@);
            }
            assert forall|k: int| 0 <= k < files@.len() implies #[trigger] files@[k]@ == fs.skip(i + 1)[k] by {
                assert(files@[k] == before[k + 1]);
                assert(before.map_values(|f: File| f@)[k + 1] == before[k + 1]@);
                assert(fs.skip(i as int)[k + 1] == fs.skip(i + 1)[k]);
            }
            let ghost nb = notes@;
            let ghost rb = registry@;
            let ghost jb = jobs@;
            let note = FetchNote::Added(
                DownloadFileAdded { name: f.name.clone(), icon: f.icon.clone(), size: f.size },
            );
            notes.push(note);
            registry.push(Handle { name: f.name.clone(), job: i });
            let size: u64 = f.size;
            let job = Job {
                file: f,
                state: JobState::Pending,
                exporting: false,
                size,
                transferred: 0,
                last_offset: 0,
                last_time: 0,
                pacer: Pacer::new(PROGRESS_INTERVAL_MICROS),
            };
            assert(job@ == init.jobs[i as int]);
            jobs.push(job);
            proof {
                assert(files@.map_values(|f: File| f@) =~= fs.skip(i + 1));
                assert forall|k: int| 0 <= k <= i implies #[trigger] jobs@[k]@ == init.jobs.take(i + 1)[k] by {
                    if k < i {
                        assert(jobs@[k] == jb[k]);
                        assert(jb.map_values(|j: Job| j@)[k] == jb[k]@);
                    }
                }
                assert(jobs@.map_values(|j: Job| j@) =~= init.jobs.take(i + 1));
                assert forall|k: int| 0 <= k <= i implies (#[trigger] registry@[k]).name@ == init.registry.take(i + 1)[k].0 && registry@[k].job == init.registry.take(i + 1)[k].1 by {
                    if k < i {
                        assert(registry@[k] == rb[k]);
                        assert(rb.map_values(|h: Handle| (h.name@, h.job))[k] == (rb[k].name@, rb[k].job));
                    }
                }
                assert(registry@.map_values(|h: Handle| (h.name@, h.job)) =~= init.registry.take(i + 1));
                assert forall|k: int| 0 <= k <= i implies #[trigger] notes@[k]@ == added_notes(fs).take(i + 1)[k] by {
                    if k < i {
                        assert(notes@[k] == nb[k]);
                        assert(nb.map_values(|n: FetchNote| n@)[k] == nb[k]@);
                    }
                }
                assert(notes@.map_values(|n: FetchNote| n@) =~= added_notes(fs).take(i + 1));
            }
            i += 1;
        }
        let s = FetchSession { jobs, registry, finished: false };
        proof {
            assert(init.jobs.take(i as int) =~= init.jobs);
            assert(init.registry.take(i as int) =~= init.registry);
            assert(added_notes(fs).take(i as int) =~= added_notes(fs));
            assert(s@ =~= init);
            lemma_initial(fs);
        }
        (s, notes)
    }

    /// Opens a fetch from the manifest's text: a text that does not decode, or decodes
    /// to another format version, is refused before any job exists.
    pub fn open(text: &str) -> (r: Result<(FetchSession, Vec<FetchNote>), ManifestError>)
        requires
            text.spec_bytes().len() <= usize::MAX / 8,
        ensures
            match r {
                Ok((s, notes)) => exists|m: FilesView|
                    {
                        &&& text_decodes_to(text@, Ok::<FilesView, ManifestError>(m))
                        &&& s.wf()
                        &&& s@ == initial(m.files)
                        &&& notes@.map_values(|n: FetchNote| n@) == added_notes(m.files)
                    },
                Err(e) => text_decodes_to(text@, Err::<FilesView, ManifestError>(e)),
            },
    {
        match Files::from_str(text) {
            Err(e) => Err(e),
            Ok(files) => {
                let ghost m = files@;
                let (s, notes) = FetchSession::new(files);
                assert(text_decodes_to(text@, Ok::<FilesView, ManifestError>(m)));
                Ok((s, notes))
            },
        }
    }

    /// The number of jobs.
    pub fn job_count(&self) -> (r: usize)
        ensures
            r == self@.jobs.len(),
    {
        self.jobs.len()
    }

    /// Job `i`.
    pub fn job(&self, i: usize) -> (r: &Job)
        requires
            i < self@.jobs.len(),
        ensures
            r@ == self@.jobs[i as int],
    {
        &self.jobs[i]
    }

    /// Whether the closing note has gone out.
    pub fn is_finished(&self) -> (r: bool)
        ensures
            r == self@.finished,
    {
        self.finished
    }

    /// Position of the registry entry for `name`, if any.
    fn reg_index(&self, name: &str) -> (r: Option<usize>)
        ensures
            match r {
                None => reg_find(self@.registry, name@) < 0,
                Some(k) => reg_find(self@.registry, name@) == k,
            },
    {
        let ghost r = self@.registry;
        let mut k: usize = 0;
        while k < self.registry.len()
            invariant
                k <= self.registry.len(),
                r == self@.registry,
                reg_find_from(r, name@, 0) == reg_find_from(r, name@, k as int),
            decreases self.registry.len() - k,
        {
            assert(r[k as int].0 == self.registry@[k as int].name@);
            if text_eq(self.registry[k].name.as_str(), name) {
                return Some(k);
            }
            k += 1;
        }
        None
    }

    /// Moves job `i` to the terminal state `st` and drops it from the registry.
    fn terminate(&mut self, i: usize, st: JobState)
        requires
            i < old(self)@.jobs.len(),
        ensures
            final(self)@ == old(self)@.terminate(i as int, st),
    {
        let ghost s = self@;
        proof {
            lemma_reg_find(s.registry, s.jobs[i as int].name);
        }
        self.jobs[i].state = st;
        let found = self.reg_index(self.jobs[i].file.name.as_str());
        assert(self@.registry == s.registry);
        match found {
            Some(k) => {
                self.registry.remove(k);
            },
            None => {},
        }
        assert(self@.jobs =~= s.terminate(i as int, st).jobs);
        assert(self@.registry =~= s.terminate(i as int, st).registry);
    }
}

impl FetchSession {
    /// Starts job `i`. Where a file already stands at its destination the job fails at
    /// once, and no download is asked for; otherwise the download is.
    pub fn start(&mut self, i: usize, dest_exists: bool) -> (r: Reply)
        requires
            old(self).wf(),
        ensures
            final(self).wf(),
            final(self)@ == start_spec(old(self)@, i, dest_exists).next,
            r.agrees(start_spec(old(self)@, i, dest_exists)),
    {
        proof {
            lemma_step_inv(self@, InputView::Start { job: i, dest_exists });
        }
        if i >= self.jobs.len() || self.jobs[i].state != JobState::Pending {
            return Reply::quiet();
        }
        if dest_exists {
            let note = FetchNote::Failed(
                DownloadFileError {
                    name: self.jobs[i].file.name.clone(),
                    error: String::from_str("File already exists"),
                },
            );
            self.terminate(i, JobState::Failed);
            Reply::one(note, Action::Nothing)
        } else {
            let ghost s = self@;
            self.jobs[i].state = JobState::InProgress;
            assert(self@.jobs =~= start_spec(s, i, dest_exists).next.jobs);
            Reply::act(Action::Download { job: i })
        }
    }

    /// Handles one event of job `i`'s download stream, received at `now` microseconds
    /// into the fetch.
    pub fn on_event(&mut self, i: usize, event: DownloadEvent, now: u64) -> (r: Reply)
        requires
            old(self).wf(),
        ensures
            final(self).wf(),
            final(self)@ == event_spec(old(self)@, i, event@, now).next,
            r.agrees(event_spec(old(self)@, i, event@, now)),
    {
        proof {
            lemma_step_inv(self@, InputView::Event { job: i, event: event@, now });
        }
        if i >= self.jobs.len() || self.jobs[i].state != JobState::InProgress
            || self.jobs[i].exporting {
            return Reply::quiet();
        }
        let ghost s = self@;
        match event {
            DownloadEvent::FoundLocal { size } => {
                self.jobs[i].size = size;
                assert(self@.jobs =~= event_spec(s, i, event@, now).next.jobs);
                Reply::quiet()
            },
            DownloadEvent::Found { size } => {
                self.jobs[i].size = size;
                assert(self@.jobs =~= event_spec(s, i, event@, now).next.jobs);
                Reply::quiet()
            },
            DownloadEvent::Progress { offset } => {
                let t: u64 = if offset > self.jobs[i].transferred {
                    offset
                } else {
                    self.jobs[i].transferred
                };
                self.jobs[i].transferred = t;
                let open = self.jobs[i].pacer.pass_at(now);
                if open {
                    let sp: u64 = speed(
                        sub_or_zero_exec(t, self.jobs[i].last_offset),
                        sub_or_zero_exec(now, self.jobs[i].last_time),
                    );
                    self.jobs[i].last_offset = t;
                    self.jobs[i].last_time = now;
                    assert(self@.jobs =~= event_spec(s, i, event@, now).next.jobs);
                    if self.jobs[i].size > 0 {
                        let note = FetchNote::Progress(
                            DownloadFileProgress {
                                name: self.jobs[i].file.name.clone(),
                                progress: percent(t, self.jobs[i].size),
                                speed: sp,
                            },
                        );
                        Reply::one(note, Action::Nothing)
                    } else {
                        Reply::quiet()
                    }
                } else {
                    assert(self@.jobs =~= event_spec(s, i, event@, now).next.jobs);
                    Reply::quiet()
                }
            },
            DownloadEvent::AllDone => {
                self.jobs[i].exporting = true;
                assert(self@.jobs =~= event_spec(s, i, event@, now).next.jobs);
                Reply::act(Action::Export { job: i })
            },
            DownloadEvent::Error { reason } => {
                let note = FetchNote::Failed(
                    DownloadFileError { name: self.jobs[i].file.name.clone(), error: reason },
                );
                self.terminate(i, JobState::Failed);
                Reply::one(note, Action::Nothing)
            },
            DownloadEvent::Other => Reply::quiet(),
        }
    }

    /// Handles the outcome of exporting job `i`: the destination path, or why it failed.
    pub fn on_exported(&mut self, i: usize, result: Result<String, String>) -> (r: Reply)
        requires
            old(self).wf(),
        ensures
            final(self).wf(),
            final(self)@ == exported_spec(old(self)@, i, result_view(&result)).next,
            r.agrees(exported_spec(old(self)@, i, result_view(&result))),
    {
        proof {
            lemma_step_inv(self@, InputView::Exported { job: i, result: result_view(&result) });
        }
        if i >= self.jobs.len() || self.jobs[i].state != JobState::InProgress
            || !self.jobs[i].exporting {
            return Reply::quiet();
        }
        let name = self.jobs[i].file.name.clone();
        match result {
            Ok(path) => {
                self.terminate(i, JobState::Completed);
                Reply::one(FetchNote::Completed(DownloadFileCompleted { name, path }), Action::Nothing)
            },
            Err(error) => {
                self.terminate(i, JobState::Failed);
                Reply::one(FetchNote::Failed(DownloadFileError { name, error }), Action::Nothing)
            },
        }
    }

    /// A cancellation request for the file called `name`. Where the registry still holds
    /// it, the job is aborted and its entry removed; otherwise nothing happens.
    pub fn cancel(&mut self, name: &str) -> (r: Reply)
        requires
            old(self).wf(),
        ensures
            final(self).wf(),
            final(self)@ == cancel_spec(old(self)@, name@).next,
            r.agrees(cancel_spec(old(self)@, name@)),
    {
        proof {
            lemma_step_inv(self@, InputView::Cancel { name: name@ });
            lemma_reg_find(self@.registry, name@);
        }
        match self.reg_index(name) {
            None => Reply::quiet(),
            Some(k) => {
                let i: usize = self.registry[k].job;
                if i >= self.jobs.len() {
                    return Reply::quiet();
                }
                let note = FetchNote::Aborted(
                    DownloadFileAborted {
                        name: String::from_str(name),
                        reason: String::from_str("Cancelled by user"),
                    },
                );
                self.terminate(i, JobState::Aborted);
                Reply::one(note, Action::Abort { job: i })
            },
        }
    }

    /// Job `i`'s task stopped without reaching an end: where the job has not ended, it
    /// fails with `reason`, so that the fetch can still close.
    pub fn abandon(&mut self, i: usize, reason: String) -> (r: Reply)
        requires
            old(self).wf(),
        ensures
            final(self).wf(),
            final(self)@ == abandon_spec(old(self)@, i, reason@).next,
            r.agrees(abandon_spec(old(self)@, i, reason@)),
    {
        proof {
            lemma_step_inv(self@, InputView::Abandon { job: i, reason: reason@ });
        }
        if i >= self.jobs.len() {
            return Reply::quiet();
        }
        let st = self.jobs[i].state;
        if st != JobState::Pending && st != JobState::InProgress {
            return Reply::quiet();
        }
        let note = FetchNote::Failed(
            DownloadFileError { name: self.jobs[i].file.name.clone(), error: reason },
        );
        self.terminate(i, JobState::Failed);
        Reply::one(note, Action::Nothing)
    }

    /// The closing check: once every job has ended, the single "all complete" note.
    pub fn finish(&mut self) -> (r: Reply)
        requires
            old(self).wf(),
        ensures
            final(self).wf(),
            final(self)@ == finish_spec(old(self)@).next,
            r.agrees(finish_spec(old(self)@)),
    {
        proof {
            lemma_step_inv(self@, InputView::Finish);
        }
        if self.finished {
            return Reply::quiet();
        }
        let mut i: usize = 0;
        while i < self.jobs.len()
            invariant
                self@ == old(self)@,
                self.wf(),
                !self@.finished,
                i <= self.jobs.len(),
                forall|k: int| 0 <= k < i ==> (#[trigger] self@.jobs[k]).state.is_terminal(),
            decreases self.jobs.len() - i,
        {
            let st = self.jobs[i].state;
            assert(st == self@.jobs[i as int].state);
            if st == JobState::Pending || st == JobState::InProgress {
                assert(!self@.jobs[i as int].state.is_terminal());
                assert(!self@.all_terminal());
                return Reply::quiet();
            }
            i += 1;
        }
        self.finished = true;
        Reply::one(FetchNote::AllComplete, Action::Nothing)
    }
}

pub open spec fn result_view(r: &Result<String, String>) -> Result<Seq<char>, Seq<char>> {
    match r {
        Ok(p) => Ok(p@),
        Err(e) => Err(e@),
    }
}

} // verus!
