use sendit::manifest::{ContentId, File, Files};
use sendit::transfer::{percent, speed, Action, DownloadEvent, FetchNote, FetchSession, JobState};

fn manifest(names: &[&str]) -> Files {
    let mut m = Files::new();
    for (i, n) in names.iter().enumerate() {
        m.add_file(File {
            name: n.to_string(),
            icon: String::new(),
            size: 1000,
            hash: ContentId::new(vec![i as u8; 32]),
        });
    }
    m
}

fn index_of(s: &FetchSession, name: &str) -> usize {
    (0..s.job_count()).find(|&i| s.job(i).file.name == name).unwrap()
}

/// Drives job `i` through a whole successful transfer; returns every note.
fn complete(s: &mut FetchSession, i: usize, t: u64) -> Vec<FetchNote> {
    let mut notes = Vec::new();
    let r = s.start(i, false);
    assert_eq!(r.action, Action::Download { job: i });
    notes.extend(s.on_event(i, DownloadEvent::Found { size: 1000 }, t).notes);
    notes.extend(s.on_event(i, DownloadEvent::Progress { offset: 500 }, t + 1).notes);
    let r = s.on_event(i, DownloadEvent::AllDone, t + 2);
    assert_eq!(r.action, Action::Export { job: i });
    let path = format!("/dl/{}", s.job(i).file.name);
    notes.extend(s.on_exported(i, Ok(path)).notes);
    notes
}

#[test]
fn opening_notes_one_per_file() {
    let (s, notes) = FetchSession::new(manifest(&["a", "b"]));
    assert_eq!(s.job_count(), 2);
    assert_eq!(notes.len(), 2);
    for n in &notes {
        assert!(matches!(n, FetchNote::Added(a) if a.size == 1000));
    }
    assert!((0..2).all(|i| s.job(i).state == JobState::Pending));
}

#[test]
fn existing_destination_fails_without_download() {
    let (mut s, _) = FetchSession::new(manifest(&["a", "b"]));
    let a = index_of(&s, "a");
    let b = index_of(&s, "b");
    let r = s.start(a, true);
    assert_eq!(r.action, Action::Nothing);
    assert_eq!(r.notes.len(), 1);
    match &r.notes[0] {
        FetchNote::Failed(e) => {
            assert_eq!(e.name, "a");
            assert_eq!(e.error, "File already exists");
        }
        _ => panic!("expected a failure note"),
    }
    assert_eq!(s.job(a).state, JobState::Failed);
    let notes = complete(&mut s, b, 10);
    assert!(matches!(notes.last(), Some(FetchNote::Completed(c)) if c.name == "b" && c.path == "/dl/b"));
    assert_eq!(s.job(b).state, JobState::Completed);
    let r = s.finish();
    assert!(matches!(r.notes.as_slice(), [FetchNote::AllComplete]));
}

#[test]
fn one_failure_leaves_siblings_alone() {
    let (mut s, _) = FetchSession::new(manifest(&["f1", "f2", "f3"]));
    let (f1, f2, f3) = (index_of(&s, "f1"), index_of(&s, "f2"), index_of(&s, "f3"));
    for i in [f1, f2, f3] {
        s.start(i, false);
    }
    let r = s.on_event(f2, DownloadEvent::Error { reason: "peer vanished".to_string() }, 5);
    match &r.notes[..] {
        [FetchNote::Failed(e)] => {
            assert_eq!(e.name, "f2");
            assert_eq!(e.error, "peer vanished");
        }
        _ => panic!("expected one failure note"),
    }
    assert_eq!(s.job(f1).state, JobState::InProgress);
    assert_eq!(s.job(f3).state, JobState::InProgress);
    for i in [f1, f3] {
        s.on_event(i, DownloadEvent::AllDone, 6);
        let r = s.on_exported(i, Ok(format!("/dl/{}", i)));
        assert!(matches!(r.notes.as_slice(), [FetchNote::Completed(_)]));
        assert_eq!(s.job(i).state, JobState::Completed);
    }
    assert_eq!(s.job(f2).state, JobState::Failed);
    // No export is asked for after a failed stream.
    let r = s.on_event(f2, DownloadEvent::AllDone, 7);
    assert_eq!(r.action, Action::Nothing);
    assert!(matches!(s.finish().notes.as_slice(), [FetchNote::AllComplete]));
}

#[test]
fn cancel_after_completion_is_a_no_op() {
    let (mut s, _) = FetchSession::new(manifest(&["a"]));
    complete(&mut s, 0, 0);
    let r = s.cancel("a");
    assert!(r.notes.is_empty());
    assert_eq!(r.action, Action::Nothing);
    assert_eq!(s.job(0).state, JobState::Completed);
}

#[test]
fn cancel_mid_transfer_aborts_once() {
    let (mut s, _) = FetchSession::new(manifest(&["a", "b"]));
    let a = index_of(&s, "a");
    s.start(a, false);
    s.on_event(a, DownloadEvent::Progress { offset: 10 }, 1);
    let r = s.cancel("a");
    assert_eq!(r.action, Action::Abort { job: a });
    match &r.notes[..] {
        [FetchNote::Aborted(x)] => {
            assert_eq!(x.name, "a");
            assert_eq!(x.reason, "Cancelled by user");
        }
        _ => panic!("expected one abort note"),
    }
    assert_eq!(s.job(a).state, JobState::Aborted);
    // Whatever still arrives for it says nothing more.
    assert!(s.cancel("a").notes.is_empty());
    assert!(s.on_event(a, DownloadEvent::AllDone, 2).notes.is_empty());
    assert!(s.on_event(a, DownloadEvent::Error { reason: "late".to_string() }, 3).notes.is_empty());
    assert!(s.on_exported(a, Ok("/dl/a".to_string())).notes.is_empty());
    assert_eq!(s.job(a).state, JobState::Aborted);
    // Unknown names are ignored.
    assert!(s.cancel("zzz").notes.is_empty());
}

#[test]
fn all_complete_only_after_every_job_ended() {
    let (mut s, _) = FetchSession::new(manifest(&["a", "b"]));
    assert!(s.finish().notes.is_empty());
    complete(&mut s, 0, 0);
    assert!(s.finish().notes.is_empty());
    s.start(1, false);
    assert!(s.finish().notes.is_empty());
    s.cancel("b");
    assert!(matches!(s.finish().notes.as_slice(), [FetchNote::AllComplete]));
    assert!(s.is_finished());
    // Sent once only.
    assert!(s.finish().notes.is_empty());
}

#[test]
fn empty_manifest_completes_at_once() {
    let (mut s, notes) = FetchSession::new(Files::new());
    assert!(notes.is_empty());
    assert!(matches!(s.finish().notes.as_slice(), [FetchNote::AllComplete]));
}

#[test]
fn progress_is_throttled_and_monotone() {
    let (mut s, _) = FetchSession::new(manifest(&["a"]));
    s.start(0, false);
    s.on_event(0, DownloadEvent::Found { size: 1000 }, 0);
    let r = s.on_event(0, DownloadEvent::Progress { offset: 250 }, 1_000_000);
    match &r.notes[..] {
        [FetchNote::Progress(p)] => {
            assert_eq!(p.progress, 25);
            assert_eq!(p.speed, 250);
        }
        _ => panic!("expected a progress note"),
    }
    // Within the interval: bookkeeping moves, no note.
    let r = s.on_event(0, DownloadEvent::Progress { offset: 400 }, 1_050_000);
    assert!(r.notes.is_empty());
    assert_eq!(s.job(0).transferred, 400);
    // A lower offset never moves the count back.
    let r = s.on_event(0, DownloadEvent::Progress { offset: 100 }, 2_000_000);
    match &r.notes[..] {
        [FetchNote::Progress(p)] => {
            assert_eq!(p.progress, 40);
            assert_eq!(p.speed, 150);
        }
        _ => panic!("expected a progress note"),
    }
    assert_eq!(s.job(0).transferred, 400);
}

#[test]
fn no_progress_note_without_size() {
    let (mut s, _) = FetchSession::new(manifest(&["a"]));
    s.start(0, false);
    s.on_event(0, DownloadEvent::FoundLocal { size: 0 }, 0);
    let r = s.on_event(0, DownloadEvent::Progress { offset: 10 }, 500_000);
    assert!(r.notes.is_empty());
}

#[test]
fn export_failure_fails_the_job() {
    let (mut s, _) = FetchSession::new(manifest(&["a"]));
    s.start(0, false);
    s.on_event(0, DownloadEvent::AllDone, 0);
    let r = s.on_exported(0, Err("disk full".to_string()));
    assert!(matches!(r.notes.as_slice(), [FetchNote::Failed(e)] if e.error == "disk full"));
    assert_eq!(s.job(0).state, JobState::Failed);
    assert!(s.cancel("a").notes.is_empty());
}

#[test]
fn percent_and_speed_values() {
    assert_eq!(percent(0, 10), 0);
    assert_eq!(percent(1, 3), 33);
    assert_eq!(percent(10, 10), 100);
    assert_eq!(percent(20, 10), 100);
    assert_eq!(percent(u64::MAX - 1, u64::MAX), 99);
    assert_eq!(speed(100, 0), 0);
    assert_eq!(speed(500, 1_000_000), 500);
    assert_eq!(speed(3, 2), 1_500_000);
    assert_eq!(speed(u64::MAX, 1), u64::MAX);
}

#[test]
fn open_from_manifest_text() {
    let text = manifest(&["x", "y"]).to_string();
    let (s, notes) = FetchSession::open(&text).expect("opens");
    assert_eq!(s.job_count(), 2);
    assert_eq!(notes.len(), 2);
    let mut old = manifest(&["x"]);
    old.version = 3;
    assert_eq!(
        FetchSession::open(&old.to_string()).err(),
        Some(sendit::manifest::ManifestError::VersionMismatch { expected: 1, found: 3 })
    );
    assert_eq!(
        FetchSession::open("####").err(),
        Some(sendit::manifest::ManifestError::Malformed)
    );
}

#[test]
fn abandoned_job_fails_and_fetch_can_close() {
    let (mut s, _) = FetchSession::new(manifest(&["a", "b"]));
    s.start(0, false);
    complete(&mut s, 1, 0);
    assert!(s.finish().notes.is_empty());
    let r = s.abandon(0, "task stopped".to_string());
    assert!(matches!(r.notes.as_slice(), [FetchNote::Failed(e)] if e.name == "a" && e.error == "task stopped"));
    assert_eq!(s.job(0).state, JobState::Failed);
    // A job that has ended is left alone.
    assert!(s.abandon(1, "late".to_string()).notes.is_empty());
    assert_eq!(s.job(1).state, JobState::Completed);
    assert!(matches!(s.finish().notes.as_slice(), [FetchNote::AllComplete]));
}
