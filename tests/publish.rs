use sendit::manifest::{ContentId, Files};
use sendit::publish::{AddEvent, PublishError, Publisher, UploadNote};

fn ingest(p: &mut Publisher, name: &str, id: u8) {
    let mut job = p
        .begin_add(name.to_string(), "icon".to_string(), format!("/src/{}", name))
        .expect("admitted");
    job.on_event(AddEvent::Found { size: 64 }, 0);
    job.on_event(AddEvent::Done { hash: ContentId::new(vec![id; 32]) }, 1);
    job.on_event(AddEvent::AllDone, 2);
    assert!(job.is_over());
    p.commit(job.finish().expect("complete"));
}

#[test]
fn duplicate_name_is_refused() {
    let mut p = Publisher::new();
    ingest(&mut p, "same.txt", 1);
    let second = p.begin_add("same.txt".to_string(), String::new(), "/other/same.txt".to_string());
    assert_eq!(second.err(), Some(PublishError::DuplicateName));
    assert_eq!(p.files().len(), 1);
    assert_eq!(p.files().get("same.txt").unwrap().hash.bytes, vec![1; 32]);
    // Names are compared exactly.
    assert!(p.begin_add("Same.txt".to_string(), String::new(), String::new()).is_ok());
}

#[test]
fn ingest_notes() {
    let p = Publisher::new();
    let mut job = p.begin_add("f.bin".to_string(), "i".to_string(), "/x/f.bin".to_string()).unwrap();
    match job.on_event(AddEvent::Found { size: 200 }, 0) {
        Some(UploadNote::Added(a)) => {
            assert_eq!(a.name, "f.bin");
            assert_eq!(a.icon, "i");
            assert_eq!(a.path, "/x/f.bin");
            assert_eq!(a.size, 200);
        }
        _ => panic!("expected an added note"),
    }
    match job.on_event(AddEvent::Progress { offset: 50 }, 100_000) {
        Some(UploadNote::Progress(pr)) => assert_eq!(pr.progress, 25),
        _ => panic!("expected a progress note"),
    }
    assert!(job.on_event(AddEvent::Progress { offset: 60 }, 110_000).is_none());
    match job.on_event(AddEvent::Done { hash: ContentId::new(vec![4, 4]) }, 130_000) {
        Some(UploadNote::Completed(c)) => assert_eq!(c.name, "f.bin"),
        _ => panic!("expected a completed note"),
    }
    let f = job.finish().unwrap();
    assert_eq!(f.size, 200);
    assert_eq!(f.hash.bytes, vec![4, 4]);
}

#[test]
fn ingest_without_content_id_is_incomplete() {
    let p = Publisher::new();
    let mut job = p.begin_add("g".to_string(), String::new(), String::new()).unwrap();
    job.on_event(AddEvent::Found { size: 1 }, 0);
    job.on_event(AddEvent::AllDone, 2);
    assert!(job.on_event(AddEvent::Done { hash: ContentId::new(vec![1]) }, 3).is_none());
    assert_eq!(job.finish().err(), Some(PublishError::Incomplete));
}

#[test]
fn ingest_error_fails_the_publish() {
    let mut p = Publisher::new();
    let mut job = p.begin_add("e".to_string(), String::new(), String::new()).unwrap();
    job.on_event(AddEvent::Found { size: 8 }, 0);
    assert!(job.on_event(AddEvent::Error, 1).is_none());
    job.on_event(AddEvent::Done { hash: ContentId::new(vec![3]) }, 2);
    job.on_event(AddEvent::AllDone, 3);
    let r = job.finish();
    assert_eq!(r.as_ref().err(), Some(&PublishError::Failed));
    if let Ok(f) = r {
        p.commit(f);
    }
    assert_eq!(p.files().len(), 0);
}

#[test]
fn ingest_abort_fails_the_publish() {
    let p = Publisher::new();
    let mut job = p.begin_add("a".to_string(), String::new(), String::new()).unwrap();
    job.on_event(AddEvent::Abort, 0);
    job.on_event(AddEvent::Done { hash: ContentId::new(vec![3]) }, 1);
    assert_eq!(job.finish().err(), Some(PublishError::Failed));
}

#[test]
fn manifest_text_decodes_to_shared_set() {
    let mut p = Publisher::new();
    ingest(&mut p, "a", 1);
    ingest(&mut p, "b", 2);
    let text = p.manifest_text();
    let m = Files::from_str(&text).unwrap();
    assert_eq!(m.len(), 2);
    assert_eq!(m.get("b").unwrap().hash.bytes, vec![2; 32]);
}

#[test]
fn remove_one_and_clear_all() {
    let mut p = Publisher::new();
    ingest(&mut p, "a", 1);
    ingest(&mut p, "b", 2);
    p.record_manifest(ContentId::new(vec![7; 32]));
    p.record_manifest(ContentId::new(vec![8; 32]));
    assert_eq!(p.removal_target("zz").err(), Some(PublishError::NotFound));
    assert_eq!(p.removal_target("a").unwrap().bytes, vec![1; 32]);
    match p.forget("a") {
        UploadNote::Removed(r) => assert_eq!(r.name, "a"),
        _ => panic!("expected a removed note"),
    }
    assert!(!p.files().has_file("a"));
    let plan = p.cleanup_plan();
    assert_eq!(plan.files.len(), 1);
    assert_eq!(plan.files[0].0, "b");
    assert_eq!(plan.files[0].1.bytes, vec![2; 32]);
    let ids: Vec<Vec<u8>> = plan.manifests.iter().map(|c| c.bytes.clone()).collect();
    assert_eq!(ids, vec![vec![7; 32], vec![8; 32]]);
    p.clear();
    assert_eq!(p.files().len(), 0);
    assert!(p.cleanup_plan().manifests.is_empty());
}
