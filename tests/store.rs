use viewers::dispatch::process;
use viewers::progress::{inc_status, ProcessingStatus};
use viewers::store::{process_point, PathMap, PointState, ResultStore};

fn s(text: &str) -> String {
    text.to_string()
}

fn computed(modified: u64, data: u32) -> PointState<u32> {
    PointState { opened: true, modified: Some(modified), data: Some(data) }
}

#[test]
fn insert_overwrites_and_get_reads_back() {
    let mut store: ResultStore<u32> = PathMap::new();
    assert!(store.get(&s("/a")).is_none());
    store.insert(s("/a"), computed(10, 1));
    store.insert(s("/b"), computed(11, 2));
    store.insert(s("/a"), computed(12, 3));
    let a = store.get(&s("/a")).unwrap();
    assert_eq!(a.modified, Some(12));
    assert_eq!(a.data, Some(3));
    assert_eq!(store.get(&s("/b")).unwrap().data, Some(2));
}

#[test]
fn failed_job_writes_empty_entry() {
    let mut store: ResultStore<u32> = PathMap::new();
    store.store_result(s("/a"), None);
    let a = store.get(&s("/a")).unwrap();
    assert!(!a.opened);
    assert_eq!(a.modified, None);
    assert_eq!(a.data, None);
}

#[test]
fn stale_entry_needs_processing() {
    let mut store: ResultStore<u32> = PathMap::new();
    let p = s("/a");
    assert!(store.needs_processing(&p, false, Some(5)));
    store.insert(p.clone(), computed(5, 1));
    assert!(!store.needs_processing(&p, false, Some(5)));
    assert!(!store.needs_processing(&p, false, Some(4)));
    assert!(store.needs_processing(&p, false, Some(6)));
    assert!(store.needs_processing(&p, true, Some(5)));
    assert!(store.needs_processing(&p, false, None));
}

#[test]
fn set_opened_creates_empty_entry_and_keeps_data() {
    let mut store: ResultStore<u32> = PathMap::new();
    store.set_opened(s("/a"), true);
    let a = store.get(&s("/a")).unwrap();
    assert!(a.opened);
    assert_eq!(a.data, None);
    store.insert(s("/b"), computed(3, 9));
    store.set_opened(s("/b"), false);
    let b = store.get(&s("/b")).unwrap();
    assert!(!b.opened);
    assert_eq!(b.data, Some(9));
}

#[test]
fn open_exclusive_closes_the_others() {
    let mut store: ResultStore<u32> = PathMap::new();
    store.set_opened(s("/a"), true);
    store.set_opened(s("/b"), true);
    store.open_exclusive(s("/c"));
    assert!(!store.get(&s("/a")).unwrap().opened);
    assert!(!store.get(&s("/b")).unwrap().opened);
    assert!(store.get(&s("/c")).unwrap().opened);
}

#[test]
fn clear_removes_everything() {
    let mut store: ResultStore<u32> = PathMap::new();
    store.set_opened(s("/a"), true);
    store.clear();
    assert!(store.get(&s("/a")).is_none());
    assert!(store.opened_paths().is_empty());
}

#[test]
fn opened_paths_lists_each_opened_path_once() {
    let mut store: ResultStore<u32> = PathMap::new();
    store.set_opened(s("/a"), true);
    store.set_opened(s("/b"), false);
    store.set_opened(s("/c"), true);
    store.set_opened(s("/a"), true);
    let mut paths = store.opened_paths();
    paths.sort();
    assert_eq!(paths, vec![s("/a"), s("/c")]);
}

#[test]
fn process_starts_batch_over_opened_paths() {
    let mut store: ResultStore<u32> = PathMap::new();
    store.set_opened(s("/a"), true);
    store.set_opened(s("/b"), true);
    store.set_opened(s("/x"), false);
    let mut status = ProcessingStatus::idle();
    let mut changed = true;
    let batch = process(&store, &mut status, &mut changed);
    assert!(batch.force);
    assert!(!changed);
    let mut paths = batch.paths.clone();
    paths.sort();
    assert_eq!(paths, vec![s("/a"), s("/b")]);
    assert_eq!(status, ProcessingStatus { running: true, total: 2, processed: 0 });
}

#[test]
fn process_with_nothing_opened_is_a_no_op() {
    let mut store: ResultStore<u32> = PathMap::new();
    store.set_opened(s("/a"), false);
    let mut status = ProcessingStatus::idle();
    let mut changed = false;
    let batch = process(&store, &mut status, &mut changed);
    assert!(batch.paths.is_empty());
    assert!(!batch.force);
    assert_eq!(status, ProcessingStatus::idle());
}

#[test]
fn every_processed_path_has_an_entry_after_jobs_settle() {
    let mut store: ResultStore<u32> = PathMap::new();
    store.set_opened(s("/a"), true);
    store.set_opened(s("/b"), true);
    store.insert(s("/c"), computed(7, 1));
    store.set_opened(s("/c"), true);
    let mut status = ProcessingStatus::idle();
    let mut changed = false;
    let batch = process(&store, &mut status, &mut changed);
    assert_eq!(batch.paths.len(), 3);
    for (k, path) in batch.paths.iter().enumerate() {
        let source_modified = Some(7);
        if store.needs_processing(path, batch.force, source_modified) {
            let result = if k % 2 == 0 { process_point(source_modified, Some(Some(k as u32))) } else { None };
            store.store_result(path.clone(), result);
        }
        inc_status(&mut status);
    }
    for path in batch.paths.iter() {
        assert!(store.get(path).is_some());
    }
    assert_eq!(status, ProcessingStatus::idle());
    assert_eq!(store.get(&s("/c")).unwrap().data, Some(1));
}

#[test]
fn process_point_builds_the_entry() {
    assert!(process_point::<u32>(Some(4), None).is_none());
    let empty = process_point::<u32>(Some(4), Some(None)).unwrap();
    assert!(!empty.opened);
    assert_eq!(empty.modified, None);
    let full = process_point(Some(4), Some(Some(8u32))).unwrap();
    assert!(full.opened);
    assert_eq!(full.modified, Some(4));
    assert_eq!(full.data, Some(8));
}
