use viewers::pool::{worker_count, CachedFile, FileCache, WebThreadPool, WebWorker};
use viewers::store::PathMap;

#[test]
fn three_workers_seven_jobs_round_robin() {
    let mut pool = WebThreadPool::new(vec!['a', 'b', 'c']);
    let mut routed = Vec::new();
    for _ in 0..7 {
        let (i, w) = pool.send();
        routed.push((i, *w));
    }
    assert_eq!(
        routed,
        vec![(0, 'a'), (1, 'b'), (2, 'c'), (0, 'a'), (1, 'b'), (2, 'c'), (0, 'a')]
    );
    for (i, (w, _)) in routed.iter().enumerate() {
        assert_eq!(*w, i % 3);
    }
}

#[test]
fn single_worker_gets_every_job() {
    let mut pool = WebThreadPool::new(vec![7u8]);
    for _ in 0..4 {
        assert_eq!(pool.send().0, 0);
    }
    assert_eq!(pool.len(), 1);
}

#[test]
fn worker_count_leaves_one_core_and_keeps_one_worker() {
    assert_eq!(worker_count(8), 7);
    assert_eq!(worker_count(2), 1);
    assert_eq!(worker_count(1), 1);
    assert_eq!(worker_count(0), 1);
}

fn cache_with(modified: u64) -> FileCache<Vec<u8>> {
    let mut cache: FileCache<Vec<u8>> = PathMap::new();
    cache.insert(
        "/p".to_string(),
        CachedFile { process: b"{\"algo\":1}".to_vec(), modified, artifact: vec![1, 2, 3] },
    );
    cache
}

#[test]
fn newer_source_forces_recomputation() {
    let cache = cache_with(100);
    let params = b"{\"algo\":1}".to_vec();
    assert!(cache.cached_artifact(&"/p".to_string(), &params, 200).is_none());
}

#[test]
fn cache_hit_needs_same_parameters_and_fresh_artifact() {
    let cache = cache_with(100);
    let params = b"{\"algo\":1}".to_vec();
    assert_eq!(cache.cached_artifact(&"/p".to_string(), &params, 100), Some(&vec![1, 2, 3]));
    assert_eq!(cache.cached_artifact(&"/p".to_string(), &params, 50), Some(&vec![1, 2, 3]));
    let other = b"{\"algo\":2}".to_vec();
    assert!(cache.cached_artifact(&"/p".to_string(), &other, 100).is_none());
    assert!(cache.cached_artifact(&"/q".to_string(), &params, 100).is_none());
}

#[test]
fn worker_is_created() {
    let _worker = WebWorker::create();
}
