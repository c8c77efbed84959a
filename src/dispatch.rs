use vstd::prelude::*;
use crate::progress::ProcessingStatus;
use crate::store::{distinct_paths, holds_path, needs_processing_spec, result_or_empty, PointState, ResultStore};

verus! {

/// One processing request: the paths to run a job for, and whether the jobs
/// recompute even results that are up to date.
pub struct Batch {
    pub paths: Vec<String>,
    pub force: bool,
}

/// Starts a processing request over the opened paths of `store`. The
/// recompute flag `changed` is handed to the batch and cleared. With no opened
/// path the progress counter is left untouched; otherwise it is reset to a
/// running batch of one job per path, before any job starts.
pub fn process<H>(store: &ResultStore<H>, status: &mut ProcessingStatus, changed: &mut bool) -> (batch: Batch)
    requires
        store.well_formed(),
    ensures
        batch.force == *old(changed),
        *final(changed) == false,
        distinct_paths(batch.paths@),
        forall|p: Seq<char>| #[trigger] holds_path(batch.paths@, p) <==> (store@.contains_key(p) && store@[p].opened),
        *final(status) == old(status).after_start(batch.paths.len() as nat),
        old(status).inv() ==> final(status).inv(),
{
    let force = *changed;
    *changed = false;
    let paths = store.opened_paths();
    status.start(paths.len());
    Batch { paths, force }
}

/// One job as it settles: its path, the recompute flag, the source
/// modification time it read, and what its computation returned.
pub struct JobRecord<H> {
    pub path: Seq<char>,
    pub force: bool,
    pub source_modified: Option<u64>,
    pub result: Option<PointState<H>>,
}

/// The store after one job settles: the job re-checks staleness and, when the
/// path needs processing, writes its result (or the empty entry).
pub open spec fn settle<H>(m: Map<Seq<char>, PointState<H>>, job: JobRecord<H>) -> Map<Seq<char>, PointState<H>> {
    if needs_processing_spec(m, job.path, job.force, job.source_modified) {
        m.insert(job.path, result_or_empty(job.result))
    } else {
        m
    }
}

/// The store after the jobs settle in the given order.
pub open spec fn settle_all<H>(m: Map<Seq<char>, PointState<H>>, jobs: Seq<JobRecord<H>>) -> Map<Seq<char>, PointState<H>>
    decreases jobs.len(),
{
    if jobs.len() == 0 {
        m
    } else {
        settle(settle_all(m, jobs.drop_last()), jobs.last())
    }
}

/// Whatever order the jobs settle in and whatever each computation returns,
/// every path that had a job has an entry afterwards, and no entry is lost.
pub proof fn lemma_settled_paths_present<H>(m: Map<Seq<char>, PointState<H>>, jobs: Seq<JobRecord<H>>)
    ensures
        forall|i: int| 0 <= i < jobs.len() ==> settle_all(m, jobs).contains_key(#[trigger] jobs[i].path),
        forall|p: Seq<char>| m.contains_key(p) ==> settle_all(m, jobs).contains_key(p),
    decreases jobs.len(),
{
    if jobs.len() > 0 {
        let rest = jobs.drop_last();
        lemma_settled_paths_present(m, rest);
        assert forall|i: int| 0 <= i < jobs.len() implies settle_all(m, jobs).contains_key(#[trigger] jobs[i].path) by {
            if i < jobs.len() - 1 {
                assert(rest[i] == jobs[i]);
            }
        }
    }
}

} // verus!
