use vstd::prelude::*;
use crate::store::PathMap;

verus! {

/// A background worker that turns coarse extraction artifacts into histograms.
/// It holds no state of its own.
pub struct WebWorker {}

impl WebWorker {
    pub fn create() -> (r: WebWorker) {
        WebWorker {}
    }
}

/// Number of workers for a machine with `hardware_concurrency` logical
/// processors: one is left to the interface, and there is always at least one.
pub fn worker_count(hardware_concurrency: usize) -> (n: usize)
    ensures
        n == if hardware_concurrency > 1 { hardware_concurrency - 1 } else { 1 },
        n >= 1,
{
    if hardware_concurrency > 1 {
        hardware_concurrency - 1
    } else {
        1
    }
}

/// A fixed pool of workers that jobs are handed to in strict rotation.
pub struct WebThreadPool<W> {
    current: usize,
    threads: Vec<W>,
}

/// The worker that follows `current` in a pool of `n`.
pub open spec fn next_worker(current: nat, n: nat) -> nat {
    if current + 1 >= n {
        0
    } else {
        current + 1
    }
}

/// The worker that the `k`-th job of a fresh pool of `n` goes to.
pub open spec fn route(k: nat, n: nat) -> nat
    decreases k,
{
    if k == 0 {
        0
    } else {
        next_worker(route((k - 1) as nat, n), n)
    }
}

impl<W> WebThreadPool<W> {
    pub closed spec fn worker_total(self) -> nat {
        self.threads.len() as nat
    }

    /// The worker that the next job goes to.
    pub closed spec fn cursor(self) -> nat {
        self.current as nat
    }

    pub closed spec fn workers(self) -> Seq<W> {
        self.threads@
    }

    pub open spec fn well_formed(self) -> bool {
        &&& self.worker_total() >= 1
        &&& self.cursor() < self.worker_total()
        &&& self.workers().len() == self.worker_total()
    }

    /// A pool over `threads`, which hands its first job to the first of them.
    pub fn new(threads: Vec<W>) -> (r: WebThreadPool<W>)
        requires
            threads.len() >= 1,
        ensures
            r.well_formed(),
            r.cursor() == 0,
            r.workers() == threads@,
    {
        WebThreadPool { current: 0, threads }
    }

    pub fn len(&self) -> (r: usize)
        ensures
            r == self.worker_total(),
    {
        self.threads.len()
    }

    /// Picks the worker for the next job and advances the rotation; returns its
    /// index together with the worker.
    pub fn send(&mut self) -> (r: (usize, &W))
        requires
            old(self).well_formed(),
        ensures
            final(self).well_formed(),
            r.0 == old(self).cursor(),
            *r.1 == old(self).workers()[r.0 as int],
            final(self).cursor() == next_worker(old(self).cursor(), old(self).worker_total()),
            final(self).workers() == old(self).workers(),
    {
        let i = self.current;
        if self.current + 1 >= self.threads.len() {
            self.current = 0;
        } else {
            self.current = self.current + 1;
        }
        (i, &self.threads[i])
    }
}

/// The expensive coarse-extraction artifact of one source file, with the
/// extraction parameters (in their serialized form) and the source
/// modification time it was computed for.
pub struct CachedFile<A> {
    pub process: Vec<u8>,
    pub modified: u64,
    pub artifact: A,
}

/// Per-path cache of extraction artifacts.
pub type FileCache<A> = PathMap<CachedFile<A>>;

/// A cached artifact may be reused only for identical extraction parameters
/// and a source that has not been modified since it was computed.
pub open spec fn cache_hit<A>(m: Map<Seq<char>, CachedFile<A>>, path: Seq<char>, process: Seq<u8>, modified: u64) -> bool {
    &&& m.contains_key(path)
    &&& m[path].process@ == process
    &&& m[path].modified >= modified
}

fn same_bytes(a: &Vec<u8>, b: &Vec<u8>) -> (r: bool)
    ensures
        r == (a@ == b@),
{
    if a.len() != b.len() {
        return false;
    }
    let mut i: usize = 0;
    while i < a.len()
        invariant
            a.len() == b.len(),
            0 <= i <= a.len(),
            forall|j: int| 0 <= j < i ==> a@[j] == b@[j],
        decreases a.len() - i,
    {
        if a[i] != b[i] {
            return false;
        }
        i = i + 1;
    }
    assert(a@ =~= b@);
    true
}

impl<A> PathMap<CachedFile<A>> {
    /// The cached artifact of `path`, when it was computed with the extraction
    /// parameters `process` and is not older than the source's modification
    /// time `modified`; `None` means it has to be fetched again.
    pub fn cached_artifact(&self, path: &String, process: &Vec<u8>, modified: u64) -> (r: Option<&A>)
        requires
            self.well_formed(),
        ensures
            match r {
                Some(a) => cache_hit(self@, path@, process@, modified) && *a == self@[path@].artifact,
                None => !cache_hit(self@, path@, process@, modified),
            },
    {
        match self.get(path) {
            Some(entry) => {
                if same_bytes(&entry.process, process) && entry.modified >= modified {
                    Some(&entry.artifact)
                } else {
                    None
                }
            },
            None => None,
        }
    }
}

/// In a pool of `n` workers the `k`-th job (counting from zero) goes to
/// worker `k mod n`: dispatch is strict round robin.
pub proof fn lemma_round_robin(k: nat, n: nat)
    requires
        n >= 1,
    ensures
        route(k, n) == k % n,
    decreases k,
{
    if k > 0 {
        lemma_round_robin((k - 1) as nat, n);
        let p = (k - 1) as nat;
        assert(p % n < n) by (nonlinear_arith) requires n >= 1;
        if p % n + 1 >= n {
            assert(k % n == 0) by (nonlinear_arith) requires p % n + 1 == n, k == p + 1, n >= 1;
        } else {
            assert(k % n == p % n + 1) by (nonlinear_arith) requires p % n + 1 < n, k == p + 1, n >= 1;
        }
    } else {
        assert(0nat % n == 0) by (nonlinear_arith) requires n >= 1;
    }
}

} // verus!
