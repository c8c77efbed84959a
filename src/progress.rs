use vstd::prelude::*;

verus! {

/// Aggregate progress of one batch of processing jobs.
#[derive(Clone, Copy, Debug, PartialEq, Eq, Structural)]
pub struct ProcessingStatus {
    pub running: bool,
    pub total: usize,
    pub processed: usize,
}

/// The state the counter rests in between batches.
pub open spec fn idle_status() -> ProcessingStatus {
    ProcessingStatus { running: false, total: 0, processed: 0 }
}

impl ProcessingStatus {
    /// Well-formed: never more processed than submitted, and a batch is
    /// running exactly while it has jobs.
    pub open spec fn inv(self) -> bool {
        &&& self.processed <= self.total
        &&& self.running <==> self.total > 0
        &&& self.total > 0 ==> self.processed < self.total
    }

    /// The counter as `inc_status` leaves it.
    pub open spec fn after_inc(self) -> ProcessingStatus {
        if self.processed < self.total {
            if self.processed + 1 == self.total {
                idle_status()
            } else {
                ProcessingStatus { processed: (self.processed + 1) as usize, ..self }
            }
        } else {
            self
        }
    }

    /// The counter as `start` leaves it.
    pub open spec fn after_start(self, jobs: nat) -> ProcessingStatus {
        if jobs == 0 {
            self
        } else {
            ProcessingStatus { running: true, total: jobs as usize, processed: 0 }
        }
    }

    pub fn idle() -> (r: ProcessingStatus)
        ensures
            r == idle_status(),
            r.inv(),
    {
        ProcessingStatus { running: false, total: 0, processed: 0 }
    }

    /// Begins a batch of `jobs` jobs; an empty batch leaves the counter as it is.
    pub fn start(&mut self, jobs: usize)
        ensures
            *final(self) == old(self).after_start(jobs as nat),
            old(self).inv() ==> final(self).inv(),
    {
        if jobs > 0 {
            *self = ProcessingStatus { running: true, total: jobs, processed: 0 };
        }
    }
}

/// Counts one finished job and resets the counter once the batch is complete.
/// A completion that arrives while no job is outstanding is not counted.
pub fn inc_status(status: &mut ProcessingStatus)
    ensures
        *final(status) == old(status).after_inc(),
        old(status).inv() ==> final(status).inv(),
{
    if status.processed < status.total {
        status.processed = status.processed + 1;
        if status.processed == status.total {
            *status = ProcessingStatus { running: false, total: 0, processed: 0 };
        }
    }
}

/// The counter after `k` completions have been counted.
pub open spec fn after_incs(s: ProcessingStatus, k: nat) -> ProcessingStatus
    decreases k,
{
    if k == 0 {
        s
    } else {
        after_incs(s, (k - 1) as nat).after_inc()
    }
}

/// A batch of `n` jobs is observed as `k` of `n` processed after `k < n`
/// completions, is back at rest exactly when all `n` have completed, and
/// keeps `processed <= total` throughout.
pub proof fn lemma_batch_progress(s: ProcessingStatus, n: nat, k: nat)
    requires
        0 < n <= usize::MAX,
        k <= n,
    ensures
        after_incs(s.after_start(n), k).inv(),
        k < n ==> after_incs(s.after_start(n), k) == (ProcessingStatus {
            running: true,
            total: n as usize,
            processed: k as usize,
        }),
        k == n ==> after_incs(s.after_start(n), k) == idle_status(),
    decreases k,
{
    if k > 0 {
        lemma_batch_progress(s, n, (k - 1) as nat);
    }
}

} // verus!
