use vstd::prelude::*;

verus! {

/// The events that extraction and post-processing found in one frame: the
/// frame's time identifier (nanoseconds) and the amplitude of each event, in
/// thousandths of the amplitude unit.
pub struct FrameEvents {
    pub time: u64,
    pub amplitudes: Vec<i64>,
}

/// Half-open amplitude range `[min, max)`, in thousandths of the amplitude unit.
#[derive(Clone, Copy, Debug, PartialEq, Eq, Structural)]
pub struct AmplitudeRange {
    pub min: i64,
    pub max: i64,
}

/// Some event of the frame lies in `[min, max)`.
pub open spec fn frame_matches(amplitudes: Seq<i64>, range: AmplitudeRange) -> bool {
    exists|i: int| 0 <= i < amplitudes.len() && range.min <= #[trigger] amplitudes[i] < range.max
}

/// The time identifiers of the frames that match `range`, in stream order.
pub open spec fn matching_times(frames: Seq<FrameEvents>, range: AmplitudeRange) -> Seq<u64>
    decreases frames.len(),
{
    if frames.len() == 0 {
        Seq::empty()
    } else {
        let rest = matching_times(frames.drop_last(), range);
        if frame_matches(frames.last().amplitudes@, range) {
            rest.push(frames.last().time)
        } else {
            rest
        }
    }
}

pub open spec fn strictly_increasing(s: Seq<u64>) -> bool {
    forall|a: int, b: int| 0 <= a < b < s.len() ==> s[a] < s[b]
}

pub open spec fn frame_times_increasing(frames: Seq<FrameEvents>) -> bool {
    forall|a: int, b: int| 0 <= a < b < frames.len() ==> frames[a].time < frames[b].time
}

/// Whether one frame has an event in `range`; stops at the first that has.
fn frame_in_range(frame: &FrameEvents, range: &AmplitudeRange) -> (r: bool)
    ensures
        r == frame_matches(frame.amplitudes@, *range),
{
    let mut i: usize = 0;
    while i < frame.amplitudes.len()
        invariant
            0 <= i <= frame.amplitudes.len(),
            forall|j: int| 0 <= j < i ==> !(range.min <= #[trigger] frame.amplitudes@[j] < range.max),
        decreases frame.amplitudes.len() - i,
    {
        let a = frame.amplitudes[i];
        if range.min <= a && a < range.max {
            return true;
        }
        i = i + 1;
    }
    false
}

/// Builds the event index: the time identifiers of the frames with at least
/// one event in `range`, in stream order.
pub fn build_index(frames: &Vec<FrameEvents>, range: &AmplitudeRange) -> (r: Vec<u64>)
    ensures
        r@ == matching_times(frames@, *range),
{
    let mut r: Vec<u64> = Vec::new();
    let mut i: usize = 0;
    while i < frames.len()
        invariant
            0 <= i <= frames.len(),
            r@ == matching_times(frames@.subrange(0, i as int), *range),
        decreases frames.len() - i,
    {
        proof {
            assert(frames@.subrange(0, i + 1).drop_last() =~= frames@.subrange(0, i as int));
        }
        if frame_in_range(&frames[i], range) {
            r.push(frames[i].time);
        }
        i = i + 1;
    }
    proof {
        assert(frames@.subrange(0, frames@.len() as int) =~= frames@);
    }
    r
}

/// When the frame stream is strictly increasing in time, so is the index, and
/// each of its entries is the time of a frame of the stream.
pub proof fn lemma_index_sorted(frames: Seq<FrameEvents>, range: AmplitudeRange)
    requires
        frame_times_increasing(frames),
    ensures
        strictly_increasing(matching_times(frames, range)),
        forall|a: int| 0 <= a < matching_times(frames, range).len() ==>
            exists|j: int| 0 <= j < frames.len() && frames[j].time == #[trigger] matching_times(frames, range)[a],
    decreases frames.len(),
{
    if frames.len() > 0 {
        let init = frames.drop_last();
        lemma_index_sorted(init, range);
        let rest = matching_times(init, range);
        assert forall|a: int| 0 <= a < rest.len() implies rest[a] < frames.last().time by {
            let j = choose|j: int| 0 <= j < init.len() && init[j].time == #[trigger] rest[a];
            assert(frames[j].time == init[j].time);
        }
        let full = matching_times(frames, range);
        assert forall|a: int| 0 <= a < full.len() implies
            exists|j: int| 0 <= j < frames.len() && frames[j].time == #[trigger] full[a] by {
            if a < rest.len() {
                let j = choose|j: int| 0 <= j < init.len() && init[j].time == #[trigger] rest[a];
                assert(frames[j].time == full[a]);
            } else {
                assert(frames[frames.len() - 1].time == full[a]);
            }
        }
    }
}

/// The cursor after `next` on an index of `len` entries.
pub open spec fn step_next(len: nat, current: nat) -> nat {
    if current + 1 < len {
        current + 1
    } else {
        current
    }
}

/// The cursor after `prev`.
pub open spec fn step_prev(current: nat) -> nat {
    if current > 0 {
        (current - 1) as nat
    } else {
        current
    }
}

/// A position that is valid for an index of `len` entries: inside it, or 0
/// when it is empty.
pub open spec fn cursor_in_range(len: nat, current: nat) -> bool {
    if len == 0 {
        current == 0
    } else {
        current < len
    }
}

/// The cursor after a sequence of steps (`true` for `next`, `false` for `prev`).
pub open spec fn after_steps(len: nat, current: nat, steps: Seq<bool>) -> nat
    decreases steps.len(),
{
    if steps.len() == 0 {
        current
    } else {
        let c = after_steps(len, current, steps.drop_last());
        if steps.last() {
            step_next(len, c)
        } else {
            step_prev(c)
        }
    }
}

/// No sequence of `next` and `prev` calls takes a valid cursor out of range,
/// whatever the length of the index, zero included.
pub proof fn lemma_steps_stay_in_range(len: nat, current: nat, steps: Seq<bool>)
    requires
        cursor_in_range(len, current),
    ensures
        cursor_in_range(len, after_steps(len, current, steps)),
    decreases steps.len(),
{
    if steps.len() > 0 {
        lemma_steps_stay_in_range(len, current, steps.drop_last());
    }
}

/// The frames that match the active filter, and the position of the frame on
/// display.
pub struct EventIndex {
    times: Vec<u64>,
    current: usize,
}

impl EventIndex {
    pub closed spec fn times(self) -> Seq<u64> {
        self.times@
    }

    pub closed spec fn position(self) -> nat {
        self.current as nat
    }

    pub open spec fn well_formed(self) -> bool {
        cursor_in_range(self.times().len(), self.position())
    }

    /// An index with no entry.
    pub fn new() -> (r: EventIndex)
        ensures
            r.well_formed(),
            r.times() == Seq::<u64>::empty(),
            r.position() == 0,
    {
        EventIndex { times: Vec::new(), current: 0 }
    }

    /// Replaces the index wholesale with the frames of `frames` that match
    /// `range`, and puts the cursor back on the first entry.
    pub fn update_indexes(&mut self, frames: &Vec<FrameEvents>, range: &AmplitudeRange)
        ensures
            final(self).well_formed(),
            final(self).times() == matching_times(frames@, *range),
            final(self).position() == 0,
    {
        self.current = 0;
        self.times = build_index(frames, range);
    }

    /// Moves to the following entry unless the cursor is on the last one.
    pub fn next(&mut self)
        requires
            old(self).well_formed(),
        ensures
            final(self).well_formed(),
            final(self).times() == old(self).times(),
            final(self).position() == step_next(old(self).times().len(), old(self).position()),
    {
        if self.times.len() > 0 && self.current < self.times.len() - 1 {
            self.current = self.current + 1;
        }
    }

    /// Moves to the preceding entry unless the cursor is on the first one.
    pub fn prev(&mut self)
        requires
            old(self).well_formed(),
        ensures
            final(self).well_formed(),
            final(self).times() == old(self).times(),
            final(self).position() == step_prev(old(self).position()),
    {
        if self.current > 0 {
            self.current = self.current - 1;
        }
    }

    /// Moves directly to entry `pos`, or to the last entry when `pos` lies past it.
    pub fn jump(&mut self, pos: usize)
        requires
            old(self).well_formed(),
        ensures
            final(self).well_formed(),
            final(self).times() == old(self).times(),
            final(self).position() == if old(self).times().len() == 0 {
                0
            } else if pos < old(self).times().len() {
                pos as nat
            } else {
                (old(self).times().len() - 1) as nat
            },
    {
        if self.times.len() == 0 {
            self.current = 0;
        } else if pos < self.times.len() {
            self.current = pos;
        } else {
            self.current = self.times.len() - 1;
        }
    }

    pub fn len(&self) -> (r: usize)
        ensures
            r == self.times().len(),
    {
        self.times.len()
    }

    pub fn position_index(&self) -> (r: usize)
        ensures
            r == self.position(),
    {
        self.current
    }

    /// The time identifier under the cursor, `None` on an empty index.
    pub fn current_time(&self) -> (r: Option<u64>)
        requires
            self.well_formed(),
        ensures
            r == if self.times().len() == 0 {
                None
            } else {
                Some(self.times()[self.position() as int])
            },
    {
        if self.times.len() == 0 {
            None
        } else {
            Some(self.times[self.current])
        }
    }

    /// The time identifier of entry `i`.
    pub fn time_at(&self, i: usize) -> (r: u64)
        requires
            i < self.times().len(),
        ensures
            r == self.times()[i as int],
    {
        self.times[i]
    }
}

/// Rebuilding the index ignores what the index held before, so two rebuilds
/// from the same frames with the same range give the same entries, and the
/// cursor is on the first entry after either.
pub proof fn lemma_rebuild_idempotent(
    first: EventIndex,
    second: EventIndex,
    frames: Seq<FrameEvents>,
    range: AmplitudeRange,
)
    requires
        first.times() == matching_times(frames, range),
        first.position() == 0,
        second.times() == matching_times(frames, range),
        second.position() == 0,
    ensures
        first.times() == second.times(),
        first.position() == second.position(),
{
}

/// `a` and `b` lie closer than `window` to each other.
pub open spec fn within(a: u64, b: u64, window: u64) -> bool {
    if a >= b {
        a - b < window
    } else {
        b - a < window
    }
}

/// The frame times around entry `pos` of the time-sorted `times` that lie
/// closer than `window` to it, in time order, the entry itself left out.
/// The scan starts at `pos` and stops on each side at the first time outside
/// the window, so its cost follows the number of neighbours found.
pub fn neighbors(times: &Vec<u64>, pos: usize, window: u64) -> (r: Vec<u64>)
    requires
        pos < times.len(),
        strictly_increasing(times@),
    ensures
        strictly_increasing(r@),
        forall|t: u64| r@.contains(t) <==> exists|j: int|
            0 <= j < times.len() && j != pos && times@[j] == t && within(t, times@[pos as int], window),
{
    let center = times[pos];
    let mut lo: usize = pos;
    while lo > 0 && center - times[lo - 1] < window
        invariant
            0 <= lo <= pos < times.len(),
            center == times@[pos as int],
            strictly_increasing(times@),
            forall|j: int| lo <= j <= pos ==> center - times@[j] < window || j == pos,
        decreases lo,
    {
        lo = lo - 1;
    }
    let mut hi: usize = pos + 1;
    while hi < times.len() && times[hi] - center < window
        invariant
            pos < hi <= times.len(),
            center == times@[pos as int],
            strictly_increasing(times@),
            forall|j: int| pos < j < hi ==> times@[j] - center < window,
        decreases times.len() - hi,
    {
        hi = hi + 1;
    }
    let mut r: Vec<u64> = Vec::new();
    let mut i: usize = lo;
    while i < hi
        invariant
            lo <= pos < hi <= times.len(),
            lo <= i <= hi,
            r@ == if i <= pos {
                times@.subrange(lo as int, i as int)
            } else {
                times@.subrange(lo as int, pos as int) + times@.subrange(pos + 1, i as int)
            },
        decreases hi - i,
    {
        if i != pos {
            r.push(times[i]);
        }
        proof {
            if i < pos {
                assert(r@ =~= times@.subrange(lo as int, i + 1));
            } else if i == pos {
                assert(times@.subrange(pos + 1, i + 1) =~= Seq::<u64>::empty());
                assert(r@ =~= times@.subrange(lo as int, pos as int) + times@.subrange(pos + 1, i + 1));
            } else {
                assert(r@ =~= times@.subrange(lo as int, pos as int) + times@.subrange(pos + 1, i + 1));
            }
        }
        i = i + 1;
    }
    proof {
        let left = times@.subrange(lo as int, pos as int);
        let right = times@.subrange(pos + 1, hi as int);
        assert(r@ == left + right);
        assert forall|a: int, b: int| 0 <= a < b < r@.len() implies r@[a] < r@[b] by {
            if b < left.len() {
                assert(r@[a] == times@[lo + a]);
                assert(r@[b] == times@[lo + b]);
            } else if a < left.len() {
                assert(r@[a] == times@[lo + a]);
                assert(r@[b] == times@[pos + 1 + b - left.len()]);
            } else {
                assert(r@[a] == times@[pos + 1 + a - left.len()]);
                assert(r@[b] == times@[pos + 1 + b - left.len()]);
            }
        }
        assert forall|t: u64| r@.contains(t) <==> exists|j: int|
            0 <= j < times.len() && j != pos && times@[j] == t && within(t, times@[pos as int], window) by {
            if r@.contains(t) {
                let a = choose|a: int| 0 <= a < r@.len() && r@[a] == t;
                if a < left.len() {
                    assert(r@[a] == times@[lo + a]);
                    assert(times@[lo + a] < center);
                } else {
                    assert(r@[a] == times@[pos + 1 + a - left.len()]);
                }
            }
            if exists|j: int| 0 <= j < times.len() && j != pos && times@[j] == t && within(t, times@[pos as int], window) {
                let j = choose|j: int| 0 <= j < times.len() && j != pos && times@[j] == t && within(t, times@[pos as int], window);
                if j < pos {
                    if j < lo {
                        assert(times@[j] < times@[lo - 1]);
                    }
                    assert(r@[j - lo] == t);
                } else {
                    if j >= hi {
                        assert(times@[hi as int] <= times@[j]);
                    }
                    assert(r@[left.len() + j - pos - 1] == t);
                }
            }
        }
    }
    r
}

} // verus!
