use vstd::prelude::*;
use crate::index::{cursor_in_range, step_next, step_prev};

verus! {

/// One event of the stream: the time of its frame (nanoseconds), its offset
/// within the frame, its channel and the value to display.
pub struct TimedEvent<V> {
    pub time: u64,
    pub offset: u64,
    pub channel: u8,
    pub value: V,
}

/// One entry of a chunk: channel, time within the chunk, value.
pub struct ChunkEntry<V> {
    pub channel: u8,
    pub offset: u64,
    pub value: V,
}

/// Absolute time of an event.
pub open spec fn event_time<V>(e: TimedEvent<V>) -> int {
    e.time + e.offset
}

/// The events' absolute times fit in a `u64`.
pub open spec fn times_fit<V>(events: Seq<TimedEvent<V>>) -> bool {
    forall|i: int| 0 <= i < events.len() ==> event_time(#[trigger] events[i]) <= u64::MAX
}

/// Index of the chunk that an event falls in.
pub open spec fn bin_of<V>(e: TimedEvent<V>, width: u64) -> int
    recommends
        width > 0,
{
    event_time(e) / (width as int)
}

/// The entry that an event becomes in its chunk.
pub open spec fn entry_of<V>(e: TimedEvent<V>, width: u64) -> ChunkEntry<V>
    recommends
        width > 0,
{
    ChunkEntry { channel: e.channel, offset: (event_time(e) % (width as int)) as u64, value: e.value }
}

/// Number of chunks: enough to hold the highest chunk index seen, and at least one.
pub open spec fn chunk_count<V>(events: Seq<TimedEvent<V>>, width: u64) -> int
    decreases events.len(),
{
    if events.len() == 0 {
        1
    } else {
        let rest = chunk_count(events.drop_last(), width);
        let b = bin_of(events.last(), width) + 1;
        if b > rest {
            b
        } else {
            rest
        }
    }
}

/// The entries of chunk `b`, in stream order.
pub open spec fn chunk_contents<V>(events: Seq<TimedEvent<V>>, width: u64, b: int) -> Seq<ChunkEntry<V>>
    decreases events.len(),
{
    if events.len() == 0 {
        Seq::empty()
    } else {
        let rest = chunk_contents(events.drop_last(), width, b);
        if bin_of(events.last(), width) == b {
            rest.push(entry_of(events.last(), width))
        } else {
            rest
        }
    }
}

proof fn lemma_chunk_count_positive<V>(events: Seq<TimedEvent<V>>, width: u64)
    ensures
        chunk_count(events, width) >= 1,
    decreases events.len(),
{
    if events.len() > 0 {
        lemma_chunk_count_positive(events.drop_last(), width);
    }
}

/// Buckets the events into chunks of `width` nanoseconds: chunk `b` holds, in
/// stream order, the events whose time falls in `[b * width, (b + 1) * width)`,
/// each with its time within the chunk. The chunk list grows as higher chunk
/// indices are met and always holds at least one chunk.
pub fn point_to_chunks<V: Copy>(events: &Vec<TimedEvent<V>>, width: u64) -> (r: Vec<Vec<ChunkEntry<V>>>)
    requires
        width > 0,
        times_fit(events@),
    ensures
        r.len() == chunk_count(events@, width),
        forall|b: int| 0 <= b < r.len() ==> (#[trigger] r@[b])@ == chunk_contents(events@, width, b),
{
    let mut r: Vec<Vec<ChunkEntry<V>>> = Vec::new();
    r.push(Vec::new());
    let mut i: usize = 0;
    while i < events.len()
        invariant
            width > 0,
            times_fit(events@),
            0 <= i <= events.len(),
            r.len() == chunk_count(events@.subrange(0, i as int), width),
            forall|b: int| 0 <= b < r.len() ==> (#[trigger] r@[b])@ == chunk_contents(events@.subrange(0, i as int), width, b),
        decreases events.len() - i,
    {
        let ghost prefix = events@.subrange(0, i as int);
        let ghost next = events@.subrange(0, i + 1);
        let ghost e = events@[i as int];
        proof {
            assert(next.drop_last() =~= prefix);
            lemma_chunk_count_positive(prefix, width);
            assert(event_time(e) <= u64::MAX);
        }
        let t = events[i].time + events[i].offset;
        let b: u64 = t / width;
        while (r.len() as u64) <= b
            invariant
                width > 0,
                b == bin_of(e, width),
                r.len() >= chunk_count(prefix, width),
                r.len() == chunk_count(prefix, width) || r.len() <= b + 1,
                forall|c: int| 0 <= c < chunk_count(prefix, width) ==> (#[trigger] r@[c])@ == chunk_contents(prefix, width, c),
                forall|c: int| chunk_count(prefix, width) <= c < r.len() ==> (#[trigger] r@[c])@ == Seq::<ChunkEntry<V>>::empty(),
            decreases b + 1 - r.len(),
        {
            let ghost before = r@;
            r.push(Vec::new());
            proof {
                assert forall|c: int| chunk_count(prefix, width) <= c < r.len() implies (#[trigger] r@[c])@ == Seq::<ChunkEntry<V>>::empty() by {
                    if c < before.len() {
                        assert(r@[c] == before[c]);
                    }
                }
            }
        }
        let entry = ChunkEntry { channel: events[i].channel, offset: t % width, value: events[i].value };
        let bi = b as usize;
        let ghost before = r@;
        r[bi].push(entry);
        proof {
            assert(e == next.last());
            assert(entry == entry_of(e, width));
            assert forall|c: int| 0 <= c < r.len() implies (#[trigger] r@[c])@ == chunk_contents(next, width, c) by {
                if c >= chunk_count(prefix, width) {
                    lemma_contents_beyond_count(prefix, width, c);
                }
                if c != bi {
                    assert(r@[c] == before[c]);
                }
            }
        }
        i = i + 1;
    }
    proof {
        assert(events@.subrange(0, events@.len() as int) =~= events@);
    }
    r
}

proof fn lemma_contents_beyond_count<V>(events: Seq<TimedEvent<V>>, width: u64, b: int)
    requires
        b >= chunk_count(events, width),
    ensures
        chunk_contents(events, width, b) == Seq::<ChunkEntry<V>>::empty(),
    decreases events.len(),
{
    if events.len() > 0 {
        lemma_contents_beyond_count(events.drop_last(), width, b);
    }
}

/// Nanoseconds in a millisecond.
pub const NANOS_PER_MILLI: u64 = 1_000_000;

/// The chunks of a stream and the chunk on display.
pub struct ChunkView<V> {
    chunks: Vec<Vec<ChunkEntry<V>>>,
    current_chunk: usize,
}

impl<V> ChunkView<V> {
    pub closed spec fn chunks(self) -> Seq<Seq<ChunkEntry<V>>> {
        self.chunks@.map_values(|c: Vec<ChunkEntry<V>>| c@)
    }

    pub closed spec fn position(self) -> nat {
        self.current_chunk as nat
    }

    pub open spec fn well_formed(self) -> bool {
        cursor_in_range(self.chunks().len(), self.position())
    }

    /// The chunks of `events` for chunks `limit_ms` milliseconds wide, with the
    /// first chunk on display. Chunks are always computed afresh from the events.
    pub fn recalculate_chunks(events: &Vec<TimedEvent<V>>, limit_ms: u64) -> (r: ChunkView<V>)
        where
            V: Copy,
        requires
            limit_ms >= 1,
            limit_ms * NANOS_PER_MILLI <= u64::MAX,
            times_fit(events@),
        ensures
            r.well_formed(),
            r.position() == 0,
            r.chunks().len() == chunk_count(events@, (limit_ms * NANOS_PER_MILLI) as u64),
            forall|b: int| 0 <= b < r.chunks().len() ==>
                #[trigger] r.chunks()[b] == chunk_contents(events@, (limit_ms * NANOS_PER_MILLI) as u64, b),
    {
        let chunks = point_to_chunks(events, limit_ms * NANOS_PER_MILLI);
        let r = ChunkView { chunks, current_chunk: 0 };
        proof {
            lemma_chunk_count_positive(events@, (limit_ms * NANOS_PER_MILLI) as u64);
            assert forall|b: int| 0 <= b < r.chunks().len() implies
                #[trigger] r.chunks()[b] == chunk_contents(events@, (limit_ms * NANOS_PER_MILLI) as u64, b) by {
                assert(r.chunks@[b]@ == chunk_contents(events@, (limit_ms * NANOS_PER_MILLI) as u64, b));
            }
        }
        r
    }

    /// Moves to the following chunk unless the last is on display.
    pub fn next(&mut self)
        requires
            old(self).well_formed(),
        ensures
            final(self).well_formed(),
            final(self).chunks() == old(self).chunks(),
            final(self).position() == step_next(old(self).chunks().len(), old(self).position()),
    {
        if self.chunks.len() > 0 && self.current_chunk < self.chunks.len() - 1 {
            self.current_chunk = self.current_chunk + 1;
        }
    }

    /// Moves to the preceding chunk unless the first is on display.
    pub fn prev(&mut self)
        requires
            old(self).well_formed(),
        ensures
            final(self).well_formed(),
            final(self).chunks() == old(self).chunks(),
            final(self).position() == step_prev(old(self).position()),
    {
        if self.current_chunk > 0 {
            self.current_chunk = self.current_chunk - 1;
        }
    }

    pub fn len(&self) -> (r: usize)
        ensures
            r == self.chunks().len(),
    {
        self.chunks.len()
    }

    pub fn current_chunk(&self) -> (r: usize)
        ensures
            r == self.position(),
    {
        self.current_chunk
    }

    /// The entries of chunk `i`.
    pub fn chunk(&self, i: usize) -> (r: &Vec<ChunkEntry<V>>)
        requires
            i < self.chunks().len(),
        ensures
            r@ == self.chunks()[i as int],
    {
        &self.chunks[i]
    }
}

} // verus!
