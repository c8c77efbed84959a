use vstd::prelude::*;

verus! {

/// What is known of one source file: whether it is opened in the viewer,
/// the source modification time (nanoseconds since the epoch) as of the last
/// successful computation, and the derived data computed from it.
pub struct PointState<H> {
    pub opened: bool,
    pub modified: Option<u64>,
    pub data: Option<H>,
}

/// The entry written for a path that has no result yet, or whose computation failed.
pub open spec fn empty_point<H>() -> PointState<H> {
    PointState { opened: false, modified: None, data: None }
}

/// The entry that a finished job writes: its result, or the empty entry on failure.
pub open spec fn result_or_empty<H>(r: Option<PointState<H>>) -> PointState<H> {
    match r {
        Some(s) => s,
        None => empty_point(),
    }
}

/// A path needs (re)processing when it has no entry, when recomputation is
/// forced, or when the stored modification time is older than the source's.
/// An unknown time on either side counts as stale.
pub open spec fn needs_processing_spec<H>(
    m: Map<Seq<char>, PointState<H>>,
    path: Seq<char>,
    force: bool,
    source_modified: Option<u64>,
) -> bool {
    force || !m.contains_key(path) || match (source_modified, m[path].modified) {
        (Some(now), Some(then)) => then < now,
        _ => true,
    }
}

/// Whether some string of `v` reads `p`.
pub open spec fn holds_path(v: Seq<String>, p: Seq<char>) -> bool {
    exists|a: int| 0 <= a < v.len() && v[a]@ == p
}

/// The strings of `v` read pairwise differently.
pub open spec fn distinct_paths(v: Seq<String>) -> bool {
    forall|a: int, b: int| 0 <= a < b < v.len() ==> v[a]@ != v[b]@
}

/// `s` with its `opened` flag set to `opened`.
pub open spec fn with_opened<H>(s: PointState<H>, opened: bool) -> PointState<H> {
    PointState { opened, modified: s.modified, data: s.data }
}

/// The entry of `path` in `m`, or the empty entry.
pub open spec fn entry_or_empty<H>(m: Map<Seq<char>, PointState<H>>, path: Seq<char>) -> PointState<H> {
    if m.contains_key(path) {
        m[path]
    } else {
        empty_point()
    }
}

impl<H> PointState<H> {
    pub fn empty() -> (r: PointState<H>)
        ensures
            r == empty_point::<H>(),
    {
        PointState { opened: false, modified: None, data: None }
    }
}

/// The entry a job produces from what the extraction chain returned: `None`
/// when reading the source failed, the empty entry when the source held
/// nothing to extract, and otherwise an opened entry with the derived data and
/// the source modification time read before the computation.
pub fn process_point<H>(modified: Option<u64>, extracted: Option<Option<H>>) -> (r: Option<PointState<H>>)
    ensures
        r == match extracted {
            None => None,
            Some(None) => Some(empty_point::<H>()),
            Some(Some(data)) => Some(PointState { opened: true, modified, data: Some(data) }),
        },
{
    match extracted {
        None => None,
        Some(None) => Some(PointState::empty()),
        Some(Some(data)) => Some(PointState { opened: true, modified, data: Some(data) }),
    }
}

/// Map from path to value, kept as two vectors of equal length; paths are unique.
pub struct PathMap<V> {
    paths: Vec<String>,
    values: Vec<V>,
}

impl<V> PathMap<V> {
    /// Paths are unique and each has its value.
    pub closed spec fn well_formed(self) -> bool {
        &&& self.paths.len() == self.values.len()
        &&& forall|i: int, j: int|
            0 <= i < j < self.paths.len() ==> self.paths@[i]@ != self.paths@[j]@
    }

    spec fn has_path(self, path: Seq<char>) -> bool {
        exists|i: int| 0 <= i < self.paths.len() && self.paths@[i]@ == path
    }

    spec fn index_of(self, path: Seq<char>) -> int {
        choose|i: int| 0 <= i < self.paths.len() && self.paths@[i]@ == path
    }

    pub closed spec fn view(self) -> Map<Seq<char>, V> {
        Map::new(|p: Seq<char>| self.has_path(p), |p: Seq<char>| self.values@[self.index_of(p)])
    }

    proof fn lemma_slot(self, i: int)
        requires
            self.well_formed(),
            0 <= i < self.paths.len(),
        ensures
            self@.contains_key(self.paths@[i]@),
            self@[self.paths@[i]@] == self.values@[i],
            self.index_of(self.paths@[i]@) == i,
    {
        let p = self.paths@[i]@;
        assert(self.has_path(p));
        let j = self.index_of(p);
        if j < i {
            assert(self.paths@[j]@ != self.paths@[i]@);
        } else if i < j {
            assert(self.paths@[i]@ != self.paths@[j]@);
        }
    }

    pub fn new() -> (r: PathMap<V>)
        ensures
            r.well_formed(),
            r@ == Map::<Seq<char>, V>::empty(),
    {
        let r = PathMap { paths: Vec::new(), values: Vec::new() };
        assert(r@ =~= Map::<Seq<char>, V>::empty());
        r
    }

    fn find(&self, path: &String) -> (r: Option<usize>)
        requires
            self.well_formed(),
        ensures
            match r {
                Some(i) => i < self.paths.len() && self.paths@[i as int]@ == path@,
                None => !self@.contains_key(path@),
            },
    {
        let mut i: usize = 0;
        while i < self.paths.len()
            invariant
                i <= self.paths.len(),
                forall|j: int| 0 <= j < i ==> self.paths@[j]@ != path@,
            decreases self.paths.len() - i,
        {
            if self.paths[i] == *path {
                return Some(i);
            }
            i = i + 1;
        }
        None
    }

    /// The entry stored for `path`, if any.
    pub fn get(&self, path: &String) -> (r: Option<&V>)
        requires
            self.well_formed(),
        ensures
            match r {
                Some(s) => self@.contains_key(path@) && *s == self@[path@],
                None => !self@.contains_key(path@),
            },
    {
        match self.find(path) {
            Some(i) => {
                proof {
                    self.lemma_slot(i as int);
                }
                Some(&self.values[i])
            },
            None => None,
        }
    }

    proof fn lemma_update_slot(old_store: Self, new_store: Self, i: int, v: V)
        requires
            old_store.well_formed(),
            0 <= i < old_store.paths.len(),
            new_store.paths@ == old_store.paths@,
            new_store.values@ == old_store.values@.update(i, v),
        ensures
            new_store.well_formed(),
            new_store@ == old_store@.insert(old_store.paths@[i]@, v),
    {
        let k = old_store.paths@[i]@;
        assert forall|p: Seq<char>|
            #![trigger new_store@.contains_key(p)]
            #![trigger old_store@.insert(k, v).contains_key(p)]
            new_store@.contains_key(p) == old_store@.insert(k, v).contains_key(p)
            && (new_store@.contains_key(p) ==> new_store@[p] == old_store@.insert(k, v)[p]) by {
            if new_store.has_path(p) {
                let j = choose|j: int| 0 <= j < new_store.paths.len() && new_store.paths@[j]@ == p;
                new_store.lemma_slot(j);
                old_store.lemma_slot(j);
                old_store.lemma_slot(i);
            } else if p == k {
                assert(new_store.paths@[i]@ == p);
            } else if old_store.has_path(p) {
                let j = choose|j: int| 0 <= j < old_store.paths.len() && old_store.paths@[j]@ == p;
                assert(new_store.paths@[j]@ == p);
            }
        }
        assert(new_store@ =~= old_store@.insert(k, v));
    }

    proof fn lemma_push(old_store: Self, new_store: Self, path: String, v: V)
        requires
            old_store.well_formed(),
            !old_store@.contains_key(path@),
            new_store.paths@ == old_store.paths@.push(path),
            new_store.values@ == old_store.values@.push(v),
        ensures
            new_store.well_formed(),
            new_store@ == old_store@.insert(path@, v),
    {
        let n = old_store.paths.len() as int;
        let k = path@;
        assert forall|a: int, b: int|
            0 <= a < b < new_store.paths.len() implies new_store.paths@[a]@ != new_store.paths@[b]@ by {
            assert(old_store.paths@[a] == new_store.paths@[a]);
            if b == n {
                if old_store.has_path(new_store.paths@[b]@) {
                    let j = choose|j: int| 0 <= j < old_store.paths.len() && old_store.paths@[j]@ == k;
                    old_store.lemma_slot(j);
                }
            } else {
                assert(old_store.paths@[b] == new_store.paths@[b]);
            }
        }
        assert forall|p: Seq<char>|
            #![trigger new_store@.contains_key(p)]
            #![trigger old_store@.insert(k, v).contains_key(p)]
            new_store@.contains_key(p) == old_store@.insert(k, v).contains_key(p)
            && (new_store@.contains_key(p) ==> new_store@[p] == old_store@.insert(k, v)[p]) by {
            if new_store.has_path(p) {
                let j = choose|j: int| 0 <= j < new_store.paths.len() && new_store.paths@[j]@ == p;
                new_store.lemma_slot(j);
                if j < n {
                    assert(old_store.paths@[j] == new_store.paths@[j]);
                    old_store.lemma_slot(j);
                }
            } else if p == k {
                assert(new_store.paths@[n]@ == p);
            } else if old_store.has_path(p) {
                let j = choose|j: int| 0 <= j < old_store.paths.len() && old_store.paths@[j]@ == p;
                assert(old_store.paths@[j] == new_store.paths@[j]);
                assert(new_store.paths@[j]@ == p);
            }
        }
        assert(new_store@ =~= old_store@.insert(k, v));
    }

    /// Writes `value` for `path`, overwriting any earlier entry.
    pub fn insert(&mut self, path: String, value: V)
        requires
            old(self).well_formed(),
        ensures
            final(self).well_formed(),
            final(self)@ == old(self)@.insert(path@, value),
    {
        let ghost old_self = *self;
        let ghost gpath = path;
        match self.find(&path) {
            Some(i) => {
                self.values.set(i, value);
                proof {
                    PathMap::lemma_update_slot(old_self, *self, i as int, value);
                }
            },
            None => {
                self.paths.push(path);
                self.values.push(value);
                proof {
                    PathMap::lemma_push(old_self, *self, gpath, value);
                }
            },
        }
    }

    /// Writes what a finished job produced for `path`: its result, or the

    proof fn lemma_len(self)
        requires
            self.well_formed(),
        ensures
            self@.len() == self.paths.len(),
    {
        let keys = Seq::new(self.paths.len() as nat, |i: int| self.paths@[i]@);
        assert(keys.no_duplicates());
        assert forall|p: Seq<char>| self@.dom().contains(p) <==> keys.contains(p) by {
            if self@.dom().contains(p) {
                let j = choose|j: int| 0 <= j < self.paths.len() && self.paths@[j]@ == p;
                assert(keys[j] == p);
            }
        }
        assert(self@.dom() =~= keys.to_set());
        keys.unique_seq_to_set();
    }

    /// Number of entries.
    pub fn len(&self) -> (r: usize)
        requires
            self.well_formed(),
        ensures
            r == self@.len(),
    {
        proof {
            self.lemma_len();
        }
        self.paths.len()
    }

    /// Entry `i` in the store's own order, for walking a snapshot.
    pub fn entry_at(&self, i: usize) -> (r: (&String, &V))
        requires
            self.well_formed(),
            i < self@.len(),
        ensures
            self@.contains_key(r.0@),
            *r.1 == self@[r.0@],
    {
        proof {
            self.lemma_len();
            self.lemma_slot(i as int);
        }
        (&self.paths[i], &self.values[i])
    }

    /// Removes every entry.
    pub fn clear(&mut self)
        ensures
            final(self).well_formed(),
            final(self)@ == Map::<Seq<char>, V>::empty(),
    {
        self.paths.clear();
        self.values.clear();
        assert(self@ =~= Map::<Seq<char>, V>::empty());
    }
}

/// The shared result store: from source path to its `PointState`. Entries are
/// never removed one by one, only all at once by `clear`.
pub type ResultStore<H> = PathMap<PointState<H>>;

impl<H> PathMap<PointState<H>> {
    /// empty entry when the computation failed, so that the path is never absent.
    pub fn store_result(&mut self, path: String, result: Option<PointState<H>>)
        requires
            old(self).well_formed(),
        ensures
            final(self).well_formed(),
            final(self)@ == old(self)@.insert(path@, result_or_empty(result)),
    {
        let state = match result {
            Some(s) => s,
            None => PointState::empty(),
        };
        self.insert(path, state);
    }

    /// Marks `path` opened or closed, creating its empty entry if it has none.
    pub fn set_opened(&mut self, path: String, opened: bool)
        requires
            old(self).well_formed(),
        ensures
            final(self).well_formed(),
            final(self)@ == old(self)@.insert(path@, with_opened(entry_or_empty(old(self)@, path@), opened)),
    {
        let ghost old_self = *self;
        let ghost gpath = path;
        match self.find(&path) {
            Some(i) => {
                proof {
                    old_self.lemma_slot(i as int);
                }
                self.values[i].opened = opened;
                proof {
                    assert(self.values@ =~= old_self.values@.update(i as int, with_opened(old_self.values@[i as int], opened)));
                    PathMap::lemma_update_slot(old_self, *self, i as int, with_opened(old_self.values@[i as int], opened));
                }
            },
            None => {
                let state = PointState { opened, modified: None, data: None };
                self.paths.push(path);
                self.values.push(state);
                proof {
                    PathMap::lemma_push(old_self, *self, gpath, state);
                }
            },
        }
    }

    /// Opens `path` and closes every other entry.
    pub fn open_exclusive(&mut self, path: String)
        requires
            old(self).well_formed(),
        ensures
            final(self).well_formed(),
            final(self)@.dom() == old(self)@.dom().insert(path@),
            forall|p: Seq<char>| #[trigger] final(self)@.contains_key(p) ==>
                final(self)@[p] == with_opened(entry_or_empty(old(self)@, p), p == path@),
    {
        let ghost old_self = *self;
        let ghost k = path@;
        let target = path.clone();
        self.set_opened(path, true);
        let ghost mid = *self;
        let mut i: usize = 0;
        while i < self.paths.len()
            invariant
                self.well_formed(),
                self.paths@ == mid.paths@,
                target@ == k,
                mid@.contains_key(k),
                mid@[k].opened,
                0 <= i <= self.paths.len(),
                forall|j: int| 0 <= j < i ==> self.values@[j] == with_opened(mid.values@[j], mid.paths@[j]@ == k),
                self.values.len() == mid.values.len(),
                forall|j: int| i <= j < self.paths.len() ==> self.values@[j] == mid.values@[j],
            decreases self.paths.len() - i,
        {
            if !(self.paths[i] == target) {
                let ghost before = self.values@;
                self.values[i].opened = false;
                assert(self.values@ == before.update(i as int, with_opened(before[i as int], false)));
            } else {
                proof {
                    mid.lemma_slot(i as int);
                }
            }
            i = i + 1;
        }
        proof {
            assert forall|p: Seq<char>| self.has_path(p) <==> mid.has_path(p) by {
                if self.has_path(p) {
                    let j = choose|j: int| 0 <= j < self.paths.len() && self.paths@[j]@ == p;
                    assert(mid.paths@[j]@ == p);
                }
                if mid.has_path(p) {
                    let j = choose|j: int| 0 <= j < mid.paths.len() && mid.paths@[j]@ == p;
                    assert(self.paths@[j]@ == p);
                }
            }
            assert(self@.dom() =~= mid@.dom());
            assert forall|p: Seq<char>| #[trigger] self@.contains_key(p) implies
                self@[p] == with_opened(entry_or_empty(old_self@, p), p == k) by {
                let j = choose|j: int| 0 <= j < self.paths.len() && self.paths@[j]@ == p;
                self.lemma_slot(j);
                mid.lemma_slot(j);
            }
        }
    }

    /// The paths whose entries are opened, each once.
    pub fn opened_paths(&self) -> (r: Vec<String>)
        requires
            self.well_formed(),
        ensures
            distinct_paths(r@),
            forall|p: Seq<char>| #[trigger] holds_path(r@, p) <==> (self@.contains_key(p) && self@[p].opened),
    {
        let mut r: Vec<String> = Vec::new();
        let ghost mut idx: Seq<int> = Seq::empty();
        let mut i: usize = 0;
        while i < self.paths.len()
            invariant
                self.well_formed(),
                0 <= i <= self.paths.len(),
                idx.len() == r.len(),
                forall|a: int| 0 <= a < r.len() ==> 0 <= #[trigger] idx[a] < i,
                forall|a: int| 0 <= a < r.len() ==> r@[a]@ == self.paths@[#[trigger] idx[a]]@,
                forall|a: int| 0 <= a < r.len() ==> self.values@[#[trigger] idx[a]].opened,
                forall|a: int, b: int| 0 <= a < b < r.len() ==> idx[a] < idx[b],
                forall|j: int| 0 <= j < i && #[trigger] self.values@[j].opened ==> exists|a: int| 0 <= a < r.len() && idx[a] == j,
            decreases self.paths.len() - i,
        {
            if self.values[i].opened {
                r.push(self.paths[i].clone());
                proof {
                    let ghost before = idx;
                    idx = idx.push(i as int);
                    assert forall|j: int| 0 <= j < i + 1 && #[trigger] self.values@[j].opened implies exists|a: int| 0 <= a < r.len() && idx[a] == j by {
                        if j < i {
                            let a = choose|a: int| 0 <= a < before.len() && before[a] == j;
                            assert(idx[a] == j);
                        } else {
                            assert(idx[r.len() - 1] == j);
                        }
                    }
                }
            }
            i = i + 1;
        }
        proof {
            assert forall|a: int, b: int| 0 <= a < b < r.len() implies r@[a]@ != r@[b]@ by {
                assert(idx[a] < idx[b]);
            }
            assert forall|p: Seq<char>| #[trigger] holds_path(r@, p) <==> (self@.contains_key(p) && self@[p].opened) by {
                if exists|a: int| 0 <= a < r.len() && r@[a]@ == p {
                    let a = choose|a: int| 0 <= a < r.len() && r@[a]@ == p;
                    self.lemma_slot(idx[a]);
                }
                if self@.contains_key(p) && self@[p].opened {
                    let j = choose|j: int| 0 <= j < self.paths.len() && self.paths@[j]@ == p;
                    self.lemma_slot(j);
                    let a = choose|a: int| 0 <= a < r.len() && idx[a] == j;
                    assert(r@[a]@ == p);
                }
            }
        }
        r
    }

    /// Whether the job for `path` has to compute, given the recompute flag and
    /// the source's current modification time (`None` when it could not be read).
    pub fn needs_processing(&self, path: &String, force: bool, source_modified: Option<u64>) -> (r: bool)
        requires
            self.well_formed(),
        ensures
            r == needs_processing_spec(self@, path@, force, source_modified),
    {
        if force {
            return true;
        }
        match self.get(path) {
            None => true,
            Some(state) => match (source_modified, state.modified) {
                (Some(now), Some(then)) => then < now,
                _ => true,
            },
        }
    }
}

} // verus!
