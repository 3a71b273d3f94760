//! The versioned page repository of one timeline: a log per page, the last
//! received LSN and the consistent-LSN watermark.
use vstd::prelude::*;
use crate::history::{KeyLog, put_record, sorted_by_lsn, all_after};
use crate::redo::{
    RedoError,
    WalRecord,
    lemma_replay_append,
    lemma_replay_skips_newer,
    lemma_replay_target_irrelevant,
    replay,
    replay_spec,
    records_view,
};

verus! {

/// The size of a page that starts out empty.
pub const PAGE_SIZE: usize = 8192;

/// Identifies a page: a relation and a block number within it. Keys order by
/// relation, then block.
#[derive(Clone, Copy, Debug, PartialEq, Eq, Structural, PartialOrd, Ord, Hash)]
pub struct PageKey {
    pub rel: u32,
    pub block: u32,
}

/// What the repository holds for one page.
pub struct KeyHistory {
    pub base_lsn: u64,
    pub base: Seq<u8>,
    pub records: Seq<(u64, Seq<u8>)>,
}

/// The abstract state of a repository.
pub struct RepoState {
    pub keys: Map<PageKey, KeyHistory>,
    pub last_received: u64,
    pub consistent: u64,
}

/// A page query's failure.
#[derive(Clone, Copy, Debug, PartialEq, Eq, Structural)]
pub enum PageError {
    /// The key was never observed.
    NotFound,
    /// The requested LSN predates the retained history of the key.
    LsnTooOld,
    /// The requested LSN is past the consistent watermark: the caller waits.
    NotYetConsistent,
    /// The watermark did not reach the requested LSN in time.
    ConsistencyTimeout,
    /// The records could not be replayed.
    Redo(RedoError),
}

/// The image of a page that starts out empty.
pub open spec fn zero_page() -> Seq<u8> {
    Seq::new(PAGE_SIZE as nat, |i: int| 0u8)
}

/// The history of a page that the first record for it creates.
pub open spec fn fresh_history() -> KeyHistory {
    KeyHistory { base_lsn: 0, base: zero_page(), records: Seq::empty() }
}

pub open spec fn max_u64(a: u64, b: u64) -> u64 {
    if a >= b { a } else { b }
}

/// The state after `put(key, lsn, payload)`.
pub open spec fn put_spec(st: RepoState, key: PageKey, lsn: u64, payload: Seq<u8>) -> RepoState {
    let h = if st.keys.contains_key(key) { st.keys[key] } else { fresh_history() };
    RepoState {
        keys: st.keys.insert(
            key,
            KeyHistory { records: put_record(h.records, h.base_lsn, (lsn, payload)), ..h },
        ),
        last_received: max_u64(st.last_received, lsn),
        consistent: st.consistent,
    }
}

/// The state after the watermark is advanced to `lsn`: it never moves back.
pub open spec fn advance_spec(st: RepoState, lsn: u64) -> RepoState {
    RepoState { consistent: max_u64(st.consistent, lsn), ..st }
}

/// Some page of relation `rel` was observed.
pub open spec fn rel_exists_spec(st: RepoState, rel: u32) -> bool {
    exists|k: PageKey| #[trigger] st.keys.contains_key(k) && k.rel == rel
}

/// `n` is one past the highest observed block of `rel`, or 0 when none was.
pub open spec fn is_rel_size(st: RepoState, rel: u32, n: u64) -> bool {
    &&& forall|k: PageKey| #[trigger] st.keys.contains_key(k) && k.rel == rel ==> k.block < n
    &&& n == 0 || exists|k: PageKey| #[trigger] st.keys.contains_key(k) && k.rel == rel && n == k.block + 1
}

/// The answer to a page query on a repository in state `st`.
pub open spec fn page_spec(st: RepoState, key: PageKey, lsn: u64) -> Result<Seq<u8>, PageError> {
    if !st.keys.contains_key(key) {
        Err(PageError::NotFound)
    } else if lsn < st.keys[key].base_lsn {
        Err(PageError::LsnTooOld)
    } else if lsn > st.consistent {
        Err(PageError::NotYetConsistent)
    } else {
        match replay_spec(st.keys[key].base, st.keys[key].records, lsn) {
            Some(p) => Ok(p),
            None => Err(PageError::Redo(RedoError::MalformedRecord)),
        }
    }
}

struct Entry {
    key: PageKey,
    log: KeyLog,
}

impl Entry {
    spec fn history(&self) -> KeyHistory {
        KeyHistory {
            base_lsn: self.log.base_lsn,
            base: self.log.base@,
            records: self.log.records_spec(),
        }
    }
}

/// The page repository of one timeline.
pub struct Repository {
    entries: Vec<Entry>,
    last_received: u64,
    consistent: u64,
    keys: Ghost<Map<PageKey, KeyHistory>>,
}

impl View for Repository {
    type V = RepoState;

    closed spec fn view(&self) -> RepoState {
        RepoState {
            keys: self.keys@,
            last_received: self.last_received,
            consistent: self.consistent,
        }
    }
}

fn zeroed_page() -> (r: Vec<u8>)
    ensures
        r@ == zero_page(),
{
    let mut v: Vec<u8> = Vec::new();
    let mut i: usize = 0;
    while i < PAGE_SIZE
        invariant
            i <= PAGE_SIZE,
            v@ == Seq::new(i as nat, |k: int| 0u8),
        decreases PAGE_SIZE - i,
    {
        v.push(0);
        i = i + 1;
        assert(v@ =~= Seq::new(i as nat, |k: int| 0u8));
    }
    v
}

impl Repository {
    /// The repository's internal invariant.
    pub closed spec fn wf(&self) -> bool {
        &&& forall|i: int|
            0 <= i < self.entries@.len() ==> {
                &&& self.keys@.contains_key(#[trigger] self.entries@[i].key)
                &&& self.keys@[self.entries@[i].key] == self.entries@[i].history()
                &&& self.entries@[i].log.wf()
            }
        &&& forall|k: PageKey|
            #[trigger] self.keys@.contains_key(k) ==> exists|i: int|
                0 <= i < self.entries@.len() && self.entries@[i].key == k
        &&& forall|i: int, j: int|
            0 <= i < j < self.entries@.len() ==> self.entries@[i].key != self.entries@[j].key
    }

    /// Every log of a well-formed repository is sorted and newer than its base.
    pub proof fn lemma_logs_sorted(&self, key: PageKey)
        requires
            self.wf(),
            self@.keys.contains_key(key),
        ensures
            sorted_by_lsn(self@.keys[key].records),
            all_after(self@.keys[key].records, self@.keys[key].base_lsn),
    {
        let i = choose|i: int| 0 <= i < self.entries@.len() && self.entries@[i].key == key;
        assert(self.keys@.contains_key(self.entries@[i].key));
    }

    /// An empty repository: no keys, both LSNs at zero.
    pub fn new() -> (r: Repository)
        ensures
            r.wf(),
            r@.keys == Map::<PageKey, KeyHistory>::empty(),
            r@.last_received == 0,
            r@.consistent == 0,
    {
        Repository {
            entries: Vec::new(),
            last_received: 0,
            consistent: 0,
            keys: Ghost(Map::empty()),
        }
    }

    fn find(&self, key: PageKey) -> (r: Option<usize>)
        requires
            self.wf(),
        ensures
            match r {
                Some(i) => i < self.entries@.len() && self.entries@[i as int].key == key,
                None => !self@.keys.contains_key(key),
            },
    {
        let mut i: usize = 0;
        while i < self.entries.len()
            invariant
                0 <= i <= self.entries@.len(),
                forall|j: int| 0 <= j < i ==> self.entries@[j].key != key,
            decreases self.entries@.len() - i,
        {
            if self.entries[i].key == key {
                return Some(i);
            }
            i = i + 1;
        }
        None
    }

    /// The last received LSN.
    pub fn last_received_lsn(&self) -> (r: u64)
        ensures
            r == self@.last_received,
    {
        self.last_received
    }

    /// The consistent-LSN watermark.
    pub fn consistent_lsn(&self) -> (r: u64)
        ensures
            r == self@.consistent,
    {
        self.consistent
    }

    /// Publishes that ingestion is complete up to `lsn`. The watermark never
    /// moves back.
    pub fn advance_consistent_lsn(&mut self, lsn: u64)
        requires
            old(self).wf(),
        ensures
            final(self).wf(),
            final(self)@ == advance_spec(old(self)@, lsn),
    {
        if lsn > self.consistent {
            self.consistent = lsn;
        }
        proof {
            Self::lemma_wf_frame(*old(self), *self);
        }
    }

    /// Replacing the entry at `i`, or adding one at the end, keeps the invariant
    /// when the key map changes in step.
    proof fn lemma_store(a: Repository, b: Repository, i: int, e: Entry)
        requires
            a.wf(),
            e.log.wf(),
            0 <= i <= a.entries@.len(),
            i < a.entries@.len() ==> a.entries@[i].key == e.key && b.entries@ == a.entries@.update(i, e),
            i == a.entries@.len() ==> !a@.keys.contains_key(e.key) && b.entries@ == a.entries@.push(e),
            b.keys@ == a.keys@.insert(e.key, e.history()),
        ensures
            b.wf(),
    {
        let old_entries = a.entries@;
        let ne = b.entries@;
        let k = e.key;
        assert(ne.len() == old_entries.len() || ne.len() == old_entries.len() + 1);
        assert(ne[i] == e);
        assert forall|x: int| 0 <= x < ne.len() implies {
            &&& b.keys@.contains_key(#[trigger] ne[x].key)
            &&& b.keys@[ne[x].key] == ne[x].history()
            &&& ne[x].log.wf()
        } by {
            if x != i {
                assert(ne[x] == old_entries[x]);
                assert(a.keys@.contains_key(old_entries[x].key));
                if ne[x].key == k {
                    assert(i < old_entries.len());
                    if x < i {
                        assert(old_entries[x].key != old_entries[i].key);
                    } else {
                        assert(old_entries[i].key != old_entries[x].key);
                    }
                }
            }
        }
        assert forall|kk: PageKey| #[trigger] b.keys@.contains_key(kk) implies exists|x: int|
            0 <= x < ne.len() && ne[x].key == kk by {
            if kk == k {
                assert(ne[i].key == kk);
            } else {
                assert(a.keys@.contains_key(kk));
                let x = choose|x: int| 0 <= x < old_entries.len() && old_entries[x].key == kk;
                assert(ne[x] == old_entries[x]);
            }
        }
        assert forall|x: int, y: int| 0 <= x < y < ne.len() implies ne[x].key != ne[y].key by {
            if x != i && y != i {
                assert(ne[x] == old_entries[x] && ne[y] == old_entries[y]);
            } else if x == i {
                assert(ne[y] == old_entries[y]);
                if i == old_entries.len() {
                } else {
                    assert(old_entries[i].key != old_entries[y].key);
                }
            } else {
                assert(ne[x] == old_entries[x]);
                if i == old_entries.len() {
                    assert(a.keys@.contains_key(old_entries[x].key));
                } else {
                    assert(old_entries[x].key != old_entries[i].key);
                }
            }
        }
    }

    /// Ingests one record for `key`: appended in LSN order, a no-op on a
    /// duplicate LSN or on one the base image covers. A key seen for the first
    /// time starts from an all-zero page at LSN 0. The last received LSN
    /// advances to `lsn` if it was lower.
    pub fn put(&mut self, key: PageKey, lsn: u64, payload: Vec<u8>)
        requires
            old(self).wf(),
        ensures
            final(self).wf(),
            final(self)@ == put_spec(old(self)@, key, lsn, payload@),
    {
        match self.find(key) {
            Some(i) => {
                proof {
                    assert(self.keys@.contains_key(self.entries@[i as int].key));
                }
                let mut e = self.entries.remove(i);
                e.log.put(lsn, payload);
                let ghost h = e.history();
                self.entries.insert(i, e);
                self.keys = Ghost(self.keys@.insert(key, h));
                proof {
                    assert(self.entries@ =~= old(self).entries@.update(i as int, self.entries@[i as int]));
                    Self::lemma_store(*old(self), *self, i as int, self.entries@[i as int]);
                }
            },
            None => {
                let mut log = KeyLog { base_lsn: 0, base: zeroed_page(), records: Vec::new() };
                assert(log.records_spec() =~= Seq::<(u64, Seq<u8>)>::empty());
                log.put(lsn, payload);
                let e = Entry { key, log };
                let ghost h = e.history();
                self.entries.push(e);
                self.keys = Ghost(self.keys@.insert(key, h));
                proof {
                    Self::lemma_store(*old(self), *self, old(self).entries@.len() as int, self.entries@.last());
                }
            },
        }
        let ghost mid = *self;
        if lsn > self.last_received {
            self.last_received = lsn;
        }
        proof {
            Self::lemma_wf_frame(mid, *self);
        }
    }

    /// Bootstraps `key` with an image at `lsn`. Returns false, and changes
    /// nothing, when the key is already known.
    pub fn load_base_image(&mut self, key: PageKey, lsn: u64, image: Vec<u8>) -> (r: bool)
        requires
            old(self).wf(),
        ensures
            final(self).wf(),
            r == !old(self)@.keys.contains_key(key),
            r ==> final(self)@ == (RepoState {
                keys: old(self)@.keys.insert(
                    key,
                    KeyHistory { base_lsn: lsn, base: image@, records: Seq::empty() },
                ),
                ..old(self)@
            }),
            !r ==> final(self)@ == old(self)@,
    {
        match self.find(key) {
            Some(_) => false,
            None => {
                let log = KeyLog { base_lsn: lsn, base: image, records: Vec::new() };
                assert(log.records_spec() =~= Seq::<(u64, Seq<u8>)>::empty());
                let e = Entry { key, log };
                let ghost h = e.history();
                self.entries.push(e);
                self.keys = Ghost(self.keys@.insert(key, h));
                proof {
                    Self::lemma_store(*old(self), *self, old(self).entries@.len() as int, self.entries@.last());
                }
                true
            },
        }
    }

    /// The image of `key` as of `lsn`: replays the key's records up to `lsn`
    /// on its base image. Fails with `NotFound` for an unknown key, with
    /// `LsnTooOld` below the key's retained history, and with
    /// `NotYetConsistent` above the watermark.
    pub fn get_page(&self, key: PageKey, lsn: u64) -> (r: Result<Vec<u8>, PageError>)
        requires
            self.wf(),
        ensures
            match r {
                Ok(img) => page_spec(self@, key, lsn) == Ok::<Seq<u8>, PageError>(img@),
                Err(e) => page_spec(self@, key, lsn) == Err::<Seq<u8>, PageError>(e),
            },
    {
        match self.find(key) {
            None => Err(PageError::NotFound),
            Some(i) => {
                let e = &self.entries[i];
                proof {
                    assert(self.keys@.contains_key(self.entries@[i as int].key));
                }
                if lsn < e.log.base_lsn {
                    Err(PageError::LsnTooOld)
                } else if lsn > self.consistent {
                    Err(PageError::NotYetConsistent)
                } else {
                    match replay(&e.log.base, &e.log.records, lsn) {
                        Ok(img) => Ok(img),
                        Err(_) => Err(PageError::Redo(RedoError::MalformedRecord)),
                    }
                }
            },
        }
    }

    /// Whether any page of relation `rel` was observed.
    pub fn rel_exists(&self, rel: u32) -> (r: bool)
        requires
            self.wf(),
        ensures
            r == rel_exists_spec(self@, rel),
    {
        let mut i: usize = 0;
        while i < self.entries.len()
            invariant
                0 <= i <= self.entries@.len(),
                self.wf(),
                forall|j: int| 0 <= j < i ==> self.entries@[j].key.rel != rel,
            decreases self.entries@.len() - i,
        {
            if self.entries[i].key.rel == rel {
                assert(self@.keys.contains_key(self.entries@[i as int].key));
                return true;
            }
            i = i + 1;
        }
        assert forall|k: PageKey| #[trigger] self@.keys.contains_key(k) implies k.rel != rel by {
            let j = choose|j: int| 0 <= j < self.entries@.len() && self.entries@[j].key == k;
        }
        false
    }

    /// The number of blocks of relation `rel`: one past its highest observed
    /// block, 0 when none was observed.
    pub fn rel_size(&self, rel: u32) -> (r: u64)
        requires
            self.wf(),
        ensures
            is_rel_size(self@, rel, r),
    {
        let mut size: u64 = 0;
        let mut i: usize = 0;
        while i < self.entries.len()
            invariant
                0 <= i <= self.entries@.len(),
                self.wf(),
                forall|j: int|
                    0 <= j < i && (#[trigger] self.entries@[j]).key.rel == rel
                        ==> self.entries@[j].key.block < size,
                size == 0 || exists|k: PageKey|
                    #[trigger] self@.keys.contains_key(k) && k.rel == rel && size == k.block + 1,
            decreases self.entries@.len() - i,
        {
            let k = self.entries[i].key;
            if k.rel == rel && k.block as u64 >= size {
                size = k.block as u64 + 1;
                assert(self@.keys.contains_key(self.entries@[i as int].key));
            }
            i = i + 1;
        }
        assert forall|k: PageKey| #[trigger] self@.keys.contains_key(k) && k.rel == rel implies k.block < size by {
            let j = choose|j: int| 0 <= j < self.entries@.len() && self.entries@[j].key == k;
            assert(self.entries@[j].key.rel == rel);
        }
        size
    }

    /// Compaction: once `key` holds more than `max_records` records and the
    /// watermark is past its base image, a new base image is synthesized at the
    /// watermark and the records it covers are dropped. Returns whether it
    /// compacted. Every query at or above the new base LSN answers as before;
    /// below it, queries now get `LsnTooOld`.
    pub fn compact(&mut self, key: PageKey, max_records: usize) -> (r: Result<bool, PageError>)
        requires
            old(self).wf(),
        ensures
            final(self).wf(),
            final(self)@.last_received == old(self)@.last_received,
            final(self)@.consistent == old(self)@.consistent,
            !old(self)@.keys.contains_key(key) ==> r == Err::<bool, PageError>(PageError::NotFound),
            r is Err || r == Ok::<bool, PageError>(false) ==> final(self)@ == old(self)@,
            old(self)@.keys.contains_key(key) ==> ({
                let h = old(self)@.keys[key];
                let c = old(self)@.consistent;
                &&& (h.records.len() <= max_records || c <= h.base_lsn) ==> r == Ok::<bool, PageError>(false)
                &&& (h.records.len() > max_records && c > h.base_lsn) ==> (r == Err::<bool, PageError>(
                    PageError::Redo(RedoError::MalformedRecord),
                ) <==> replay_spec(h.base, h.records, c) is None)
                &&& (h.records.len() > max_records && c > h.base_lsn) ==> (r is Ok <==> replay_spec(h.base, h.records, c) is Some)
                &&& (h.records.len() > max_records && c > h.base_lsn && replay_spec(h.base, h.records, c) is Some)
                    ==> r == Ok::<bool, PageError>(true)
                &&& r == Ok::<bool, PageError>(true) ==> {
                    &&& final(self)@.keys == old(self)@.keys.insert(key, final(self)@.keys[key])
                    &&& final(self)@.keys[key].base_lsn == c
                    &&& Some(final(self)@.keys[key].base) == replay_spec(h.base, h.records, c)
                    &&& exists|m: int|
                        0 <= m <= h.records.len() && final(self)@.keys[key].records == h.records.skip(m)
                            && (forall|i: int| 0 <= i < m ==> #[trigger] h.records[i].0 <= c)
                    &&& forall|l: u64| l >= c ==> #[trigger] page_spec(final(self)@, key, l) == page_spec(old(self)@, key, l)
                }
            }),
    {
        match self.find(key) {
            None => Err(PageError::NotFound),
            Some(i) => {
                proof {
                    assert(self.keys@.contains_key(self.entries@[i as int].key));
                }
                let c = self.consistent;
                if self.entries[i].log.records.len() <= max_records || c <= self.entries[i].log.base_lsn {
                    return Ok(false);
                }
                let img = match replay(&self.entries[i].log.base, &self.entries[i].log.records, c) {
                    Ok(img) => img,
                    Err(_) => return Err(PageError::Redo(RedoError::MalformedRecord)),
                };
                let ghost h = self.keys@[key];
                let ghost s = h.records;
                let mut m: usize = 0;
                while m < self.entries[i].log.records.len() && self.entries[i].log.records[m].lsn <= c
                    invariant
                        i < self.entries@.len(),
                        s == self.entries@[i as int].log.records_spec(),
                        0 <= m <= s.len(),
                        forall|k: int| 0 <= k < m ==> #[trigger] s[k].0 <= c,
                    decreases s.len() - m,
                {
                    m = m + 1;
                }
                let mut e = self.entries.remove(i);
                let tail = e.log.records.split_off(m);
                let ne = Entry { key, log: KeyLog { base_lsn: c, base: img, records: tail } };
                proof {
                    assert(ne.log.records_spec() =~= s.skip(m as int));
                    let t = s.take(m as int);
                    let u = s.skip(m as int);
                    assert(s =~= t + u);
                    assert forall|k: int| 0 <= k < u.len() implies #[trigger] u[k].0 > c by {
                        assert(u[k] == s[k + m]);
                        if k > 0 {
                            assert(s[m as int].0 < s[k + m].0);
                        }
                    }
                    assert forall|a: int, b: int| 0 <= a < b < u.len() implies u[a].0 < u[b].0 by {
                        assert(u[a] == s[a + m] && u[b] == s[b + m]);
                    }
                    lemma_replay_append(h.base, t, u, c);
                    lemma_replay_skips_newer(img@, u, c);
                    let new_st = RepoState { keys: self.keys@.insert(key, ne.history()), ..self@ };
                    assert forall|l: u64| l >= c implies #[trigger] page_spec(new_st, key, l) == page_spec(old(self)@, key, l) by {
                        assert forall|k: int| 0 <= k < t.len() implies #[trigger] t[k].0 <= c && t[k].0 <= l by {
                            assert(t[k] == s[k]);
                        }
                        lemma_replay_target_irrelevant(h.base, t, c, l);
                        lemma_replay_append(h.base, t, u, l);
                    }
                }
                let ghost nh = ne.history();
                self.entries.insert(i, ne);
                self.keys = Ghost(self.keys@.insert(key, nh));
                proof {
                    assert(self.entries@ =~= old(self).entries@.update(i as int, self.entries@[i as int]));
                    Self::lemma_store(*old(self), *self, i as int, self.entries@[i as int]);
                }
                Ok(true)
            },
        }
    }

    /// Every page as of `lsn`, one per key: fails with the first failing
    /// key's error when some key cannot be served at `lsn`.
    pub fn base_backup(&self, lsn: u64) -> (r: Result<Vec<(PageKey, Vec<u8>)>, PageError>)
        requires
            self.wf(),
        ensures
            r is Ok <==> forall|k: PageKey| #[trigger] self@.keys.contains_key(k) ==> page_spec(self@, k, lsn) is Ok,
            r matches Err(e) ==> exists|k: PageKey|
                #[trigger] self@.keys.contains_key(k) && page_spec(self@, k, lsn) == Err::<Seq<u8>, PageError>(e),
            r matches Ok(v) ==> {
                &&& forall|i: int| 0 <= i < v@.len() ==> #[trigger] self@.keys.contains_key(v@[i].0)
                    && page_spec(self@, v@[i].0, lsn) == Ok::<Seq<u8>, PageError>(v@[i].1@)
                &&& forall|k: PageKey| #[trigger] self@.keys.contains_key(k) ==> exists|i: int|
                    0 <= i < v@.len() && v@[i].0 == k
                &&& forall|i: int, j: int| 0 <= i < j < v@.len() ==> v@[i].0 != v@[j].0
            },
    {
        let mut out: Vec<(PageKey, Vec<u8>)> = Vec::new();
        let mut i: usize = 0;
        while i < self.entries.len()
            invariant
                self.wf(),
                0 <= i <= self.entries@.len(),
                out@.len() == i,
                forall|j: int| 0 <= j < i ==> (#[trigger] out@[j]).0 == self.entries@[j].key
                    && page_spec(self@, out@[j].0, lsn) == Ok::<Seq<u8>, PageError>(out@[j].1@),
            decreases self.entries@.len() - i,
        {
            let key = self.entries[i].key;
            proof {
                assert(self.keys@.contains_key(self.entries@[i as int].key));
            }
            match self.get_page(key, lsn) {
                Ok(img) => {
                    out.push((key, img));
                },
                Err(e) => {
                    return Err(e);
                },
            }
            i = i + 1;
        }
        proof {
            assert forall|j: int| 0 <= j < out@.len() implies #[trigger] self@.keys.contains_key(out@[j].0) by {
                assert(out@[j].0 == self.entries@[j].key);
                assert(self.keys@.contains_key(self.entries@[j].key));
            }
            assert forall|k: PageKey| #[trigger] self@.keys.contains_key(k) implies exists|j: int|
                0 <= j < out@.len() && out@[j].0 == k by {
                let j = choose|j: int| 0 <= j < self.entries@.len() && self.entries@[j].key == k;
                assert(out@[j].0 == k);
            }
            assert forall|a: int, b: int| 0 <= a < b < out@.len() implies out@[a].0 != out@[b].0 by {
                assert(out@[a].0 == self.entries@[a].key && out@[b].0 == self.entries@[b].key);
            }
            assert forall|k: PageKey| #[trigger] self@.keys.contains_key(k) implies page_spec(self@, k, lsn) is Ok by {
                let j = choose|j: int| 0 <= j < self.entries@.len() && self.entries@[j].key == k;
                assert(out@[j].0 == k);
            }
        }
        Ok(out)
    }

    /// Every key of the repository, each once.
    pub fn keys(&self) -> (r: Vec<PageKey>)
        requires
            self.wf(),
        ensures
            forall|k: PageKey| #[trigger] self@.keys.contains_key(k) <==> r@.contains(k),
            forall|i: int, j: int| 0 <= i < j < r@.len() ==> r@[i] != r@[j],
    {
        let mut out: Vec<PageKey> = Vec::new();
        let mut i: usize = 0;
        while i < self.entries.len()
            invariant
                self.wf(),
                0 <= i <= self.entries@.len(),
                out@.len() == i,
                forall|j: int| 0 <= j < i ==> #[trigger] out@[j] == self.entries@[j].key,
            decreases self.entries@.len() - i,
        {
            out.push(self.entries[i].key);
            i = i + 1;
        }
        assert forall|k: PageKey| #[trigger] self@.keys.contains_key(k) <==> out@.contains(k) by {
            if self@.keys.contains_key(k) {
                let j = choose|j: int| 0 <= j < self.entries@.len() && self.entries@[j].key == k;
                assert(out@[j] == k);
            }
            if out@.contains(k) {
                let j = choose|j: int| 0 <= j < out@.len() && out@[j] == k;
                assert(self.keys@.contains_key(self.entries@[j].key));
            }
        }
        out
    }

    /// What a query needs, copied out so that the replay can run without the
    /// repository: the base image and records of `key`. Fails as `get_page`
    /// does before it replays.
    pub fn page_inputs(&self, key: PageKey, lsn: u64) -> (r: Result<(Vec<u8>, Vec<WalRecord>), PageError>)
        requires
            self.wf(),
        ensures
            match r {
                Ok((b, rs)) => page_spec(self@, key, lsn) == match replay_spec(b@, records_view(rs@), lsn) {
                    Some(p) => Ok::<Seq<u8>, PageError>(p),
                    None => Err(PageError::Redo(RedoError::MalformedRecord)),
                },
                Err(e) => page_spec(self@, key, lsn) == Err::<Seq<u8>, PageError>(e) && e
                    != PageError::Redo(RedoError::MalformedRecord),
            },
    {
        match self.find(key) {
            None => Err(PageError::NotFound),
            Some(i) => {
                let e = &self.entries[i];
                proof {
                    assert(self.keys@.contains_key(self.entries@[i as int].key));
                }
                if lsn < e.log.base_lsn {
                    Err(PageError::LsnTooOld)
                } else if lsn > self.consistent {
                    Err(PageError::NotYetConsistent)
                } else {
                    let base = e.log.base.clone();
                    assert(base@ =~= e.log.base@);
                    let mut rs: Vec<WalRecord> = Vec::new();
                    let mut j: usize = 0;
                    while j < e.log.records.len()
                        invariant
                            0 <= j <= e.log.records@.len(),
                            rs@.len() == j,
                            forall|k: int| 0 <= k < j ==> (#[trigger] rs@[k])@ == e.log.records@[k]@,
                        decreases e.log.records@.len() - j,
                    {
                        let p = e.log.records[j].payload.clone();
                        assert(p@ =~= e.log.records@[j as int].payload@);
                        rs.push(WalRecord { lsn: e.log.records[j].lsn, payload: p });
                        j = j + 1;
                    }
                    assert(records_view(rs@) =~= records_view(e.log.records@));
                    Ok((base, rs))
                }
            },
        }
    }

    proof fn lemma_wf_frame(a: Repository, b: Repository)
        requires
            a.wf(),
            a.entries@ == b.entries@,
            a.keys@ == b.keys@,
        ensures
            b.wf(),
    {
    }
}

} // verus!
