use vstd::prelude::*;
use vstd::multiset::Multiset;
use vstd::seq_lib::lemma_multiset_commutative;

use crate::chunks::{BlockNumber, ChunkRef, ChunkSet, DatasetId, sorted_by_key};

verus! {

/// Process-unique identifier of one download, handed out by the download
/// pool, monotonically increasing.
pub type DownloadId = u64;

/// How often a failing download is attempted before the chunk is reported as
/// failed and left alone until a new desired set re-adds it.
pub const MAX_DOWNLOAD_ATTEMPTS: u64 = 3;

/// The lifecycle tag of one chunk held by the index.
#[derive(Clone, Copy, PartialEq, Eq, Structural, Debug)]
pub enum ChunkState {
    /// Wanted, download not yet started; `attempts` downloads failed so far.
    Queued { attempts: u64 },
    /// A download with this id is in flight.
    Downloading { id: DownloadId, attempts: u64 },
    /// Present on disk and ready to serve queries.
    Ready,
    /// No longer wanted; its files are to be removed.
    Deleting,
    /// No longer wanted while downloading; the download is to be cancelled.
    Cancelling { id: DownloadId },
    /// Its download failed too often; left alone until re-added.
    Failed,
}

/// One row of the chunk index.
#[derive(Clone, Copy, PartialEq, Eq, Structural, Debug)]
pub struct Entry {
    pub chunk: ChunkRef,
    pub state: ChunkState,
}

/// The table of outstanding read leases: one element per live lease. A chunk
/// is leased iff it occurs at least once.
pub struct RangeLocks {
    leases: Vec<ChunkRef>,
}

impl RangeLocks {
    /// How many leases are outstanding against `c`.
    pub closed spec fn count(&self, c: ChunkRef) -> nat {
        self.leases@.to_multiset().count(c)
    }

    /// How many leases are outstanding in all.
    pub closed spec fn total(&self) -> nat {
        self.leases@.len()
    }

    pub fn new() -> (r: RangeLocks)
        ensures
            forall|c: ChunkRef| r.count(c) == 0,
            r.total() == 0,
    {
        let r = RangeLocks { leases: Vec::new() };
        proof {
            broadcast use vstd::seq_lib::group_to_multiset_ensures;

            assert forall|c: ChunkRef| r.count(c) == 0 by {
                assert(!r.leases@.contains(c));
            }
        }
        r
    }

    /// Issues one more lease against `c`.
    pub fn lock(&mut self, c: ChunkRef)
        ensures
            final(self).count(c) == old(self).count(c) + 1,
            forall|x: ChunkRef| x != c ==> final(self).count(x) == old(self).count(x),
            final(self).total() == old(self).total() + 1,
    {
        proof {
            broadcast use vstd::seq_lib::group_to_multiset_ensures;

        }
        self.leases.push(c);
    }

    /// Releases one lease against `c`.
    pub fn unlock(&mut self, c: ChunkRef)
        requires
            old(self).count(c) > 0,
        ensures
            final(self).count(c) + 1 == old(self).count(c),
            forall|x: ChunkRef| x != c ==> final(self).count(x) == old(self).count(x),
            final(self).total() + 1 == old(self).total(),
    {
        proof {
            broadcast use vstd::seq_lib::group_to_multiset_ensures;

            assert(self.leases@.contains(c));
        }
        let n = self.leases.len();
        let mut i: usize = 0;
        while i < n
            invariant
                n == self.leases@.len(),
                0 <= i <= n,
                self == old(self),
                self.leases@.contains(c),
                forall|j: int| 0 <= j < i ==> self.leases@[j] != c,
            decreases n - i,
        {
            if self.leases[i] == c {
                proof {
                    broadcast use vstd::seq_lib::group_to_multiset_ensures;

                }
                self.leases.remove(i);
                return;
            }
            i += 1;
        }
        proof {
            assert(false);
        }
    }

    /// Whether any lease is outstanding against `c`.
    pub fn is_leased(&self, c: &ChunkRef) -> (r: bool)
        ensures
            r == (self.count(*c) > 0),
    {
        proof {
            broadcast use vstd::seq_lib::group_to_multiset_ensures;

        }
        let n = self.leases.len();
        let mut i: usize = 0;
        while i < n
            invariant
                n == self.leases@.len(),
                0 <= i <= n,
                forall|j: int| 0 <= j < i ==> self.leases@[j] != *c,
            decreases n - i,
        {
            if self.leases[i] == *c {
                proof {
                    broadcast use vstd::seq_lib::group_to_multiset_ensures;

                    assert(self.leases@.contains(*c));
                }
                return true;
            }
            i += 1;
        }
        proof {
            broadcast use vstd::seq_lib::group_to_multiset_ensures;

            assert(!self.leases@.contains(*c));
        }
        false
    }
}

/// Entries strictly ordered by the chunk identity key.
pub open spec fn entries_sorted(s: Seq<Entry>) -> bool {
    forall|i: int, j: int| 0 <= i < j < s.len() ==> s[i].chunk.key_lt(s[j].chunk)
}

/// The id of the download an entry is tied to, if any.
pub open spec fn entry_id(e: Entry) -> Option<DownloadId> {
    match e.state {
        ChunkState::Downloading { id, attempts } => Some(id),
        ChunkState::Cancelling { id } => Some(id),
        _ => None,
    }
}

/// The chunk lifecycle state: the desired set, the chunk index (every chunk
/// present, being fetched or being removed, with its lifecycle tag), and the
/// lease table. One value of this type is the single source of truth the
/// reconciler and the query path share.
pub struct State {
    desired: ChunkSet,
    index: Vec<Entry>,
    locks: RangeLocks,
    stopped: bool,
}

impl State {
    pub closed spec fn entries(&self) -> Seq<Entry> {
        self.index@
    }

    pub closed spec fn desired_seq(&self) -> Seq<ChunkRef> {
        self.desired@
    }

    pub open spec fn is_desired(&self, c: ChunkRef) -> bool {
        self.desired_seq().contains(c)
    }

    pub open spec fn has_entry(&self, c: ChunkRef) -> bool {
        exists|i: int| 0 <= i < self.entries().len() && (#[trigger] self.entries()[i]).chunk == c
    }

    /// The lifecycle tag of `c`, or `None` when the index does not hold `c`.
    pub open spec fn state_of(&self, c: ChunkRef) -> Option<ChunkState> {
        if self.has_entry(c) {
            let i = choose|i: int|
                0 <= i < self.entries().len() && (#[trigger] self.entries()[i]).chunk == c;
            Some(self.entries()[i].state)
        } else {
            None
        }
    }

    pub open spec fn is_ready(&self, c: ChunkRef) -> bool {
        self.state_of(c) == Some(ChunkState::Ready)
    }

    pub closed spec fn lease_count(&self, c: ChunkRef) -> nat {
        self.locks.count(c)
    }

    pub closed spec fn lease_total(&self) -> nat {
        self.locks.total()
    }

    pub closed spec fn downloads_stopped(&self) -> bool {
        self.stopped
    }

    /// `c` does not collide by identity key with a different chunk the index
    /// tracks. Chunk content is immutable and `(dataset, first_block)` is a
    /// chunk's identity, so a caller that honours chunk identity meets this
    /// for free.
    pub open spec fn key_consistent(&self, c: ChunkRef) -> bool {
        forall|d: ChunkRef| !((#[trigger] self.state_of(d)) is None) && d.same_key(c) ==> d == c
    }

    /// The invariants every operation preserves:
    /// the index is strictly ordered (so no two entries share an identity
    /// key); leases are held against ready chunks only; queued, downloading
    /// and failed chunks are desired; every desired chunk has an entry; and
    /// live download ids are distinct. A ready chunk that is no longer
    /// desired is retained until its leases are gone and the next deletion
    /// drain collects it.
    pub open spec fn wf(&self) -> bool {
        &&& sorted_by_key(self.desired_seq())
        &&& entries_sorted(self.entries())
        &&& forall|c: ChunkRef| #[trigger] self.lease_count(c) > 0
            ==> self.state_of(c) == Some(ChunkState::Ready)
        &&& forall|i: int| 0 <= i < self.entries().len()
            ==> match (#[trigger] self.entries()[i]).state {
                ChunkState::Queued { attempts } => self.is_desired(self.entries()[i].chunk),
                ChunkState::Downloading { id, attempts } => self.is_desired(self.entries()[i].chunk),
                ChunkState::Failed => self.is_desired(self.entries()[i].chunk),
                ChunkState::Ready => true,
                _ => true,
            }
        &&& forall|c: ChunkRef| #[trigger] self.is_desired(c) ==> self.has_entry(c)
        &&& forall|i: int, j: int| 0 <= i < self.entries().len() && 0 <= j < self.entries().len()
            && i != j && entry_id(#[trigger] self.entries()[i]).is_some()
            ==> entry_id(self.entries()[i]) != entry_id(#[trigger] self.entries()[j])
    }

    /// Some chunk's download under `did` is awaiting cancellation.
    pub open spec fn cancelling_id(&self, did: DownloadId) -> bool {
        exists|c: ChunkRef| self.state_of(c) == Some(ChunkState::Cancelling { id: did })
    }

    /// The state tracks no download with this id.
    pub open spec fn fresh_id(&self, id: DownloadId) -> bool {
        forall|i: int| 0 <= i < self.entries().len()
            ==> entry_id(#[trigger] self.entries()[i]) != Some(id)
    }

    /// With entries strictly ordered, the entry at `k` is the one `state_of`
    /// speaks of.
    pub proof fn lemma_state_at(&self, k: int)
        requires
            entries_sorted(self.entries()),
            0 <= k < self.entries().len(),
        ensures
            self.has_entry(self.entries()[k].chunk),
            self.state_of(self.entries()[k].chunk) == Some(self.entries()[k].state),
    {
        let c = self.entries()[k].chunk;
        assert(self.has_entry(c));
        let i = choose|i: int|
            0 <= i < self.entries().len() && (#[trigger] self.entries()[i]).chunk == c;
        if i != k {
            if i < k {
                assert(self.entries()[i].chunk.key_lt(self.entries()[k].chunk));
            } else {
                assert(self.entries()[k].chunk.key_lt(self.entries()[i].chunk));
            }
            assert(false);
        }
    }

    /// Two states with equal entry sequences agree on every lookup.
    pub proof fn lemma_states_agree(a: &State, b: &State)
        requires
            entries_sorted(a.entries()),
            b.entries() == a.entries(),
        ensures
            forall|c: ChunkRef| b.has_entry(c) == a.has_entry(c),
            forall|c: ChunkRef| b.state_of(c) == a.state_of(c),
    {
        assert forall|c: ChunkRef| b.has_entry(c) == a.has_entry(c)
            && b.state_of(c) == a.state_of(c) by {
            if a.has_entry(c) {
                let k = choose|k: int|
                    0 <= k < a.entries().len() && (#[trigger] a.entries()[k]).chunk == c;
                a.lemma_state_at(k);
                b.lemma_state_at(k);
            } else if b.has_entry(c) {
                let k = choose|k: int|
                    0 <= k < b.entries().len() && (#[trigger] b.entries()[k]).chunk == c;
                assert(a.entries()[k].chunk == c);
            }
        }
    }

    /// `wf` carries over to a state with the same entries, desired set and
    /// leases.
    proof fn lemma_wf_same(a: &State, b: &State)
        requires
            a.wf(),
            b.entries() == a.entries(),
            b.desired_seq() == a.desired_seq(),
            forall|c: ChunkRef| b.lease_count(c) == a.lease_count(c),
        ensures
            b.wf(),
    {
        assert forall|c: ChunkRef| b.has_entry(c) == a.has_entry(c)
            && b.state_of(c) == a.state_of(c) && b.is_desired(c) == a.is_desired(c) by {}
        assert forall|c: ChunkRef| #[trigger] b.lease_count(c) > 0
            implies b.state_of(c) == Some(ChunkState::Ready) by {
            assert(a.lease_count(c) > 0);
        }
        assert forall|c: ChunkRef| #[trigger] b.is_desired(c) implies b.has_entry(c) by {
            assert(a.is_desired(c));
        }
        assert forall|i: int| 0 <= i < b.entries().len()
            implies match (#[trigger] b.entries()[i]).state {
                ChunkState::Queued { attempts } => b.is_desired(b.entries()[i].chunk),
                ChunkState::Downloading { id, attempts } => b.is_desired(b.entries()[i].chunk),
                ChunkState::Failed => b.is_desired(b.entries()[i].chunk),
                ChunkState::Ready => true,
                _ => true,
            } by {
            assert(a.entries()[i] == b.entries()[i]);
        }
    }

    /// Position of the entry holding exactly `c`, if any.
    fn index_find(&self, c: &ChunkRef) -> (r: Option<usize>)
        ensures
            match r {
                Some(i) => i < self.entries().len() && self.entries()[i as int].chunk == *c,
                None => !self.has_entry(*c),
            },
    {
        let n = self.index.len();
        let mut i: usize = 0;
        while i < n
            invariant
                n == self.entries().len(),
                0 <= i <= n,
                forall|j: int| 0 <= j < i ==> (#[trigger] self.entries()[j]).chunk != *c,
            decreases n - i,
        {
            if self.index[i].chunk == *c {
                return Some(i);
            }
            i += 1;
        }
        None
    }

    /// Replaces the lifecycle tag of the entry at `i`.
    fn index_set_state(&mut self, i: usize, s: ChunkState)
        requires
            entries_sorted(old(self).entries()),
            i < old(self).entries().len(),
        ensures
            entries_sorted(final(self).entries()),
            final(self).entries().len() == old(self).entries().len(),
            final(self).entries() == old(self).entries().update(
                i as int,
                Entry { chunk: old(self).entries()[i as int].chunk, state: s },
            ),
            final(self).state_of(old(self).entries()[i as int].chunk) == Some(s),
            forall|c: ChunkRef| c != old(self).entries()[i as int].chunk
                ==> final(self).state_of(c) == old(self).state_of(c),
            forall|c: ChunkRef| final(self).has_entry(c) == old(self).has_entry(c),
            final(self).desired_seq() == old(self).desired_seq(),
            forall|c: ChunkRef| final(self).lease_count(c) == old(self).lease_count(c),
            final(self).downloads_stopped() == old(self).downloads_stopped(),
    {
        let ghost pre = self.index@;
        let chunk = self.index[i].chunk;
        self.index[i] = Entry { chunk, state: s };
        proof {
            assert forall|p: int, q: int| 0 <= p < q < self.entries().len()
                implies self.entries()[p].chunk.key_lt(self.entries()[q].chunk) by {
                assert(pre[p].chunk.key_lt(pre[q].chunk));
            }
            assert forall|c: ChunkRef| self.has_entry(c) == old(self).has_entry(c) by {
                if old(self).has_entry(c) {
                    let k = choose|k: int|
                        0 <= k < pre.len() && (#[trigger] pre[k]).chunk == c;
                    assert(self.entries()[k].chunk == c);
                }
                if self.has_entry(c) {
                    let k = choose|k: int|
                        0 <= k < self.entries().len() && (#[trigger] self.entries()[k]).chunk == c;
                    assert(pre[k].chunk == c);
                }
            }
            self.lemma_state_at(i as int);
            assert forall|c: ChunkRef| c != old(self).entries()[i as int].chunk
                implies self.state_of(c) == old(self).state_of(c) by {
                if old(self).has_entry(c) {
                    let k = choose|k: int|
                        0 <= k < pre.len() && (#[trigger] pre[k]).chunk == c;
                    assert(k != i);
                    assert(self.entries()[k].chunk == c);
                    old(self).lemma_state_at(k);
                    self.lemma_state_at(k);
                }
            }
        }
    }

    /// Inserts a fresh entry, keeping the order.
    fn index_insert(&mut self, e: Entry)
        requires
            entries_sorted(old(self).entries()),
            forall|i: int| 0 <= i < old(self).entries().len()
                ==> !(#[trigger] old(self).entries()[i]).chunk.same_key(e.chunk),
        ensures
            entries_sorted(final(self).entries()),
            final(self).entries().len() == old(self).entries().len() + 1,
            forall|x: Entry| final(self).entries().contains(x)
                <==> (old(self).entries().contains(x) || x == e),
            final(self).state_of(e.chunk) == Some(e.state),
            forall|c: ChunkRef| c != e.chunk
                ==> final(self).state_of(c) == old(self).state_of(c),
            forall|c: ChunkRef| c != e.chunk
                ==> final(self).has_entry(c) == old(self).has_entry(c),
            final(self).has_entry(e.chunk),
            final(self).desired_seq() == old(self).desired_seq(),
            forall|c: ChunkRef| final(self).lease_count(c) == old(self).lease_count(c),
            final(self).downloads_stopped() == old(self).downloads_stopped(),
    {
        let n = self.index.len();
        let mut i: usize = 0;
        let mut idx: usize = n;
        while i < n
            invariant
                n == self.entries().len(),
                0 <= i <= n,
                self == old(self),
                entries_sorted(self.entries()),
                forall|j: int| 0 <= j < n
                    ==> !(#[trigger] self.entries()[j]).chunk.same_key(e.chunk),
                idx == n || (idx < i && e.chunk.key_lt(self.entries()[idx as int].chunk)),
                idx == n ==> forall|j: int| 0 <= j < i
                    ==> (#[trigger] self.entries()[j]).chunk.key_lt(e.chunk),
                idx < n ==> forall|j: int| 0 <= j < idx
                    ==> (#[trigger] self.entries()[j]).chunk.key_lt(e.chunk),
            decreases n - i,
        {
            if idx == n && e.chunk.key_before(&self.index[i].chunk) {
                idx = i;
            } else if idx == n {
                proof {
                    assert(!(#[trigger] old(self).entries()[i as int]).chunk.same_key(e.chunk));
                    assert(!self.entries()[i as int].chunk.same_key(e.chunk));
                }
            }
            i += 1;
        }
        let ghost pre = self.index@;
        self.index.insert(idx, e);
        proof {
            assert(self.entries()[idx as int] == e);
            assert forall|p: int, q: int| 0 <= p < q < self.entries().len()
                implies self.entries()[p].chunk.key_lt(self.entries()[q].chunk) by {
                if p < idx && q == idx {
                    assert(pre[p].chunk.key_lt(e.chunk));
                } else if p == idx && q > idx {
                    if idx < pre.len() {
                        assert(e.chunk.key_lt(pre[idx as int].chunk));
                        if q > idx + 1 {
                            assert(pre[idx as int].chunk.key_lt(pre[q - 1].chunk));
                        }
                    }
                } else if p < idx && q > idx {
                    assert(pre[p].chunk.key_lt(pre[q - 1].chunk));
                } else if q < idx {
                    assert(pre[p].chunk.key_lt(pre[q].chunk));
                } else if p > idx {
                    assert(pre[p - 1].chunk.key_lt(pre[q - 1].chunk));
                }
            }
            assert forall|x: Entry| self.entries().contains(x)
                implies (pre.contains(x) || x == e) by {
                let k = choose|k: int| 0 <= k < self.entries().len() && self.entries()[k] == x;
                if k < idx {
                    assert(pre[k] == x);
                } else if k > idx {
                    assert(pre[k - 1] == x);
                }
            }
            assert forall|x: Entry| pre.contains(x) implies self.entries().contains(x) by {
                let k = choose|k: int| 0 <= k < pre.len() && pre[k] == x;
                if k < idx {
                    assert(self.entries()[k] == x);
                } else {
                    assert(self.entries()[k + 1] == x);
                }
            }
            self.lemma_state_at(idx as int);
            assert forall|c: ChunkRef| c != e.chunk
                implies final(self).has_entry(c) == old(self).has_entry(c)
                    && final(self).state_of(c) == old(self).state_of(c) by {
                if old(self).has_entry(c) {
                    let k = choose|k: int|
                        0 <= k < pre.len() && (#[trigger] pre[k]).chunk == c;
                    if k < idx {
                        assert(self.entries()[k].chunk == c);
                        old(self).lemma_state_at(k);
                        self.lemma_state_at(k);
                    } else {
                        assert(self.entries()[k + 1].chunk == c);
                        old(self).lemma_state_at(k);
                        self.lemma_state_at(k + 1);
                    }
                }
                if self.has_entry(c) {
                    let k = choose|k: int|
                        0 <= k < self.entries().len()
                            && (#[trigger] self.entries()[k]).chunk == c;
                    if k < idx {
                        assert(pre[k].chunk == c);
                    } else {
                        assert(k != idx);
                        assert(pre[k - 1].chunk == c);
                    }
                }
            }
        }
    }

    pub fn new() -> (r: State)
        ensures
            r.wf(),
            r.desired_seq() =~= Seq::<ChunkRef>::empty(),
            r.entries() =~= Seq::<Entry>::empty(),
            forall|c: ChunkRef| r.lease_count(c) == 0,
            forall|c: ChunkRef| r.state_of(c) is None,
            !r.downloads_stopped(),
    {
        State {
            desired: ChunkSet::new(),
            index: Vec::new(),
            locks: RangeLocks::new(),
            stopped: false,
        }
    }

    /// Removes the entry at `i`.
    fn index_remove(&mut self, i: usize)
        requires
            entries_sorted(old(self).entries()),
            i < old(self).entries().len(),
        ensures
            entries_sorted(final(self).entries()),
            final(self).entries().len() + 1 == old(self).entries().len(),
            forall|x: Entry| final(self).entries().contains(x)
                <==> (old(self).entries().contains(x) && x != old(self).entries()[i as int]),
            forall|j: int| 0 <= j < i ==> final(self).entries()[j] == old(self).entries()[j],
            forall|j: int| i <= j < final(self).entries().len()
                ==> final(self).entries()[j] == old(self).entries()[j + 1],
            final(self).state_of(old(self).entries()[i as int].chunk) is None,
            !final(self).has_entry(old(self).entries()[i as int].chunk),
            forall|c: ChunkRef| c != old(self).entries()[i as int].chunk
                ==> final(self).state_of(c) == old(self).state_of(c)
                    && final(self).has_entry(c) == old(self).has_entry(c),
            final(self).desired_seq() == old(self).desired_seq(),
            forall|c: ChunkRef| final(self).lease_count(c) == old(self).lease_count(c),
            final(self).downloads_stopped() == old(self).downloads_stopped(),
    {
        let ghost pre = self.index@;
        let ghost e = self.index@[i as int];
        self.index.remove(i);
        proof {
            assert forall|p: int, q: int| 0 <= p < q < self.entries().len()
                implies self.entries()[p].chunk.key_lt(self.entries()[q].chunk) by {
                if q < i {
                    assert(pre[p].chunk.key_lt(pre[q].chunk));
                } else if p < i {
                    assert(pre[p].chunk.key_lt(pre[q + 1].chunk));
                } else {
                    assert(pre[p + 1].chunk.key_lt(pre[q + 1].chunk));
                }
            }
            assert forall|x: Entry| self.entries().contains(x)
                implies (pre.contains(x) && x != e) by {
                let k = choose|k: int| 0 <= k < self.entries().len() && self.entries()[k] == x;
                if k < i {
                    assert(pre[k] == x);
                    assert(pre[k].chunk.key_lt(pre[i as int].chunk));
                } else {
                    assert(pre[k + 1] == x);
                    assert(pre[i as int].chunk.key_lt(pre[k + 1].chunk));
                }
            }
            assert forall|x: Entry| pre.contains(x) && x != e
                implies self.entries().contains(x) by {
                let k = choose|k: int| 0 <= k < pre.len() && pre[k] == x;
                if k < i {
                    assert(self.entries()[k] == x);
                } else if k > i {
                    assert(self.entries()[k - 1] == x);
                }
            }
            assert forall|c: ChunkRef| self.has_entry(c) implies c != e.chunk by {
                let k = choose|k: int|
                    0 <= k < self.entries().len() && (#[trigger] self.entries()[k]).chunk == c;
                let x = self.entries()[k];
                assert(self.entries().contains(x));
                assert(pre.contains(x) && x != e);
                let k2 = choose|k2: int| 0 <= k2 < pre.len() && pre[k2] == x;
                if c == e.chunk {
                    if k2 < i {
                        assert(pre[k2].chunk.key_lt(pre[i as int].chunk));
                    } else if k2 > i {
                        assert(pre[i as int].chunk.key_lt(pre[k2].chunk));
                    }
                    assert(false);
                }
            }
            assert forall|c: ChunkRef| c != e.chunk
                implies self.state_of(c) == old(self).state_of(c)
                    && self.has_entry(c) == old(self).has_entry(c) by {
                if old(self).has_entry(c) {
                    let k = choose|k: int|
                        0 <= k < pre.len() && (#[trigger] pre[k]).chunk == c;
                    assert(pre.contains(pre[k]));
                    assert(pre[k] != e);
                    assert(self.entries().contains(pre[k]));
                    let k2 = choose|k2: int|
                        0 <= k2 < self.entries().len() && self.entries()[k2] == pre[k];
                    assert(self.entries()[k2].chunk == c);
                    old(self).lemma_state_at(k);
                    self.lemma_state_at(k2);
                }
                if self.has_entry(c) {
                    let k = choose|k: int|
                        0 <= k < self.entries().len()
                            && (#[trigger] self.entries()[k]).chunk == c;
                    assert(self.entries().contains(self.entries()[k]));
                    assert(pre.contains(self.entries()[k]));
                    let k2 = choose|k2: int|
                        0 <= k2 < pre.len() && pre[k2] == self.entries()[k];
                    assert(pre[k2].chunk == c);
                }
            }
        }
    }

    /// Adds newly desired chunks: each becomes desired, and one that the
    /// index does not hold yet is queued for download. A chunk already held
    /// (ready, deleting or cancelling) keeps its lifecycle tag; deleting and
    /// cancelling chunks are queued again once their pending removal is
    /// taken.
    pub fn add_chunks(&mut self, new_chunks: &ChunkSet)
        requires
            old(self).wf(),
            new_chunks.wf(),
            forall|c: ChunkRef| #[trigger] new_chunks@.contains(c)
                ==> old(self).key_consistent(c) && !old(self).is_desired(c),
        ensures
            final(self).wf(),
            forall|c: ChunkRef| final(self).is_desired(c)
                <==> (old(self).is_desired(c) || new_chunks@.contains(c)),
            forall|c: ChunkRef| !new_chunks@.contains(c)
                ==> final(self).state_of(c) == old(self).state_of(c),
            forall|c: ChunkRef| new_chunks@.contains(c)
                ==> final(self).state_of(c) == (if old(self).state_of(c) is None {
                    Some(ChunkState::Queued { attempts: 0 })
                } else {
                    old(self).state_of(c)
                }),
            forall|c: ChunkRef| final(self).lease_count(c) == old(self).lease_count(c),
            final(self).downloads_stopped() == old(self).downloads_stopped(),
    {
        let n = new_chunks.len();
        let mut i: usize = 0;
        while i < n
            invariant
                n == new_chunks@.len(),
                0 <= i <= n,
                new_chunks.wf(),
                forall|c: ChunkRef| #[trigger] new_chunks@.contains(c)
                    ==> old(self).key_consistent(c) && !old(self).is_desired(c),
                old(self).wf(),
                self.wf(),
                forall|x: Entry| #[trigger] self.entries().contains(x)
                    ==> (old(self).entries().contains(x) || new_chunks@.contains(x.chunk)),
                forall|c: ChunkRef| self.is_desired(c)
                    <==> (old(self).is_desired(c)
                        || new_chunks@.subrange(0, i as int).contains(c)),
                forall|c: ChunkRef| !new_chunks@.subrange(0, i as int).contains(c)
                    ==> self.state_of(c) == old(self).state_of(c),
                forall|c: ChunkRef| new_chunks@.subrange(0, i as int).contains(c)
                    ==> self.state_of(c) == (if old(self).state_of(c) is None {
                        Some(ChunkState::Queued { attempts: 0 })
                    } else {
                        old(self).state_of(c)
                    }),
                forall|c: ChunkRef| self.lease_count(c) == old(self).lease_count(c),
                self.downloads_stopped() == old(self).downloads_stopped(),
            decreases n - i,
        {
            let c = new_chunks.get(i);
            proof {
                assert(new_chunks@.contains(c));
                assert forall|j: int| 0 <= j < i
                    implies new_chunks@[j] != c by {
                    assert(new_chunks@[j].key_lt(new_chunks@[i as int]));
                }
                assert(!new_chunks@.subrange(0, i as int).contains(c));
                assert(self.state_of(c) == old(self).state_of(c));
                assert(!self.is_desired(c));
            }
            let ghost mid = *self;
            let entry_missing = match self.index_find(&c) {
                None => true,
                Some(_) => false,
            };
            if entry_missing {
                proof {
                    assert forall|j: int| 0 <= j < self.entries().len()
                        implies !(#[trigger] self.entries()[j]).chunk.same_key(c) by {
                        let x = self.entries()[j];
                        assert(self.entries().contains(x));
                        if x.chunk.same_key(c) {
                            if old(self).entries().contains(x) {
                                let p0 = choose|p0: int|
                                    0 <= p0 < old(self).entries().len()
                                        && old(self).entries()[p0] == x;
                                old(self).lemma_state_at(p0);
                                assert(!(old(self).state_of(x.chunk) is None));
                                assert(x.chunk == c);
                                assert(self.has_entry(c));
                                assert(!(self.state_of(c) is None));
                            } else {
                                assert(new_chunks@.contains(x.chunk));
                                if x.chunk != c {
                                    let p = choose|p: int|
                                        0 <= p < new_chunks@.len()
                                            && new_chunks@[p] == x.chunk;
                                    if p < i {
                                        assert(new_chunks@[p].key_lt(new_chunks@[i as int]));
                                    } else {
                                        assert(new_chunks@[i as int].key_lt(new_chunks@[p]));
                                    }
                                    assert(false);
                                }
                                assert(self.has_entry(c));
                                assert(!(self.state_of(c) is None));
                            }
                        }
                    }
                }
                self.index_insert(Entry { chunk: c, state: ChunkState::Queued { attempts: 0 } });
            }
            proof {
                assert forall|k: int|
                    0 <= k < self.desired_seq().len()
                        && (#[trigger] self.desired_seq()[k]).same_key(c)
                    implies false by {
                    let d = self.desired_seq()[k];
                    assert(self.is_desired(d));
                    if old(self).is_desired(d) {
                        assert(old(self).has_entry(d));
                        let kd = choose|kd: int|
                            0 <= kd < old(self).entries().len()
                                && (#[trigger] old(self).entries()[kd]).chunk == d;
                        old(self).lemma_state_at(kd);
                        assert(!(old(self).state_of(d) is None));
                        assert(d == c);
                        assert(!old(self).is_desired(c));
                    } else {
                        assert(new_chunks@.subrange(0, i as int).contains(d));
                        let p = choose|p: int| 0 <= p < i && new_chunks@.subrange(0, i as int)[p] == d;
                        assert(new_chunks@[p] == d);
                        assert(new_chunks@[p].key_lt(new_chunks@[i as int]));
                    }
                }
                assert(!self.desired.has_key(c));
            }
            self.desired.insert(c);
            proof {
                assert(new_chunks@.subrange(0, i as int + 1)
                    =~= new_chunks@.subrange(0, i as int).push(c));
                assert(new_chunks@.subrange(0, i as int + 1)[i as int] == c);
                assert(new_chunks@.subrange(0, i as int + 1).contains(c));
                let post = *self;
                assert(post.entries() == if entry_missing {
                    post.entries()
                } else {
                    mid.entries()
                });
                assert forall|x: ChunkRef| !new_chunks@.subrange(0, i as int + 1).contains(x)
                    implies post.state_of(x) == old(self).state_of(x) by {
                    assert(!new_chunks@.subrange(0, i as int).contains(x));
                    assert(x != c);
                    assert(mid.state_of(x) == old(self).state_of(x));
                    assert(post.state_of(x) == mid.state_of(x));
                }
                assert forall|x: ChunkRef| new_chunks@.subrange(0, i as int + 1).contains(x)
                    implies post.state_of(x) == (if old(self).state_of(x) is None {
                        Some(ChunkState::Queued { attempts: 0 })
                    } else {
                        old(self).state_of(x)
                    }) by {
                    if x == c {
                        if entry_missing {
                            assert(mid.state_of(c) is None);
                            assert(post.state_of(c) == Some(ChunkState::Queued { attempts: 0 }));
                        } else {
                            assert(!(mid.state_of(c) is None));
                            assert(post.state_of(c) == mid.state_of(c));
                        }
                    } else {
                        assert(new_chunks@.subrange(0, i as int).contains(x));
                        assert(post.state_of(x) == mid.state_of(x));
                    }
                }
                assert forall|x: ChunkRef| post.is_desired(x)
                    <==> (old(self).is_desired(x)
                        || new_chunks@.subrange(0, i as int + 1).contains(x)) by {
                    if x == c {
                        assert(post.desired_seq().contains(c));
                        assert(post.is_desired(c));
                    } else {
                        assert(post.is_desired(x) == mid.is_desired(x));
                        if old(self).is_desired(x)
                            || new_chunks@.subrange(0, i as int + 1).contains(x) {
                            assert(mid.is_desired(x)
                                || new_chunks@.subrange(0, i as int).contains(x));
                        }
                    }
                }
                assert forall|x: ChunkRef| #[trigger] post.lease_count(x) > 0
                    implies post.state_of(x) == Some(ChunkState::Ready) by {
                    assert(mid.lease_count(x) > 0);
                    if x == c && entry_missing {
                        assert(mid.state_of(x) == Some(ChunkState::Ready));
                        assert(false);
                    }
                }
                assert forall|k: int| 0 <= k < post.entries().len()
                    implies match (#[trigger] post.entries()[k]).state {
                        ChunkState::Queued { attempts } => post.is_desired(post.entries()[k].chunk),
                        ChunkState::Downloading { id, attempts } => post.is_desired(
                            post.entries()[k].chunk,
                        ),
                        ChunkState::Failed => post.is_desired(post.entries()[k].chunk),
                        ChunkState::Ready => true,
                        _ => true,
                    } by {
                    let x = post.entries()[k];
                    assert(post.entries().contains(x));
                    if mid.entries().contains(x) {
                        let j = choose|j: int|
                            0 <= j < mid.entries().len() && mid.entries()[j] == x;
                        assert(match mid.entries()[j].state {
                            ChunkState::Queued { attempts } => mid.is_desired(mid.entries()[j].chunk),
                            ChunkState::Downloading { id, attempts } => mid.is_desired(
                                mid.entries()[j].chunk,
                            ),
                            ChunkState::Failed => mid.is_desired(mid.entries()[j].chunk),
                            ChunkState::Ready => true,
                            _ => true,
                        });
                    }
                }
                assert forall|x: ChunkRef| #[trigger] post.is_desired(x)
                    implies post.has_entry(x) by {
                    if x != c {
                        assert(mid.is_desired(x));
                        assert(mid.has_entry(x));
                    }
                }
                assert forall|p: int, q: int|
                    0 <= p < post.entries().len() && 0 <= q < post.entries().len() && p != q
                        && entry_id(#[trigger] post.entries()[p]).is_some()
                    implies entry_id(post.entries()[p])
                        != entry_id(#[trigger] post.entries()[q]) by {
                    let x1 = post.entries()[p];
                    let x2 = post.entries()[q];
                    if p < q {
                        assert(x1.chunk.key_lt(x2.chunk));
                    } else {
                        assert(x2.chunk.key_lt(x1.chunk));
                    }
                    assert(x1 != x2);
                    assert(post.entries().contains(x1));
                    assert(post.entries().contains(x2));
                    if mid.entries().contains(x1) && mid.entries().contains(x2) {
                        let j1 = choose|j: int|
                            0 <= j < mid.entries().len() && mid.entries()[j] == x1;
                        let j2 = choose|j: int|
                            0 <= j < mid.entries().len() && mid.entries()[j] == x2;
                        assert(j1 != j2);
                        assert(entry_id(mid.entries()[j1]) != entry_id(mid.entries()[j2]));
                    }
                }
            }
            i += 1;
        }
        proof {
            assert(new_chunks@.subrange(0, n as int) =~= new_chunks@);
        }
    }

    /// Drops chunks from the desired set and drives each towards leaving the
    /// index: a queued or failed chunk is dropped at once, an in-flight
    /// download turns to cancelling, and a ready chunk turns to deleting
    /// unless a lease retains it (it is deleted once the last lease goes).
    pub fn delete_chunks(&mut self, del: &ChunkSet)
        requires
            old(self).wf(),
            del.wf(),
            forall|c: ChunkRef| #[trigger] del@.contains(c) ==> old(self).is_desired(c),
        ensures
            final(self).wf(),
            forall|c: ChunkRef| final(self).is_desired(c)
                <==> (old(self).is_desired(c) && !del@.contains(c)),
            forall|c: ChunkRef| !del@.contains(c)
                ==> final(self).state_of(c) == old(self).state_of(c),
            forall|c: ChunkRef| del@.contains(c)
                ==> final(self).state_of(c) == (match old(self).state_of(c) {
                    Some(ChunkState::Queued { attempts }) => None::<ChunkState>,
                    Some(ChunkState::Failed) => None::<ChunkState>,
                    Some(ChunkState::Downloading { id, attempts }) => Some(
                        ChunkState::Cancelling { id },
                    ),
                    Some(ChunkState::Ready) => if old(self).lease_count(c) > 0 {
                        Some(ChunkState::Ready)
                    } else {
                        Some(ChunkState::Deleting)
                    },
                    other => other,
                }),
            forall|c: ChunkRef| final(self).lease_count(c) == old(self).lease_count(c),
            final(self).downloads_stopped() == old(self).downloads_stopped(),
    {
        let n = del.len();
        let mut i: usize = 0;
        while i < n
            invariant
                n == del@.len(),
                0 <= i <= n,
                del.wf(),
                forall|c: ChunkRef| #[trigger] del@.contains(c) ==> old(self).is_desired(c),
                self.wf(),
                forall|c: ChunkRef| self.is_desired(c)
                    <==> (old(self).is_desired(c)
                        && !del@.subrange(0, i as int).contains(c)),
                forall|c: ChunkRef| !del@.subrange(0, i as int).contains(c)
                    ==> self.state_of(c) == old(self).state_of(c),
                forall|c: ChunkRef| del@.subrange(0, i as int).contains(c)
                    ==> self.state_of(c) == (match old(self).state_of(c) {
                        Some(ChunkState::Queued { attempts }) => None::<ChunkState>,
                        Some(ChunkState::Failed) => None::<ChunkState>,
                        Some(ChunkState::Downloading { id, attempts }) => Some(
                            ChunkState::Cancelling { id },
                        ),
                        Some(ChunkState::Ready) => if old(self).lease_count(c) > 0 {
                            Some(ChunkState::Ready)
                        } else {
                            Some(ChunkState::Deleting)
                        },
                        other => other,
                    }),
                forall|c: ChunkRef| self.lease_count(c) == old(self).lease_count(c),
                self.downloads_stopped() == old(self).downloads_stopped(),
            decreases n - i,
        {
            let c = del.get(i);
            proof {
                assert(del@.contains(c));
                assert forall|j: int| 0 <= j < i implies del@[j] != c by {
                    assert(del@[j].key_lt(del@[i as int]));
                }
                assert(!del@.subrange(0, i as int).contains(c));
                assert(self.state_of(c) == old(self).state_of(c));
                assert(self.is_desired(c));
                assert(self.has_entry(c));
            }
            let ghost mid = *self;
            let removed = self.desired.remove_key(&c);
            proof {
                let ch = removed.unwrap();
                if ch != c {
                    let k1 = choose|k1: int|
                        0 <= k1 < mid.desired_seq().len() && mid.desired_seq()[k1] == ch;
                    let k2 = choose|k2: int|
                        0 <= k2 < mid.desired_seq().len() && mid.desired_seq()[k2] == c;
                    if k1 < k2 {
                        assert(mid.desired_seq()[k1].key_lt(mid.desired_seq()[k2]));
                    } else {
                        assert(mid.desired_seq()[k2].key_lt(mid.desired_seq()[k1]));
                    }
                    assert(false);
                }
                assert(removed == Some(c));
            }
            let j = match self.index_find(&c) {
                Some(j) => j,
                None => {
                    proof {
                        assert(mid.has_entry(c));
                        assert(false);
                    }
                    0
                },
            };
            proof {
                self.lemma_state_at(j as int);
            }
            let st = self.index[j].state;
            match st {
                ChunkState::Queued { attempts: _ } => {
                    self.index_remove(j);
                },
                ChunkState::Failed => {
                    self.index_remove(j);
                },
                ChunkState::Downloading { id, attempts: _ } => {
                    self.index_set_state(j, ChunkState::Cancelling { id });
                },
                ChunkState::Ready => {
                    if !self.locks.is_leased(&c) {
                        self.index_set_state(j, ChunkState::Deleting);
                    }
                },
                _ => {},
            }
            proof {
                assert(del@.subrange(0, i as int + 1)
                    =~= del@.subrange(0, i as int).push(c));
                assert(del@.subrange(0, i as int + 1)[i as int] == c);
                assert(del@.subrange(0, i as int + 1).contains(c));
                let post = *self;
                assert forall|x: ChunkRef| post.is_desired(x)
                    <==> (old(self).is_desired(x)
                        && !del@.subrange(0, i as int + 1).contains(x)) by {
                    if x == c {
                        assert(!post.desired_seq().contains(c));
                    } else {
                        assert(post.is_desired(x) == mid.is_desired(x));
                        if mid.is_desired(x) {
                            assert(!del@.subrange(0, i as int).contains(x));
                        }
                    }
                }
                assert forall|x: ChunkRef| !del@.subrange(0, i as int + 1).contains(x)
                    implies post.state_of(x) == old(self).state_of(x) by {
                    assert(x != c);
                    assert(!del@.subrange(0, i as int).contains(x));
                    assert(post.state_of(x) == mid.state_of(x));
                }
                assert forall|x: ChunkRef| del@.subrange(0, i as int + 1).contains(x)
                    implies post.state_of(x) == (match old(self).state_of(x) {
                        Some(ChunkState::Queued { attempts }) => None::<ChunkState>,
                        Some(ChunkState::Failed) => None::<ChunkState>,
                        Some(ChunkState::Downloading { id, attempts }) => Some(
                            ChunkState::Cancelling { id },
                        ),
                        Some(ChunkState::Ready) => if old(self).lease_count(x) > 0 {
                            Some(ChunkState::Ready)
                        } else {
                            Some(ChunkState::Deleting)
                        },
                        other => other,
                    }) by {
                    if x != c {
                        assert(del@.subrange(0, i as int).contains(x));
                        assert(post.state_of(x) == mid.state_of(x));
                    } else {
                        assert(mid.state_of(c) == Some(st));
                    }
                }
                // well-formedness
                assert forall|x: ChunkRef| #[trigger] post.lease_count(x) > 0
                    implies post.state_of(x) == Some(ChunkState::Ready) by {
                    assert(mid.lease_count(x) > 0);
                    assert(mid.state_of(x) == Some(ChunkState::Ready));
                    if x == c {
                        assert(st == ChunkState::Ready);
                        assert(mid.lease_count(c) == old(self).lease_count(c));
                    }
                }
                assert forall|k: int| 0 <= k < post.entries().len()
                    implies match (#[trigger] post.entries()[k]).state {
                        ChunkState::Queued { attempts } => post.is_desired(post.entries()[k].chunk),
                        ChunkState::Downloading { id, attempts } => post.is_desired(
                            post.entries()[k].chunk,
                        ),
                        ChunkState::Failed => post.is_desired(post.entries()[k].chunk),
                        ChunkState::Ready => true,
                        _ => true,
                    } by {
                    let x = post.entries()[k];
                    post.lemma_state_at(k);
                    if x.chunk == c {
                        assert(post.state_of(c) == Some(x.state));
                    } else {
                        assert(post.state_of(x.chunk) == mid.state_of(x.chunk));
                        assert(post.entries().contains(x));
                        let j2 = choose|j2: int|
                            0 <= j2 < mid.entries().len() && (#[trigger] mid.entries()[j2]).chunk
                                == x.chunk;
                        assert(mid.has_entry(x.chunk));
                        mid.lemma_state_at(j2);
                        assert(mid.entries()[j2].state == x.state);
                        assert(match mid.entries()[j2].state {
                            ChunkState::Queued { attempts } => mid.is_desired(x.chunk),
                            ChunkState::Downloading { id, attempts } => mid.is_desired(x.chunk),
                            ChunkState::Failed => mid.is_desired(x.chunk),
                            ChunkState::Ready => true,
                            _ => true,
                        });
                        assert(post.is_desired(x.chunk) == (mid.is_desired(x.chunk)
                            && x.chunk != c));
                    }
                }
                assert forall|x: ChunkRef| #[trigger] post.is_desired(x)
                    implies post.has_entry(x) by {
                    assert(mid.is_desired(x));
                    assert(mid.has_entry(x));
                    assert(x != c);
                    assert(!(post.state_of(x) is None));
                }
                assert forall|p: int, q: int|
                    0 <= p < post.entries().len() && 0 <= q < post.entries().len() && p != q
                        && entry_id(#[trigger] post.entries()[p]).is_some()
                    implies entry_id(post.entries()[p])
                        != entry_id(#[trigger] post.entries()[q]) by {
                    let x1 = post.entries()[p];
                    let x2 = post.entries()[q];
                    if p < q {
                        assert(x1.chunk.key_lt(x2.chunk));
                    } else {
                        assert(x2.chunk.key_lt(x1.chunk));
                    }
                    post.lemma_state_at(p);
                    post.lemma_state_at(q);
                    let j1 = choose|j1: int|
                        0 <= j1 < mid.entries().len() && (#[trigger] mid.entries()[j1]).chunk
                            == x1.chunk;
                    let j2 = choose|j2: int|
                        0 <= j2 < mid.entries().len() && (#[trigger] mid.entries()[j2]).chunk
                            == x2.chunk;
                    assert(mid.has_entry(x1.chunk)) by {
                        if post.state_of(x1.chunk) == mid.state_of(x1.chunk) {
                        } else {
                            assert(x1.chunk == c);
                        }
                    }
                    assert(mid.has_entry(x2.chunk)) by {
                        if post.state_of(x2.chunk) == mid.state_of(x2.chunk) {
                        } else {
                            assert(x2.chunk == c);
                        }
                    }
                    mid.lemma_state_at(j1);
                    mid.lemma_state_at(j2);
                    assert(j1 != j2);
                    assert(entry_id(mid.entries()[j1]) != entry_id(mid.entries()[j2])
                        || entry_id(mid.entries()[j1]) is None);
                    assert(entry_id(x1) == entry_id(mid.entries()[j1]) || x1.chunk == c);
                    assert(entry_id(x2) == entry_id(mid.entries()[j2]) || x2.chunk == c);
                }
            }
            i += 1;
        }
        proof {
            assert(del@.subrange(0, n as int) =~= del@);
        }
    }

    /// Returns every ready chunk of `dataset` whose range holds `block`,
    /// ordered by `first_block` ascending, taking one lease on each. The
    /// check and the lease increments are one atomic step of this state, so
    /// no deletion can slip between them.
    pub fn find_chunks(&mut self, dataset: DatasetId, block: BlockNumber) -> (r: Vec<ChunkRef>)
        requires
            old(self).wf(),
        ensures
            final(self).wf(),
            forall|k: int| 0 <= k < r@.len()
                ==> old(self).is_ready(#[trigger] r@[k]) && r@[k].covers(dataset, block),
            forall|c: ChunkRef| old(self).is_ready(c) && c.covers(dataset, block)
                ==> r@.contains(c),
            sorted_by_key(r@),
            forall|c: ChunkRef| #[trigger] final(self).lease_count(c) == old(self).lease_count(c)
                + (if r@.contains(c) { 1int } else { 0int }),
            forall|c: ChunkRef| final(self).state_of(c) == old(self).state_of(c),
            forall|c: ChunkRef| final(self).is_desired(c) == old(self).is_desired(c),
            final(self).downloads_stopped() == old(self).downloads_stopped(),
    {
        let mut r: Vec<ChunkRef> = Vec::new();
        let n = self.index.len();
        let mut i: usize = 0;
        while i < n
            invariant
                n == self.entries().len(),
                0 <= i <= n,
                self.wf(),
                self.entries() == old(self).entries(),
                self.desired_seq() == old(self).desired_seq(),
                self.downloads_stopped() == old(self).downloads_stopped(),
                forall|k: int| 0 <= k < r@.len() ==> exists|j: int|
                    0 <= j < i && (#[trigger] r@[k]) == self.entries()[j].chunk
                        && self.entries()[j].state == ChunkState::Ready,
                forall|k: int| 0 <= k < r@.len()
                    ==> (#[trigger] r@[k]).covers(dataset, block),
                sorted_by_key(r@),
                forall|j: int| 0 <= j < i && (#[trigger] self.entries()[j]).state
                    == ChunkState::Ready && self.entries()[j].chunk.covers(dataset, block)
                    ==> r@.contains(self.entries()[j].chunk),
                forall|c: ChunkRef| #[trigger] self.lease_count(c) == old(self).lease_count(c)
                    + (if r@.contains(c) { 1int } else { 0int }),
            decreases n - i,
        {
            let e = self.index[i];
            let is_ready_entry = match e.state {
                ChunkState::Ready => true,
                _ => false,
            };
            if is_ready_entry && e.chunk.covers_block(dataset, block) {
                let ghost rpre = r@;
                proof {
                    assert forall|k: int| 0 <= k < rpre.len()
                        implies rpre[k].key_lt(e.chunk) by {
                        let j = choose|j: int|
                            0 <= j < i && rpre[k] == self.entries()[j].chunk
                                && self.entries()[j].state == ChunkState::Ready;
                        assert(self.entries()[j].chunk.key_lt(self.entries()[i as int].chunk));
                    }
                    assert(!rpre.contains(e.chunk));
                }
                let ghost spre = *self;
                self.locks.lock(e.chunk);
                r.push(e.chunk);
                proof {
                    State::lemma_states_agree(&spre, self);
                    assert forall|c: ChunkRef| #[trigger] self.lease_count(c)
                        == old(self).lease_count(c) + (if r@.contains(c) { 1int } else { 0int })
                        by {
                        if c == e.chunk {
                            assert(self.lease_count(c) == spre.lease_count(c) + 1);
                            assert(spre.lease_count(c) == old(self).lease_count(c));
                            assert(r@.contains(c)) by {
                                assert(r@[r@.len() - 1] == c);
                            }
                        } else {
                            assert(self.lease_count(c) == spre.lease_count(c));
                            assert(spre.lease_count(c) == old(self).lease_count(c)
                                + (if rpre.contains(c) { 1int } else { 0int }));
                            assert(r@.contains(c) == rpre.contains(c)) by {
                                if rpre.contains(c) {
                                    let k = choose|k: int| 0 <= k < rpre.len() && rpre[k] == c;
                                    assert(r@[k] == c);
                                }
                                if r@.contains(c) {
                                    let k = choose|k: int| 0 <= k < r@.len() && r@[k] == c;
                                    assert(k < rpre.len());
                                    assert(rpre[k] == c);
                                }
                            }
                        }
                    }
                    assert forall|c: ChunkRef| #[trigger] self.lease_count(c) > 0
                        implies self.state_of(c) == Some(ChunkState::Ready) by {
                        if c == e.chunk {
                            spre.lemma_state_at(i as int);
                        } else {
                            assert(self.lease_count(c) == spre.lease_count(c));
                            assert(spre.lease_count(c) > 0);
                            assert(spre.state_of(c) == Some(ChunkState::Ready));
                        }
                    }
                    assert forall|j2: int| 0 <= j2 < self.entries().len()
                        implies match (#[trigger] self.entries()[j2]).state {
                            ChunkState::Queued { attempts } => self.is_desired(
                                self.entries()[j2].chunk,
                            ),
                            ChunkState::Downloading { id, attempts } => self.is_desired(
                                self.entries()[j2].chunk,
                            ),
                            ChunkState::Failed => self.is_desired(self.entries()[j2].chunk),
                            ChunkState::Ready => true,
                            _ => true,
                        } by {
                        let ch = self.entries()[j2].chunk;
                        assert(spre.entries()[j2] == self.entries()[j2]);
                        assert(self.lease_count(ch) >= spre.lease_count(ch));
                    }
                    assert forall|c: ChunkRef| #[trigger] self.is_desired(c)
                        implies self.has_entry(c) by {
                        assert(spre.is_desired(c));
                        assert(spre.has_entry(c));
                    }
                    assert forall|p: int, q: int|
                        0 <= p < self.entries().len() && 0 <= q < self.entries().len() && p != q
                            && entry_id(#[trigger] self.entries()[p]).is_some()
                        implies entry_id(self.entries()[p])
                            != entry_id(#[trigger] self.entries()[q]) by {
                        assert(entry_id(#[trigger] spre.entries()[p]).is_some());
                        assert(entry_id(spre.entries()[p]) != entry_id(#[trigger] spre.entries()[q]));
                    }
                    assert forall|j2: int| 0 <= j2 < i + 1
                        && (#[trigger] self.entries()[j2]).state == ChunkState::Ready
                        && self.entries()[j2].chunk.covers(dataset, block)
                        implies r@.contains(self.entries()[j2].chunk) by {
                        if j2 == i {
                            assert(r@[r@.len() - 1] == e.chunk);
                        } else {
                            assert(rpre.contains(self.entries()[j2].chunk));
                            let k = choose|k: int|
                                0 <= k < rpre.len() && rpre[k] == self.entries()[j2].chunk;
                            assert(r@[k] == self.entries()[j2].chunk);
                        }
                    }
                }
            }
            i += 1;
        }
        proof {
            State::lemma_states_agree(old(self), self);
            assert forall|c: ChunkRef| old(self).is_ready(c) && c.covers(dataset, block)
                implies r@.contains(c) by {
                let j = choose|j: int|
                    0 <= j < old(self).entries().len()
                        && (#[trigger] old(self).entries()[j]).chunk == c;
                old(self).lemma_state_at(j);
                assert(old(self).entries()[j].state == ChunkState::Ready);
            }
            assert forall|k: int| 0 <= k < r@.len()
                implies old(self).is_ready(#[trigger] r@[k]) by {
                let j = choose|j: int|
                    0 <= j < n && r@[k] == self.entries()[j].chunk
                        && self.entries()[j].state == ChunkState::Ready;
                old(self).lemma_state_at(j);
            }
        }
        r
    }

    /// Like `find_chunks`, but across all datasets: every ready chunk whose
    /// range holds `block`, ordered by `(dataset, first_block)`, each with
    /// one lease taken.
    pub fn get_and_lock_chunks(&mut self, first_block: BlockNumber) -> (r: Vec<ChunkRef>)
        requires
            old(self).wf(),
        ensures
            final(self).wf(),
            forall|k: int| 0 <= k < r@.len()
                ==> old(self).is_ready(#[trigger] r@[k]) && r@[k].first_block <= first_block
                    && first_block <= r@[k].last_block,
            forall|c: ChunkRef| old(self).is_ready(c) && c.first_block <= first_block
                && first_block <= c.last_block ==> r@.contains(c),
            sorted_by_key(r@),
            forall|c: ChunkRef| #[trigger] final(self).lease_count(c) == old(self).lease_count(c)
                + (if r@.contains(c) { 1int } else { 0int }),
            forall|c: ChunkRef| final(self).state_of(c) == old(self).state_of(c),
            forall|c: ChunkRef| final(self).is_desired(c) == old(self).is_desired(c),
            final(self).downloads_stopped() == old(self).downloads_stopped(),
    {
        let mut r: Vec<ChunkRef> = Vec::new();
        let n = self.index.len();
        let mut i: usize = 0;
        while i < n
            invariant
                n == self.entries().len(),
                0 <= i <= n,
                self.wf(),
                self.entries() == old(self).entries(),
                self.desired_seq() == old(self).desired_seq(),
                self.downloads_stopped() == old(self).downloads_stopped(),
                forall|k: int| 0 <= k < r@.len() ==> exists|j: int|
                    0 <= j < i && (#[trigger] r@[k]) == self.entries()[j].chunk
                        && self.entries()[j].state == ChunkState::Ready,
                forall|k: int| 0 <= k < r@.len()
                    ==> (#[trigger] r@[k]).first_block <= first_block
                        && first_block <= r@[k].last_block,
                sorted_by_key(r@),
                forall|j: int| 0 <= j < i && (#[trigger] self.entries()[j]).state
                    == ChunkState::Ready && self.entries()[j].chunk.first_block <= first_block
                    && first_block <= self.entries()[j].chunk.last_block
                    ==> r@.contains(self.entries()[j].chunk),
                forall|c: ChunkRef| #[trigger] self.lease_count(c) == old(self).lease_count(c)
                    + (if r@.contains(c) { 1int } else { 0int }),
            decreases n - i,
        {
            let e = self.index[i];
            let is_ready_entry = match e.state {
                ChunkState::Ready => true,
                _ => false,
            };
            if is_ready_entry && e.chunk.first_block <= first_block
                && first_block <= e.chunk.last_block {
                let ghost rpre = r@;
                proof {
                    assert forall|k: int| 0 <= k < rpre.len()
                        implies rpre[k].key_lt(e.chunk) by {
                        let j = choose|j: int|
                            0 <= j < i && rpre[k] == self.entries()[j].chunk
                                && self.entries()[j].state == ChunkState::Ready;
                        assert(self.entries()[j].chunk.key_lt(self.entries()[i as int].chunk));
                    }
                    assert(!rpre.contains(e.chunk));
                }
                let ghost spre = *self;
                self.locks.lock(e.chunk);
                r.push(e.chunk);
                proof {
                    State::lemma_states_agree(&spre, self);
                    assert forall|c: ChunkRef| #[trigger] self.lease_count(c)
                        == old(self).lease_count(c) + (if r@.contains(c) { 1int } else { 0int })
                        by {
                        if c == e.chunk {
                            assert(self.lease_count(c) == spre.lease_count(c) + 1);
                            assert(spre.lease_count(c) == old(self).lease_count(c));
                            assert(r@.contains(c)) by {
                                assert(r@[r@.len() - 1] == c);
                            }
                        } else {
                            assert(self.lease_count(c) == spre.lease_count(c));
                            assert(spre.lease_count(c) == old(self).lease_count(c)
                                + (if rpre.contains(c) { 1int } else { 0int }));
                            assert(r@.contains(c) == rpre.contains(c)) by {
                                if rpre.contains(c) {
                                    let k = choose|k: int| 0 <= k < rpre.len() && rpre[k] == c;
                                    assert(r@[k] == c);
                                }
                                if r@.contains(c) {
                                    let k = choose|k: int| 0 <= k < r@.len() && r@[k] == c;
                                    assert(k < rpre.len());
                                    assert(rpre[k] == c);
                                }
                            }
                        }
                    }
                    assert forall|c: ChunkRef| #[trigger] self.lease_count(c) > 0
                        implies self.state_of(c) == Some(ChunkState::Ready) by {
                        if c == e.chunk {
                            spre.lemma_state_at(i as int);
                        } else {
                            assert(self.lease_count(c) == spre.lease_count(c));
                            assert(spre.lease_count(c) > 0);
                            assert(spre.state_of(c) == Some(ChunkState::Ready));
                        }
                    }
                    assert forall|j2: int| 0 <= j2 < self.entries().len()
                        implies match (#[trigger] self.entries()[j2]).state {
                            ChunkState::Queued { attempts } => self.is_desired(
                                self.entries()[j2].chunk,
                            ),
                            ChunkState::Downloading { id, attempts } => self.is_desired(
                                self.entries()[j2].chunk,
                            ),
                            ChunkState::Failed => self.is_desired(self.entries()[j2].chunk),
                            ChunkState::Ready => true,
                            _ => true,
                        } by {
                        let ch = self.entries()[j2].chunk;
                        assert(spre.entries()[j2] == self.entries()[j2]);
                        assert(self.lease_count(ch) >= spre.lease_count(ch));
                    }
                    assert forall|c: ChunkRef| #[trigger] self.is_desired(c)
                        implies self.has_entry(c) by {
                        assert(spre.is_desired(c));
                        assert(spre.has_entry(c));
                    }
                    assert forall|p: int, q: int|
                        0 <= p < self.entries().len() && 0 <= q < self.entries().len() && p != q
                            && entry_id(#[trigger] self.entries()[p]).is_some()
                        implies entry_id(self.entries()[p])
                            != entry_id(#[trigger] self.entries()[q]) by {
                        assert(entry_id(#[trigger] spre.entries()[p]).is_some());
                        assert(entry_id(spre.entries()[p]) != entry_id(#[trigger] spre.entries()[q]));
                    }
                    assert forall|j2: int| 0 <= j2 < i + 1
                        && (#[trigger] self.entries()[j2]).state == ChunkState::Ready
                        && self.entries()[j2].chunk.first_block <= first_block
                        && first_block <= self.entries()[j2].chunk.last_block
                        implies r@.contains(self.entries()[j2].chunk) by {
                        if j2 == i {
                            assert(r@[r@.len() - 1] == e.chunk);
                        } else {
                            assert(rpre.contains(self.entries()[j2].chunk));
                            let k = choose|k: int|
                                0 <= k < rpre.len() && rpre[k] == self.entries()[j2].chunk;
                            assert(r@[k] == self.entries()[j2].chunk);
                        }
                    }
                }
            }
            i += 1;
        }
        proof {
            State::lemma_states_agree(old(self), self);
            assert forall|c: ChunkRef| old(self).is_ready(c) && c.first_block <= first_block
                && first_block <= c.last_block implies r@.contains(c) by {
                let j = choose|j: int|
                    0 <= j < old(self).entries().len()
                        && (#[trigger] old(self).entries()[j]).chunk == c;
                old(self).lemma_state_at(j);
                assert(old(self).entries()[j].state == ChunkState::Ready);
            }
            assert forall|k: int| 0 <= k < r@.len()
                implies old(self).is_ready(#[trigger] r@[k]) by {
                let j = choose|j: int|
                    0 <= j < n && r@[k] == self.entries()[j].chunk
                        && self.entries()[j].state == ChunkState::Ready;
                old(self).lemma_state_at(j);
            }
        }
        r
    }

    /// Releases one lease per element of `chunks`, and nothing more: no
    /// lifecycle tag changes in this call. Releasing the last lease of a
    /// retained, no-longer-desired chunk makes it collectable by the next
    /// `take_deletions`, so the caller re-signals the reconciler afterwards.
    pub fn unlock_chunks(&mut self, chunks: &Vec<ChunkRef>)
        requires
            old(self).wf(),
            forall|c: ChunkRef| chunks@.to_multiset().count(c) <= old(self).lease_count(c),
        ensures
            final(self).wf(),
            forall|c: ChunkRef| #[trigger] final(self).lease_count(c)
                + chunks@.to_multiset().count(c) == old(self).lease_count(c),
            forall|c: ChunkRef| final(self).state_of(c) == old(self).state_of(c),
            final(self).entries() == old(self).entries(),
            forall|c: ChunkRef| final(self).is_desired(c) == old(self).is_desired(c),
            final(self).downloads_stopped() == old(self).downloads_stopped(),
    {
        proof {
            broadcast use vstd::seq_lib::group_to_multiset_ensures;

            assert(chunks@.subrange(0, chunks@.len() as int) =~= chunks@);
            assert(chunks@.subrange(0, 0) =~= Seq::<ChunkRef>::empty());
            assert forall|c: ChunkRef| chunks@.subrange(0, 0).to_multiset().count(c) == 0 by {
                assert(!chunks@.subrange(0, 0).contains(c));
            }
        }
        let n = chunks.len();
        let mut k: usize = 0;
        while k < n
            invariant
                n == chunks@.len(),
                0 <= k <= n,
                self.wf(),
                self.entries() == old(self).entries(),
                self.desired_seq() == old(self).desired_seq(),
                self.downloads_stopped() == old(self).downloads_stopped(),
                forall|c: ChunkRef| #[trigger] self.lease_count(c)
                    + chunks@.subrange(0, k as int).to_multiset().count(c)
                    == old(self).lease_count(c),
                forall|c: ChunkRef| chunks@.subrange(k as int, n as int).to_multiset().count(c)
                    <= self.lease_count(c),
            decreases n - k,
        {
            let c = chunks[k];
            proof {
                broadcast use vstd::seq_lib::group_to_multiset_ensures;

                assert(chunks@.subrange(k as int, n as int)[0] == c);
                assert(chunks@.subrange(k as int, n as int).contains(c));
                assert(chunks@.subrange(k as int, n as int).to_multiset().count(c) > 0);
                assert(self.lease_count(c) > 0);
            }
            let ghost spre = *self;
            self.locks.unlock(c);
            proof {
                broadcast use vstd::seq_lib::group_to_multiset_ensures;

                assert(chunks@.subrange(0, k as int + 1)
                    =~= chunks@.subrange(0, k as int).push(c));
                assert(chunks@.subrange(k as int, n as int)
                    =~= seq![c] + chunks@.subrange(k as int + 1, n as int));
                lemma_multiset_commutative(seq![c], chunks@.subrange(k as int + 1, n as int));
                assert(seq![c].to_multiset() =~= Multiset::<ChunkRef>::empty().insert(c)) by {
                    assert(seq![c] =~= Seq::<ChunkRef>::empty().push(c));
                    assert(Seq::<ChunkRef>::empty().to_multiset() =~= Multiset::<ChunkRef>::empty())
                        by {
                        assert(Seq::<ChunkRef>::empty().to_multiset().len() == 0);
                    }
                }
                let post = *self;
                assert forall|x: ChunkRef| #[trigger] post.lease_count(x)
                    + chunks@.subrange(0, k as int + 1).to_multiset().count(x)
                    == old(self).lease_count(x) by {
                    if x == c {
                        assert(post.lease_count(c) + 1 == spre.lease_count(c));
                    } else {
                        assert(post.lease_count(x) == spre.lease_count(x));
                    }
                }
                assert forall|x: ChunkRef|
                    chunks@.subrange(k as int + 1, n as int).to_multiset().count(x)
                    <= post.lease_count(x) by {
                    assert(chunks@.subrange(k as int, n as int).to_multiset().count(x)
                        <= spre.lease_count(x));
                }
                State::lemma_states_agree(&spre, &post);
                assert forall|x: ChunkRef| #[trigger] post.lease_count(x) > 0
                    implies post.state_of(x) == Some(ChunkState::Ready) by {
                    assert(spre.lease_count(x) > 0);
                    assert(spre.state_of(x) == Some(ChunkState::Ready));
                }
                assert forall|j2: int| 0 <= j2 < post.entries().len()
                    implies match (#[trigger] post.entries()[j2]).state {
                        ChunkState::Queued { attempts } => post.is_desired(
                            post.entries()[j2].chunk,
                        ),
                        ChunkState::Downloading { id, attempts } => post.is_desired(
                            post.entries()[j2].chunk,
                        ),
                        ChunkState::Failed => post.is_desired(post.entries()[j2].chunk),
                        ChunkState::Ready => true,
                        _ => true,
                    } by {
                    assert(spre.entries()[j2] == post.entries()[j2]);
                    assert(match spre.entries()[j2].state {
                        ChunkState::Queued { attempts } => spre.is_desired(
                            spre.entries()[j2].chunk,
                        ),
                        ChunkState::Downloading { id, attempts } => spre.is_desired(
                            spre.entries()[j2].chunk,
                        ),
                        ChunkState::Failed => spre.is_desired(spre.entries()[j2].chunk),
                        ChunkState::Ready => true,
                        _ => true,
                    });
                }
                assert forall|x: ChunkRef| #[trigger] post.is_desired(x)
                    implies post.has_entry(x) by {
                    assert(spre.is_desired(x));
                    assert(spre.has_entry(x));
                }
                assert forall|p: int, q: int|
                    0 <= p < post.entries().len() && 0 <= q < post.entries().len() && p != q
                        && entry_id(#[trigger] post.entries()[p]).is_some()
                    implies entry_id(post.entries()[p])
                        != entry_id(#[trigger] post.entries()[q]) by {
                    assert(entry_id(#[trigger] spre.entries()[p]).is_some());
                    assert(entry_id(spre.entries()[p])
                        != entry_id(#[trigger] spre.entries()[q]));
                }
            }
            k += 1;
        }
        proof {
            assert(chunks@.subrange(0, n as int) =~= chunks@);
            State::lemma_states_agree(old(self), self);
        }
    }


    /// Position of the entry tied to download `did`, if any.
    fn index_find_id(&self, did: DownloadId) -> (r: Option<usize>)
        ensures
            match r {
                Some(i) => i < self.entries().len()
                    && entry_id(self.entries()[i as int]) == Some(did),
                None => forall|j: int| 0 <= j < self.entries().len()
                    ==> entry_id(#[trigger] self.entries()[j]) != Some(did),
            },
    {
        let n = self.index.len();
        let mut i: usize = 0;
        while i < n
            invariant
                n == self.entries().len(),
                0 <= i <= n,
                forall|j: int| 0 <= j < i
                    ==> entry_id(#[trigger] self.entries()[j]) != Some(did),
            decreases n - i,
        {
            let hit = match self.index[i].state {
                ChunkState::Downloading { id, attempts: _ } => id == did,
                ChunkState::Cancelling { id } => id == did,
                _ => false,
            };
            if hit {
                return Some(i);
            }
            i += 1;
        }
        None
    }

    /// When no entry carries `did`, no chunk's state does either.
    proof fn lemma_no_id(&self, did: DownloadId)
        requires
            entries_sorted(self.entries()),
            forall|j: int| 0 <= j < self.entries().len()
                ==> entry_id(#[trigger] self.entries()[j]) != Some(did),
        ensures
            forall|c: ChunkRef| match #[trigger] self.state_of(c) {
                Some(ChunkState::Downloading { id, attempts }) => id != did,
                Some(ChunkState::Cancelling { id }) => id != did,
                _ => true,
            },
    {
        assert forall|c: ChunkRef| match #[trigger] self.state_of(c) {
            Some(ChunkState::Downloading { id, attempts }) => id != did,
            Some(ChunkState::Cancelling { id }) => id != did,
            _ => true,
        } by {
            if self.has_entry(c) {
                let k = choose|k: int|
                    0 <= k < self.entries().len() && (#[trigger] self.entries()[k]).chunk == c;
                self.lemma_state_at(k);
                assert(entry_id(self.entries()[k]) != Some(did));
            }
        }
    }

    /// Takes the next queued chunk, in `(dataset, first_block)` order, and
    /// marks it as downloading under the fresh id `id`. Returns `None` when
    /// downloads are stopped or nothing is queued. Within one reconciliation
    /// pass this is the deterministic tie-break order; across passes a chunk
    /// queued later is served first when its key is smaller.
    #[verifier::rlimit(50)]
    pub fn take_next_download(&mut self, id: DownloadId) -> (r: Option<ChunkRef>)
        requires
            old(self).wf(),
            old(self).fresh_id(id),
        ensures
            final(self).wf(),
            forall|c: ChunkRef| final(self).is_desired(c) == old(self).is_desired(c),
            forall|c: ChunkRef| final(self).lease_count(c) == old(self).lease_count(c),
            final(self).downloads_stopped() == old(self).downloads_stopped(),
            match r {
                None => (old(self).downloads_stopped() || forall|c: ChunkRef|
                    !((#[trigger] old(self).state_of(c)) matches Some(ChunkState::Queued { .. })))
                    && (forall|c: ChunkRef| final(self).state_of(c) == old(self).state_of(c)),
                Some(c) => {
                    &&& !old(self).downloads_stopped()
                    &&& match old(self).state_of(c) {
                        Some(ChunkState::Queued { attempts }) => final(self).state_of(c)
                            == Some(ChunkState::Downloading { id, attempts }),
                        _ => false,
                    }
                    &&& forall|d: ChunkRef| (#[trigger] old(self).state_of(d))
                        matches Some(ChunkState::Queued { .. }) && d != c ==> c.key_lt(d)
                    &&& forall|d: ChunkRef| d != c
                        ==> final(self).state_of(d) == old(self).state_of(d)
                },
            },
    {
        if self.stopped {
            return None;
        }
        let n = self.index.len();
        let mut i: usize = 0;
        while i < n
            invariant
                n == self.entries().len(),
                0 <= i <= n,
                self == old(self),
                self.wf(),
                !old(self).downloads_stopped(),
                old(self).fresh_id(id),
                forall|j: int| 0 <= j < i
                    ==> !((#[trigger] self.entries()[j]).state matches ChunkState::Queued { .. }),
            decreases n - i,
        {
            let found = match self.index[i].state {
                ChunkState::Queued { attempts: _ } => true,
                _ => false,
            };
            if found {
                let c = self.index[i].chunk;
                let attempts = match self.index[i].state {
                    ChunkState::Queued { attempts } => attempts,
                    _ => 0,
                };
                proof {
                    self.lemma_state_at(i as int);
                }
                let ghost spre = *self;
                self.index_set_state(i, ChunkState::Downloading { id, attempts });
                proof {
                    assert forall|d: ChunkRef| (#[trigger] spre.state_of(d))
                        matches Some(ChunkState::Queued { .. }) && d != c
                        implies c.key_lt(d) by {
                        let k = choose|k: int|
                            0 <= k < spre.entries().len()
                                && (#[trigger] spre.entries()[k]).chunk == d;
                        spre.lemma_state_at(k);
                        assert(k > i);
                    }
                    let post = *self;
                    assert forall|x: ChunkRef| #[trigger] post.lease_count(x) > 0
                        implies post.state_of(x) == Some(ChunkState::Ready) by {
                        assert(spre.lease_count(x) > 0);
                        assert(spre.state_of(x) == Some(ChunkState::Ready));
                        assert(x != c);
                    }
                    assert forall|j2: int| 0 <= j2 < post.entries().len()
                        implies match (#[trigger] post.entries()[j2]).state {
                            ChunkState::Queued { attempts: a2 } => post.is_desired(
                                post.entries()[j2].chunk,
                            ),
                            ChunkState::Downloading { id: i2, attempts: a2 } => post.is_desired(
                                post.entries()[j2].chunk,
                            ),
                            ChunkState::Failed => post.is_desired(post.entries()[j2].chunk),
                            ChunkState::Ready => true,
                            _ => true,
                        } by {
                        assert(spre.entries()[j2].chunk == post.entries()[j2].chunk);
                        assert(match spre.entries()[j2].state {
                            ChunkState::Queued { attempts: a2 } => spre.is_desired(
                                spre.entries()[j2].chunk,
                            ),
                            ChunkState::Downloading { id: i2, attempts: a2 } => spre.is_desired(
                                spre.entries()[j2].chunk,
                            ),
                            ChunkState::Failed => spre.is_desired(spre.entries()[j2].chunk),
                            ChunkState::Ready => true,
                            _ => true,
                        });
                    }
                    assert forall|x: ChunkRef| #[trigger] post.is_desired(x)
                        implies post.has_entry(x) by {
                        assert(spre.is_desired(x));
                        assert(spre.has_entry(x));
                    }
                    assert forall|p: int, q: int|
                        0 <= p < post.entries().len() && 0 <= q < post.entries().len() && p != q
                            && entry_id(#[trigger] post.entries()[p]).is_some()
                        implies entry_id(post.entries()[p])
                            != entry_id(#[trigger] post.entries()[q]) by {
                        if p != i && q != i {
                            assert(entry_id(#[trigger] spre.entries()[p]).is_some()
                                ==> entry_id(spre.entries()[p])
                                    != entry_id(#[trigger] spre.entries()[q]));
                        } else if p == i as int {
                            assert(entry_id(#[trigger] spre.entries()[q]) != Some(id));
                        } else {
                            assert(entry_id(#[trigger] spre.entries()[p]) != Some(id));
                        }
                    }
                }
                return Some(c);
            }
            i += 1;
        }
        proof {
            assert forall|c: ChunkRef|
                !((#[trigger] self.state_of(c)) matches Some(ChunkState::Queued { .. })) by {
                if self.has_entry(c) {
                    let k = choose|k: int|
                        0 <= k < self.entries().len()
                            && (#[trigger] self.entries()[k]).chunk == c;
                    self.lemma_state_at(k);
                }
            }
        }
        None
    }

    /// Records that download `did` finished with its files in place: a
    /// downloading chunk becomes ready; one whose cancellation was requested
    /// becomes deleting, so the late files are removed. An unknown id changes
    /// nothing.
    pub fn complete_download(&mut self, did: DownloadId)
        requires
            old(self).wf(),
        ensures
            final(self).wf(),
            forall|c: ChunkRef| final(self).state_of(c)
                == resolve_success(old(self).state_of(c), did),
            forall|c: ChunkRef| final(self).is_desired(c) == old(self).is_desired(c),
            forall|c: ChunkRef| final(self).lease_count(c) == old(self).lease_count(c),
            final(self).downloads_stopped() == old(self).downloads_stopped(),
    {
        let j = match self.index_find_id(did) {
            Some(j) => j,
            None => {
                proof {
                    self.lemma_no_id(did);
                }
                return;
            },
        };
        proof {
            self.lemma_state_at(j as int);
        }
        let c = self.index[j].chunk;
        let ghost spre = *self;
        let was_downloading = match self.index[j].state {
            ChunkState::Downloading { id: _, attempts: _ } => true,
            _ => false,
        };
        if was_downloading {
            self.index_set_state(j, ChunkState::Ready);
        } else {
            self.index_set_state(j, ChunkState::Deleting);
        }
        proof {
            let post = *self;
            assert forall|x: ChunkRef| post.state_of(x) == (match spre.state_of(x) {
                Some(ChunkState::Downloading { id, attempts }) => if id == did {
                    Some(ChunkState::Ready)
                } else {
                    spre.state_of(x)
                },
                Some(ChunkState::Cancelling { id }) => if id == did {
                    Some(ChunkState::Deleting)
                } else {
                    spre.state_of(x)
                },
                _ => spre.state_of(x),
            }) by {
                if x != c {
                    assert(post.state_of(x) == spre.state_of(x));
                    if spre.has_entry(x) {
                        let k = choose|k: int|
                            0 <= k < spre.entries().len()
                                && (#[trigger] spre.entries()[k]).chunk == x;
                        spre.lemma_state_at(k);
                        assert(k != j);
                        assert(entry_id(spre.entries()[k]) != Some(did)
                            || entry_id(spre.entries()[j as int]) != Some(did)
                            || false) by {
                            if entry_id(spre.entries()[k]).is_some() {
                                assert(entry_id(spre.entries()[k])
                                    != entry_id(spre.entries()[j as int]));
                            }
                        }
                    }
                }
            }
            assert forall|x: ChunkRef| #[trigger] post.lease_count(x) > 0
                implies post.state_of(x) == Some(ChunkState::Ready) by {
                assert(spre.lease_count(x) > 0);
                assert(spre.state_of(x) == Some(ChunkState::Ready));
                assert(x != c);
            }
            assert forall|j2: int| 0 <= j2 < post.entries().len()
                implies match (#[trigger] post.entries()[j2]).state {
                    ChunkState::Queued { attempts } => post.is_desired(post.entries()[j2].chunk),
                    ChunkState::Downloading { id, attempts } => post.is_desired(
                        post.entries()[j2].chunk,
                    ),
                    ChunkState::Failed => post.is_desired(post.entries()[j2].chunk),
                    ChunkState::Ready => true,
                    _ => true,
                } by {
                assert(spre.entries()[j2].chunk == post.entries()[j2].chunk);
                assert(match spre.entries()[j2].state {
                    ChunkState::Queued { attempts } => spre.is_desired(spre.entries()[j2].chunk),
                    ChunkState::Downloading { id, attempts } => spre.is_desired(
                        spre.entries()[j2].chunk,
                    ),
                    ChunkState::Failed => spre.is_desired(spre.entries()[j2].chunk),
                    ChunkState::Ready => true,
                    _ => true,
                });
            }
            assert forall|x: ChunkRef| #[trigger] post.is_desired(x)
                implies post.has_entry(x) by {
                assert(spre.is_desired(x));
                assert(spre.has_entry(x));
            }
            assert forall|p: int, q: int|
                0 <= p < post.entries().len() && 0 <= q < post.entries().len() && p != q
                    && entry_id(#[trigger] post.entries()[p]).is_some()
                implies entry_id(post.entries()[p])
                    != entry_id(#[trigger] post.entries()[q]) by {
                assert(p != j);
                assert(entry_id(#[trigger] spre.entries()[p]).is_some());
                assert(entry_id(spre.entries()[p]) != entry_id(#[trigger] spre.entries()[q]));
                if q == j as int {
                    assert(entry_id(post.entries()[q]) is None);
                }
            }
        }
    }

    /// Records that download `did` ended with nothing on disk (it failed or
    /// its cancellation went through). A downloading chunk is queued again
    /// until its attempts are spent, then reported failed and left alone. A
    /// cancelling chunk leaves the index, or is queued afresh when it was
    /// re-added to the desired set meanwhile. An unknown id changes nothing.
    pub fn fail_download(&mut self, did: DownloadId)
        requires
            old(self).wf(),
        ensures
            final(self).wf(),
            forall|c: ChunkRef| final(self).state_of(c)
                == resolve_failure(old(self).state_of(c), did, old(self).is_desired(c)),
            forall|c: ChunkRef| final(self).is_desired(c) == old(self).is_desired(c),
            forall|c: ChunkRef| final(self).lease_count(c) == old(self).lease_count(c),
            final(self).downloads_stopped() == old(self).downloads_stopped(),
    {
        let j = match self.index_find_id(did) {
            Some(j) => j,
            None => {
                proof {
                    self.lemma_no_id(did);
                }
                return;
            },
        };
        proof {
            self.lemma_state_at(j as int);
        }
        let c = self.index[j].chunk;
        let ghost spre = *self;
        match self.index[j].state {
            ChunkState::Downloading { id: _, attempts } => {
                if attempts >= MAX_DOWNLOAD_ATTEMPTS - 1 {
                    self.index_set_state(j, ChunkState::Failed);
                } else {
                    self.index_set_state(j, ChunkState::Queued { attempts: attempts + 1 });
                }
            },
            _ => {
                if self.desired.contains(&c) {
                    self.index_set_state(j, ChunkState::Queued { attempts: 0 });
                } else {
                    self.index_remove(j);
                }
            },
        }
        proof {
            let post = *self;
            assert forall|x: ChunkRef| post.state_of(x) == (match spre.state_of(x) {
                Some(ChunkState::Downloading { id, attempts }) => if id == did {
                    if attempts + 1 < MAX_DOWNLOAD_ATTEMPTS {
                        Some(ChunkState::Queued { attempts: (attempts + 1) as u64 })
                    } else {
                        Some(ChunkState::Failed)
                    }
                } else {
                    spre.state_of(x)
                },
                Some(ChunkState::Cancelling { id }) => if id == did {
                    if spre.is_desired(x) {
                        Some(ChunkState::Queued { attempts: 0 })
                    } else {
                        None::<ChunkState>
                    }
                } else {
                    spre.state_of(x)
                },
                _ => spre.state_of(x),
            }) by {
                if x != c {
                    assert(post.state_of(x) == spre.state_of(x));
                    if spre.has_entry(x) {
                        let k = choose|k: int|
                            0 <= k < spre.entries().len()
                                && (#[trigger] spre.entries()[k]).chunk == x;
                        spre.lemma_state_at(k);
                        assert(k != j);
                        if entry_id(spre.entries()[k]).is_some() {
                            assert(entry_id(spre.entries()[k])
                                != entry_id(spre.entries()[j as int]));
                        }
                    }
                }
            }
            assert forall|x: ChunkRef| #[trigger] post.lease_count(x) > 0
                implies post.state_of(x) == Some(ChunkState::Ready) by {
                assert(spre.lease_count(x) > 0);
                assert(spre.state_of(x) == Some(ChunkState::Ready));
                assert(x != c);
            }
            assert forall|j2: int| 0 <= j2 < post.entries().len()
                implies match (#[trigger] post.entries()[j2]).state {
                    ChunkState::Queued { attempts } => post.is_desired(post.entries()[j2].chunk),
                    ChunkState::Downloading { id, attempts } => post.is_desired(
                        post.entries()[j2].chunk,
                    ),
                    ChunkState::Failed => post.is_desired(post.entries()[j2].chunk),
                    ChunkState::Ready => true,
                    _ => true,
                } by {
                let x = post.entries()[j2];
                assert(post.entries().contains(x));
                if x.chunk == c {
                    post.lemma_state_at(j2);
                } else {
                    if spre.entries().contains(x) {
                        let k = choose|k: int|
                            0 <= k < spre.entries().len() && spre.entries()[k] == x;
                        assert(match spre.entries()[k].state {
                            ChunkState::Queued { attempts } => spre.is_desired(x.chunk),
                            ChunkState::Downloading { id, attempts } => spre.is_desired(x.chunk),
                            ChunkState::Failed => spre.is_desired(x.chunk),
                            ChunkState::Ready => true,
                            _ => true,
                        });
                    } else {
                        assert(x == Entry { chunk: c, state: x.state });
                        assert(false);
                    }
                }
            }
            assert forall|x: ChunkRef| #[trigger] post.is_desired(x)
                implies post.has_entry(x) by {
                assert(spre.is_desired(x));
                assert(spre.has_entry(x));
                if x == c {
                    assert(!(post.state_of(c) is None));
                } else {
                    assert(post.has_entry(x) == spre.has_entry(x));
                }
            }
            assert forall|p: int, q: int|
                0 <= p < post.entries().len() && 0 <= q < post.entries().len() && p != q
                    && entry_id(#[trigger] post.entries()[p]).is_some()
                implies entry_id(post.entries()[p])
                    != entry_id(#[trigger] post.entries()[q]) by {
                let x1 = post.entries()[p];
                let x2 = post.entries()[q];
                assert(post.entries().contains(x1));
                assert(post.entries().contains(x2));
                if p < q {
                    assert(x1.chunk.key_lt(x2.chunk));
                } else {
                    assert(x2.chunk.key_lt(x1.chunk));
                }
                assert(x1.chunk != c && x2.chunk != c ==> spre.entries().contains(x1)
                    && spre.entries().contains(x2));
                if x1.chunk != c && x2.chunk != c {
                    let k1 = choose|k1: int|
                        0 <= k1 < spre.entries().len() && spre.entries()[k1] == x1;
                    let k2 = choose|k2: int|
                        0 <= k2 < spre.entries().len() && spre.entries()[k2] == x2;
                    spre.lemma_state_at(k1);
                    spre.lemma_state_at(k2);
                    assert(k1 != k2);
                    assert(entry_id(spre.entries()[k1]) != entry_id(spre.entries()[k2])
                        || entry_id(spre.entries()[k1]) is None);
                } else if x1.chunk == c {
                    post.lemma_state_at(p);
                    assert(entry_id(x1) is None);
                } else {
                    post.lemma_state_at(q);
                    assert(entry_id(x2) is None);
                    let k1 = choose|k1: int|
                        0 <= k1 < spre.entries().len() && spre.entries()[k1] == x1;
                    spre.lemma_state_at(k1);
                    assert(entry_id(spre.entries()[k1]) != Some(did) || k1 == j) by {
                        if k1 != j && entry_id(spre.entries()[k1]).is_some() {
                            assert(entry_id(spre.entries()[k1])
                                != entry_id(spre.entries()[j as int]));
                        }
                    }
                }
            }
        }
    }

    /// Whether the reconciler's next wakeup will mark `c` for deletion: a
    /// ready chunk that is no longer desired and holds no lease.
    pub open spec fn evictable(&self, c: ChunkRef) -> bool {
        self.state_of(c) == Some(ChunkState::Ready) && !self.is_desired(c)
            && self.lease_count(c) == 0
    }

    /// The reconciler's deletion step: every ready chunk that is no longer
    /// desired and holds no lease turns to deleting, and nothing else moves.
    /// Run on every wakeup — in particular after a lease release, which is
    /// what makes a retained chunk evictable.
    pub fn mark_deletions(&mut self)
        requires
            old(self).wf(),
        ensures
            final(self).wf(),
            forall|c: ChunkRef| final(self).state_of(c) == (if old(self).evictable(c) {
                Some(ChunkState::Deleting)
            } else {
                old(self).state_of(c)
            }),
            forall|c: ChunkRef| final(self).is_desired(c) == old(self).is_desired(c),
            forall|c: ChunkRef| final(self).lease_count(c) == old(self).lease_count(c),
            final(self).downloads_stopped() == old(self).downloads_stopped(),
    {
        let n = self.index.len();
        let mut i: usize = 0;
        while i < n
            invariant
                n == self.entries().len(),
                0 <= i <= n,
                self.wf(),
                self.desired_seq() == old(self).desired_seq(),
                self.downloads_stopped() == old(self).downloads_stopped(),
                forall|c: ChunkRef| self.lease_count(c) == old(self).lease_count(c),
                forall|j: int| 0 <= j < i ==> !((#[trigger] self.entries()[j]).state
                    == ChunkState::Ready && !self.is_desired(self.entries()[j].chunk)
                    && self.lease_count(self.entries()[j].chunk) == 0),
                forall|c: ChunkRef| old(self).evictable(c)
                    ==> (self.state_of(c) == Some(ChunkState::Ready)
                        || self.state_of(c) == Some(ChunkState::Deleting)),
                forall|c: ChunkRef| !old(self).evictable(c)
                    ==> self.state_of(c) == old(self).state_of(c),
            decreases n - i,
        {
            let e = self.index[i];
            let is_ready = match e.state {
                ChunkState::Ready => true,
                _ => false,
            };
            if is_ready && !self.desired.contains(&e.chunk) && !self.locks.is_leased(&e.chunk) {
                proof {
                    self.lemma_state_at(i as int);
                    assert(old(self).evictable(e.chunk)) by {
                        if !old(self).evictable(e.chunk) {
                            assert(old(self).state_of(e.chunk) == self.state_of(e.chunk));
                        }
                    }
                }
                let ghost spre = *self;
                self.index_set_state(i, ChunkState::Deleting);
                proof {
                    let post = *self;
                    assert forall|x: ChunkRef| #[trigger] post.lease_count(x) > 0
                        implies post.state_of(x) == Some(ChunkState::Ready) by {
                        assert(spre.lease_count(x) > 0);
                        assert(spre.state_of(x) == Some(ChunkState::Ready));
                        assert(x != e.chunk);
                    }
                    assert forall|j2: int| 0 <= j2 < post.entries().len()
                        implies match (#[trigger] post.entries()[j2]).state {
                            ChunkState::Queued { attempts } => post.is_desired(
                                post.entries()[j2].chunk,
                            ),
                            ChunkState::Downloading { id, attempts } => post.is_desired(
                                post.entries()[j2].chunk,
                            ),
                            ChunkState::Failed => post.is_desired(post.entries()[j2].chunk),
                            _ => true,
                        } by {
                        if j2 != i {
                            assert(post.entries()[j2] == spre.entries()[j2]);
                            assert(match spre.entries()[j2].state {
                                ChunkState::Queued { attempts } => spre.is_desired(
                                    spre.entries()[j2].chunk,
                                ),
                                ChunkState::Downloading { id, attempts } => spre.is_desired(
                                    spre.entries()[j2].chunk,
                                ),
                                ChunkState::Failed => spre.is_desired(spre.entries()[j2].chunk),
                                _ => true,
                            });
                        }
                    }
                    assert forall|x: ChunkRef| #[trigger] post.is_desired(x)
                        implies post.has_entry(x) by {
                        assert(spre.is_desired(x));
                        assert(spre.has_entry(x));
                    }
                    assert forall|p: int, q: int|
                        0 <= p < post.entries().len() && 0 <= q < post.entries().len()
                            && p != q && entry_id(#[trigger] post.entries()[p]).is_some()
                        implies entry_id(post.entries()[p])
                            != entry_id(#[trigger] post.entries()[q]) by {
                        assert(p != i);
                        assert(entry_id(#[trigger] spre.entries()[p]).is_some());
                        assert(entry_id(spre.entries()[p])
                            != entry_id(#[trigger] spre.entries()[q]));
                        if q == i as int {
                            assert(entry_id(post.entries()[q]) is None);
                        }
                    }
                }
            } else {
                proof {
                    if is_ready {
                        self.lemma_state_at(i as int);
                    }
                }
            }
            i += 1;
        }
        proof {
            let post = *self;
            assert forall|c: ChunkRef| post.state_of(c) == (if old(self).evictable(c) {
                Some(ChunkState::Deleting)
            } else {
                old(self).state_of(c)
            }) by {
                if old(self).evictable(c) && post.state_of(c) == Some(ChunkState::Ready) {
                    let k = choose|k: int|
                        0 <= k < post.entries().len()
                            && (#[trigger] post.entries()[k]).chunk == c;
                    post.lemma_state_at(k);
                    assert(post.entries()[k].state == ChunkState::Ready);
                    assert(post.is_desired(c) || post.lease_count(c) > 0);
                    assert(old(self).is_desired(c) || old(self).lease_count(c) > 0);
                }
            }
        }
    }

    /// Hands out every chunk awaiting deletion so the caller can remove its
    /// files. The handed-out chunks leave the index at once, so between this
    /// call and the file removal a directory may exist on disk unindexed;
    /// the startup rescan treats such a leftover as a complete chunk, which
    /// is sound because its content is. A deleting chunk that was re-added
    /// to the desired set is returned too (its files go), and is queued for
    /// a fresh download in the same step.
    pub fn take_deletions(&mut self) -> (r: ChunkSet)
        requires
            old(self).wf(),
        ensures
            final(self).wf(),
            r.wf(),
            forall|c: ChunkRef| #[trigger] r@.contains(c)
                <==> old(self).state_of(c) == Some(ChunkState::Deleting),
            forall|c: ChunkRef| final(self).state_of(c) == (match old(self).state_of(c) {
                Some(ChunkState::Deleting) => if old(self).is_desired(c) {
                    Some(ChunkState::Queued { attempts: 0 })
                } else {
                    None::<ChunkState>
                },
                _ => old(self).state_of(c),
            }),
            forall|c: ChunkRef| final(self).is_desired(c) == old(self).is_desired(c),
            forall|c: ChunkRef| final(self).lease_count(c) == old(self).lease_count(c),
            final(self).downloads_stopped() == old(self).downloads_stopped(),
    {
        let mut r = ChunkSet::new();
        let mut i: usize = 0;
        while i < self.index.len()
            invariant
                0 <= i <= self.entries().len(),
                self.wf(),
                r.wf(),
                self.desired_seq() == old(self).desired_seq(),
                self.downloads_stopped() == old(self).downloads_stopped(),
                forall|c: ChunkRef| self.lease_count(c) == old(self).lease_count(c),
                forall|j: int| 0 <= j < i
                    ==> (#[trigger] self.entries()[j]).state != ChunkState::Deleting,
                forall|k: int, j: int| 0 <= k < r@.len() && i <= j < self.entries().len()
                    ==> (#[trigger] r@[k]).key_lt((#[trigger] self.entries()[j]).chunk),
                forall|c: ChunkRef| #[trigger] r@.contains(c)
                    ==> old(self).state_of(c) == Some(ChunkState::Deleting),
                forall|c: ChunkRef| (old(self).state_of(c) == Some(ChunkState::Deleting)
                    && !old(self).is_desired(c))
                    ==> ((self.state_of(c) == Some(ChunkState::Deleting) && !r@.contains(c))
                        || (self.state_of(c) is None && r@.contains(c))),
                forall|c: ChunkRef| (old(self).state_of(c) == Some(ChunkState::Deleting)
                    && old(self).is_desired(c))
                    ==> ((self.state_of(c) == Some(ChunkState::Deleting) && !r@.contains(c))
                        || (self.state_of(c) == Some(ChunkState::Queued { attempts: 0 })
                            && r@.contains(c))),
                forall|c: ChunkRef| old(self).state_of(c) != Some(ChunkState::Deleting)
                    ==> self.state_of(c) == old(self).state_of(c) && !r@.contains(c),
            decreases self.entries().len() - i,
        {
            let e = self.index[i];
            let is_deleting = match e.state {
                ChunkState::Deleting => true,
                _ => false,
            };
            if is_deleting {
                proof {
                    self.lemma_state_at(i as int);
                    assert(self.state_of(e.chunk) == Some(ChunkState::Deleting));
                    assert(old(self).state_of(e.chunk) == Some(ChunkState::Deleting)) by {
                        if old(self).state_of(e.chunk) != Some(ChunkState::Deleting) {
                            assert(self.state_of(e.chunk) == old(self).state_of(e.chunk));
                        }
                    }
                    assert forall|k: int| 0 <= k < r@.len()
                        implies !((#[trigger] r@[k]).same_key(e.chunk)) by {
                        assert(r@[k].key_lt(self.entries()[i as int].chunk));
                    }
                    assert(!r.has_key(e.chunk));
                }
                let ghost spre = *self;
                let ghost rpre = r@;
                let still_desired = self.desired.contains(&e.chunk);
                if still_desired {
                    self.index_set_state(i, ChunkState::Queued { attempts: 0 });
                } else {
                    self.index_remove(i);
                }
                r.insert(e.chunk);
                proof {
                    let post = *self;
                    assert forall|x: ChunkRef| #[trigger] post.lease_count(x) > 0
                        implies post.state_of(x) == Some(ChunkState::Ready) by {
                        assert(spre.lease_count(x) > 0);
                        assert(spre.state_of(x) == Some(ChunkState::Ready));
                        assert(x != e.chunk);
                    }
                    assert forall|j2: int| 0 <= j2 < post.entries().len()
                        implies match (#[trigger] post.entries()[j2]).state {
                            ChunkState::Queued { attempts } => post.is_desired(
                                post.entries()[j2].chunk,
                            ),
                            ChunkState::Downloading { id, attempts } => post.is_desired(
                                post.entries()[j2].chunk,
                            ),
                            ChunkState::Failed => post.is_desired(post.entries()[j2].chunk),
                            _ => true,
                        } by {
                        let x = post.entries()[j2];
                        assert(post.entries().contains(x));
                        if x.chunk == e.chunk {
                            post.lemma_state_at(j2);
                            assert(post.state_of(e.chunk)
                                == Some(ChunkState::Queued { attempts: 0 }));
                            assert(post.is_desired(e.chunk));
                        } else {
                            assert(spre.entries().contains(x));
                            let k = choose|k: int|
                                0 <= k < spre.entries().len() && spre.entries()[k] == x;
                            assert(match spre.entries()[k].state {
                                ChunkState::Queued { attempts } => spre.is_desired(x.chunk),
                                ChunkState::Downloading { id, attempts } => spre.is_desired(
                                    x.chunk,
                                ),
                                ChunkState::Failed => spre.is_desired(x.chunk),
                                _ => true,
                            });
                        }
                    }
                    assert forall|x: ChunkRef| #[trigger] post.is_desired(x)
                        implies post.has_entry(x) by {
                        assert(spre.is_desired(x));
                        assert(spre.has_entry(x));
                        if x == e.chunk {
                            assert(!(post.state_of(x) is None));
                        }
                    }
                    assert forall|p: int, q: int|
                        0 <= p < post.entries().len() && 0 <= q < post.entries().len()
                            && p != q && entry_id(#[trigger] post.entries()[p]).is_some()
                        implies entry_id(post.entries()[p])
                            != entry_id(#[trigger] post.entries()[q]) by {
                        let x1 = post.entries()[p];
                        let x2 = post.entries()[q];
                        assert(post.entries().contains(x1));
                        assert(post.entries().contains(x2));
                        if p < q {
                            assert(x1.chunk.key_lt(x2.chunk));
                        } else {
                            assert(x2.chunk.key_lt(x1.chunk));
                        }
                        if x1.chunk == e.chunk {
                            post.lemma_state_at(p);
                            assert(entry_id(x1) is None);
                        } else if x2.chunk == e.chunk {
                            post.lemma_state_at(q);
                            assert(entry_id(x2) is None);
                            let k1 = choose|k1: int|
                                0 <= k1 < spre.entries().len() && spre.entries()[k1] == x1;
                            spre.lemma_state_at(k1);
                        } else {
                            let k1 = choose|k1: int|
                                0 <= k1 < spre.entries().len() && spre.entries()[k1] == x1;
                            let k2 = choose|k2: int|
                                0 <= k2 < spre.entries().len() && spre.entries()[k2] == x2;
                            spre.lemma_state_at(k1);
                            spre.lemma_state_at(k2);
                            assert(k1 != k2);
                            assert(entry_id(spre.entries()[k1]) != entry_id(spre.entries()[k2])
                                || entry_id(spre.entries()[k1]) is None);
                        }
                    }
                    // result bookkeeping
                    assert(r@.contains(e.chunk));
                    assert forall|c: ChunkRef| #[trigger] r@.contains(c)
                        implies old(self).state_of(c) == Some(ChunkState::Deleting) by {
                        if c != e.chunk {
                            assert(rpre.contains(c));
                        }
                    }
                    let ghost lowj: int = if still_desired { i as int + 1 } else { i as int };
                    assert forall|k: int, j: int| 0 <= k < r@.len()
                        && lowj <= j < post.entries().len()
                        implies (#[trigger] r@[k]).key_lt(
                            (#[trigger] post.entries()[j]).chunk) by {
                        let pj = if still_desired { j } else { j + 1 };
                        assert(post.entries()[j] == spre.entries()[pj]);
                        assert(r@.contains(r@[k]));
                        if rpre.contains(r@[k]) {
                            let k2 = choose|k2: int|
                                0 <= k2 < rpre.len() && rpre[k2] == r@[k];
                            assert(rpre[k2].key_lt(spre.entries()[pj].chunk));
                        } else {
                            assert(r@[k] == e.chunk);
                            assert(spre.entries()[i as int].chunk.key_lt(
                                spre.entries()[pj].chunk));
                        }
                    }
                }
                if still_desired {
                    i += 1;
                }
            } else {
                i += 1;
            }
        }
        proof {
            let post = *self;
            assert forall|c: ChunkRef| old(self).state_of(c) == Some(ChunkState::Deleting)
                implies post.state_of(c) != Some(ChunkState::Deleting) by {
                if post.state_of(c) == Some(ChunkState::Deleting) {
                    let k = choose|k: int|
                        0 <= k < post.entries().len()
                            && (#[trigger] post.entries()[k]).chunk == c;
                    post.lemma_state_at(k);
                    assert(post.entries()[k].state != ChunkState::Deleting);
                }
            }
        }
        r
    }


    /// Hands out the download ids whose cancellation the caller must now
    /// request from the pool; the cancelling chunks leave the index, or are
    /// queued afresh when re-added to the desired set meanwhile.
    #[verifier::rlimit(50)]
    pub fn take_canceled_downloads(&mut self) -> (r: Vec<DownloadId>)
        requires
            old(self).wf(),
        ensures
            final(self).wf(),
            forall|c: ChunkRef| (match #[trigger] old(self).state_of(c) {
                Some(ChunkState::Cancelling { id }) => r@.contains(id),
                _ => true,
            }),
            forall|k: int| 0 <= k < r@.len() ==> old(self).cancelling_id(#[trigger] r@[k]),
            forall|k1: int, k2: int| 0 <= k1 < k2 < r@.len() ==> #[trigger] r@[k1] != #[trigger] r@[k2],
            forall|c: ChunkRef| final(self).state_of(c) == (match old(self).state_of(c) {
                Some(ChunkState::Cancelling { id }) => if old(self).is_desired(c) {
                    Some(ChunkState::Queued { attempts: 0 })
                } else {
                    None::<ChunkState>
                },
                _ => old(self).state_of(c),
            }),
            forall|c: ChunkRef| final(self).is_desired(c) == old(self).is_desired(c),
            forall|c: ChunkRef| final(self).lease_count(c) == old(self).lease_count(c),
            final(self).downloads_stopped() == old(self).downloads_stopped(),
    {
        let mut r: Vec<DownloadId> = Vec::new();
        let ghost mut wits: Seq<ChunkRef> = Seq::empty();
        let mut i: usize = 0;
        while i < self.index.len()
            invariant
                0 <= i <= self.entries().len(),
                self.wf(),
                self.desired_seq() == old(self).desired_seq(),
                self.downloads_stopped() == old(self).downloads_stopped(),
                forall|c: ChunkRef| self.lease_count(c) == old(self).lease_count(c),
                forall|j: int| 0 <= j < i
                    ==> !((#[trigger] self.entries()[j]).state matches ChunkState::Cancelling {
                        ..
                    }),
                wits.len() == r@.len(),
                forall|k: int| 0 <= k < r@.len()
                    ==> old(self).state_of(wits[k]) == Some(ChunkState::Cancelling {
                        id: #[trigger] r@[k],
                    }),
                forall|k1: int, k2: int| 0 <= k1 < k2 < r@.len() ==> #[trigger] r@[k1] != #[trigger] r@[k2],
                forall|c: ChunkRef| (match #[trigger] old(self).state_of(c) {
                    Some(ChunkState::Cancelling { id }) => (self.state_of(c)
                        == Some(ChunkState::Cancelling { id }) && !r@.contains(id))
                        || (r@.contains(id) && self.state_of(c) == (if old(self).is_desired(c) {
                            Some(ChunkState::Queued { attempts: 0 })
                        } else {
                            None::<ChunkState>
                        })),
                    _ => self.state_of(c) == old(self).state_of(c),
                }),
            decreases self.entries().len() - i,
        {
            let e = self.index[i];
            let did_opt = match e.state {
                ChunkState::Cancelling { id } => Some(id),
                _ => None,
            };
            if let Some(did) = did_opt {
                proof {
                    self.lemma_state_at(i as int);
                    assert(self.state_of(e.chunk) == Some(ChunkState::Cancelling { id: did }));
                    assert(old(self).state_of(e.chunk)
                        == Some(ChunkState::Cancelling { id: did })) by {
                        match old(self).state_of(e.chunk) {
                            Some(ChunkState::Cancelling { id }) => {
                                assert(self.state_of(e.chunk)
                                    == Some(ChunkState::Cancelling { id })
                                    || r@.contains(id));
                            },
                            _ => {
                                assert(self.state_of(e.chunk) == old(self).state_of(e.chunk));
                            },
                        }
                    }
                }
                proof {
                    // the mapping invariant pins the chunk of `did` as still
                    // cancelling, so `did` cannot have been collected yet
                    assert(!r@.contains(did)) by {
                        assert(self.state_of(e.chunk)
                            == Some(ChunkState::Cancelling { id: did }));
                    }
                }
                let ghost spre = *self;
                let ghost rpre = r@;
                r.push(did);
                proof {
                    wits = wits.push(e.chunk);
                    assert forall|k1: int, k2: int| 0 <= k1 < k2 < r@.len()
                        implies #[trigger] r@[k1] != #[trigger] r@[k2] by {
                        if k2 == r@.len() - 1 {
                            assert(r@[k1] == rpre[k1]);
                            assert(rpre.contains(rpre[k1]));
                        } else {
                            assert(r@[k1] == rpre[k1] && r@[k2] == rpre[k2]);
                        }
                    }
                }
                if self.desired.contains(&e.chunk) {
                    self.index_set_state(i, ChunkState::Queued { attempts: 0 });
                    i += 1;
                } else {
                    self.index_remove(i);
                }
                proof {
                    let post = *self;
                    assert(r@ == rpre.push(did));
                    assert(r@.contains(did)) by {
                        assert(r@[r@.len() - 1] == did);
                    }
                    assert forall|k: int| 0 <= k < r@.len() implies exists|c: ChunkRef|
                        old(self).state_of(c) == Some(ChunkState::Cancelling { id: #[trigger] r@[k] }) by {
                        if k < rpre.len() {
                            assert(r@[k] == rpre[k]);
                        } else {
                            assert(r@[k] == did);
                            assert(old(self).state_of(e.chunk)
                                == Some(ChunkState::Cancelling { id: did }));
                        }
                    }
                    assert forall|x: ChunkRef| #[trigger] post.lease_count(x) > 0
                        implies post.state_of(x) == Some(ChunkState::Ready) by {
                        assert(spre.lease_count(x) > 0);
                        assert(spre.state_of(x) == Some(ChunkState::Ready));
                        assert(x != e.chunk);
                    }
                    assert forall|j2: int| 0 <= j2 < post.entries().len()
                        implies match (#[trigger] post.entries()[j2]).state {
                            ChunkState::Queued { attempts } => post.is_desired(
                                post.entries()[j2].chunk,
                            ),
                            ChunkState::Downloading { id, attempts } => post.is_desired(
                                post.entries()[j2].chunk,
                            ),
                            ChunkState::Failed => post.is_desired(post.entries()[j2].chunk),
                            ChunkState::Ready => true,
                            _ => true,
                        } by {
                        let x = post.entries()[j2];
                        assert(post.entries().contains(x));
                        if x.chunk == e.chunk {
                            post.lemma_state_at(j2);
                            assert(post.state_of(e.chunk)
                                == Some(ChunkState::Queued { attempts: 0 }));
                            assert(post.is_desired(e.chunk));
                        } else {
                            assert(spre.entries().contains(x));
                            let k = choose|k: int|
                                0 <= k < spre.entries().len() && spre.entries()[k] == x;
                            assert(match spre.entries()[k].state {
                                ChunkState::Queued { attempts } => spre.is_desired(x.chunk),
                                ChunkState::Downloading { id, attempts } => spre.is_desired(
                                    x.chunk,
                                ),
                                ChunkState::Failed => spre.is_desired(x.chunk),
                                ChunkState::Ready => true,
                                _ => true,
                            });
                        }
                    }
                    assert forall|x: ChunkRef| #[trigger] post.is_desired(x)
                        implies post.has_entry(x) by {
                        assert(spre.is_desired(x));
                        assert(spre.has_entry(x));
                        if x == e.chunk {
                            assert(!(post.state_of(x) is None));
                        }
                    }
                    assert forall|p: int, q: int|
                        0 <= p < post.entries().len() && 0 <= q < post.entries().len()
                            && p != q && entry_id(#[trigger] post.entries()[p]).is_some()
                        implies entry_id(post.entries()[p])
                            != entry_id(#[trigger] post.entries()[q]) by {
                        let x1 = post.entries()[p];
                        let x2 = post.entries()[q];
                        assert(post.entries().contains(x1));
                        assert(post.entries().contains(x2));
                        if p < q {
                            assert(x1.chunk.key_lt(x2.chunk));
                        } else {
                            assert(x2.chunk.key_lt(x1.chunk));
                        }
                        if x1.chunk == e.chunk {
                            post.lemma_state_at(p);
                            assert(entry_id(x1) is None);
                        } else if x2.chunk == e.chunk {
                            post.lemma_state_at(q);
                            assert(entry_id(x2) is None);
                            let k1 = choose|k1: int|
                                0 <= k1 < spre.entries().len() && spre.entries()[k1] == x1;
                            spre.lemma_state_at(k1);
                        } else {
                            let k1 = choose|k1: int|
                                0 <= k1 < spre.entries().len() && spre.entries()[k1] == x1;
                            let k2 = choose|k2: int|
                                0 <= k2 < spre.entries().len() && spre.entries()[k2] == x2;
                            spre.lemma_state_at(k1);
                            spre.lemma_state_at(k2);
                            assert(k1 != k2);
                            assert(entry_id(spre.entries()[k1]) != entry_id(spre.entries()[k2])
                                || entry_id(spre.entries()[k1]) is None);
                        }
                    }
                    assert forall|c: ChunkRef| match #[trigger] old(self).state_of(c) {
                        Some(ChunkState::Cancelling { id }) => (post.state_of(c)
                            == Some(ChunkState::Cancelling { id }) && !r@.contains(id))
                            || (r@.contains(id) && post.state_of(c)
                                == (if old(self).is_desired(c) {
                                    Some(ChunkState::Queued { attempts: 0 })
                                } else {
                                    None::<ChunkState>
                                })),
                        _ => post.state_of(c) == old(self).state_of(c),
                    } by {
                        if c != e.chunk {
                            assert(post.state_of(c) == spre.state_of(c));
                            match old(self).state_of(c) {
                                Some(ChunkState::Cancelling { id }) => {
                                    if rpre.contains(id) {
                                        assert(r@.contains(id)) by {
                                            let k = choose|k: int|
                                                0 <= k < rpre.len() && rpre[k] == id;
                                            assert(r@[k] == id);
                                        }
                                    } else {
                                        if id == did {
                                            assert(spre.state_of(c)
                                                == Some(ChunkState::Cancelling { id }));
                                            assert(spre.state_of(e.chunk)
                                                == Some(ChunkState::Cancelling { id: did }));
                                            let kc = choose|kc: int|
                                                0 <= kc < spre.entries().len()
                                                    && (#[trigger] spre.entries()[kc]).chunk == c;
                                            spre.lemma_state_at(kc);
                                            assert(entry_id(spre.entries()[kc])
                                                != entry_id(spre.entries()[i as int]));
                                            assert(false);
                                        }
                                        assert(!r@.contains(id)) by {
                                            if r@.contains(id) {
                                                let k = choose|k: int|
                                                    0 <= k < r@.len() && r@[k] == id;
                                                assert(k == rpre.len());
                                                assert(id == did);
                                            }
                                        }
                                    }
                                },
                                _ => {},
                            }
                        }
                    }
                }
            } else {
                i += 1;
            }
        }
        proof {
            assert forall|k: int| 0 <= k < r@.len()
                implies old(self).cancelling_id(#[trigger] r@[k]) by {
                assert(old(self).state_of(wits[k])
                    == Some(ChunkState::Cancelling { id: r@[k] }));
            }
            let post = *self;
            assert forall|c: ChunkRef| match #[trigger] old(self).state_of(c) {
                Some(ChunkState::Cancelling { id }) => r@.contains(id)
                    && post.state_of(c) == (if old(self).is_desired(c) {
                        Some(ChunkState::Queued { attempts: 0 })
                    } else {
                        None::<ChunkState>
                    }),
                _ => post.state_of(c) == old(self).state_of(c),
            } by {
                match old(self).state_of(c) {
                    Some(ChunkState::Cancelling { id }) => {
                        if post.state_of(c) == Some(ChunkState::Cancelling { id }) {
                            let k = choose|k: int|
                                0 <= k < post.entries().len()
                                    && (#[trigger] post.entries()[k]).chunk == c;
                            post.lemma_state_at(k);
                            assert(!(post.entries()[k].state matches ChunkState::Cancelling {
                                ..
                            }));
                            assert(false);
                        }
                    },
                    _ => {},
                }
            }
        }
        r
    }

    /// Stops the reconciler from issuing new downloads; cancellations and
    /// deletions still proceed.
    pub fn stop_downloads(&mut self)
        requires
            old(self).wf(),
        ensures
            final(self).wf(),
            final(self).downloads_stopped(),
            final(self).entries() == old(self).entries(),
            final(self).desired_seq() == old(self).desired_seq(),
            forall|c: ChunkRef| final(self).state_of(c) == old(self).state_of(c),
            forall|c: ChunkRef| final(self).is_desired(c) == old(self).is_desired(c),
            forall|c: ChunkRef| final(self).lease_count(c) == old(self).lease_count(c),
    {
        self.stopped = true;
        proof {
            State::lemma_wf_same(old(self), self);
            State::lemma_states_agree(old(self), self);
        }
    }
}

impl State {
    /// Rebuilds the state from the chunks a startup rescan found complete on
    /// disk: each is ready, and desired until the scheduler says otherwise.
    pub fn restore(ready: &ChunkSet) -> (r: State)
        requires
            ready.wf(),
        ensures
            r.wf(),
            forall|c: ChunkRef| r.state_of(c) == (if ready@.contains(c) {
                Some(ChunkState::Ready)
            } else {
                None::<ChunkState>
            }),
            forall|c: ChunkRef| r.is_desired(c) <==> ready@.contains(c),
            forall|c: ChunkRef| r.lease_count(c) == 0,
            !r.downloads_stopped(),
    {
        let mut s = State::new();
        let n = ready.len();
        let mut i: usize = 0;
        while i < n
            invariant
                n == ready@.len(),
                0 <= i <= n,
                ready.wf(),
                s.wf(),
                forall|c: ChunkRef| #[trigger] ready@.subrange(0, i as int).contains(c)
                    ==> s.state_of(c) == Some(ChunkState::Ready),
                forall|c: ChunkRef| !((#[trigger] s.state_of(c)) is None)
                    ==> ready@.subrange(0, i as int).contains(c),
                forall|c: ChunkRef| s.is_desired(c) <==> ready@.subrange(0, i as int).contains(c),
                forall|c: ChunkRef| s.lease_count(c) == 0,
                !s.downloads_stopped(),
            decreases n - i,
        {
            let c = ready.get(i);
            proof {
                assert(ready@.contains(c));
                assert forall|j: int| 0 <= j < i implies ready@[j] != c by {
                    assert(ready@[j].key_lt(ready@[i as int]));
                }
                assert(!ready@.subrange(0, i as int).contains(c));
                assert(s.state_of(c) is None);
                assert(!s.is_desired(c));
                assert forall|j: int| 0 <= j < s.entries().len()
                    implies !(#[trigger] s.entries()[j]).chunk.same_key(c) by {
                    s.lemma_state_at(j);
                    let d = s.entries()[j].chunk;
                    assert(!(s.state_of(d) is None));
                    assert(ready@.subrange(0, i as int).contains(d));
                    let p = choose|p: int| 0 <= p < i && ready@.subrange(0, i as int)[p] == d;
                    assert(ready@[p] == d);
                    if d.same_key(c) {
                        assert(ready@[p].key_lt(ready@[i as int]));
                        assert(false);
                    }
                }
            }
            let ghost mid = s;
            s.index_insert(Entry { chunk: c, state: ChunkState::Ready });
            proof {
                assert forall|k: int|
                    0 <= k < s.desired_seq().len()
                        && (#[trigger] s.desired_seq()[k]).same_key(c)
                    implies false by {
                    let d = s.desired_seq()[k];
                    assert(s.is_desired(d));
                    assert(s.desired_seq() == mid.desired_seq());
                    assert(mid.is_desired(d));
                    assert(ready@.subrange(0, i as int).contains(d));
                    let p = choose|p: int| 0 <= p < i && ready@.subrange(0, i as int)[p] == d;
                    assert(ready@[p] == d);
                    assert(ready@[p].key_lt(ready@[i as int]));
                }
                assert(!s.desired.has_key(c));
            }
            s.desired.insert(c);
            proof {
                assert(ready@.subrange(0, i as int + 1)
                    =~= ready@.subrange(0, i as int).push(c));
                assert(ready@.subrange(0, i as int + 1)[i as int] == c);
                let post = s;
                assert forall|x: ChunkRef| #[trigger] ready@.subrange(0, i as int + 1).contains(x)
                    implies post.state_of(x) == Some(ChunkState::Ready) by {
                    if x != c {
                        assert(post.state_of(x) == mid.state_of(x));
                        assert(ready@.subrange(0, i as int).contains(x));
                    }
                }
                assert forall|x: ChunkRef| !((#[trigger] post.state_of(x)) is None)
                    implies ready@.subrange(0, i as int + 1).contains(x) by {
                    if x != c {
                        assert(post.state_of(x) == mid.state_of(x));
                        assert(ready@.subrange(0, i as int).contains(x));
                        let p = choose|p: int|
                            0 <= p < i && ready@.subrange(0, i as int)[p] == x;
                        assert(ready@.subrange(0, i as int + 1)[p] == x);
                    }
                }
                assert forall|x: ChunkRef| post.is_desired(x)
                    <==> ready@.subrange(0, i as int + 1).contains(x) by {
                    if x == c {
                        assert(post.desired_seq().contains(c));
                    } else {
                        assert(post.is_desired(x) == mid.is_desired(x));
                    }
                }
                assert forall|x: ChunkRef| #[trigger] post.lease_count(x) == 0 by {
                    assert(post.lease_count(x) == mid.lease_count(x));
                    assert(mid.lease_count(x) == 0);
                }
                assert forall|k: int| 0 <= k < post.entries().len()
                    implies match (#[trigger] post.entries()[k]).state {
                        ChunkState::Queued { attempts } => post.is_desired(post.entries()[k].chunk),
                        ChunkState::Downloading { id, attempts } => post.is_desired(
                            post.entries()[k].chunk,
                        ),
                        ChunkState::Failed => post.is_desired(post.entries()[k].chunk),
                        ChunkState::Ready => true,
                        _ => true,
                    } by {
                    let ch = post.entries()[k].chunk;
                    post.lemma_state_at(k);
                    assert(post.state_of(ch) == Some(post.entries()[k].state));
                    assert(ready@.subrange(0, i as int + 1).contains(ch));
                }
                assert forall|x: ChunkRef| #[trigger] post.is_desired(x)
                    implies post.has_entry(x) by {
                    assert(!(post.state_of(x) is None));
                }
                assert forall|p: int, q: int|
                    0 <= p < post.entries().len() && 0 <= q < post.entries().len() && p != q
                        && entry_id(#[trigger] post.entries()[p]).is_some()
                    implies entry_id(post.entries()[p])
                        != entry_id(#[trigger] post.entries()[q]) by {
                    post.lemma_state_at(p);
                    assert(post.state_of(post.entries()[p].chunk)
                        == Some(post.entries()[p].state));
                    assert(entry_id(post.entries()[p]) is None);
                }
            }
            i += 1;
        }
        proof {
            assert(ready@.subrange(0, n as int) =~= ready@);
            assert forall|c: ChunkRef| s.state_of(c) == (if ready@.contains(c) {
                Some(ChunkState::Ready)
            } else {
                None::<ChunkState>
            }) by {
                if ready@.contains(c) {
                    assert(ready@.subrange(0, n as int).contains(c));
                } else if !(s.state_of(c) is None) {
                    assert(ready@.subrange(0, n as int).contains(c));
                }
            }
        }
        s
    }

    /// Every chunk whose download attempts are spent, in `(dataset,
    /// first_block)` order, for status reports.
    pub fn failed_chunks(&self) -> (r: Vec<ChunkRef>)
        requires
            self.wf(),
        ensures
            sorted_by_key(r@),
            forall|k: int| 0 <= k < r@.len()
                ==> self.state_of(#[trigger] r@[k]) == Some(ChunkState::Failed),
            forall|c: ChunkRef| self.state_of(c) == Some(ChunkState::Failed) ==> r@.contains(c),
    {
        let mut r: Vec<ChunkRef> = Vec::new();
        let n = self.index.len();
        let mut i: usize = 0;
        while i < n
            invariant
                n == self.entries().len(),
                0 <= i <= n,
                self.wf(),
                forall|k: int| 0 <= k < r@.len() ==> exists|j: int|
                    0 <= j < i && (#[trigger] r@[k]) == self.entries()[j].chunk
                        && self.entries()[j].state == ChunkState::Failed,
                sorted_by_key(r@),
                forall|j: int| 0 <= j < i && (#[trigger] self.entries()[j]).state
                    == ChunkState::Failed ==> r@.contains(self.entries()[j].chunk),
            decreases n - i,
        {
            let e = self.index[i];
            let take = match e.state {
                ChunkState::Failed => true,
                _ => false,
            };
            if take {
                proof {
                    assert forall|k: int| 0 <= k < r@.len()
                        implies (#[trigger] r@[k]).key_lt(e.chunk) by {
                        let j = choose|j: int|
                            0 <= j < i && r@[k] == self.entries()[j].chunk
                                && self.entries()[j].state == ChunkState::Failed;
                        assert(self.entries()[j].chunk.key_lt(self.entries()[i as int].chunk));
                    }
                }
                let ghost rpre = r@;
                r.push(e.chunk);
                proof {
                    assert forall|j: int| 0 <= j < i + 1
                        && (#[trigger] self.entries()[j]).state == ChunkState::Failed
                        implies r@.contains(self.entries()[j].chunk) by {
                        if j == i {
                            assert(r@[r@.len() - 1] == e.chunk);
                        } else {
                            assert(rpre.contains(self.entries()[j].chunk));
                            let k = choose|k: int|
                                0 <= k < rpre.len() && rpre[k] == self.entries()[j].chunk;
                            assert(r@[k] == self.entries()[j].chunk);
                        }
                    }
                }
            }
            i += 1;
        }
        proof {
            assert forall|k: int| 0 <= k < r@.len()
                implies self.state_of(#[trigger] r@[k]) == Some(ChunkState::Failed) by {
                let j = choose|j: int|
                    0 <= j < n && r@[k] == self.entries()[j].chunk
                        && self.entries()[j].state == ChunkState::Failed;
                self.lemma_state_at(j);
            }
            assert forall|c: ChunkRef| self.state_of(c) == Some(ChunkState::Failed)
                implies r@.contains(c) by {
                let j = choose|j: int|
                    0 <= j < self.entries().len() && (#[trigger] self.entries()[j]).chunk == c;
                self.lemma_state_at(j);
                assert(self.entries()[j].state == ChunkState::Failed);
            }
        }
        r
    }

    /// Every ready chunk, in `(dataset, first_block)` order.
    pub fn ready_chunks(&self) -> (r: Vec<ChunkRef>)
        requires
            self.wf(),
        ensures
            sorted_by_key(r@),
            forall|k: int| 0 <= k < r@.len() ==> self.is_ready(#[trigger] r@[k]),
            forall|c: ChunkRef| self.is_ready(c) ==> r@.contains(c),
    {
        let mut r: Vec<ChunkRef> = Vec::new();
        let n = self.index.len();
        let mut i: usize = 0;
        while i < n
            invariant
                n == self.entries().len(),
                0 <= i <= n,
                self.wf(),
                forall|k: int| 0 <= k < r@.len() ==> exists|j: int|
                    0 <= j < i && (#[trigger] r@[k]) == self.entries()[j].chunk
                        && self.entries()[j].state == ChunkState::Ready,
                sorted_by_key(r@),
                forall|j: int| 0 <= j < i && (#[trigger] self.entries()[j]).state
                    == ChunkState::Ready ==> r@.contains(self.entries()[j].chunk),
            decreases n - i,
        {
            let e = self.index[i];
            let take = match e.state {
                ChunkState::Ready => true,
                _ => false,
            };
            if take {
                proof {
                    assert forall|k: int| 0 <= k < r@.len()
                        implies (#[trigger] r@[k]).key_lt(e.chunk) by {
                        let j = choose|j: int|
                            0 <= j < i && r@[k] == self.entries()[j].chunk
                                && self.entries()[j].state == ChunkState::Ready;
                        assert(self.entries()[j].chunk.key_lt(self.entries()[i as int].chunk));
                    }
                }
                let ghost rpre = r@;
                r.push(e.chunk);
                proof {
                    assert forall|j: int| 0 <= j < i + 1
                        && (#[trigger] self.entries()[j]).state == ChunkState::Ready
                        implies r@.contains(self.entries()[j].chunk) by {
                        if j == i {
                            assert(r@[r@.len() - 1] == e.chunk);
                        } else {
                            assert(rpre.contains(self.entries()[j].chunk));
                            let k = choose|k: int|
                                0 <= k < rpre.len() && rpre[k] == self.entries()[j].chunk;
                            assert(r@[k] == self.entries()[j].chunk);
                        }
                    }
                }
            }
            i += 1;
        }
        proof {
            assert forall|k: int| 0 <= k < r@.len()
                implies self.is_ready(#[trigger] r@[k]) by {
                let j = choose|j: int|
                    0 <= j < n && r@[k] == self.entries()[j].chunk
                        && self.entries()[j].state == ChunkState::Ready;
                self.lemma_state_at(j);
            }
            assert forall|c: ChunkRef| self.is_ready(c) implies r@.contains(c) by {
                let j = choose|j: int|
                    0 <= j < self.entries().len() && (#[trigger] self.entries()[j]).chunk == c;
                self.lemma_state_at(j);
                assert(self.entries()[j].state == ChunkState::Ready);
            }
        }
        r
    }
}

/// The lifecycle step a chunk takes when download `did` lands with its
/// files in place.
pub open spec fn resolve_success(pre: Option<ChunkState>, did: DownloadId) -> Option<ChunkState> {
    match pre {
        Some(ChunkState::Downloading { id, attempts }) => if id == did {
            Some(ChunkState::Ready)
        } else {
            pre
        },
        Some(ChunkState::Cancelling { id }) => if id == did {
            Some(ChunkState::Deleting)
        } else {
            pre
        },
        _ => pre,
    }
}

/// The lifecycle step a chunk takes when download `did` ends with nothing on
/// disk; `desired` says whether the chunk is still wanted.
pub open spec fn resolve_failure(
    pre: Option<ChunkState>,
    did: DownloadId,
    desired: bool,
) -> Option<ChunkState> {
    match pre {
        Some(ChunkState::Downloading { id, attempts }) => if id == did {
            if attempts + 1 < MAX_DOWNLOAD_ATTEMPTS {
                Some(ChunkState::Queued { attempts: (attempts + 1) as u64 })
            } else {
                Some(ChunkState::Failed)
            }
        } else {
            pre
        },
        Some(ChunkState::Cancelling { id }) => if id == did {
            if desired {
                Some(ChunkState::Queued { attempts: 0 })
            } else {
                None
            }
        } else {
            pre
        },
        _ => pre,
    }
}

/// All download ids stay below `b` across a success resolution.
pub proof fn lemma_bound_after_success(pre: &State, post: &State, did: DownloadId, b: DownloadId)
    requires
        forall|c: ChunkRef| match #[trigger] pre.state_of(c) {
            Some(ChunkState::Downloading { id, attempts }) => id < b,
            Some(ChunkState::Cancelling { id }) => id < b,
            _ => true,
        },
        forall|c: ChunkRef| #[trigger] post.state_of(c)
            == resolve_success(pre.state_of(c), did),
    ensures
        forall|c: ChunkRef| match #[trigger] post.state_of(c) {
            Some(ChunkState::Downloading { id, attempts }) => id < b,
            Some(ChunkState::Cancelling { id }) => id < b,
            _ => true,
        },
{
    assert forall|c: ChunkRef| match #[trigger] post.state_of(c) {
        Some(ChunkState::Downloading { id, attempts }) => id < b,
        Some(ChunkState::Cancelling { id }) => id < b,
        _ => true,
    } by {
        assert(post.state_of(c) == resolve_success(pre.state_of(c), did));
    }
}

/// All download ids stay below `b` across a failure resolution.
pub proof fn lemma_bound_after_failure(pre: &State, post: &State, did: DownloadId, b: DownloadId)
    requires
        forall|c: ChunkRef| match #[trigger] pre.state_of(c) {
            Some(ChunkState::Downloading { id, attempts }) => id < b,
            Some(ChunkState::Cancelling { id }) => id < b,
            _ => true,
        },
        forall|c: ChunkRef| #[trigger] post.state_of(c)
            == resolve_failure(pre.state_of(c), did, pre.is_desired(c)),
    ensures
        forall|c: ChunkRef| match #[trigger] post.state_of(c) {
            Some(ChunkState::Downloading { id, attempts }) => id < b,
            Some(ChunkState::Cancelling { id }) => id < b,
            _ => true,
        },
{
    assert forall|c: ChunkRef| match #[trigger] post.state_of(c) {
        Some(ChunkState::Downloading { id, attempts }) => id < b,
        Some(ChunkState::Cancelling { id }) => id < b,
        _ => true,
    } by {
        assert(post.state_of(c) == resolve_failure(pre.state_of(c), did, pre.is_desired(c)));
    }
}

/// A download id larger than every id the state has seen is fresh.
pub proof fn lemma_fresh_from_bound(s: &State, id: DownloadId)
    requires
        s.wf(),
        forall|c: ChunkRef| match #[trigger] s.state_of(c) {
            Some(ChunkState::Downloading { id: i2, attempts }) => i2 < id,
            Some(ChunkState::Cancelling { id: i2 }) => i2 < id,
            _ => true,
        },
    ensures
        s.fresh_id(id),
{
    assert forall|k: int| 0 <= k < s.entries().len()
        implies entry_id(#[trigger] s.entries()[k]) != Some(id) by {
        s.lemma_state_at(k);
    }
}

/// Key consistency survives any step that only narrows the index.
pub proof fn lemma_key_consistent_mono(pre: &State, post: &State, c: ChunkRef)
    requires
        pre.key_consistent(c),
        forall|d: ChunkRef| !((#[trigger] post.state_of(d)) is None)
            ==> !(pre.state_of(d) is None),
    ensures
        post.key_consistent(c),
{
    assert forall|d: ChunkRef| !((#[trigger] post.state_of(d)) is None) && d.same_key(c)
        implies d == c by {
        assert(!(pre.state_of(d) is None));
    }
}

/// No chunk is ever awaiting deletion while a read lease is outstanding
/// against it: deletion requires a lease count of zero, and leases are only
/// granted on ready chunks.
pub proof fn lemma_deleting_never_leased(s: &State, c: ChunkRef)
    requires
        s.wf(),
        s.state_of(c) == Some(ChunkState::Deleting),
    ensures
        s.lease_count(c) == 0,
{
    if s.lease_count(c) > 0 {
        assert(s.state_of(c) == Some(ChunkState::Ready));
    }
}

/// A chunk that is not ready — in particular one whose download was just
/// cancelled — is never among the chunks a lookup serves: every served chunk
/// is ready.
pub proof fn lemma_cancelled_not_served(s: &State, c: ChunkRef, r: Seq<ChunkRef>)
    requires
        forall|k: int| 0 <= k < r.len() ==> s.is_ready(#[trigger] r[k]),
        !(s.state_of(c) == Some(ChunkState::Ready)),
    ensures
        !r.contains(c),
{
    if r.contains(c) {
        let k = choose|k: int| 0 <= k < r.len() && r[k] == c;
        assert(s.is_ready(r[k]));
    }
}

/// Convergence: once the engine is quiescent — every indexed chunk is ready,
/// nothing is queued, downloading, deleting, cancelling or failed, no lease
/// is outstanding, and the marking step finds nothing to delete (no ready
/// chunk is undesired, so the reconciler has caught up with every release)
/// — the ready set is exactly the desired set.
pub proof fn lemma_quiescent_converged(s: &State)
    requires
        s.wf(),
        forall|c: ChunkRef| match #[trigger] s.state_of(c) {
            Some(ChunkState::Ready) => true,
            None => true,
            _ => false,
        },
        forall|c: ChunkRef| #[trigger] s.lease_count(c) == 0,
        forall|c: ChunkRef| #[trigger] s.state_of(c) == Some(ChunkState::Ready)
            ==> s.is_desired(c),
    ensures
        forall|c: ChunkRef| #[trigger] s.is_desired(c) <==> s.is_ready(c),
{
    assert forall|c: ChunkRef| #[trigger] s.is_desired(c) <==> s.is_ready(c) by {
        if s.is_desired(c) {
            assert(s.has_entry(c));
            let k = choose|k: int|
                0 <= k < s.entries().len() && (#[trigger] s.entries()[k]).chunk == c;
            s.lemma_state_at(k);
            assert(s.state_of(c) == Some(s.entries()[k].state));
        }
        if s.is_ready(c) {
            assert(s.state_of(c) == Some(ChunkState::Ready));
        }
    }
}

} // verus!
