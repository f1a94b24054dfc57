use vstd::prelude::*;

use crate::chunks::{BlockNumber, ChunkRef, ChunkSet, DatasetId, sorted_by_key};
use crate::downloader::Downloader;
use crate::state::{ChunkState, DownloadId, State};
use crate::tracker::DatasetTracker;

verus! {

/// What a ping reports: the ready block ranges per dataset coalesced into
/// maximal runs, the ready chunks themselves, the chunks whose downloads
/// failed for good, and the number of downloads in flight. Byte sizes are
/// the storage layer's to report.
pub struct Status {
    pub ranges: Vec<(DatasetId, BlockNumber, BlockNumber)>,
    pub ready: Vec<ChunkRef>,
    pub failed: Vec<ChunkRef>,
    pub in_flight_downloads: usize,
}

/// Some run of `rs` belongs to `d` and holds `b`.
pub open spec fn ranges_cover(
    rs: Seq<(DatasetId, BlockNumber, BlockNumber)>,
    d: DatasetId,
    b: BlockNumber,
) -> bool {
    exists|j: int| 0 <= j < rs.len() && (#[trigger] rs[j]).0 == d && rs[j].1 <= b && b <= rs[j].2
}

/// Some chunk of `cs` belongs to `d` and holds `b`.
pub open spec fn chunks_cover(cs: Seq<ChunkRef>, d: DatasetId, b: BlockNumber) -> bool {
    exists|k: int| 0 <= k < cs.len() && (#[trigger] cs[k]).covers(d, b)
}

/// Runs are non-empty, ordered by dataset, and two neighbouring runs of one
/// dataset leave a gap — so no two runs could be merged further.
pub open spec fn runs_coalesced(rs: Seq<(DatasetId, BlockNumber, BlockNumber)>) -> bool {
    &&& forall|j: int| 0 <= j < rs.len() ==> (#[trigger] rs[j]).1 <= rs[j].2
    &&& forall|j: int| 0 <= j && j + 1 < rs.len() ==> ((#[trigger] rs[j]).0 < rs[j + 1].0
        || (rs[j].0 == rs[j + 1].0 && rs[j].2 + 1 < rs[j + 1].1))
}

/// Appending a run that leaves a gap after the last one keeps the listing
/// coalesced.
proof fn lemma_push_run(rs: Seq<(DatasetId, BlockNumber, BlockNumber)>, x: (DatasetId, BlockNumber, BlockNumber))
    requires
        runs_coalesced(rs),
        x.1 <= x.2,
        rs.len() > 0 ==> (rs[rs.len() - 1].0 < x.0
            || (rs[rs.len() - 1].0 == x.0 && rs[rs.len() - 1].2 + 1 < x.1)),
    ensures
        runs_coalesced(rs.push(x)),
{
    let rs2 = rs.push(x);
    assert forall|j: int| 0 <= j < rs2.len() implies (#[trigger] rs2[j]).1 <= rs2[j].2 by {
        if j < rs.len() {
            assert(rs2[j] == rs[j]);
        }
    }
    assert forall|j: int| 0 <= j && j + 1 < rs2.len()
        implies ((#[trigger] rs2[j]).0 < rs2[j + 1].0
            || (rs2[j].0 == rs2[j + 1].0 && rs2[j].2 + 1 < rs2[j + 1].1)) by {
        if j + 1 < rs.len() {
            assert(rs2[j] == rs[j] && rs2[j + 1] == rs[j + 1]);
        } else {
            assert(rs2[j] == rs[rs.len() - 1] && rs2[j + 1] == x);
        }
    }
}

/// Appending a run extends the covered blocks by exactly that run.
proof fn lemma_push_cover(rs: Seq<(DatasetId, BlockNumber, BlockNumber)>, x: (DatasetId, BlockNumber, BlockNumber))
    ensures
        forall|d: DatasetId, b: BlockNumber| #[trigger] ranges_cover(rs.push(x), d, b)
            == (ranges_cover(rs, d, b) || (x.0 == d && x.1 <= b && b <= x.2)),
{
    let rs2 = rs.push(x);
    assert forall|d: DatasetId, b: BlockNumber| #[trigger] ranges_cover(rs2, d, b)
        == (ranges_cover(rs, d, b) || (x.0 == d && x.1 <= b && b <= x.2)) by {
        if ranges_cover(rs2, d, b) {
            let j = choose|j: int|
                0 <= j < rs2.len() && (#[trigger] rs2[j]).0 == d && rs2[j].1 <= b
                    && b <= rs2[j].2;
            if j < rs.len() {
                assert(rs[j] == rs2[j]);
                assert(ranges_cover(rs, d, b));
            } else {
                assert(rs2[j] == x);
            }
        }
        if ranges_cover(rs, d, b) {
            let j = choose|j: int|
                0 <= j < rs.len() && (#[trigger] rs[j]).0 == d && rs[j].1 <= b && b <= rs[j].2;
            assert(rs2[j] == rs[j]);
            assert(ranges_cover(rs2, d, b));
        }
        if x.0 == d && x.1 <= b && b <= x.2 {
            assert(rs2[rs2.len() - 1] == x);
            assert(ranges_cover(rs2, d, b));
        }
    }
}

/// Folds a sorted chunk listing into maximal runs: exactly the blocks of the
/// input are covered, adjacent or overlapping ranges of one dataset merge,
/// and a chunk with an empty range covers nothing.
pub fn coalesce(ready: &Vec<ChunkRef>) -> (r: Vec<(DatasetId, BlockNumber, BlockNumber)>)
    requires
        sorted_by_key(ready@),
    ensures
        runs_coalesced(r@),
        forall|d: DatasetId, b: BlockNumber| #[trigger] ranges_cover(r@, d, b)
            == chunks_cover(ready@, d, b),
{
    let n = ready.len();
    let mut r: Vec<(DatasetId, BlockNumber, BlockNumber)> = Vec::new();
    let mut has_open = false;
    let mut od: DatasetId = 0;
    let mut lo: BlockNumber = 0;
    let mut hi: BlockNumber = 0;
    let mut i: usize = 0;
    proof {
        assert(ready@.subrange(0, 0) =~= Seq::<ChunkRef>::empty());
    }
    while i < n
        invariant
            n == ready@.len(),
            0 <= i <= n,
            sorted_by_key(ready@),
            runs_coalesced(r@),
            !has_open ==> r@.len() == 0,
            has_open ==> lo <= hi,
            has_open ==> exists|j: int| 0 <= j < i && (#[trigger] ready@[j]).dataset == od
                && ready@[j].first_block == lo,
            has_open && r@.len() > 0 ==> (r@[r@.len() - 1].0 < od
                || (r@[r@.len() - 1].0 == od && r@[r@.len() - 1].2 + 1 < lo)),
            forall|d: DatasetId, b: BlockNumber|
                (ranges_cover(r@, d, b) || (has_open && od == d && lo <= b && b <= hi))
                    == #[trigger] chunks_cover(ready@.subrange(0, i as int), d, b),
        decreases n - i,
    {
        let c = ready[i];
        let ghost rpre = r@;
        let ghost pod = od;
        let ghost plo = lo;
        let ghost phi = hi;
        proof {
            assert(ready@.subrange(0, i as int + 1)
                =~= ready@.subrange(0, i as int).push(c));
        }
        if c.first_block <= c.last_block {
            if !has_open {
                has_open = true;
                od = c.dataset;
                lo = c.first_block;
                hi = c.last_block;
                proof {
                    assert(ready@[i as int].dataset == od && ready@[i as int].first_block == lo);
                    assert forall|d: DatasetId, b: BlockNumber|
                        (ranges_cover(r@, d, b) || (od == d && lo <= b && b <= hi))
                            == #[trigger] chunks_cover(ready@.subrange(0, i as int + 1), d, b)
                        by {
                        let s1 = ready@.subrange(0, i as int + 1);
                        if chunks_cover(s1, d, b) {
                            let k = choose|k: int|
                                0 <= k < s1.len() && (#[trigger] s1[k]).covers(d, b);
                            if k < i {
                                assert(ready@.subrange(0, i as int)[k].covers(d, b));
                                assert(chunks_cover(ready@.subrange(0, i as int), d, b));
                            } else {
                                assert(s1[k] == c);
                            }
                        }
                        if od == d && lo <= b && b <= hi {
                            assert(s1[i as int].covers(d, b));
                        }
                        assert(!chunks_cover(ready@.subrange(0, i as int), d, b));
                    }
                }
            } else if c.dataset == od && (hi == BlockNumber::MAX || c.first_block <= hi + 1) {
                proof {
                    let j = choose|j: int|
                        0 <= j < i && (#[trigger] ready@[j]).dataset == od
                            && ready@[j].first_block == lo;
                    assert(ready@[j].key_lt(ready@[i as int]));
                    assert(lo <= c.first_block);
                }
                if c.last_block > hi {
                    hi = c.last_block;
                }
                proof {
                    assert(exists|j: int| 0 <= j < i + 1 && (#[trigger] ready@[j]).dataset == od
                        && ready@[j].first_block == lo) by {
                        let j = choose|j: int|
                            0 <= j < i && (#[trigger] ready@[j]).dataset == od
                                && ready@[j].first_block == lo;
                        assert(0 <= j < i + 1 && ready@[j].dataset == od
                            && ready@[j].first_block == lo);
                    }
                    assert forall|d: DatasetId, b: BlockNumber|
                        (ranges_cover(r@, d, b) || (od == d && lo <= b && b <= hi))
                            == #[trigger] chunks_cover(ready@.subrange(0, i as int + 1), d, b)
                        by {
                        let s0 = ready@.subrange(0, i as int);
                        let s1 = ready@.subrange(0, i as int + 1);
                        if chunks_cover(s1, d, b) {
                            let k = choose|k: int|
                                0 <= k < s1.len() && (#[trigger] s1[k]).covers(d, b);
                            if k < i {
                                assert(s0[k].covers(d, b));
                                assert(chunks_cover(s0, d, b));
                            } else {
                                assert(s1[k] == c);
                                assert(od == d && lo <= b && b <= hi);
                            }
                        }
                        if ranges_cover(r@, d, b) || (od == d && lo <= b && b <= hi) {
                            if od == d && lo <= b && b <= hi && !(lo <= b && b <= phi) {
                                assert(b > phi);
                                assert(c.first_block <= b && b <= c.last_block);
                                assert(s1[i as int].covers(d, b));
                                assert(chunks_cover(s1, d, b));
                            } else {
                                assert(ranges_cover(r@, d, b)
                                    || (pod == d && plo <= b && b <= phi));
                                assert(chunks_cover(s0, d, b));
                                let k = choose|k: int|
                                    0 <= k < s0.len() && (#[trigger] s0[k]).covers(d, b);
                                assert(s1[k].covers(d, b));
                                assert(chunks_cover(s1, d, b));
                            }
                        }
                    }
                }
            } else {
                r.push((od, lo, hi));
                proof {
                    let j = choose|j: int|
                        0 <= j < i && (#[trigger] ready@[j]).dataset == od
                            && ready@[j].first_block == lo;
                    assert(ready@[j].key_lt(ready@[i as int]));
                    assert(od < c.dataset || (od == c.dataset && hi < BlockNumber::MAX
                        && hi + 1 < c.first_block));
                    assert(r@ == rpre.push((od, lo, hi)));
                    lemma_push_run(rpre, (od, lo, hi));
                    lemma_push_cover(rpre, (od, lo, hi));
                }
                has_open = true;
                od = c.dataset;
                lo = c.first_block;
                hi = c.last_block;
                proof {
                    assert(ready@[i as int].dataset == od && ready@[i as int].first_block == lo);
                    assert forall|d: DatasetId, b: BlockNumber|
                        (ranges_cover(r@, d, b) || (od == d && lo <= b && b <= hi))
                            == #[trigger] chunks_cover(ready@.subrange(0, i as int + 1), d, b)
                        by {
                        let s0 = ready@.subrange(0, i as int);
                        let s1 = ready@.subrange(0, i as int + 1);
                        assert(ranges_cover(r@, d, b) == (ranges_cover(rpre, d, b)
                            || (pod == d && plo <= b && b <= phi)));
                        if chunks_cover(s1, d, b) {
                            let k = choose|k: int|
                                0 <= k < s1.len() && (#[trigger] s1[k]).covers(d, b);
                            if k < i {
                                assert(s0[k].covers(d, b));
                                assert(chunks_cover(s0, d, b));
                            } else {
                                assert(s1[k] == c);
                                assert(od == d && lo <= b && b <= hi);
                            }
                        }
                        if od == d && lo <= b && b <= hi {
                            assert(s1[i as int].covers(d, b));
                            assert(chunks_cover(s1, d, b));
                        }
                        if chunks_cover(s0, d, b) {
                            let k = choose|k: int|
                                0 <= k < s0.len() && (#[trigger] s0[k]).covers(d, b);
                            assert(s1[k].covers(d, b));
                            assert(chunks_cover(s1, d, b));
                        }
                    }
                }
            }
        } else {
            proof {
                assert forall|d: DatasetId, b: BlockNumber|
                    #[trigger] chunks_cover(ready@.subrange(0, i as int + 1), d, b)
                        == chunks_cover(ready@.subrange(0, i as int), d, b) by {
                    let s0 = ready@.subrange(0, i as int);
                    let s1 = ready@.subrange(0, i as int + 1);
                    if chunks_cover(s1, d, b) {
                        let k = choose|k: int|
                            0 <= k < s1.len() && (#[trigger] s1[k]).covers(d, b);
                        assert(k < i);
                        assert(s0[k].covers(d, b));
                    }
                    if chunks_cover(s0, d, b) {
                        let k = choose|k: int|
                            0 <= k < s0.len() && (#[trigger] s0[k]).covers(d, b);
                        assert(s1[k].covers(d, b));
                    }
                }
            }
        }
        i += 1;
    }
    let ghost rpre = r@;
    if has_open {
        r.push((od, lo, hi));
        proof {
            assert(r@ == rpre.push((od, lo, hi)));
            lemma_push_run(rpre, (od, lo, hi));
            lemma_push_cover(rpre, (od, lo, hi));
        }
    }
    proof {
        assert(ready@.subrange(0, n as int) =~= ready@);
        assert forall|d: DatasetId, b: BlockNumber| #[trigger] ranges_cover(r@, d, b)
            == chunks_cover(ready@, d, b) by {
            if has_open {
                assert(ranges_cover(r@, d, b) == (ranges_cover(rpre, d, b)
                    || (od == d && lo <= b && b <= hi)));
            }
        }
    }
    r
}

/// The chunk lifecycle engine in one place: the index and lease table, the
/// desired-set tracker, and the download pool bookkeeping. One mutable
/// borrow of this value is the critical section the design asks for.
pub struct StateManager {
    state: State,
    tracker: DatasetTracker,
    pool: Downloader,
}

impl StateManager {
    pub closed spec fn st(&self) -> State {
        self.state
    }

    pub closed spec fn pool_active(&self) -> Seq<DownloadId> {
        self.pool.active_ids()
    }

    pub closed spec fn pool_bound(&self) -> usize {
        self.pool.bound()
    }

    pub closed spec fn pool_next(&self) -> DownloadId {
        self.pool.next()
    }

    /// The parts agree: the state and pool are each well formed, the tracker
    /// has consumed exactly the state's desired set, and every download id
    /// the state carries was handed out by the pool.
    pub closed spec fn wf(&self) -> bool {
        &&& self.state.wf()
        &&& self.tracker.wf()
        &&& self.pool.wf()
        &&& forall|c: ChunkRef| self.tracker.taken_set().contains(c) <==> self.state.is_desired(c)
        &&& forall|c: ChunkRef| match #[trigger] self.state.state_of(c) {
            Some(ChunkState::Downloading { id, attempts }) => id < self.pool.next(),
            Some(ChunkState::Cancelling { id }) => id < self.pool.next(),
            _ => true,
        }
    }

    pub fn new(max_concurrent_downloads: usize) -> (r: StateManager)
        ensures
            r.wf(),
            forall|c: ChunkRef| r.st().state_of(c) is None,
            forall|c: ChunkRef| !r.st().is_desired(c),
            forall|c: ChunkRef| r.st().lease_count(c) == 0,
            !r.st().downloads_stopped(),
            r.pool_bound() == max_concurrent_downloads,
            r.pool_active().len() == 0,
    {
        let r = StateManager {
            state: State::new(),
            tracker: DatasetTracker::new(),
            pool: Downloader::new(max_concurrent_downloads),
        };
        proof {
            assert forall|c: ChunkRef| !r.state.is_desired(c) by {
                assert(!r.state.desired_seq().contains(c));
            }
        }
        r
    }

    /// A manager rebuilt from the complete chunk directories a startup
    /// rescan found: each is ready and desired until told otherwise.
    pub fn restore(ready: &ChunkSet, max_concurrent_downloads: usize) -> (r: StateManager)
        requires
            ready.wf(),
        ensures
            r.wf(),
            forall|c: ChunkRef| r.st().state_of(c) == (if ready@.contains(c) {
                Some(ChunkState::Ready)
            } else {
                None::<ChunkState>
            }),
            forall|c: ChunkRef| r.st().is_desired(c) <==> ready@.contains(c),
            forall|c: ChunkRef| r.st().lease_count(c) == 0,
            !r.st().downloads_stopped(),
            r.pool_bound() == max_concurrent_downloads,
            r.pool_active().len() == 0,
    {
        StateManager {
            state: State::restore(ready),
            tracker: DatasetTracker::restore(ready),
            pool: Downloader::new(max_concurrent_downloads),
        }
    }

    /// Replaces the desired set wholesale and reconciles the index against
    /// it: newly desired chunks are queued for download, chunks no longer
    /// desired head for cancellation or deletion (leased ones are retained
    /// until released). Announcing the set the worker already desires
    /// changes nothing — in particular it issues no downloads.
    pub fn set_desired_chunks(&mut self, desired: &ChunkSet)
        requires
            old(self).wf(),
            desired.wf(),
            forall|c: ChunkRef| #[trigger] desired@.contains(c)
                ==> old(self).st().key_consistent(c),
        ensures
            final(self).wf(),
            forall|c: ChunkRef| final(self).st().is_desired(c) <==> desired@.contains(c),
            forall|c: ChunkRef| #[trigger] desired@.contains(c)
                ==> final(self).st().state_of(c) == (if old(self).st().state_of(c) is None {
                    Some(ChunkState::Queued { attempts: 0 })
                } else {
                    old(self).st().state_of(c)
                }),
            forall|c: ChunkRef| !(#[trigger] desired@.contains(c)) && old(self).st().is_desired(c)
                ==> final(self).st().state_of(c) == (match old(self).st().state_of(c) {
                    Some(ChunkState::Queued { attempts }) => None::<ChunkState>,
                    Some(ChunkState::Failed) => None::<ChunkState>,
                    Some(ChunkState::Downloading { id, attempts }) => Some(
                        ChunkState::Cancelling { id },
                    ),
                    Some(ChunkState::Ready) => if old(self).st().lease_count(c) > 0 {
                        Some(ChunkState::Ready)
                    } else {
                        Some(ChunkState::Deleting)
                    },
                    other => other,
                }),
            forall|c: ChunkRef| !(#[trigger] desired@.contains(c))
                && !old(self).st().is_desired(c)
                ==> final(self).st().state_of(c) == old(self).st().state_of(c),
            forall|c: ChunkRef| final(self).st().lease_count(c) == old(self).st().lease_count(c),
            final(self).st().downloads_stopped() == old(self).st().downloads_stopped(),
            final(self).pool_active() == old(self).pool_active(),
            final(self).pool_next() == old(self).pool_next(),
            final(self).pool_bound() == old(self).pool_bound(),
            (forall|c: ChunkRef| #[trigger] desired@.contains(c)
                == old(self).st().is_desired(c))
                ==> forall|c: ChunkRef| final(self).st().state_of(c)
                    == old(self).st().state_of(c),
    {
        self.tracker.set_desired_state(desired);
        let upd = self.tracker.get_state_update();
        proof {
            assert forall|c: ChunkRef| #[trigger] upd.deleted@.contains(c)
                implies self.state.is_desired(c) by {}
        }
        let ghost pre = self.state;
        self.state.delete_chunks(&upd.deleted);
        proof {
            assert forall|c: ChunkRef| #[trigger] upd.new@.contains(c)
                implies self.state.key_consistent(c) && !self.state.is_desired(c) by {
                assert(desired@.contains(c));
                assert(old(self).st().key_consistent(c));
                assert(pre == old(self).st());
                assert(pre.key_consistent(c));
                crate::state::lemma_key_consistent_mono(&pre, &self.state, c);
                assert(!pre.is_desired(c));
            }
        }
        let ghost mid = self.state;
        self.state.add_chunks(&upd.new);
        proof {
            let post = self.state;
            assert forall|c: ChunkRef| post.is_desired(c) implies desired@.contains(c) by {
                if upd.new@.contains(c) {
                } else {
                    assert(mid.is_desired(c));
                    assert(pre.is_desired(c) && !upd.deleted@.contains(c));
                }
            }
            assert forall|c: ChunkRef| desired@.contains(c) implies post.is_desired(c) by {
                if pre.is_desired(c) {
                    assert(!upd.deleted@.contains(c));
                    assert(mid.is_desired(c));
                } else {
                    assert(upd.new@.contains(c));
                }
            }
            assert forall|c: ChunkRef| #[trigger] desired@.contains(c)
                implies post.state_of(c) == (if pre.state_of(c) is None {
                    Some(ChunkState::Queued { attempts: 0 })
                } else {
                    pre.state_of(c)
                }) by {
                assert(!upd.deleted@.contains(c));
                assert(mid.state_of(c) == pre.state_of(c));
                if !upd.new@.contains(c) {
                    assert(post.state_of(c) == mid.state_of(c));
                    assert(pre.is_desired(c));
                    assert(pre.has_entry(c));
                    let k = choose|k: int|
                        0 <= k < pre.entries().len() && (#[trigger] pre.entries()[k]).chunk == c;
                    pre.lemma_state_at(k);
                    assert(!(pre.state_of(c) is None));
                }
            }
            assert forall|c: ChunkRef| !(#[trigger] desired@.contains(c)) && pre.is_desired(c)
                implies post.state_of(c) == (match pre.state_of(c) {
                    Some(ChunkState::Queued { attempts }) => None::<ChunkState>,
                    Some(ChunkState::Failed) => None::<ChunkState>,
                    Some(ChunkState::Downloading { id, attempts }) => Some(
                        ChunkState::Cancelling { id },
                    ),
                    Some(ChunkState::Ready) => if pre.lease_count(c) > 0 {
                        Some(ChunkState::Ready)
                    } else {
                        Some(ChunkState::Deleting)
                    },
                    other => other,
                }) by {
                assert(upd.deleted@.contains(c));
                assert(!upd.new@.contains(c));
                assert(post.state_of(c) == mid.state_of(c));
            }
            assert forall|c: ChunkRef| !(#[trigger] desired@.contains(c)) && !pre.is_desired(c)
                implies post.state_of(c) == pre.state_of(c) by {
                assert(!upd.deleted@.contains(c));
                assert(!upd.new@.contains(c));
                assert(mid.state_of(c) == pre.state_of(c));
            }
            assert forall|c: ChunkRef| match #[trigger] post.state_of(c) {
                Some(ChunkState::Downloading { id, attempts }) => id < self.pool.next(),
                Some(ChunkState::Cancelling { id }) => id < self.pool.next(),
                _ => true,
            } by {
                match post.state_of(c) {
                    Some(ChunkState::Downloading { id, attempts }) => {
                        assert(pre.state_of(c) == Some(ChunkState::Downloading { id, attempts }))
                            by {
                            if upd.new@.contains(c) {
                                assert(post.state_of(c) == (if mid.state_of(c) is None {
                                    Some(ChunkState::Queued { attempts: 0 })
                                } else {
                                    mid.state_of(c)
                                }));
                            }
                        }
                    },
                    Some(ChunkState::Cancelling { id }) => {
                        assert(match pre.state_of(c) {
                            Some(ChunkState::Cancelling { id: i2 }) => i2 == id,
                            Some(ChunkState::Downloading { id: i2, attempts }) => i2 == id,
                            _ => false,
                        }) by {
                            if upd.new@.contains(c) {
                                assert(post.state_of(c) == (if mid.state_of(c) is None {
                                    Some(ChunkState::Queued { attempts: 0 })
                                } else {
                                    mid.state_of(c)
                                }));
                            }
                        }
                    },
                    _ => {},
                }
            }
            // idempotence: re-announcing the desired set changes nothing
            if forall|c: ChunkRef| #[trigger] desired@.contains(c) == pre.is_desired(c) {
                assert forall|c: ChunkRef| post.state_of(c) == pre.state_of(c) by {
                    if desired@.contains(c) {
                        assert(pre.is_desired(c));
                        assert(pre.has_entry(c));
                        let k = choose|k: int|
                            0 <= k < pre.entries().len()
                                && (#[trigger] pre.entries()[k]).chunk == c;
                        pre.lemma_state_at(k);
                    } else {
                        assert(!pre.is_desired(c));
                    }
                }
            }
        }
    }

    /// The chunks of `dataset` that are ready and hold `block`, ordered by
    /// `first_block`, each with one lease taken. The caller hands them back
    /// through `unlock_chunks` when the query is done.
    pub fn find_chunks(&mut self, dataset: DatasetId, block: BlockNumber) -> (r: Vec<ChunkRef>)
        requires
            old(self).wf(),
        ensures
            final(self).wf(),
            forall|k: int| 0 <= k < r@.len()
                ==> old(self).st().is_ready(#[trigger] r@[k]) && r@[k].covers(dataset, block),
            forall|c: ChunkRef| old(self).st().is_ready(c) && c.covers(dataset, block)
                ==> r@.contains(c),
            sorted_by_key(r@),
            forall|c: ChunkRef| #[trigger] final(self).st().lease_count(c)
                == old(self).st().lease_count(c) + (if r@.contains(c) { 1int } else { 0int }),
            forall|c: ChunkRef| final(self).st().state_of(c) == old(self).st().state_of(c),
            forall|c: ChunkRef| final(self).st().is_desired(c) == old(self).st().is_desired(c),
            final(self).pool_active() == old(self).pool_active(),
            final(self).pool_next() == old(self).pool_next(),
    {
        self.state.find_chunks(dataset, block)
    }

    /// Releases one lease per element, and nothing more: no lifecycle tag
    /// changes here. A retained chunk losing its last lease becomes
    /// collectable by the next `take_deletions`, so the caller re-signals
    /// the reconciler after releasing.
    pub fn unlock_chunks(&mut self, chunks: &Vec<ChunkRef>)
        requires
            old(self).wf(),
            forall|c: ChunkRef| chunks@.to_multiset().count(c)
                <= old(self).st().lease_count(c),
        ensures
            final(self).wf(),
            forall|c: ChunkRef| #[trigger] final(self).st().lease_count(c)
                + chunks@.to_multiset().count(c) == old(self).st().lease_count(c),
            forall|c: ChunkRef| final(self).st().state_of(c) == old(self).st().state_of(c),
            forall|c: ChunkRef| final(self).st().is_desired(c) == old(self).st().is_desired(c),
            final(self).pool_active() == old(self).pool_active(),
    {
        self.state.unlock_chunks(chunks);
    }

    /// Starts at most one queued download: when the pool has a free slot and
    /// a chunk is queued, marks it downloading under a fresh id and returns
    /// both so the caller can perform the transfer.
    pub fn start_next_download(&mut self) -> (r: Option<(DownloadId, ChunkRef)>)
        requires
            old(self).wf(),
        ensures
            final(self).wf(),
            forall|c: ChunkRef| final(self).st().is_desired(c) == old(self).st().is_desired(c),
            forall|c: ChunkRef| final(self).st().lease_count(c)
                == old(self).st().lease_count(c),
            match r {
                None => (forall|c: ChunkRef| final(self).st().state_of(c)
                    == old(self).st().state_of(c))
                    && final(self).pool_active() == old(self).pool_active()
                    && (old(self).st().downloads_stopped()
                        || old(self).pool_active().len() >= old(self).pool_bound()
                        || old(self).pool_next() == DownloadId::MAX
                        || forall|c: ChunkRef|
                            !((#[trigger] old(self).st().state_of(c))
                                matches Some(ChunkState::Queued { .. }))),
                Some((id, c)) => {
                    &&& !old(self).st().downloads_stopped()
                    &&& id == old(self).pool_next()
                    &&& match old(self).st().state_of(c) {
                        Some(ChunkState::Queued { attempts }) => final(self).st().state_of(c)
                            == Some(ChunkState::Downloading { id, attempts }),
                        _ => false,
                    }
                    &&& forall|d: ChunkRef| d != c
                        ==> final(self).st().state_of(d) == old(self).st().state_of(d)
                    &&& forall|d: ChunkRef| (#[trigger] old(self).st().state_of(d))
                        matches Some(ChunkState::Queued { .. }) && d != c ==> c.key_lt(d)
                    &&& final(self).pool_active() == old(self).pool_active().push(id)
                },
            },
    {
        if !self.pool.is_ready() {
            return None;
        }
        let id = self.pool.peek_next_id();
        if id == DownloadId::MAX {
            return None;
        }
        proof {
            crate::state::lemma_fresh_from_bound(&self.state, id);
        }
        match self.state.take_next_download(id) {
            None => None,
            Some(c) => {
                let got = self.pool.download_chunk(c);
                proof {
                    let post = self.state;
                    assert forall|d: ChunkRef| match #[trigger] post.state_of(d) {
                        Some(ChunkState::Downloading { id: i2, attempts }) => i2
                            < self.pool.next(),
                        Some(ChunkState::Cancelling { id: i2 }) => i2 < self.pool.next(),
                        _ => true,
                    } by {
                        if d != c {
                            assert(post.state_of(d) == old(self).st().state_of(d));
                        }
                    }
                }
                Some((got, c))
            },
        }
    }

    /// Feeds one resolved download into the engine: on success the chunk
    /// becomes ready (or deleting, when its cancellation was requested); on
    /// failure it is queued again until its attempts run out. Either way the
    /// pool slot is freed.
    /// Feeds one successful download into the engine: the chunk becomes
    /// ready (or deleting, when its cancellation was requested) and the pool
    /// slot is freed.
    pub fn download_completed(&mut self, id: DownloadId)
        requires
            old(self).wf(),
        ensures
            final(self).wf(),
            forall|c: ChunkRef| final(self).st().lease_count(c)
                == old(self).st().lease_count(c),
            forall|c: ChunkRef| final(self).st().is_desired(c) == old(self).st().is_desired(c),
            forall|x: DownloadId| final(self).pool_active().contains(x)
                <==> (old(self).pool_active().contains(x) && x != id),
            forall|c: ChunkRef| final(self).st().state_of(c)
                == crate::state::resolve_success(old(self).st().state_of(c), id),
    {
        let ghost pre = self.state;
        self.state.complete_download(id);
        proof {
            crate::state::lemma_bound_after_success(&pre, &self.state, id, self.pool.next());
        }
        self.pool.cancel_download(id);
        proof {
            assert forall|x: DownloadId| self.pool_active().contains(x)
                <==> (old(self).pool_active().contains(x) && x != id) by {
                assert(self.pool.is_active(x) <==> (old(self).pool.is_active(x) && x != id));
            }
        }
    }

    /// Feeds one failed (or cancelled) download into the engine: the chunk
    /// is queued again until its attempts run out, a cancelled one leaves or
    /// is queued afresh; the pool slot is freed.
    pub fn download_failed(&mut self, id: DownloadId)
        requires
            old(self).wf(),
        ensures
            final(self).wf(),
            forall|c: ChunkRef| final(self).st().lease_count(c)
                == old(self).st().lease_count(c),
            forall|c: ChunkRef| final(self).st().is_desired(c) == old(self).st().is_desired(c),
            forall|x: DownloadId| final(self).pool_active().contains(x)
                <==> (old(self).pool_active().contains(x) && x != id),
            forall|c: ChunkRef| final(self).st().state_of(c)
                == crate::state::resolve_failure(
                    old(self).st().state_of(c),
                    id,
                    old(self).st().is_desired(c),
                ),
    {
        let ghost pre = self.state;
        self.state.fail_download(id);
        proof {
            crate::state::lemma_bound_after_failure(&pre, &self.state, id, self.pool.next());
        }
        self.pool.cancel_download(id);
        proof {
            assert forall|x: DownloadId| self.pool_active().contains(x)
                <==> (old(self).pool_active().contains(x) && x != id) by {
                assert(self.pool.is_active(x) <==> (old(self).pool.is_active(x) && x != id));
            }
        }
    }

    /// The reconciler's deletion step: every ready chunk that is no longer
    /// desired and holds no lease turns to deleting. Run on every wakeup —
    /// in particular after a lease release.
    pub fn mark_deletions(&mut self)
        requires
            old(self).wf(),
        ensures
            final(self).wf(),
            forall|c: ChunkRef| final(self).st().state_of(c)
                == (if old(self).st().evictable(c) {
                    Some(ChunkState::Deleting)
                } else {
                    old(self).st().state_of(c)
                }),
            forall|c: ChunkRef| final(self).st().is_desired(c) == old(self).st().is_desired(c),
            forall|c: ChunkRef| final(self).st().lease_count(c)
                == old(self).st().lease_count(c),
            final(self).pool_active() == old(self).pool_active(),
    {
        self.state.mark_deletions();
        proof {
            assert forall|c: ChunkRef| match #[trigger] self.state.state_of(c) {
                Some(ChunkState::Downloading { id: i2, attempts }) => i2 < self.pool.next(),
                Some(ChunkState::Cancelling { id: i2 }) => i2 < self.pool.next(),
                _ => true,
            } by {
                match self.state.state_of(c) {
                    Some(ChunkState::Downloading { id: i2, attempts }) => {
                        assert(old(self).st().state_of(c) == self.state.state_of(c));
                    },
                    Some(ChunkState::Cancelling { id: i2 }) => {
                        assert(old(self).st().state_of(c) == self.state.state_of(c));
                    },
                    _ => {},
                }
            }
        }
    }

    /// Hands out every chunk awaiting deletion — exactly the `Deleting` ones
    /// — so the caller can remove its files; the entries leave the index at
    /// once (see `State::take_deletions` on that boundary). A deleting chunk
    /// that was re-added to the desired set is returned too and queued for a
    /// fresh download.
    pub fn take_deletions(&mut self) -> (r: ChunkSet)
        requires
            old(self).wf(),
        ensures
            final(self).wf(),
            r.wf(),
            forall|c: ChunkRef| #[trigger] r@.contains(c)
                <==> old(self).st().state_of(c) == Some(ChunkState::Deleting),
            forall|c: ChunkRef| final(self).st().state_of(c)
                == (match old(self).st().state_of(c) {
                    Some(ChunkState::Deleting) => if old(self).st().is_desired(c) {
                        Some(ChunkState::Queued { attempts: 0 })
                    } else {
                        None::<ChunkState>
                    },
                    _ => old(self).st().state_of(c),
                }),
            forall|c: ChunkRef| final(self).st().is_desired(c) == old(self).st().is_desired(c),
            forall|c: ChunkRef| final(self).st().lease_count(c)
                == old(self).st().lease_count(c),
    {
        let r = self.state.take_deletions();
        proof {
            assert forall|c: ChunkRef| match #[trigger] self.state.state_of(c) {
                Some(ChunkState::Downloading { id: i2, attempts }) => i2 < self.pool.next(),
                Some(ChunkState::Cancelling { id: i2 }) => i2 < self.pool.next(),
                _ => true,
            } by {
                match self.state.state_of(c) {
                    Some(ChunkState::Downloading { id: i2, attempts }) => {
                        assert(old(self).st().state_of(c) == self.state.state_of(c));
                    },
                    Some(ChunkState::Cancelling { id: i2 }) => {
                        assert(old(self).st().state_of(c) == self.state.state_of(c));
                    },
                    _ => {},
                }
            }
        }
        r
    }

    /// Hands out the ids whose transfers the caller must abort (their slots
    /// are freed here); the affected chunks leave the index or are queued
    /// afresh when still desired.
    pub fn cancel_downloads(&mut self) -> (r: Vec<DownloadId>)
        requires
            old(self).wf(),
        ensures
            final(self).wf(),
            forall|c: ChunkRef| (match #[trigger] old(self).st().state_of(c) {
                Some(ChunkState::Cancelling { id }) => r@.contains(id),
                _ => true,
            }),
            forall|k: int| 0 <= k < r@.len()
                ==> old(self).st().cancelling_id(#[trigger] r@[k]),
            forall|k1: int, k2: int| 0 <= k1 < k2 < r@.len()
                ==> #[trigger] r@[k1] != #[trigger] r@[k2],
            forall|c: ChunkRef| final(self).st().state_of(c)
                == (match old(self).st().state_of(c) {
                    Some(ChunkState::Cancelling { id }) => if old(self).st().is_desired(c) {
                        Some(ChunkState::Queued { attempts: 0 })
                    } else {
                        None::<ChunkState>
                    },
                    _ => old(self).st().state_of(c),
                }),
            forall|c: ChunkRef| final(self).st().is_desired(c) == old(self).st().is_desired(c),
            forall|c: ChunkRef| final(self).st().lease_count(c)
                == old(self).st().lease_count(c),
    {
        let ids = self.state.take_canceled_downloads();
        proof {
            assert forall|c: ChunkRef| match #[trigger] self.state.state_of(c) {
                Some(ChunkState::Downloading { id: i2, attempts }) => i2 < self.pool.next(),
                Some(ChunkState::Cancelling { id: i2 }) => i2 < self.pool.next(),
                _ => true,
            } by {
                match self.state.state_of(c) {
                    Some(ChunkState::Downloading { id: i2, attempts }) => {
                        assert(old(self).st().state_of(c) == self.state.state_of(c));
                    },
                    Some(ChunkState::Cancelling { id: i2 }) => {
                        assert(old(self).st().state_of(c) == self.state.state_of(c));
                    },
                    _ => {},
                }
            }
        }
        let ghost smid = self.state;
        let ghost tmid = self.tracker;
        let n = ids.len();
        let mut i: usize = 0;
        while i < n
            invariant
                n == ids@.len(),
                0 <= i <= n,
                self.state == smid,
                self.tracker == tmid,
                self.wf(),
            decreases n - i,
        {
            let id = ids[i];
            let ghost ppre = self.pool;
            self.pool.cancel_download(id);
            proof {
                assert(self.pool.next() == ppre.next());
                assert forall|c: ChunkRef| match #[trigger] self.state.state_of(c) {
                    Some(ChunkState::Downloading { id: i2, attempts }) => i2 < self.pool.next(),
                    Some(ChunkState::Cancelling { id: i2 }) => i2 < self.pool.next(),
                    _ => true,
                } by {}
            }
            i += 1;
        }
        ids
    }

    /// A point-in-time snapshot for pings: every ready chunk (each an
    /// unbroken block range of its dataset, in order) and how many downloads
    /// are in flight.
    pub fn current_status(&self) -> (r: Status)
        requires
            self.wf(),
        ensures
            runs_coalesced(r.ranges@),
            forall|d: DatasetId, b: BlockNumber| #[trigger] ranges_cover(r.ranges@, d, b)
                <==> exists|c: ChunkRef| self.st().is_ready(c) && c.covers(d, b),
            sorted_by_key(r.ready@),
            forall|k: int| 0 <= k < r.ready@.len() ==> self.st().is_ready(#[trigger] r.ready@[k]),
            forall|c: ChunkRef| self.st().is_ready(c) ==> r.ready@.contains(c),
            sorted_by_key(r.failed@),
            forall|k: int| 0 <= k < r.failed@.len()
                ==> self.st().state_of(#[trigger] r.failed@[k]) == Some(ChunkState::Failed),
            forall|c: ChunkRef| self.st().state_of(c) == Some(ChunkState::Failed)
                ==> r.failed@.contains(c),
            r.in_flight_downloads == self.pool_active().len(),
    {
        let ready = self.state.ready_chunks();
        let ranges = coalesce(&ready);
        let failed = self.state.failed_chunks();
        let in_flight_downloads = self.pool.active_len();
        proof {
            assert forall|d: DatasetId, b: BlockNumber| #[trigger] ranges_cover(ranges@, d, b)
                <==> exists|c: ChunkRef| self.st().is_ready(c) && c.covers(d, b) by {
                assert(ranges_cover(ranges@, d, b) == chunks_cover(ready@, d, b));
                if chunks_cover(ready@, d, b) {
                    let k = choose|k: int|
                        0 <= k < ready@.len() && (#[trigger] ready@[k]).covers(d, b);
                    assert(self.st().is_ready(ready@[k]) && ready@[k].covers(d, b));
                }
                if exists|c: ChunkRef| self.st().is_ready(c) && c.covers(d, b) {
                    let c = choose|c: ChunkRef| self.st().is_ready(c) && c.covers(d, b);
                    assert(ready@.contains(c));
                    let k = choose|k: int| 0 <= k < ready@.len() && ready@[k] == c;
                    assert(ready@[k].covers(d, b));
                    assert(chunks_cover(ready@, d, b));
                }
            }
        }
        Status { ranges, ready, failed, in_flight_downloads }
    }

    /// Stops issuing new downloads; cancellations and deletions proceed.
    pub fn stop_downloads(&mut self)
        requires
            old(self).wf(),
        ensures
            final(self).wf(),
            final(self).st().downloads_stopped(),
            forall|c: ChunkRef| final(self).st().state_of(c) == old(self).st().state_of(c),
            forall|c: ChunkRef| final(self).st().is_desired(c) == old(self).st().is_desired(c),
            forall|c: ChunkRef| final(self).st().lease_count(c)
                == old(self).st().lease_count(c),
    {
        self.state.stop_downloads();
        proof {
            assert forall|c: ChunkRef| match #[trigger] self.state.state_of(c) {
                Some(ChunkState::Downloading { id: i2, attempts }) => i2 < self.pool.next(),
                Some(ChunkState::Cancelling { id: i2 }) => i2 < self.pool.next(),
                _ => true,
            } by {
                assert(old(self).st().state_of(c) == self.state.state_of(c));
            }
        }
    }
}

} // verus!
