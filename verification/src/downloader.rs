use vstd::prelude::*;

use crate::chunks::ChunkRef;
use crate::state::DownloadId;

verus! {

/// The bookkeeping of the download pool: which download ids occupy its
/// bounded slots, and the next process-unique id. The transfers themselves
/// are the caller's to perform; this type decides admission and identity.
pub struct Downloader {
    max_concurrent: usize,
    active: Vec<DownloadId>,
    next_id: DownloadId,
}

/// What the pool reports after a round of transfers: the downloads that
/// resolved, and whether a slot is free again.
pub struct DownloaderUpdates {
    pub completed: Vec<DownloadId>,
    pub is_ready: bool,
}

impl Downloader {
    pub closed spec fn active_ids(&self) -> Seq<DownloadId> {
        self.active@
    }

    pub open spec fn is_active(&self, id: DownloadId) -> bool {
        self.active_ids().contains(id)
    }

    pub closed spec fn next(&self) -> DownloadId {
        self.next_id
    }

    pub closed spec fn bound(&self) -> usize {
        self.max_concurrent
    }

    /// Every tracked id was handed out (so it is below the next id), and no
    /// id occupies two slots.
    pub open spec fn wf(&self) -> bool {
        &&& forall|k: int| 0 <= k < self.active_ids().len()
            ==> #[trigger] self.active_ids()[k] < self.next()
        &&& forall|k: int, j: int| 0 <= k < self.active_ids().len()
            && 0 <= j < self.active_ids().len() && k != j
            ==> self.active_ids()[k] != self.active_ids()[j]
    }

    pub fn new(max_concurrent: usize) -> (r: Downloader)
        ensures
            r.wf(),
            r.bound() == max_concurrent,
            r.active_ids() =~= Seq::<DownloadId>::empty(),
            r.next() == 0,
    {
        Downloader { max_concurrent, active: Vec::new(), next_id: 0 }
    }

    /// Whether the pool has a free slot for one more download.
    pub fn is_ready(&self) -> (r: bool)
        ensures
            r == (self.active_ids().len() < self.bound()),
    {
        self.active.len() < self.max_concurrent
    }

    /// How many downloads occupy slots right now.
    pub fn active_len(&self) -> (r: usize)
        ensures
            r == self.active_ids().len(),
    {
        self.active.len()
    }

    /// The id the next download will get.
    pub fn peek_next_id(&self) -> (r: DownloadId)
        ensures
            r == self.next(),
    {
        self.next_id
    }

    /// Admits the download of `chunk` into a free slot and assigns it the
    /// next id. The caller starts the transfer under that id.
    pub fn download_chunk(&mut self, chunk: ChunkRef) -> (r: DownloadId)
        requires
            old(self).wf(),
            old(self).active_ids().len() < old(self).bound(),
            old(self).next() < DownloadId::MAX,
        ensures
            final(self).wf(),
            r == old(self).next(),
            final(self).next() == r + 1,
            final(self).bound() == old(self).bound(),
            final(self).active_ids() == old(self).active_ids().push(r),
            forall|x: DownloadId| final(self).is_active(x)
                <==> (old(self).is_active(x) || x == r),
    {
        let _ = chunk;
        let id = self.next_id;
        self.active.push(id);
        self.next_id = id + 1;
        proof {
            assert forall|x: DownloadId| self.is_active(x)
                implies (old(self).is_active(x) || x == id) by {
                let k = choose|k: int| 0 <= k < self.active@.len() && self.active@[k] == x;
                if k < self.active@.len() - 1 {
                    assert(old(self).active_ids()[k] == x);
                }
            }
            assert forall|x: DownloadId| old(self).is_active(x)
                implies self.is_active(x) by {
                let k = choose|k: int|
                    0 <= k < old(self).active_ids().len() && old(self).active_ids()[k] == x;
                assert(self.active@[k] == x);
            }
            assert(self.active@[self.active@.len() - 1] == id);
            assert(self.is_active(id));
        }
        id
    }

    /// Frees the slot of `id`. A no-op when the pool does not hold `id`, so
    /// cancelling twice, or cancelling a finished download, is harmless.
    pub fn cancel_download(&mut self, id: DownloadId)
        requires
            old(self).wf(),
        ensures
            final(self).wf(),
            final(self).next() == old(self).next(),
            final(self).bound() == old(self).bound(),
            forall|x: DownloadId| final(self).is_active(x)
                <==> (old(self).is_active(x) && x != id),
            final(self).active_ids().len() == old(self).active_ids().len()
                - (if old(self).is_active(id) { 1int } else { 0int }),
    {
        let n = self.active.len();
        let mut i: usize = 0;
        while i < n
            invariant
                n == self.active@.len(),
                0 <= i <= n,
                self == old(self),
                self.wf(),
                forall|j: int| 0 <= j < i ==> self.active@[j] != id,
            decreases n - i,
        {
            if self.active[i] == id {
                let ghost pre = self.active@;
                self.active.remove(i);
                proof {
                    assert(pre[i as int] == id);
                    assert forall|x: DownloadId| self.is_active(x)
                        implies (old(self).is_active(x) && x != id) by {
                        let k = choose|k: int|
                            0 <= k < self.active@.len() && self.active@[k] == x;
                        if k < i {
                            assert(pre[k] == x);
                        } else {
                            assert(pre[k + 1] == x);
                        }
                    }
                    assert forall|x: DownloadId| old(self).is_active(x) && x != id
                        implies self.is_active(x) by {
                        let k = choose|k: int| 0 <= k < pre.len() && pre[k] == x;
                        if k < i {
                            assert(self.active@[k] == x);
                        } else {
                            assert(k != i);
                            assert(self.active@[k - 1] == x);
                        }
                    }
                    assert(old(self).is_active(id));
                }
                return;
            }
            i += 1;
        }
        proof {
            assert(!old(self).is_active(id));
            assert forall|x: DownloadId| self.is_active(x)
                implies (old(self).is_active(x) && x != id) by {
                let k = choose|k: int| 0 <= k < self.active@.len() && self.active@[k] == x;
            }
        }
    }

    /// Frees the slots of the downloads the caller saw resolve, and reports
    /// them together with whether the pool can take new work.
    pub fn get_updates(&mut self, completed: Vec<DownloadId>) -> (r: DownloaderUpdates)
        requires
            old(self).wf(),
        ensures
            final(self).wf(),
            final(self).next() == old(self).next(),
            final(self).bound() == old(self).bound(),
            forall|x: DownloadId| final(self).is_active(x)
                <==> (old(self).is_active(x) && !completed@.contains(x)),
            r.completed@ == completed@,
            r.is_ready == (final(self).active_ids().len() < final(self).bound()),
    {
        let n = completed.len();
        let mut i: usize = 0;
        while i < n
            invariant
                n == completed@.len(),
                0 <= i <= n,
                self.wf(),
                self.next() == old(self).next(),
                self.bound() == old(self).bound(),
                forall|x: DownloadId| self.is_active(x)
                    <==> (old(self).is_active(x)
                        && !completed@.subrange(0, i as int).contains(x)),
            decreases n - i,
        {
            let id = completed[i];
            proof {
                assert(completed@.subrange(0, i as int + 1)
                    =~= completed@.subrange(0, i as int).push(id));
                assert(completed@.subrange(0, i as int + 1)[i as int] == id);
            }
            self.cancel_download(id);
            i += 1;
        }
        proof {
            assert(completed@.subrange(0, n as int) =~= completed@);
        }
        let is_ready = self.is_ready();
        DownloaderUpdates { completed, is_ready }
    }
}

} // verus!
