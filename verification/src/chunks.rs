use vstd::prelude::*;

verus! {

/// Identifier of a dataset, assigned by the caller when the dataset URL is
/// first seen. The engine never reads anything of a dataset but this id.
pub type DatasetId = u64;

/// Number of a block within a dataset.
pub type BlockNumber = u64;

/// Identity of an immutable chunk: a contiguous block range of one dataset.
/// Two chunks of one worker never share `(dataset, first_block)`.
#[derive(Clone, Copy, PartialEq, Eq, Structural, Debug)]
pub struct ChunkRef {
    pub dataset: DatasetId,
    pub first_block: BlockNumber,
    pub last_block: BlockNumber,
    pub top_block: BlockNumber,
}

impl ChunkRef {
    /// Strict order on the identity key `(dataset, first_block)`.
    pub open spec fn key_lt(self, other: ChunkRef) -> bool {
        self.dataset < other.dataset || (self.dataset == other.dataset
            && self.first_block < other.first_block)
    }

    /// Two chunks with the same identity key.
    pub open spec fn same_key(self, other: ChunkRef) -> bool {
        self.dataset == other.dataset && self.first_block == other.first_block
    }

    /// The chunk holds `block` of `dataset`.
    pub open spec fn covers(self, dataset: DatasetId, block: BlockNumber) -> bool {
        self.dataset == dataset && self.first_block <= block && block <= self.last_block
    }

    /// A chunk's range is never empty.
    pub open spec fn wf(self) -> bool {
        self.first_block <= self.last_block
    }

    /// Executable form of `key_lt`.
    pub fn key_before(&self, other: &ChunkRef) -> (r: bool)
        ensures
            r == self.key_lt(*other),
    {
        self.dataset < other.dataset || (self.dataset == other.dataset
            && self.first_block < other.first_block)
    }

    /// Executable form of `same_key`.
    pub fn key_eq(&self, other: &ChunkRef) -> (r: bool)
        ensures
            r == self.same_key(*other),
    {
        self.dataset == other.dataset && self.first_block == other.first_block
    }

    /// Executable form of `covers`.
    pub fn covers_block(&self, dataset: DatasetId, block: BlockNumber) -> (r: bool)
        ensures
            r == self.covers(dataset, block),
    {
        self.dataset == dataset && self.first_block <= block && block <= self.last_block
    }
}

/// A sequence of chunks strictly ordered by `(dataset, first_block)`.
pub open spec fn sorted_by_key(s: Seq<ChunkRef>) -> bool {
    forall|i: int, j: int| 0 <= i < j < s.len() ==> s[i].key_lt(s[j])
}

/// No two chunks of the sequence share an identity key.
pub open spec fn unique_keys(s: Seq<ChunkRef>) -> bool {
    forall|i: int, j: int| 0 <= i < s.len() && 0 <= j < s.len() && i != j
        ==> !(s[i].same_key(s[j]))
}

pub proof fn lemma_sorted_implies_unique(s: Seq<ChunkRef>)
    requires
        sorted_by_key(s),
    ensures
        unique_keys(s),
{
    assert forall|i: int, j: int|
        0 <= i < s.len() && 0 <= j < s.len() && i != j implies !(s[i].same_key(s[j])) by {
        if i < j {
            assert(s[i].key_lt(s[j]));
        } else {
            assert(s[j].key_lt(s[i]));
        }
    }
}

/// A set of chunks with fast membership and range lookup, kept strictly
/// sorted by `(dataset, first_block)` so that reconciliation walks chunks in
/// a deterministic order.
pub struct ChunkSet {
    chunks: Vec<ChunkRef>,
}

impl View for ChunkSet {
    type V = Seq<ChunkRef>;

    closed spec fn view(&self) -> Seq<ChunkRef> {
        self.chunks@
    }
}

impl ChunkSet {
    /// The internal order invariant, stated over the view.
    pub open spec fn wf(&self) -> bool {
        sorted_by_key(self@)
    }

    /// Some member has the identity key of `c`.
    pub open spec fn has_key(&self, c: ChunkRef) -> bool {
        exists|i: int| 0 <= i < self@.len() && (#[trigger] self@[i]).same_key(c)
    }

    pub fn new() -> (r: ChunkSet)
        ensures
            r@ =~= Seq::<ChunkRef>::empty(),
            r.wf(),
    {
        ChunkSet { chunks: Vec::new() }
    }

    pub fn len(&self) -> (r: usize)
        ensures
            r == self@.len(),
    {
        self.chunks.len()
    }

    pub fn get(&self, i: usize) -> (r: ChunkRef)
        requires
            i < self@.len(),
        ensures
            r == self@[i as int],
    {
        self.chunks[i]
    }

    /// Membership of the exact chunk.
    pub fn contains(&self, c: &ChunkRef) -> (r: bool)
        ensures
            r == self@.contains(*c),
    {
        let n = self.chunks.len();
        let mut i: usize = 0;
        while i < n
            invariant
                n == self@.len(),
                0 <= i <= n,
                forall|j: int| 0 <= j < i ==> self@[j] != *c,
            decreases n - i,
        {
            if self.chunks[i] == *c {
                return true;
            }
            i += 1;
        }
        false
    }

    /// Membership by identity key.
    pub fn contains_key(&self, c: &ChunkRef) -> (r: bool)
        ensures
            r == self.has_key(*c),
    {
        let n = self.chunks.len();
        let mut i: usize = 0;
        while i < n
            invariant
                n == self@.len(),
                0 <= i <= n,
                forall|j: int| 0 <= j < i ==> !((#[trigger] self@[j]).same_key(*c)),
            decreases n - i,
        {
            if self.chunks[i].key_eq(c) {
                return true;
            }
            i += 1;
        }
        false
    }

    /// Inserts a chunk whose key is not yet present, keeping the order.
    pub fn insert(&mut self, c: ChunkRef)
        requires
            old(self).wf(),
            !old(self).has_key(c),
        ensures
            final(self).wf(),
            final(self)@.len() == old(self)@.len() + 1,
            final(self)@.contains(c),
            forall|x: ChunkRef| final(self)@.contains(x) <==> (old(self)@.contains(x) || x == c),
    {
        let n = self.chunks.len();
        let mut i: usize = 0;
        let mut idx: usize = n;
        while i < n
            invariant
                n == self@.len(),
                0 <= i <= n,
                self.wf(),
                !self.has_key(c),
                idx == n || (idx < i && c.key_lt(self@[idx as int])),
                idx == n ==> forall|j: int| 0 <= j < i ==> (#[trigger] self@[j]).key_lt(c),
                idx < n ==> forall|j: int| 0 <= j < idx ==> (#[trigger] self@[j]).key_lt(c),
            decreases n - i,
        {
            if idx == n && c.key_before(&self.chunks[i]) {
                idx = i;
            } else if idx == n {
                assert(!self@[i as int].same_key(c));
            }
            i += 1;
        }
        let ghost pre = self@;
        self.chunks.insert(idx, c);
        proof {
            assert(self@[idx as int] == c);
            assert(self@.contains(c));
            assert forall|p: int, q: int| 0 <= p < q < self@.len()
                implies self@[p].key_lt(self@[q]) by {
                if p < idx && q == idx {
                    assert(pre[p].key_lt(c));
                } else if p == idx && q > idx {
                    if idx < pre.len() {
                        assert(c.key_lt(pre[idx as int]));
                        if q > idx + 1 {
                            assert(pre[idx as int].key_lt(pre[q - 1]));
                        }
                    }
                } else if p < idx && q > idx {
                    assert(pre[p].key_lt(pre[q - 1]));
                } else if q < idx {
                    assert(pre[p].key_lt(pre[q]));
                } else if p > idx {
                    assert(pre[p - 1].key_lt(pre[q - 1]));
                }
            }
            assert forall|x: ChunkRef| self@.contains(x) implies (pre.contains(x) || x == c) by {
                let k = choose|k: int| 0 <= k < self@.len() && self@[k] == x;
                if k < idx {
                    assert(pre[k] == x);
                } else if k > idx {
                    assert(pre[k - 1] == x);
                }
            }
            assert forall|x: ChunkRef| pre.contains(x) implies self@.contains(x) by {
                let k = choose|k: int| 0 <= k < pre.len() && pre[k] == x;
                if k < idx {
                    assert(self@[k] == x);
                } else {
                    assert(self@[k + 1] == x);
                }
            }
        }
    }

    /// The chunks of `self` that are not in `other`.
    pub fn diff(&self, other: &ChunkSet) -> (r: ChunkSet)
        requires
            self.wf(),
        ensures
            r.wf(),
            forall|c: ChunkRef| #[trigger] r@.contains(c)
                <==> (self@.contains(c) && !other@.contains(c)),
    {
        let mut r = ChunkSet::new();
        let n = self.chunks.len();
        let mut i: usize = 0;
        while i < n
            invariant
                n == self@.len(),
                0 <= i <= n,
                self.wf(),
                r.wf(),
                forall|k: int, j: int| 0 <= k < r@.len() && i <= j < n
                    ==> (#[trigger] r@[k]).key_lt(#[trigger] self@[j]),
                forall|c: ChunkRef| #[trigger] r@.contains(c)
                    <==> (self@.subrange(0, i as int).contains(c) && !other@.contains(c)),
            decreases n - i,
        {
            let c = self.get(i);
            proof {
                assert(self@.subrange(0, i as int + 1)
                    =~= self@.subrange(0, i as int).push(c));
                assert(self@.subrange(0, i as int + 1)[i as int] == c);
            }
            if !other.contains(&c) {
                proof {
                    assert forall|k: int| 0 <= k < r@.len()
                        implies !((#[trigger] r@[k]).same_key(c)) by {
                        assert(r@[k].key_lt(self@[i as int]));
                    }
                    assert(!r.has_key(c));
                }
                let ghost rpre = r@;
                r.insert(c);
                proof {
                    assert forall|k: int, j: int| 0 <= k < r@.len() && i + 1 <= j < n
                        implies (#[trigger] r@[k]).key_lt(#[trigger] self@[j]) by {
                        assert(r@.contains(r@[k]));
                        if rpre.contains(r@[k]) {
                            let k2 = choose|k2: int| 0 <= k2 < rpre.len() && rpre[k2] == r@[k];
                            assert(rpre[k2].key_lt(self@[j]));
                        } else {
                            assert(r@[k] == c);
                            assert(self@[i as int].key_lt(self@[j]));
                        }
                    }
                }
            }
            i += 1;
        }
        proof {
            assert(self@.subrange(0, n as int) =~= self@);
        }
        r
    }

    /// A copy holding the same chunks.
    pub fn duplicate(&self) -> (r: ChunkSet)
        requires
            self.wf(),
        ensures
            r.wf(),
            forall|c: ChunkRef| #[trigger] r@.contains(c) <==> self@.contains(c),
    {
        let empty = ChunkSet::new();
        self.diff(&empty)
    }

    /// Removes the chunk holding the identity key of `c`, if any.
    pub fn remove_key(&mut self, c: &ChunkRef) -> (r: Option<ChunkRef>)
        requires
            old(self).wf(),
        ensures
            final(self).wf(),
            match r {
                Some(ch) => old(self)@.contains(ch) && ch.same_key(*c)
                    && final(self)@.len() + 1 == old(self)@.len()
                    && (forall|x: ChunkRef| final(self)@.contains(x)
                        <==> (old(self)@.contains(x) && x != ch)),
                None => !old(self).has_key(*c) && final(self)@ == old(self)@,
            },
    {
        let n = self.chunks.len();
        let mut i: usize = 0;
        while i < n
            invariant
                n == self@.len(),
                0 <= i <= n,
                self.wf(),
                self@ == old(self)@,
                forall|j: int| 0 <= j < i ==> !((#[trigger] self@[j]).same_key(*c)),
            decreases n - i,
        {
            if self.chunks[i].key_eq(c) {
                let ghost pre = self@;
                let ch = self.chunks.remove(i);
                proof {
                    lemma_sorted_implies_unique(pre);
                    assert forall|x: ChunkRef| self@.contains(x)
                        implies (pre.contains(x) && x != ch) by {
                        let k = choose|k: int| 0 <= k < self@.len() && self@[k] == x;
                        if k < i {
                            assert(pre[k] == x);
                            assert(!(pre[k].same_key(pre[i as int])));
                        } else {
                            assert(pre[k + 1] == x);
                            assert(!(pre[k + 1].same_key(pre[i as int])));
                        }
                    }
                    assert forall|x: ChunkRef| pre.contains(x) && x != ch
                        implies self@.contains(x) by {
                        let k = choose|k: int| 0 <= k < pre.len() && pre[k] == x;
                        if k < i {
                            assert(self@[k] == x);
                        } else if k > i {
                            assert(self@[k - 1] == x);
                        }
                    }
                }
                return Some(ch);
            }
            i += 1;
        }
        None
    }
}

} // verus!
