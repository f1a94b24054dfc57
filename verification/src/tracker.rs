use vstd::prelude::*;

use crate::chunks::{ChunkRef, ChunkSet};

verus! {

/// The step from one desired set to the next: what must start downloading
/// and what must go.
pub struct StateUpdate {
    pub new: ChunkSet,
    pub deleted: ChunkSet,
}

/// Tracks the desired set the transport announces, and diffs it against what
/// the reconciler has already consumed, so that each consumed update is the
/// exact step from the last consumed set to the latest announced one.
pub struct DatasetTracker {
    current: ChunkSet,
    taken: ChunkSet,
}

impl DatasetTracker {
    /// The latest announced desired set.
    pub closed spec fn current_set(&self) -> Seq<ChunkRef> {
        self.current@
    }

    /// The desired set as of the last consumed update.
    pub closed spec fn taken_set(&self) -> Seq<ChunkRef> {
        self.taken@
    }

    pub open spec fn wf(&self) -> bool {
        &&& crate::chunks::sorted_by_key(self.current_set())
        &&& crate::chunks::sorted_by_key(self.taken_set())
    }

    pub fn new() -> (r: DatasetTracker)
        ensures
            r.wf(),
            r.current_set() =~= Seq::<ChunkRef>::empty(),
            r.taken_set() =~= Seq::<ChunkRef>::empty(),
    {
        DatasetTracker { current: ChunkSet::new(), taken: ChunkSet::new() }
    }

    /// A tracker whose announced and consumed sets both start as `initial`,
    /// for a worker rebuilt from a disk rescan.
    pub fn restore(initial: &ChunkSet) -> (r: DatasetTracker)
        requires
            initial.wf(),
        ensures
            r.wf(),
            forall|c: ChunkRef| r.current_set().contains(c) <==> initial@.contains(c),
            forall|c: ChunkRef| r.taken_set().contains(c) <==> initial@.contains(c),
    {
        DatasetTracker { current: initial.duplicate(), taken: initial.duplicate() }
    }

    /// Replaces the announced desired set wholesale. Announcements coalesce:
    /// only the latest is ever consumed.
    pub fn set_desired_state(&mut self, desired: &ChunkSet)
        requires
            old(self).wf(),
            desired.wf(),
        ensures
            final(self).wf(),
            forall|c: ChunkRef| final(self).current_set().contains(c) <==> desired@.contains(c),
            final(self).taken_set() == old(self).taken_set(),
    {
        self.current = desired.duplicate();
    }

    /// Consumes the pending change: the chunks newly desired since the last
    /// consumed update, and those no longer desired. Consuming twice in a row
    /// (or after re-announcing the same set) yields an empty update.
    pub fn get_state_update(&mut self) -> (r: StateUpdate)
        requires
            old(self).wf(),
        ensures
            final(self).wf(),
            r.new.wf(),
            r.deleted.wf(),
            forall|c: ChunkRef| #[trigger] r.new@.contains(c)
                <==> (old(self).current_set().contains(c)
                    && !old(self).taken_set().contains(c)),
            forall|c: ChunkRef| #[trigger] r.deleted@.contains(c)
                <==> (old(self).taken_set().contains(c)
                    && !old(self).current_set().contains(c)),
            forall|c: ChunkRef| final(self).taken_set().contains(c)
                <==> old(self).current_set().contains(c),
            final(self).current_set() == old(self).current_set(),
    {
        let new = self.current.diff(&self.taken);
        let deleted = self.taken.diff(&self.current);
        self.taken = self.current.duplicate();
        StateUpdate { new, deleted }
    }
}

} // verus!
