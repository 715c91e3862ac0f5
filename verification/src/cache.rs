//! The resident cache: one optional [`AggregatedTable`] slot, owned by the
//! caller and passed explicitly, so its lifecycle is visible in the type.
//!
//! The cache does not record which directory produced its content; using one
//! cache for more than one directory is a caller error (stale data, never a
//! crash).

use crate::table::AggregatedTable;
use vstd::prelude::*;

verus! {

/// A single in-memory slot for the most recently aggregated table.
pub struct ResidentCache {
    pub slot: Option<AggregatedTable>,
}

impl ResidentCache {
    /// The cached mapping, if one is resident.
    pub open spec fn model(&self) -> Option<Map<Seq<char>, Map<Seq<char>, Seq<char>>>> {
        match self.slot {
            Option::None => Option::None,
            Option::Some(t) => Option::Some(t.model()),
        }
    }

    pub open spec fn wf(&self) -> bool {
        match self.slot {
            Option::None => true,
            Option::Some(t) => t.wf(),
        }
    }

    /// An empty cache: nothing is resident at startup.
    pub fn new() -> (c: ResidentCache)
        ensures
            c.wf(),
            c.model() is None,
    {
        ResidentCache { slot: None }
    }

    /// A copy of the resident table, or `None` on a cache miss.
    pub fn lookup(&self) -> (r: Option<AggregatedTable>)
        requires
            self.wf(),
        ensures
            r is Some <==> self.model() is Some,
            (match r {
                Option::Some(t) => self.model() == Some(t.model()) && t.wf(),
                Option::None => self.model() is None,
            }),
    {
        match &self.slot {
            Some(t) => Some(t.duplicate()),
            None => None,
        }
    }

    /// Makes a copy of `t` resident, replacing any earlier content.
    pub fn store(&mut self, t: &AggregatedTable)
        requires
            t.wf(),
        ensures
            final(self).wf(),
            final(self).model() == Some(t.model()),
    {
        self.slot = Some(t.duplicate());
    }

    /// Clears the cache unconditionally; the next cache-aware load rebuilds
    /// from disk.
    pub fn invalidate(&mut self)
        ensures
            final(self).wf(),
            final(self).model() is None,
    {
        self.slot = None;
    }
}

/// Invalidation forces a rebuild: a cache that `invalidate` has just left
/// behind models `None`, and every result that `lookup`'s contract admits
/// for such a cache is a miss — so a cache-aware load that follows an
/// invalidation cannot be served from memory and must aggregate from disk
/// again.
pub proof fn lemma_invalidate_forces_rebuild(c: ResidentCache, served: Option<AggregatedTable>)
    requires
        c.model() is None,
        (match served {
            Option::Some(t) => c.model() == Some(t.model()) && t.wf(),
            Option::None => c.model() is None,
        }),
    ensures
        served is None,
{
}

} // verus!
