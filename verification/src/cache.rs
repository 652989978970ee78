//! Memoisation of resolved edge-condition document sets.
//!
//! The cache is keyed by the dense condition handle. A stored entry holds
//! the condition's full document set, resolved once against the rule-defined
//! original universe; lookups intersect it with the caller's current
//! universe, so the answer is always the resolver's answer for that
//! universe.

use crate::condition::{condition_docids, resolve_condition_uncapped, Condition, SearchContext};
use crate::docids::{bitmap_and, bitmap_as_set, bitmap_clone};
use crate::interner::FixedSizeInterner;
use vstd::prelude::*;

verus! {

/// Cache of `condition handle -> document set`.
pub struct EdgeConditionDocIdsCache {
    entries: Vec<Option<roaring::RoaringBitmap>>,
}

impl EdgeConditionDocIdsCache {
    pub closed spec fn len(self) -> int {
        self.entries@.len() as int
    }

    /// Whether the condition's document set has been resolved and stored.
    pub closed spec fn cached(self, c: int) -> bool {
        0 <= c < self.len() && self.entries@[c] is Some
    }

    /// The stored document set of a cached condition.
    pub closed spec fn cached_set(self, c: int) -> Set<u32> {
        bitmap_as_set(self.entries@[c]->0)
    }

    /// Every stored entry holds exactly the full document set of its
    /// condition.
    pub open spec fn wf(self, ctx: SearchContext, conditions: Seq<Condition>) -> bool {
        &&& self.len() == conditions.len()
        &&& forall|c: int|
            #[trigger] self.cached(c) ==> self.cached_set(c) == condition_docids(
                ctx,
                conditions[c],
            )
    }

    /// An empty cache sized to the condition interner.
    pub fn new(n_conditions: usize) -> (r: EdgeConditionDocIdsCache)
        ensures
            r.len() == n_conditions,
            forall|c: int| !r.cached(c),
    {
        let mut entries: Vec<Option<roaring::RoaringBitmap>> = Vec::new();
        let mut k: usize = 0;
        while k < n_conditions
            invariant
                k <= n_conditions,
                entries@.len() == k,
                forall|c: int| 0 <= c < k ==> entries@[c] is None,
            decreases n_conditions - k,
        {
            entries.push(Option::None);
            k = k + 1;
        }
        EdgeConditionDocIdsCache { entries }
    }

    pub fn is_cached(&self, c: u16) -> (r: bool)
        requires
            c < self.len(),
        ensures
            r == self.cached(c as int),
    {
        match &self.entries[c as usize] {
            Option::Some(_) => true,
            Option::None => false,
        }
    }

    /// The documents of `universe` satisfying condition `c`, resolving and
    /// memoising the condition's full set on the first call.
    pub fn get_docids(
        &mut self,
        ctx: &SearchContext,
        conditions: &FixedSizeInterner<Condition>,
        c: u16,
        universe: &roaring::RoaringBitmap,
    ) -> (r: roaring::RoaringBitmap)
        requires
            old(self).wf(*ctx, conditions.values()),
            c < old(self).len(),
        ensures
            final(self).wf(*ctx, conditions.values()),
            final(self).cached(c as int),
            forall|c2: int| old(self).cached(c2) ==> #[trigger] final(self).cached(c2),
            bitmap_as_set(r) == condition_docids(*ctx, conditions.values()[c as int]).intersect(
                bitmap_as_set(*universe),
            ),
    {
        let is_hit = match &self.entries[c as usize] {
            Option::Some(_) => true,
            Option::None => false,
        };
        if !is_hit {
            let full = resolve_condition_uncapped(ctx, *conditions.get(c));
            self.entries.set(c as usize, Option::Some(full));
        }
        proof {
            assert forall|c2: int| #[trigger] self.cached(c2) implies self.cached_set(c2)
                == condition_docids(*ctx, conditions.values()[c2]) by {
                if c2 != c as int {
                    assert(self.entries@[c2] == old(self).entries@[c2]);
                    assert(old(self).cached(c2));
                }
            }
        }
        match &self.entries[c as usize] {
            Option::Some(stored) => bitmap_and(stored, universe),
            Option::None => {
                proof {
                    assert(false);
                }
                bitmap_clone(universe)
            },
        }
    }
}

/// Cache soundness: a cached entry, intersected with any current universe,
/// is exactly what the resolver returns for that condition and universe.
pub proof fn lemma_cache_sound(
    cache: EdgeConditionDocIdsCache,
    ctx: SearchContext,
    conditions: Seq<Condition>,
    c: int,
    universe: Set<u32>,
)
    requires
        cache.wf(ctx, conditions),
        cache.cached(c),
    ensures
        cache.cached_set(c).intersect(universe) == condition_docids(ctx, conditions[c]).intersect(
            universe,
        ),
{
}

} // verus!
