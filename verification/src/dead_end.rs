//! The dead-end path cache.
//!
//! Remembers sets of edge conditions whose joint presence in a path prefix
//! guarantees an empty document set under the current universe. Markers form
//! an antichain under set inclusion: inserting a marker drops it when an
//! existing one already covers it, and drops existing markers it covers.

use crate::small_bitmap::SmallBitmap;
use vstd::prelude::*;

verus! {

/// Every handle of `a` is also in `b`.
pub open spec fn contained_in(a: SmallBitmap, b: SmallBitmap) -> bool {
    a.subset_of(b)
}

/// A cache of dead-end markers over condition handles.
pub struct DeadEndPathCache {
    conditions: Vec<SmallBitmap>,
}

impl DeadEndPathCache {
    pub closed spec fn markers(self) -> Seq<SmallBitmap> {
        self.conditions@
    }

    /// All markers sized to the condition handle space.
    pub open spec fn wf(self, n_conditions: int) -> bool {
        forall|i: int|
            0 <= i < self.markers().len() ==> (#[trigger] self.markers()[i]).wf()
                && self.markers()[i].universe_len() == n_conditions
    }

    /// No marker is a subset of another: the antichain invariant.
    pub open spec fn is_antichain(self) -> bool {
        forall|i: int, j: int|
            0 <= i < self.markers().len() && 0 <= j < self.markers().len() && i != j
                ==> !contained_in(#[trigger] self.markers()[i], #[trigger] self.markers()[j])
    }

    /// Whether some marker is contained in `prefix`, i.e. the prefix is a
    /// known dead end.
    pub open spec fn forbids_spec(self, prefix: SmallBitmap) -> bool {
        exists|i: int| 0 <= i < self.markers().len() && contained_in(#[trigger] self.markers()[i], prefix)
    }

    pub fn new() -> (r: DeadEndPathCache)
        ensures
            r.markers().len() == 0,
            r.wf(0) && forall|n: int| r.wf(n),
            r.is_antichain(),
            forall|p: SmallBitmap| !r.forbids_spec(p),
    {
        DeadEndPathCache { conditions: Vec::new() }
    }

    /// Whether the condition set of a path prefix is a superset of any
    /// marker, in which case the prefix can be pruned.
    pub fn forbids(&self, prefix: &SmallBitmap, n_conditions: u16) -> (r: bool)
        requires
            self.wf(n_conditions as int),
            prefix.wf(),
            prefix.universe_len() == n_conditions,
        ensures
            r == self.forbids_spec(*prefix),
    {
        let n = self.conditions.len();
        let mut k: usize = 0;
        while k < n
            invariant
                self.wf(n_conditions as int),
                prefix.wf(),
                prefix.universe_len() == n_conditions,
                n == self.markers().len(),
                k <= n,
                forall|i: int| 0 <= i < k ==> !contained_in(#[trigger] self.markers()[i], *prefix),
            decreases n - k,
        {
            if self.conditions[k].is_subset(prefix) {
                return true;
            }
            k = k + 1;
        }
        false
    }

    /// Add a dead-end marker. A marker covered by an existing one is
    /// redundant and dropped; existing markers covering the new one are
    /// dropped. Afterwards the cache forbids exactly what it forbade before
    /// plus every superset of the new marker.
    #[verifier::rlimit(100)]
    #[verifier::spinoff_prover]
    pub fn insert(&mut self, marker: SmallBitmap, n_conditions: u16)
        requires
            old(self).wf(n_conditions as int),
            old(self).is_antichain(),
            marker.wf(),
            marker.universe_len() == n_conditions,
        ensures
            final(self).wf(n_conditions as int),
            final(self).is_antichain(),
            forall|p: SmallBitmap|
                #[trigger] final(self).forbids_spec(p) <==> (old(self).forbids_spec(p)
                    || contained_in(marker, p)),
    {
        let ghost orig = *self;
        let n = self.conditions.len();
        let mut k: usize = 0;
        while k < n
            invariant
                orig == *self,
                orig.wf(n_conditions as int),
                orig.is_antichain(),
                marker.wf(),
                marker.universe_len() == n_conditions,
                n == self.markers().len(),
                k <= n,
                forall|i: int| 0 <= i < k ==> !contained_in(#[trigger] self.markers()[i], marker),
            decreases n - k,
        {
            if self.conditions[k].is_subset(&marker) {
                proof {
                    assert(orig.forbids_spec(marker));
                    assert forall|p: SmallBitmap| #[trigger] self.forbids_spec(p) <==> (
                    orig.forbids_spec(p) || contained_in(marker, p)) by {
                        if contained_in(marker, p) {
                            assert(contained_in(orig.markers()[k as int], p));
                        }
                    }
                }
                return ;
            }
            k = k + 1;
        }
        // No existing marker is contained in the new one: keep the markers
        // it does not cover, then add it.
        let mut kept: Vec<SmallBitmap> = Vec::new();
        let ghost mut idxs: Seq<int> = Seq::empty();
        proof {
            assert(self.conditions@ =~= orig.markers().subrange(
                0,
                self.conditions@.len() as int,
            ));
        }
        let ghost mut rem: int = n as int;
        while self.conditions.len() > 0
            invariant
                rem == self.conditions@.len(),
                orig.wf(n_conditions as int),
                orig.is_antichain(),
                marker.wf(),
                marker.universe_len() == n_conditions,
                n == orig.markers().len(),
                self.conditions@.len() <= n,
                self.conditions@ =~= orig.markers().subrange(0, self.conditions@.len() as int),
                forall|i: int| 0 <= i < n ==> !contained_in(#[trigger] orig.markers()[i], marker),
                idxs.len() == kept@.len(),
                forall|a: int|
                    0 <= a < kept@.len() ==> rem <= #[trigger] idxs[a] < n && kept@[a]
                        == orig.markers()[idxs[a]] && !contained_in(marker, orig.markers()[idxs[a]]),
                forall|i: int|
                    rem <= i < n && !contained_in(marker, #[trigger] orig.markers()[i])
                        ==> exists|a: int| 0 <= a < kept@.len() && kept@[a] == orig.markers()[i],
                forall|a1: int, a2: int|
                    0 <= a1 < kept@.len() && 0 <= a2 < kept@.len() && a1 != a2
                        ==> #[trigger] kept@[a1] != #[trigger] kept@[a2],
            decreases self.conditions@.len(),
        {
            let ghost pre_len = self.conditions@.len() as int;
            let ghost pre_kept = kept@;
            proof {
                rem = rem - 1;
            }
            let bm = match self.conditions.pop() {
                Option::Some(bm) => bm,
                Option::None => {
                    proof {
                        assert(false);
                    }
                    marker.duplicate()
                },
            };
            proof {
                assert(self.conditions@ =~= orig.markers().subrange(0, pre_len - 1));
                assert(bm == orig.markers().subrange(0, pre_len)[pre_len - 1]);
                assert(bm == orig.markers()[pre_len - 1]);
                assert(bm.wf() && bm.universe_len() == n_conditions);
            }
            if !marker.is_subset(&bm) {
                kept.push(bm);
                proof {
                    idxs = idxs.push(pre_len - 1);
                    assert forall|a1: int, a2: int|
                        0 <= a1 < kept@.len() && 0 <= a2 < kept@.len() && a1 != a2 implies #[trigger] kept@[a1]
                        != #[trigger] kept@[a2] by {
                        if a1 == kept@.len() - 1 || a2 == kept@.len() - 1 {
                            let aold = if a1 == kept@.len() - 1 {
                                a2
                            } else {
                                a1
                            };
                            let i0 = idxs[aold];
                            assert(kept@[aold] == orig.markers()[i0] && pre_len <= i0 < n);
                            if kept@[aold] == bm {
                                assert(orig.markers()[i0] == orig.markers()[pre_len - 1]);
                                assert(contained_in(orig.markers()[i0], orig.markers()[pre_len
                                    - 1]));
                                assert(false);
                            }
                        }
                    }
                }
            }
            proof {
                let cur = rem;
                assert forall|i: int|
                    cur <= i < n && !contained_in(marker, #[trigger] orig.markers()[i]) implies exists|
                    a: int,
                | 0 <= a < kept@.len() && kept@[a] == orig.markers()[i] by {
                    if i >= pre_len {
                        let a0 = choose|a: int|
                            0 <= a < pre_kept.len() && pre_kept[a] == orig.markers()[i];
                        assert(kept@[a0] == orig.markers()[i]);
                    } else {
                        assert(i == pre_len - 1);
                        assert(kept@[kept@.len() - 1] == orig.markers()[i]);
                    }
                }
            }
        }
        let ghost base = kept@;
        kept.push(marker);
        self.conditions = kept;
        proof {
            let fm = self.markers();
            let last = base.len() as int;
            assert(fm =~= base.push(marker));
            assert(fm[last] == marker);
            assert forall|a: int| 0 <= a < fm.len() implies (#[trigger] fm[a]).wf()
                && fm[a].universe_len() == n_conditions as int by {
                if a < last {
                    assert(base[a] == orig.markers()[idxs[a]]);
                }
            }
            assert forall|a1: int, a2: int|
                0 <= a1 < fm.len() && 0 <= a2 < fm.len() && a1 != a2 implies !contained_in(
                #[trigger] fm[a1],
                #[trigger] fm[a2],
            ) by {
                if a1 == last {
                    let i0 = idxs[a2];
                    assert(fm[a2] == orig.markers()[i0] && !contained_in(
                        marker,
                        orig.markers()[i0],
                    ));
                } else if a2 == last {
                    let i0 = idxs[a1];
                    assert(fm[a1] == orig.markers()[i0]);
                    assert(!contained_in(orig.markers()[i0], marker));
                } else {
                    let i1 = idxs[a1];
                    let i2 = idxs[a2];
                    assert(fm[a1] == orig.markers()[i1] && fm[a2] == orig.markers()[i2]);
                    if i1 == i2 {
                        assert(base[a1] == base[a2]);
                        assert(false);
                    }
                }
            }
            assert forall|p: SmallBitmap| #[trigger] self.forbids_spec(p) <==> (
            orig.forbids_spec(p) || contained_in(marker, p)) by {
                if self.forbids_spec(p) {
                    let a0 = choose|a: int| 0 <= a < fm.len() && contained_in(#[trigger] fm[a], p);
                    if a0 == last {
                        assert(contained_in(marker, p));
                    } else {
                        let i0 = idxs[a0];
                        assert(fm[a0] == orig.markers()[i0]);
                        assert(contained_in(orig.markers()[i0], p));
                        assert(orig.forbids_spec(p));
                    }
                }
                if orig.forbids_spec(p) {
                    let i0 = choose|i: int|
                        0 <= i < n && contained_in(#[trigger] orig.markers()[i], p);
                    if contained_in(marker, orig.markers()[i0]) {
                        assert(contained_in(marker, p));
                        assert(contained_in(fm[last], p));
                        assert(self.forbids_spec(p));
                    } else {
                        let a0 = choose|a: int|
                            0 <= a < base.len() && base[a] == orig.markers()[i0];
                        assert(contained_in(fm[a0], p));
                        assert(self.forbids_spec(p));
                    }
                }
                if contained_in(marker, p) {
                    assert(contained_in(fm[last], p));
                    assert(self.forbids_spec(p));
                }
            }
        }
    }
}

} // verus!
