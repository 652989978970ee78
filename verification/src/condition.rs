//! Edge conditions of the ranking-rule graph and their resolution to
//! document sets.
//!
//! The two graph-based ranking rules are a closed set, so a condition is a
//! tagged variant rather than a trait object: a proximity constraint between
//! two terms, or a typo-tolerance constraint on one term. The resolver is a
//! pure lookup into the per-query posting data of the search context,
//! restricted to the given universe.

use crate::docids::{bitmap_and, bitmap_as_set, bitmap_clone, bitmap_new};
use vstd::prelude::*;

verus! {

/// An atomic, rule-defined constraint a document must satisfy for a path
/// step to hold.
#[derive(Clone, Copy, PartialEq, Eq, Structural, Debug)]
pub enum Condition {
    /// Both terms occur within `gap` word positions of each other.
    Proximity { left_term: u16, right_term: u16, gap: u8 },
    /// The term matches a dictionary word within `n_typos` edits.
    Typo { term: u16, n_typos: u8 },
}

impl Condition {
    /// The rule-defined shape bounds: gaps range over 1..=8, typo counts
    /// over 0..=2.
    pub open spec fn well_formed(self) -> bool {
        match self {
            Condition::Proximity { gap, .. } => 1 <= gap <= 8,
            Condition::Typo { n_typos, .. } => n_typos <= 2,
        }
    }

    /// The traversal cost the rule assigns to an edge carrying this
    /// condition: `gap - 1` for proximity, the typo count for typo.
    pub open spec fn spec_cost(self) -> int {
        match self {
            Condition::Proximity { gap, .. } => gap - 1,
            Condition::Typo { n_typos, .. } => n_typos as int,
        }
    }

    pub fn cost(&self) -> (r: u8)
        requires
            self.well_formed(),
        ensures
            r == self.spec_cost(),
    {
        match self {
            Condition::Proximity { gap, .. } => *gap - 1,
            Condition::Typo { n_typos, .. } => *n_typos,
        }
    }

    /// The term handles this condition depends on.
    pub open spec fn spec_words_used(self) -> Seq<u16> {
        match self {
            Condition::Proximity { left_term, right_term, .. } => seq![left_term, right_term],
            Condition::Typo { term, .. } => seq![term],
        }
    }

    pub fn words_used(&self) -> (r: Vec<u16>)
        ensures
            r@ == self.spec_words_used(),
    {
        match self {
            Condition::Proximity { left_term, right_term, .. } => {
                let mut r: Vec<u16> = Vec::new();
                r.push(*left_term);
                r.push(*right_term);
                proof {
                    assert(r@ =~= self.spec_words_used());
                }
                r
            },
            Condition::Typo { term, .. } => {
                let mut r: Vec<u16> = Vec::new();
                r.push(*term);
                proof {
                    assert(r@ =~= self.spec_words_used());
                }
                r
            },
        }
    }

    /// The phrase handles this condition depends on; the two closed rules
    /// constrain single terms only.
    pub fn phrases_used(&self) -> (r: Vec<u16>)
        ensures
            r@.len() == 0,
    {
        Vec::new()
    }

    /// A human-readable name of the rule the condition belongs to.
    pub fn label(&self) -> (r: &'static str)
        ensures
            self matches Condition::Proximity { .. } ==> r@ == "proximity"@,
            self matches Condition::Typo { .. } ==> r@ == "typo"@,
    {
        match self {
            Condition::Proximity { .. } => "proximity",
            Condition::Typo { .. } => "typo",
        }
    }
}

/// One posting entry: documents where `left_term` and `right_term` occur
/// within `gap` positions.
pub struct PairProximityEntry {
    pub left_term: u16,
    pub right_term: u16,
    pub gap: u8,
    pub docids: roaring::RoaringBitmap,
}

/// One posting entry: documents containing a word within `n_typos` edits of
/// `term`.
pub struct TypoEntry {
    pub term: u16,
    pub n_typos: u8,
    pub docids: roaring::RoaringBitmap,
}

/// The per-query read-only posting data the resolver consults.
pub struct SearchContext {
    pub word_pair_proximity_docids: Vec<PairProximityEntry>,
    pub word_typo_docids: Vec<TypoEntry>,
}

/// First matching pair-proximity posting at or after index `i`.
pub open spec fn pair_lookup_from(
    entries: Seq<PairProximityEntry>,
    i: int,
    a: u16,
    b: u16,
    gap: u8,
) -> Set<u32>
    decreases entries.len() - i,
{
    if i < 0 || i >= entries.len() {
        Set::empty()
    } else if entries[i].left_term == a && entries[i].right_term == b && entries[i].gap == gap {
        bitmap_as_set(entries[i].docids)
    } else {
        pair_lookup_from(entries, i + 1, a, b, gap)
    }
}

/// First matching typo posting at or after index `i`.
pub open spec fn typo_lookup_from(entries: Seq<TypoEntry>, i: int, t: u16, n: u8) -> Set<u32>
    decreases entries.len() - i,
{
    if i < 0 || i >= entries.len() {
        Set::empty()
    } else if entries[i].term == t && entries[i].n_typos == n {
        bitmap_as_set(entries[i].docids)
    } else {
        typo_lookup_from(entries, i + 1, t, n)
    }
}

/// The full document set a condition stands for, before any universe
/// restriction.
pub open spec fn condition_docids(ctx: SearchContext, c: Condition) -> Set<u32> {
    match c {
        Condition::Proximity { left_term, right_term, gap } => pair_lookup_from(
            ctx.word_pair_proximity_docids@,
            0,
            left_term,
            right_term,
            gap,
        ),
        Condition::Typo { term, n_typos } => typo_lookup_from(
            ctx.word_typo_docids@,
            0,
            term,
            n_typos,
        ),
    }
}

/// Resolve a condition: exactly the documents of `universe` satisfying it.
/// The result is a pure function of the context, the condition and the
/// universe.
pub fn resolve_condition(
    ctx: &SearchContext,
    c: Condition,
    universe: &roaring::RoaringBitmap,
) -> (r: roaring::RoaringBitmap)
    ensures
        bitmap_as_set(r) == condition_docids(*ctx, c).intersect(bitmap_as_set(*universe)),
{
    match c {
        Condition::Proximity { left_term, right_term, gap } => {
            let entries = &ctx.word_pair_proximity_docids;
            let n = entries.len();
            let mut k: usize = 0;
            while k < n
                invariant
                    c == (Condition::Proximity { left_term, right_term, gap }),
                    entries@ == ctx.word_pair_proximity_docids@,
                    n == entries@.len(),
                    k <= n,
                    pair_lookup_from(entries@, 0, left_term, right_term, gap) == pair_lookup_from(
                        entries@,
                        k as int,
                        left_term,
                        right_term,
                        gap,
                    ),
                decreases n - k,
            {
                let e = &entries[k];
                if e.left_term == left_term && e.right_term == right_term && e.gap == gap {
                    proof {
                        assert(pair_lookup_from(entries@, k as int, left_term, right_term, gap)
                            == bitmap_as_set(entries@[k as int].docids));
                    }
                    return bitmap_and(&e.docids, universe);
                }
                k = k + 1;
            }
            let r = bitmap_new();
            proof {
                assert(bitmap_as_set(r).intersect(bitmap_as_set(*universe)) =~= Set::<
                    u32,
                >::empty());
                assert(bitmap_as_set(r) =~= condition_docids(*ctx, c).intersect(
                    bitmap_as_set(*universe),
                ));
            }
            r
        },
        Condition::Typo { term, n_typos } => {
            let entries = &ctx.word_typo_docids;
            let n = entries.len();
            let mut k: usize = 0;
            while k < n
                invariant
                    c == (Condition::Typo { term, n_typos }),
                    entries@ == ctx.word_typo_docids@,
                    n == entries@.len(),
                    k <= n,
                    typo_lookup_from(entries@, 0, term, n_typos) == typo_lookup_from(
                        entries@,
                        k as int,
                        term,
                        n_typos,
                    ),
                decreases n - k,
            {
                let e = &entries[k];
                if e.term == term && e.n_typos == n_typos {
                    proof {
                        assert(typo_lookup_from(entries@, k as int, term, n_typos)
                            == bitmap_as_set(entries@[k as int].docids));
                    }
                    return bitmap_and(&e.docids, universe);
                }
                k = k + 1;
            }
            let r = bitmap_new();
            proof {
                assert(bitmap_as_set(r).intersect(bitmap_as_set(*universe)) =~= Set::<
                    u32,
                >::empty());
                assert(bitmap_as_set(r) =~= condition_docids(*ctx, c).intersect(
                    bitmap_as_set(*universe),
                ));
            }
            r
        },
    }
}

/// Resolve a condition against the rule-defined original universe: the full
/// document set the condition stands for.
pub fn resolve_condition_uncapped(ctx: &SearchContext, c: Condition) -> (r: roaring::RoaringBitmap)
    ensures
        bitmap_as_set(r) == condition_docids(*ctx, c),
{
    match c {
        Condition::Proximity { left_term, right_term, gap } => {
            let entries = &ctx.word_pair_proximity_docids;
            let n = entries.len();
            let mut k: usize = 0;
            while k < n
                invariant
                    c == (Condition::Proximity { left_term, right_term, gap }),
                    entries@ == ctx.word_pair_proximity_docids@,
                    n == entries@.len(),
                    k <= n,
                    pair_lookup_from(entries@, 0, left_term, right_term, gap) == pair_lookup_from(
                        entries@,
                        k as int,
                        left_term,
                        right_term,
                        gap,
                    ),
                decreases n - k,
            {
                let e = &entries[k];
                if e.left_term == left_term && e.right_term == right_term && e.gap == gap {
                    proof {
                        assert(pair_lookup_from(entries@, k as int, left_term, right_term, gap)
                            == bitmap_as_set(entries@[k as int].docids));
                    }
                    return bitmap_clone(&e.docids);
                }
                k = k + 1;
            }
            bitmap_new()
        },
        Condition::Typo { term, n_typos } => {
            let entries = &ctx.word_typo_docids;
            let n = entries.len();
            let mut k: usize = 0;
            while k < n
                invariant
                    c == (Condition::Typo { term, n_typos }),
                    entries@ == ctx.word_typo_docids@,
                    n == entries@.len(),
                    k <= n,
                    typo_lookup_from(entries@, 0, term, n_typos) == typo_lookup_from(
                        entries@,
                        k as int,
                        term,
                        n_typos,
                    ),
                decreases n - k,
            {
                let e = &entries[k];
                if e.term == term && e.n_typos == n_typos {
                    proof {
                        assert(typo_lookup_from(entries@, k as int, term, n_typos)
                            == bitmap_as_set(entries@[k as int].docids));
                    }
                    return bitmap_clone(&e.docids);
                }
                k = k + 1;
            }
            bitmap_new()
        },
    }
}

/// Resolver purity: for one context, resolving the same condition under the
/// same universe twice yields identical document sets.
pub proof fn lemma_resolve_condition_pure(
    ctx: SearchContext,
    c: Condition,
    universe: Set<u32>,
    r1: Set<u32>,
    r2: Set<u32>,
)
    requires
        r1 == condition_docids(ctx, c).intersect(universe),
        r2 == condition_docids(ctx, c).intersect(universe),
    ensures
        r1 == r2,
{
}

} // verus!
