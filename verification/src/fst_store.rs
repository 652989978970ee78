//! Trusted boundary around the `fst` crate and UTF-8 validation.
//!
//! The prefix builder persists its prefix set as a minimised finite-state
//! acceptor in fst's serialisation. A set value is opaque; the names below
//! stand for its keys and its serialised bytes, which are functions of the
//! key lists alone, so byte-identical rebuilds can be proved.

use vstd::prelude::*;

verus! {

#[verifier::external_type_specification]
#[verifier::external_body]
#[verifier::reject_recursive_types(D)]
pub struct ExFstSet<D>(fst::Set<D>);

/// The keys an fst set holds, in the order its stream yields them.
pub uninterp spec fn fst_set_keys(s: fst::Set<Vec<u8>>) -> Seq<Seq<u8>>;

/// The serialised bytes backing an fst set.
pub uninterp spec fn fst_set_bytes(s: fst::Set<Vec<u8>>) -> Seq<u8>;

/// The serialised bytes of the set built from one strictly increasing key
/// list.
pub uninterp spec fn fst_build_bytes(keys: Seq<Seq<u8>>) -> Seq<u8>;

/// The serialised bytes of the union of the given key lists.
pub uninterp spec fn fst_union_bytes(keysets: Seq<Seq<Seq<u8>>>) -> Seq<u8>;

/// The keys of that union, in stream order.
pub uninterp spec fn fst_union_keys(keysets: Seq<Seq<Seq<u8>>>) -> Seq<Seq<u8>>;

/// Whether a byte string is valid UTF-8, as `core::str::from_utf8` decides
/// it.
pub uninterp spec fn is_utf8(bytes: Seq<u8>) -> bool;

pub open spec fn keys_view(keys: Vec<Vec<u8>>) -> Seq<Seq<u8>> {
    keys@.map_values(|k: Vec<u8>| k@)
}

/// Lexicographic strict order on byte strings, with the proper prefix
/// smaller.
pub open spec fn lex_lt(a: Seq<u8>, b: Seq<u8>) -> bool
    decreases a.len(),
{
    &&& b.len() > 0
    &&& (a.len() == 0 || a[0] < b[0] || (a[0] == b[0] && lex_lt(a.skip(1), b.skip(1))))
}

/// Lexicographically at most: strictly below or equal.
pub open spec fn lex_le(a: Seq<u8>, b: Seq<u8>) -> bool {
    lex_lt(a, b) || a == b
}

/// Each key strictly below the next.
pub open spec fn strictly_increasing(keys: Seq<Seq<u8>>) -> bool {
    forall|i: int| 0 <= i < keys.len() - 1 ==> lex_lt(#[trigger] keys[i], keys[i + 1])
}

/// The lexicographic order is transitive.
pub proof fn lemma_lex_lt_trans(a: Seq<u8>, b: Seq<u8>, c: Seq<u8>)
    requires
        lex_lt(a, b),
        lex_lt(b, c),
    ensures
        lex_lt(a, c),
    decreases b.len(),
{
    if a.len() > 0 && a[0] == b[0] && b[0] == c[0] {
        lemma_lex_lt_trans(a.skip(1), b.skip(1), c.skip(1));
    }
}

/// Strict sortedness gives pairwise order.
pub proof fn lemma_strictly_increasing_pairwise(keys: Seq<Seq<u8>>, i: int, j: int)
    requires
        strictly_increasing(keys),
        0 <= i < j < keys.len(),
    ensures
        lex_lt(keys[i], keys[j]),
    decreases j - i,
{
    if j == i + 1 {
    } else {
        lemma_strictly_increasing_pairwise(keys, i, j - 1);
        lemma_lex_lt_trans(keys[i], keys[j - 1], keys[j]);
    }
}

/// Taking equal-length prefixes preserves the order, weakly.
pub proof fn lemma_lex_prefix_mono(w1: Seq<u8>, w2: Seq<u8>, n: int)
    requires
        lex_lt(w1, w2),
        0 <= n <= w1.len(),
        n <= w2.len(),
    ensures
        lex_le(w1.subrange(0, n), w2.subrange(0, n)),
    decreases n,
{
    let p1 = w1.subrange(0, n);
    let p2 = w2.subrange(0, n);
    if n == 0 {
        assert(p1 =~= p2);
    } else {
        if w1.len() == 0 {
            assert(false);
        } else if w1[0] < w2[0] {
            assert(p1[0] < p2[0]);
            assert(lex_lt(p1, p2));
        } else {
            assert(w1[0] == w2[0] && lex_lt(w1.skip(1), w2.skip(1)));
            lemma_lex_prefix_mono(w1.skip(1), w2.skip(1), n - 1);
            let q1 = w1.skip(1).subrange(0, n - 1);
            let q2 = w2.skip(1).subrange(0, n - 1);
            assert(p1.skip(1) =~= q1);
            assert(p2.skip(1) =~= q2);
            if q1 == q2 {
                assert forall|k: int| 0 <= k < n implies p1[k] == p2[k] by {
                    if k > 0 {
                        assert(p1[k] == p1.skip(1)[k - 1]);
                        assert(p2[k] == p2.skip(1)[k - 1]);
                    }
                }
                assert(p1 =~= p2);
            } else {
                assert(lex_lt(q1, q2));
                assert(p1[0] == p2[0]);
                assert(lex_lt(p1, p2));
            }
        }
    }
}

/// Relies on fst::Set::from_iter: building from a strictly increasing key
/// list succeeds (a set builder accepts any non-decreasing keys and the
/// in-memory writer cannot fail), holds exactly those keys, and its bytes
/// depend on the keys alone. The strict order is required because fst
/// collapses a repeated key into one, so only distinct keys round-trip.
#[verifier::external_body]
pub fn fst_from_sorted(keys: &Vec<Vec<u8>>) -> (r: Result<fst::Set<Vec<u8>>, ()>)
    requires
        strictly_increasing(keys_view(*keys)),
    ensures
        r is Ok,
        r matches Ok(s) ==> {
            &&& fst_set_keys(s) == keys_view(*keys)
            &&& fst_set_bytes(s) == fst_build_bytes(keys_view(*keys))
        },
{
    fst::Set::from_iter(keys.iter()).map_err(|_| ())
}

/// Relies on fst::set::OpBuilder: the union always succeeds (its merged
/// stream is strictly increasing and it writes into memory) and holds
/// exactly the keys occurring in some input, in strictly increasing order;
/// keys and bytes depend on the input key lists alone.
#[verifier::external_body]
pub fn fst_union(sets: &Vec<fst::Set<Vec<u8>>>) -> (r: Result<fst::Set<Vec<u8>>, ()>)
    ensures
        r is Ok,
        r matches Ok(u) ==> {
            &&& fst_set_keys(u) == fst_union_keys(sets@.map_values(|s| fst_set_keys(s)))
            &&& fst_set_bytes(u) == fst_union_bytes(sets@.map_values(|s| fst_set_keys(s)))
            &&& strictly_increasing(fst_set_keys(u))
            &&& forall|k: Seq<u8>|
                fst_set_keys(u).contains(k) <==> exists|i: int|
                    0 <= i < sets@.len() && (#[trigger] fst_set_keys(sets@[i])).contains(k)
        },
{
    let op = sets.iter().collect::<fst::set::OpBuilder>();
    let mut b = fst::SetBuilder::memory();
    match b.extend_stream(op.union()) {
        Ok(()) => Ok(b.into_set()),
        Err(_) => Err(()),
    }
}

/// Relies on fst::set::Stream::into_bytes and fst::raw::Fst::into_inner:
/// hands out the set's keys and its serialised bytes.
#[verifier::external_body]
pub fn fst_into_parts(s: fst::Set<Vec<u8>>) -> (r: (Vec<u8>, Vec<Vec<u8>>))
    ensures
        r.0@ == fst_set_bytes(s),
        r.1@.map_values(|k: Vec<u8>| k@) == fst_set_keys(s),
{
    let keys = s.stream().into_bytes();
    (s.into_fst().into_inner(), keys)
}

/// Relies on core::str::from_utf8: returns whether the bytes are valid
/// UTF-8.
#[verifier::external_body]
pub fn check_utf8(bytes: &Vec<u8>) -> (r: bool)
    ensures
        r == is_utf8(bytes@),
{
    core::str::from_utf8(bytes).is_ok()
}

} // verus!
