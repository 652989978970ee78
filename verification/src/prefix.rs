//! The prefix-dictionary builder.
//!
//! Scans a sorted dictionary of indexed words and derives the set of
//! popular prefixes per length, the final prefix set, and the
//! prefix-to-document-ids projection. The computation here is exact: each
//! result is pinned to a specification function of the inputs, which is
//! what byte-identical rebuilds rest on. Reading the dictionary from the
//! index store and writing the results back are the caller's I/O.

use crate::docids::{bitmap_as_set, bitmap_new, bitmap_or_assign};
use crate::fst_store::{
    check_utf8, fst_from_sorted, fst_into_parts, fst_set_keys, fst_union, fst_union_bytes,
    fst_union_keys, is_utf8, keys_view, lemma_lex_lt_trans, lemma_lex_prefix_mono,
    lemma_strictly_increasing_pairwise, lex_le, lex_lt, strictly_increasing,
};
use vstd::prelude::*;

verus! {

/// The abstract error kinds of the engine.
#[derive(Clone, Copy, PartialEq, Eq, Structural, Debug)]
pub enum EngineError {
    /// Store, temp file or sorter failure.
    Io,
    /// Bytes are not valid UTF-8 where text is required.
    Encoding,
    /// A handle resolved to no value or an edge referenced a dead node.
    Corruption,
    /// Cooperative cancellation was observed.
    Cancelled,
}

/// Whether byte offset `n` of a valid UTF-8 string is a character boundary:
/// its end, or a byte that does not continue a multi-byte character.
pub open spec fn boundary_at(w: Seq<u8>, n: int) -> bool {
    n == w.len() || (n < w.len() && (w[n] & 0xC0) != 0x80)
}

/// The first `n` bytes of `w`, if that cut lies on a character boundary.
pub open spec fn byte_prefix_at(w: Seq<u8>, n: int) -> Option<Seq<u8>> {
    if 0 <= n <= w.len() && boundary_at(w, n) {
        Option::Some(w.subrange(0, n))
    } else {
        Option::None
    }
}

/// The prefixes of length `n` still to be emitted by the scan from word
/// `i` on, with `cp` the current run's prefix and `cnt` its count so far.
/// A prefix is emitted when its run count first reaches `min`; a word with
/// no valid boundary at `n` is skipped without ending the run.
pub open spec fn scan_emit(
    words: Seq<Seq<u8>>,
    n: int,
    min: int,
    i: int,
    cp: Seq<u8>,
    cnt: int,
) -> Seq<Seq<u8>>
    decreases words.len() - i,
{
    if i < 0 || i >= words.len() {
        Seq::empty()
    } else {
        match byte_prefix_at(words[i], n) {
            Option::None => scan_emit(words, n, min, i + 1, cp, cnt),
            Option::Some(p) => {
                let cp2 = if cnt == 0 || p != cp {
                    p
                } else {
                    cp
                };
                let cnt2 = if cnt == 0 || p != cp {
                    1int
                } else {
                    cnt + 1
                };
                if cnt2 == min {
                    seq![p] + scan_emit(words, n, min, i + 1, cp2, cnt2)
                } else {
                    scan_emit(words, n, min, i + 1, cp2, cnt2)
                }
            },
        }
    }
}

/// On a sorted dictionary the scan's emissions are strictly increasing:
/// runs of one prefix are contiguous, each run is emitted at most once, and
/// later runs carry strictly larger prefixes.
pub proof fn lemma_scan_sorted(
    words: Seq<Seq<u8>>,
    n: int,
    min: int,
    i: int,
    cp: Seq<u8>,
    cnt: int,
)
    requires
        strictly_increasing(words),
        0 <= i,
        min >= 1,
        cnt > 0 ==> forall|k: int|
            i <= k < words.len() && byte_prefix_at(#[trigger] words[k], n) is Some ==> lex_le(
                cp,
                byte_prefix_at(words[k], n)->0,
            ),
    ensures
        strictly_increasing(scan_emit(words, n, min, i, cp, cnt)),
        cnt > 0 ==> forall|e: int|
            0 <= e < scan_emit(words, n, min, i, cp, cnt).len() ==> lex_le(
                cp,
                #[trigger] scan_emit(words, n, min, i, cp, cnt)[e],
            ),
        cnt >= min ==> forall|e: int|
            0 <= e < scan_emit(words, n, min, i, cp, cnt).len() ==> lex_lt(
                cp,
                #[trigger] scan_emit(words, n, min, i, cp, cnt)[e],
            ),
    decreases words.len() - i,
{
    let emitted = scan_emit(words, n, min, i, cp, cnt);
    if i >= words.len() {
        assert(emitted.len() == 0);
    } else {
        match byte_prefix_at(words[i], n) {
            Option::None => {
                lemma_scan_sorted(words, n, min, i + 1, cp, cnt);
            },
            Option::Some(p) => {
                assert forall|k: int|
                    i + 1 <= k < words.len() && byte_prefix_at(#[trigger] words[k], n)
                        is Some implies lex_le(p, byte_prefix_at(words[k], n)->0) by {
                    lemma_strictly_increasing_pairwise(words, i, k);
                    lemma_lex_prefix_mono(words[i], words[k], n);
                }
                if cnt == 0 || p != cp {
                    let rest = scan_emit(words, n, min, i + 1, p, 1);
                    lemma_scan_sorted(words, n, min, i + 1, p, 1);
                    if cnt > 0 {
                        assert(lex_le(cp, p));
                        assert(p != cp);
                        assert(lex_lt(cp, p));
                    }
                    if 1 == min {
                        assert(emitted =~= seq![p] + rest);
                        assert forall|e: int|
                            0 <= e < emitted.len() - 1 implies lex_lt(
                            #[trigger] emitted[e],
                            emitted[e + 1],
                        ) by {
                            if e == 0 {
                                assert(emitted[0] == p && emitted[1] == rest[0]);
                                assert(lex_lt(p, rest[0]));
                            } else {
                                assert(emitted[e] == rest[e - 1] && emitted[e + 1] == rest[e]);
                            }
                        }
                        if cnt > 0 {
                            assert forall|e: int| 0 <= e < emitted.len() implies lex_le(
                                cp,
                                #[trigger] emitted[e],
                            ) && lex_lt(cp, emitted[e]) by {
                                if e == 0 {
                                    assert(emitted[e] == p);
                                } else {
                                    assert(emitted[e] == rest[e - 1]);
                                    assert(lex_lt(p, rest[e - 1]));
                                    lemma_lex_lt_trans(cp, p, rest[e - 1]);
                                }
                            }
                        }
                    } else {
                        assert(emitted == rest);
                        if cnt > 0 {
                            assert forall|e: int| 0 <= e < emitted.len() implies lex_le(
                                cp,
                                #[trigger] emitted[e],
                            ) && lex_lt(cp, emitted[e]) by {
                                assert(lex_le(p, rest[e]));
                                if p == rest[e] {
                                    assert(lex_lt(cp, emitted[e]));
                                } else {
                                    lemma_lex_lt_trans(cp, p, rest[e]);
                                }
                            }
                        }
                    }
                } else {
                    // the current word continues the run of `cp`
                    let rest = scan_emit(words, n, min, i + 1, cp, cnt + 1);
                    lemma_scan_sorted(words, n, min, i + 1, cp, cnt + 1);
                    if cnt + 1 == min {
                        assert(emitted =~= seq![cp] + rest);
                        assert forall|e: int|
                            0 <= e < emitted.len() - 1 implies lex_lt(
                            #[trigger] emitted[e],
                            emitted[e + 1],
                        ) by {
                            if e == 0 {
                                assert(emitted[0] == cp && emitted[1] == rest[0]);
                                assert(lex_lt(cp, rest[0]));
                            } else {
                                assert(emitted[e] == rest[e - 1] && emitted[e + 1] == rest[e]);
                            }
                        }
                        assert forall|e: int| 0 <= e < emitted.len() implies lex_le(
                            cp,
                            #[trigger] emitted[e],
                        ) by {
                            if e > 0 {
                                assert(emitted[e] == rest[e - 1]);
                                assert(lex_lt(cp, rest[e - 1]));
                            }
                        }
                        assert(cnt < min);
                    } else {
                        assert(emitted == rest);
                    }
                }
            },
        }
    }
}

/// With a zero threshold the scan emits nothing: a run's count reaches
/// zero at no point after its first word.
pub proof fn lemma_scan_zero_min(words: Seq<Seq<u8>>, n: int, min: int, i: int, cp: Seq<u8>, cnt: int)
    requires
        min <= 0,
        cnt >= 0,
    ensures
        scan_emit(words, n, min, i, cp, cnt).len() == 0,
    decreases words.len() - i,
{
    if 0 <= i < words.len() {
        match byte_prefix_at(words[i], n) {
            Option::None => {
                lemma_scan_zero_min(words, n, min, i + 1, cp, cnt);
            },
            Option::Some(p) => {
                if cnt == 0 || p != cp {
                    lemma_scan_zero_min(words, n, min, i + 1, p, 1);
                } else {
                    lemma_scan_zero_min(words, n, min, i + 1, cp, cnt + 1);
                }
            },
        }
    }
}

/// How many words from index `i` on have `p` as their boundary prefix of
/// length `n`.
pub open spec fn prefix_count_from(words: Seq<Seq<u8>>, n: int, p: Seq<u8>, i: int) -> int
    decreases words.len() - i,
{
    if i < 0 || i >= words.len() {
        0
    } else {
        (if byte_prefix_at(words[i], n) == Option::Some(p) {
            1int
        } else {
            0int
        }) + prefix_count_from(words, n, p, i + 1)
    }
}

/// Counts are never negative.
proof fn lemma_prefix_count_nonneg(words: Seq<Seq<u8>>, n: int, p: Seq<u8>, i: int)
    ensures
        prefix_count_from(words, n, p, i) >= 0,
    decreases words.len() - i,
{
    if 0 <= i < words.len() {
        lemma_prefix_count_nonneg(words, n, p, i + 1);
    }
}

/// The order is irreflexive.
proof fn lemma_lex_lt_irrefl(a: Seq<u8>)
    ensures
        !lex_lt(a, a),
    decreases a.len(),
{
    if a.len() > 0 {
        lemma_lex_lt_irrefl(a.skip(1));
    }
}

/// A positive count names a witness.
proof fn lemma_prefix_count_pos(words: Seq<Seq<u8>>, n: int, p: Seq<u8>, i: int)
    requires
        prefix_count_from(words, n, p, i) > 0,
        0 <= i,
    ensures
        exists|k: int|
            i <= k < words.len() && byte_prefix_at(#[trigger] words[k], n) == Option::Some(p),
    decreases words.len() - i,
{
    if byte_prefix_at(words[i], n) == Option::Some(p) {
        assert(i <= i < words.len() && byte_prefix_at(words[i], n) == Option::Some(p));
    } else {
        lemma_prefix_count_pos(words, n, p, i + 1);
    }
}

/// The scan emits exactly the prefixes whose run reaches the threshold: on
/// a sorted dictionary, a prefix is emitted from a fresh or dominated state
/// if and only if enough of the remaining words carry it; a run in progress
/// completes when its past and future counts add up.
proof fn lemma_scan_count(words: Seq<Seq<u8>>, n: int, min: int, i: int, cp: Seq<u8>, cnt: int)
    requires
        strictly_increasing(words),
        0 <= i,
        0 <= cnt,
        1 <= min,
        cnt > 0 ==> forall|k: int|
            i <= k < words.len() && byte_prefix_at(#[trigger] words[k], n) is Some ==> lex_le(
                cp,
                byte_prefix_at(words[k], n)->0,
            ),
    ensures
        forall|q: Seq<u8>|
            #[trigger] scan_emit(words, n, min, i, cp, cnt).contains(q) ==> (if q == cp && cnt > 0 {
                cnt + prefix_count_from(words, n, q, i) >= min
            } else {
                prefix_count_from(words, n, q, i) >= min
            }),
        forall|q: Seq<u8>|
            q == cp && 0 < cnt < min && cnt + #[trigger] prefix_count_from(words, n, q, i) >= min
                ==> scan_emit(words, n, min, i, cp, cnt).contains(q),
        forall|q: Seq<u8>|
            (cnt == 0 || lex_lt(cp, q)) && #[trigger] prefix_count_from(words, n, q, i) >= min
                ==> scan_emit(words, n, min, i, cp, cnt).contains(q),
    decreases words.len() - i,
{
    let emitted = scan_emit(words, n, min, i, cp, cnt);
    if i >= words.len() {
        assert forall|q: Seq<u8>| !(#[trigger] emitted.contains(q)) by {
            assert(emitted.len() == 0);
        }
    } else {
        match byte_prefix_at(words[i], n) {
            Option::None => {
                lemma_scan_count(words, n, min, i + 1, cp, cnt);
                assert forall|q: Seq<u8>| #[trigger] prefix_count_from(words, n, q, i)
                    == prefix_count_from(words, n, q, i + 1) by {
                    assert(byte_prefix_at(words[i], n) != Option::Some(q));
                }
                assert forall|q: Seq<u8>| #[trigger] emitted.contains(q) implies (if q == cp && cnt
                    > 0 {
                    cnt + prefix_count_from(words, n, q, i) >= min
                } else {
                    prefix_count_from(words, n, q, i) >= min
                }) by {
                    assert(scan_emit(words, n, min, i + 1, cp, cnt).contains(q));
                    assert(prefix_count_from(words, n, q, i) == prefix_count_from(
                        words,
                        n,
                        q,
                        i + 1,
                    ));
                }
            },
            Option::Some(p) => {
                assert forall|k: int|
                    i + 1 <= k < words.len() && byte_prefix_at(#[trigger] words[k], n)
                        is Some implies lex_le(p, byte_prefix_at(words[k], n)->0) by {
                    lemma_strictly_increasing_pairwise(words, i, k);
                    lemma_lex_prefix_mono(words[i], words[k], n);
                }
                if cnt == 0 || p != cp {
                    let rest = scan_emit(words, n, min, i + 1, p, 1);
                    lemma_scan_count(words, n, min, i + 1, p, 1);
                    lemma_scan_sorted(words, n, min, i + 1, p, 1);
                    if cnt > 0 {
                        assert(lex_le(cp, p) && p != cp);
                        assert(lex_lt(cp, p));
                    }
                    // soundness of every emission
                    assert forall|q: Seq<u8>| #[trigger] emitted.contains(q) implies (if q == cp
                        && cnt > 0 {
                        cnt + prefix_count_from(words, n, q, i) >= min
                    } else {
                        prefix_count_from(words, n, q, i) >= min
                    }) by {
                        lemma_lex_lt_irrefl(cp);
                        if q == cp && cnt > 0 {
                            // the old run cannot be emitted any more
                            if 1 == min && emitted[0] == q {
                                assert(q == p);
                                assert(false);
                            } else {
                                let e0 = choose|e: int| 0 <= e < emitted.len() && emitted[e] == q;
                                if 1 == min {
                                    assert(emitted[e0] == rest[e0 - 1]);
                                    assert(lex_le(p, rest[e0 - 1]));
                                } else {
                                    assert(emitted[e0] == rest[e0]);
                                    assert(lex_le(p, rest[e0]));
                                }
                                lemma_lex_lt_irrefl(cp);
                                if p == q {
                                    assert(false);
                                } else {
                                    assert(lex_lt(p, q));
                                    lemma_lex_lt_trans(cp, p, q);
                                    assert(lex_lt(cp, q));
                                    assert(false);
                                }
                            }
                        } else {
                            if q == p {
                                lemma_prefix_count_nonneg(words, n, q, i + 1);
                                if 1 == min {
                                    assert(prefix_count_from(words, n, q, i) >= 1);
                                } else {
                                    assert(rest.contains(q));
                                    assert(1 + prefix_count_from(words, n, q, i + 1) >= min);
                                    assert(prefix_count_from(words, n, q, i) == 1
                                        + prefix_count_from(words, n, q, i + 1));
                                }
                            } else {
                                assert(rest.contains(q)) by {
                                    if 1 == min {
                                        let e0 = choose|e: int|
                                            0 <= e < emitted.len() && emitted[e] == q;
                                        assert(e0 != 0);
                                        assert(emitted[e0] == rest[e0 - 1]);
                                        assert(rest[e0 - 1] == q);
                                    }
                                }
                                assert(prefix_count_from(words, n, q, i + 1) >= min);
                                assert(byte_prefix_at(words[i], n) != Option::Some(q));
                                assert(prefix_count_from(words, n, q, i) == prefix_count_from(
                                    words,
                                    n,
                                    q,
                                    i + 1,
                                ));
                            }
                        }
                    }
                    // completeness: a run in progress for the old prefix is
                    // impossible here
                    assert forall|q: Seq<u8>|
                        q == cp && 0 < cnt < min && cnt + #[trigger] prefix_count_from(
                            words,
                            n,
                            q,
                            i,
                        ) >= min implies emitted.contains(q) by {
                        assert(prefix_count_from(words, n, cp, i) >= 1);
                        lemma_prefix_count_pos(words, n, cp, i);
                        let k0 = choose|k: int|
                            i <= k < words.len() && byte_prefix_at(#[trigger] words[k], n)
                                == Option::Some(cp);
                        assert(k0 != i);
                        lemma_strictly_increasing_pairwise(words, i, k0);
                        lemma_lex_prefix_mono(words[i], words[k0], n);
                        assert(lex_le(p, cp));
                        assert(lex_lt(cp, p));
                        lemma_lex_lt_irrefl(cp);
                        if p == cp {
                            assert(false);
                        } else {
                            assert(lex_lt(p, cp));
                            lemma_lex_lt_trans(cp, p, cp);
                            assert(false);
                        }
                    }
                    // completeness for fresh prefixes
                    assert forall|q: Seq<u8>|
                        (cnt == 0 || lex_lt(cp, q)) && #[trigger] prefix_count_from(
                            words,
                            n,
                            q,
                            i,
                        ) >= min implies emitted.contains(q) by {
                        if q == p {
                            if 1 == min {
                                assert(emitted[0] == q);
                            } else {
                                assert(prefix_count_from(words, n, q, i + 1) >= min - 1);
                                assert(1 + prefix_count_from(words, n, q, i + 1) >= min);
                                assert(rest.contains(q));
                                if 1 == min {
                                } else {
                                    assert(emitted == rest);
                                }
                            }
                        } else {
                            assert(prefix_count_from(words, n, q, i + 1) == prefix_count_from(
                                words,
                                n,
                                q,
                                i,
                            ));
                            lemma_prefix_count_pos(words, n, q, i + 1);
                            let k0 = choose|k: int|
                                i + 1 <= k < words.len() && byte_prefix_at(#[trigger] words[k], n)
                                    == Option::Some(q);
                            assert(lex_le(p, q));
                            assert(lex_lt(p, q));
                            assert(rest.contains(q));
                            if 1 == min {
                                let e0 = choose|e: int| 0 <= e < rest.len() && rest[e] == q;
                                assert(emitted[e0 + 1] == q);
                                assert(emitted.contains(q));
                            }
                        }
                    }
                } else {
                    // the current word continues the run of `cp`
                    let rest = scan_emit(words, n, min, i + 1, cp, cnt + 1);
                    lemma_scan_count(words, n, min, i + 1, cp, cnt + 1);
                    lemma_scan_sorted(words, n, min, i + 1, cp, cnt + 1);
                    assert forall|q: Seq<u8>| #[trigger] emitted.contains(q) implies (if q == cp
                        && cnt > 0 {
                        cnt + prefix_count_from(words, n, q, i) >= min
                    } else {
                        prefix_count_from(words, n, q, i) >= min
                    }) by {
                        if q == cp {
                            lemma_prefix_count_nonneg(words, n, q, i + 1);
                            assert(prefix_count_from(words, n, q, i) == 1 + prefix_count_from(
                                words,
                                n,
                                q,
                                i + 1,
                            ));
                            if cnt + 1 == min && emitted[0] == q {
                                assert(cnt + prefix_count_from(words, n, q, i) >= min);
                            } else {
                                assert(rest.contains(q)) by {
                                    let e0 = choose|e: int|
                                        0 <= e < emitted.len() && emitted[e] == q;
                                    if cnt + 1 == min {
                                        assert(e0 != 0);
                                        assert(emitted[e0] == rest[e0 - 1]);
                                    }
                                }
                                assert((cnt + 1) + prefix_count_from(words, n, q, i + 1) >= min);
                            }
                        } else {
                            assert(rest.contains(q)) by {
                                let e0 = choose|e: int| 0 <= e < emitted.len() && emitted[e] == q;
                                if cnt + 1 == min {
                                    assert(e0 != 0);
                                    assert(emitted[e0] == rest[e0 - 1]);
                                }
                            }
                            assert(prefix_count_from(words, n, q, i + 1) >= min);
                            assert(prefix_count_from(words, n, q, i) == prefix_count_from(
                                words,
                                n,
                                q,
                                i + 1,
                            ));
                        }
                    }
                    assert forall|q: Seq<u8>|
                        q == cp && 0 < cnt < min && cnt + #[trigger] prefix_count_from(
                            words,
                            n,
                            q,
                            i,
                        ) >= min implies emitted.contains(q) by {
                        if cnt + 1 == min {
                            assert(emitted[0] == cp);
                        } else {
                            assert(cnt + 1 < min);
                            assert((cnt + 1) + prefix_count_from(words, n, q, i + 1) >= min);
                            assert(rest.contains(q));
                            assert(emitted == rest);
                        }
                    }
                    assert forall|q: Seq<u8>|
                        (cnt == 0 || lex_lt(cp, q)) && #[trigger] prefix_count_from(
                            words,
                            n,
                            q,
                            i,
                        ) >= min implies emitted.contains(q) by {
                        assert(cnt > 0 && lex_lt(cp, q));
                        lemma_lex_lt_irrefl(cp);
                        assert(q != cp);
                        assert(prefix_count_from(words, n, q, i) == prefix_count_from(
                            words,
                            n,
                            q,
                            i + 1,
                        ));
                        assert(rest.contains(q));
                        if cnt + 1 == min {
                            let e0 = choose|e: int| 0 <= e < rest.len() && rest[e] == q;
                            assert(emitted[e0 + 1] == q);
                        }
                    }
                }
            },
        }
    }
}

/// Threshold exactness over one prefix length: on a sorted dictionary with
/// a threshold of at least one, a prefix is emitted exactly when at least
/// `min` words carry it at a character boundary.
pub proof fn lemma_prefix_threshold(words: Seq<Seq<u8>>, n: int, min: int)
    requires
        strictly_increasing(words),
        1 <= min,
    ensures
        forall|q: Seq<u8>|
            #[trigger] prefixes_of_length_spec(words, n, min).contains(q) <==> prefix_count_from(
                words,
                n,
                q,
                0,
            ) >= min,
{
    lemma_scan_count(words, n, min, 0, Seq::empty(), 0);
}

/// The emitted prefixes of length `n` over the whole dictionary.
pub open spec fn prefixes_of_length_spec(words: Seq<Seq<u8>>, n: int, min: int) -> Seq<Seq<u8>> {
    scan_emit(words, n, min, 0, Seq::empty(), 0)
}

/// Whether `w` starts with the byte string `p`.
pub open spec fn starts_with(w: Seq<u8>, p: Seq<u8>) -> bool {
    w.len() >= p.len() && w.subrange(0, p.len() as int) == p
}

/// The union of the document sets of all words starting with `p`, from
/// word `i` on.
pub open spec fn prefix_docids_from(
    words: Seq<Seq<u8>>,
    docs: Seq<Set<u32>>,
    p: Seq<u8>,
    i: int,
) -> Set<u32>
    decreases words.len() - i,
{
    if i < 0 || i >= words.len() {
        Set::empty()
    } else if starts_with(words[i], p) {
        docs[i].union(prefix_docids_from(words, docs, p, i + 1))
    } else {
        prefix_docids_from(words, docs, p, i + 1)
    }
}

/// `floor(len * num / den)`: the number of words a prefix must reach.
pub open spec fn min_count_spec(len: int, num: int, den: int) -> int {
    len * num / den
}

/// Compare two byte vectors for equality.
fn bytes_eq(a: &Vec<u8>, b: &Vec<u8>) -> (r: bool)
    ensures
        r == (a@ == b@),
{
    if a.len() != b.len() {
        proof {
            assert(a@.len() != b@.len());
        }
        return false;
    }
    let n = a.len();
    let mut i: usize = 0;
    while i < n
        invariant
            n == a@.len(),
            n == b@.len(),
            i <= n,
            forall|j: int| 0 <= j < i ==> a@[j] == b@[j],
        decreases n - i,
    {
        if a[i] != b[i] {
            return false;
        }
        i = i + 1;
    }
    proof {
        assert(a@ =~= b@);
    }
    true
}

/// Whether `w` starts with `p`, byte-wise.
fn starts_with_exec(w: &Vec<u8>, p: &Vec<u8>) -> (r: bool)
    ensures
        r == starts_with(w@, p@),
{
    if w.len() < p.len() {
        return false;
    }
    let n = p.len();
    let mut i: usize = 0;
    while i < n
        invariant
            n == p@.len(),
            n <= w@.len(),
            i <= n,
            forall|j: int| 0 <= j < i ==> w@[j] == p@[j],
        decreases n - i,
    {
        if w[i] != p[i] {
            proof {
                assert(w@.subrange(0, n as int)[i as int] != p@[i as int]);
            }
            return false;
        }
        i = i + 1;
    }
    proof {
        assert(w@.subrange(0, n as int) =~= p@);
    }
    true
}

/// The first `n` bytes of `word` if that is a valid character boundary.
fn prefix_of(word: &Vec<u8>, n: usize) -> (r: Option<Vec<u8>>)
    ensures
        r matches Some(p) ==> byte_prefix_at(word@, n as int) == Option::Some(p@),
        r is None ==> byte_prefix_at(word@, n as int) is None,
{
    if n > word.len() {
        return Option::None;
    }
    if n < word.len() && (word[n] & 0xC0) == 0x80 {
        return Option::None;
    }
    let mut p: Vec<u8> = Vec::new();
    let mut i: usize = 0;
    while i < n
        invariant
            n <= word@.len(),
            i <= n,
            p@ =~= word@.subrange(0, i as int),
        decreases n - i,
    {
        p.push(word[i]);
        i = i + 1;
    }
    proof {
        assert(p@ =~= word@.subrange(0, n as int));
    }
    Option::Some(p)
}

/// Scan the dictionary once for prefixes of length `n`, emitting each
/// prefix whose run count first reaches `min_count`.
pub fn prefixes_of_length(words: &Vec<Vec<u8>>, n: usize, min_count: usize) -> (r: Vec<Vec<u8>>)
    ensures
        keys_view(r) == prefixes_of_length_spec(
            words@.map_values(|w: Vec<u8>| w@),
            n as int,
            min_count as int,
        ),
{
    let ghost wv = words@.map_values(|w: Vec<u8>| w@);
    let mut out: Vec<Vec<u8>> = Vec::new();
    let mut current_prefix: Vec<u8> = Vec::new();
    let mut current_count: usize = 0;
    let len = words.len();
    let mut i: usize = 0;
    while i < len
        invariant
            wv == words@.map_values(|w: Vec<u8>| w@),
            len == words@.len(),
            i <= len,
            prefixes_of_length_spec(wv, n as int, min_count as int) =~= keys_view(out)
                + scan_emit(wv, n as int, min_count as int, i as int, current_prefix@, current_count as int),
            current_count <= i,
        decreases len - i,
    {
        let ghost pre_out = out@;
        match prefix_of(&words[i], n) {
            Option::None => {},
            Option::Some(p) => {
                let is_new = current_count == 0 || !bytes_eq(&p, &current_prefix);
                if is_new {
                    current_prefix = p;
                    current_count = 1;
                } else {
                    current_count = current_count + 1;
                }
                if current_count == min_count {
                    let mut copy: Vec<u8> = Vec::new();
                    let mut k: usize = 0;
                    let m = current_prefix.len();
                    while k < m
                        invariant
                            m == current_prefix@.len(),
                            k <= m,
                            copy@ =~= current_prefix@.subrange(0, k as int),
                        decreases m - k,
                    {
                        copy.push(current_prefix[k]);
                        k = k + 1;
                    }
                    proof {
                        assert(copy@ =~= current_prefix@);
                    }
                    out.push(copy);
                }
            },
        }
        i = i + 1;
        proof {
            assert(keys_view(out) =~= pre_out.map_values(|k: Vec<u8>| k@) + keys_view(out).skip(
                pre_out.len() as int,
            ));
            assert(wv[i - 1] == words@[i - 1]@);
            assert(prefixes_of_length_spec(wv, n as int, min_count as int) =~= keys_view(out)
                + scan_emit(
                wv,
                n as int,
                min_count as int,
                i as int,
                current_prefix@,
                current_count as int,
            ));
        }
    }
    out
}

/// The builder's outputs: the serialised prefix set and the
/// prefix-to-document-ids pairs, in prefix stream order.
pub struct PrefixData {
    pub prefix_fst_bytes: Vec<u8>,
    pub word_prefix_docids: Vec<(Vec<u8>, roaring::RoaringBitmap)>,
}

/// The prefix-dictionary builder: a threshold ratio (clamped to `[0, 1]`),
/// a maximum prefix length in bytes (clamped to `[1, 25]`), and defaults of
/// one percent and four bytes.
pub struct WordsPrefixes {
    threshold_num: u64,
    threshold_den: u64,
    max_prefix_length: usize,
}

impl WordsPrefixes {
    pub closed spec fn threshold_parts(self) -> (int, int) {
        (self.threshold_num as int, self.threshold_den as int)
    }

    pub closed spec fn max_len(self) -> int {
        self.max_prefix_length as int
    }

    pub open spec fn wf(self) -> bool {
        &&& 0 < self.threshold_parts().1
        &&& 0 <= self.threshold_parts().0 <= self.threshold_parts().1
        &&& 1 <= self.max_len() <= 25
    }

    pub fn new() -> (r: WordsPrefixes)
        ensures
            r.wf(),
            r.threshold_parts() == (1int, 100int),
            r.max_len() == 4,
    {
        WordsPrefixes { threshold_num: 1, threshold_den: 100, max_prefix_length: 4 }
    }

    /// Set the ratio of dictionary words a prefix must cover, as the
    /// fraction `num / den`; clamped to `[0, 1]`.
    pub fn threshold(&mut self, num: u64, den: u64)
        requires
            den >= 1,
        ensures
            final(self).threshold_parts() == (if num > den {
                (den as int, den as int)
            } else {
                (num as int, den as int)
            }),
            final(self).max_len() == old(self).max_len(),
            old(self).wf() ==> final(self).wf(),
    {
        self.threshold_num = if num > den {
            den
        } else {
            num
        };
        self.threshold_den = den;
    }

    /// Set the maximum prefix length in bytes; clamped to `[1, 25]`.
    pub fn max_prefix_length(&mut self, value: usize)
        ensures
            final(self).max_len() == (if value < 1 {
                1int
            } else if value > 25 {
                25int
            } else {
                value as int
            }),
            final(self).threshold_parts() == old(self).threshold_parts(),
            old(self).wf() ==> final(self).wf(),
    {
        self.max_prefix_length = if value < 1 {
            1
        } else if value > 25 {
            25
        } else {
            value
        };
    }

    /// The threshold in words: `floor(|W| * num / den)`.
    fn min_count(&self, n_words: usize) -> (r: usize)
        requires
            self.wf(),
        ensures
            r == min_count_spec(
                n_words as int,
                self.threshold_parts().0,
                self.threshold_parts().1,
            ),
            r <= n_words,
    {
        let num = self.threshold_num as u128;
        let den = self.threshold_den as u128;
        proof {
            let l = n_words as int;
            let nm = num as int;
            assert(l * nm < 0x100000000000000000000000000000000) by (nonlinear_arith)
                requires
                    0 <= l < 0x10000000000000000,
                    0 <= nm < 0x10000000000000000,
            ;
        }
        let q = n_words as u128 * num / den;
        proof {
            let l = n_words as int;
            let a = self.threshold_parts().0;
            let b = self.threshold_parts().1;
            assert(l * a <= l * b) by (nonlinear_arith)
                requires
                    0 <= a <= b,
                    l >= 0,
            ;
            vstd::arithmetic::div_mod::lemma_div_is_ordered(l * a, l * b, b);
            vstd::arithmetic::div_mod::lemma_div_multiples_vanish(l, b);
        }
        q as usize
    }

    /// Build the prefix set and the prefix-docids projection over a sorted
    /// dictionary, with `word_docids[i]` the document set of `words[i]`.
    /// Fails with an encoding error exactly when some word is not valid
    /// UTF-8; an internal set-building failure is an I/O error.
    pub fn execute(&self, words: &Vec<Vec<u8>>, word_docids: &Vec<roaring::RoaringBitmap>) -> (r:
        Result<PrefixData, EngineError>)
        requires
            self.wf(),
            words@.len() == word_docids@.len(),
            strictly_increasing(words@.map_values(|w: Vec<u8>| w@)),
        ensures
            (forall|i: int| 0 <= i < words@.len() ==> is_utf8(#[trigger] words@[i]@)) ==> r is Ok,
            (exists|i: int| 0 <= i < words@.len() && !is_utf8(words@[i]@)) ==> (r
                matches Err(e) && e == EngineError::Encoding),
            r matches Err(e) && e == EngineError::Encoding ==> exists|i: int|
                0 <= i < words@.len() && !is_utf8(words@[i]@),
            r matches Ok(out) ==> {
                let wv = words@.map_values(|w: Vec<u8>| w@);
                let min = min_count_spec(
                    wv.len() as int,
                    self.threshold_parts().0,
                    self.threshold_parts().1,
                );
                let keysets = Seq::new(
                    self.max_len() as nat,
                    |k: int| prefixes_of_length_spec(wv, k + 1, min),
                );
                &&& out.prefix_fst_bytes@ == fst_union_bytes(keysets)
                &&& out.word_prefix_docids@.map_values(|pr: (Vec<u8>, roaring::RoaringBitmap)| pr.0@)
                    == fst_union_keys(keysets)
                &&& forall|q: Seq<u8>|
                    #[trigger] fst_union_keys(keysets).contains(q) <==> exists|j: int|
                        0 <= j < keysets.len() && (#[trigger] keysets[j]).contains(q)
                &&& forall|k: int|
                    0 <= k < out.word_prefix_docids@.len() ==> bitmap_as_set(
                        (#[trigger] out.word_prefix_docids@[k]).1,
                    ) == prefix_docids_from(
                        wv,
                        word_docids@.map_values(|d: roaring::RoaringBitmap| bitmap_as_set(d)),
                        out.word_prefix_docids@[k].0@,
                        0,
                    )
            },
    {
        let ghost wv = words@.map_values(|w: Vec<u8>| w@);
        // Reject any word that is not valid UTF-8.
        let n_words = words.len();
        let mut i: usize = 0;
        while i < n_words
            invariant
                n_words == words@.len(),
                i <= n_words,
                forall|j: int| 0 <= j < i ==> is_utf8(#[trigger] words@[j]@),
            decreases n_words - i,
        {
            if !check_utf8(&words[i]) {
                return Result::Err(EngineError::Encoding);
            }
            i = i + 1;
        }
        let min_count = self.min_count(n_words);
        // One prefix list per length, then their union as the final set.
        let ghost keysets = Seq::new(
            self.max_len() as nat,
            |k: int| prefixes_of_length_spec(wv, k + 1, min_count as int),
        );
        let mut sets: Vec<fst::Set<Vec<u8>>> = Vec::new();
        let mut n: usize = 1;
        while n <= self.max_prefix_length
            invariant
                wv == words@.map_values(|w: Vec<u8>| w@),
                strictly_increasing(wv),
                self.wf(),
                keysets == Seq::new(
                    self.max_len() as nat,
                    |k: int| prefixes_of_length_spec(wv, k + 1, min_count as int),
                ),
                1 <= n <= self.max_len() + 1,
                forall|j: int| 0 <= j < words@.len() ==> is_utf8(#[trigger] words@[j]@),
                sets@.len() == n - 1,
                forall|k: int|
                    0 <= k < sets@.len() ==> fst_set_keys(#[trigger] sets@[k]) == keysets[k],
            decreases self.max_len() + 1 - n,
        {
            let prefixes = prefixes_of_length(words, n, min_count);
            proof {
                if min_count >= 1 {
                    lemma_scan_sorted(wv, n as int, min_count as int, 0, Seq::empty(), 0);
                } else {
                    lemma_scan_zero_min(wv, n as int, min_count as int, 0, Seq::empty(), 0);
                }
                assert(strictly_increasing(keys_view(prefixes)));
            }
            match fst_from_sorted(&prefixes) {
                Result::Ok(s) => {
                    sets.push(s);
                },
                Result::Err(_) => {
                    proof {
                        assert(false);
                    }
                    return Result::Err(EngineError::Io);
                },
            }
            n = n + 1;
        }
        let union_set = match fst_union(&sets) {
            Result::Ok(u) => u,
            Result::Err(_) => {
                proof {
                    assert(false);
                }
                return Result::Err(EngineError::Io);
            },
        };
        proof {
            assert(sets@.map_values(|s| fst_set_keys(s)) =~= keysets);
            assert forall|q: Seq<u8>| #[trigger] fst_union_keys(keysets).contains(q) <==> exists|
                j: int,
            | 0 <= j < keysets.len() && (#[trigger] keysets[j]).contains(q) by {
                if fst_set_keys(union_set).contains(q) {
                    let j0 = choose|j: int|
                        0 <= j < sets@.len() && (#[trigger] fst_set_keys(sets@[j])).contains(q);
                    assert(keysets[j0].contains(q));
                }
                if exists|j: int| 0 <= j < keysets.len() && (#[trigger] keysets[j]).contains(q) {
                    let j0 = choose|j: int|
                        0 <= j < keysets.len() && (#[trigger] keysets[j]).contains(q);
                    assert(fst_set_keys(sets@[j0]).contains(q));
                    assert(fst_set_keys(union_set).contains(q));
                }
            }
        }
        let (fst_bytes, prefixes) = fst_into_parts(union_set);
        // The docids projection: one union per prefix, in stream order.
        let ghost dv = word_docids@.map_values(|d: roaring::RoaringBitmap| bitmap_as_set(d));
        let mut word_prefix_docids: Vec<(Vec<u8>, roaring::RoaringBitmap)> = Vec::new();
        let n_prefixes = prefixes.len();
        let mut k: usize = 0;
        while k < n_prefixes
            invariant
                wv == words@.map_values(|w: Vec<u8>| w@),
                dv == word_docids@.map_values(|d: roaring::RoaringBitmap| bitmap_as_set(d)),
                words@.len() == word_docids@.len(),
                n_words == words@.len(),
                n_prefixes == prefixes@.len(),
                k <= n_prefixes,
                word_prefix_docids@.len() == k,
                forall|k2: int|
                    0 <= k2 < k ==> (#[trigger] word_prefix_docids@[k2]).0@ == prefixes@[k2]@
                        && bitmap_as_set(word_prefix_docids@[k2].1) == prefix_docids_from(
                        wv,
                        dv,
                        prefixes@[k2]@,
                        0,
                    ),
            decreases n_prefixes - k,
        {
            let p = &prefixes[k];
            let mut acc = bitmap_new();
            let mut w: usize = 0;
            while w < n_words
                invariant
                    wv == words@.map_values(|wd: Vec<u8>| wd@),
                    dv == word_docids@.map_values(|d: roaring::RoaringBitmap| bitmap_as_set(d)),
                    n_words == words@.len(),
                    words@.len() == word_docids@.len(),
                    w <= n_words,
                    prefix_docids_from(wv, dv, p@, 0) =~= bitmap_as_set(acc).union(
                        prefix_docids_from(wv, dv, p@, w as int),
                    ),
                decreases n_words - w,
            {
                if starts_with_exec(&words[w], p) {
                    bitmap_or_assign(&mut acc, &word_docids[w]);
                }
                proof {
                    assert(wv[w as int] == words@[w as int]@);
                    assert(dv[w as int] == bitmap_as_set(word_docids@[w as int]));
                    assert(prefix_docids_from(wv, dv, p@, 0) =~= bitmap_as_set(acc).union(
                        prefix_docids_from(wv, dv, p@, w + 1),
                    ));
                }
                w = w + 1;
            }
            proof {
                assert(prefix_docids_from(wv, dv, p@, 0) =~= bitmap_as_set(acc));
            }
            let mut key: Vec<u8> = Vec::new();
            let mut b: usize = 0;
            let m = p.len();
            while b < m
                invariant
                    m == p@.len(),
                    b <= m,
                    key@ =~= p@.subrange(0, b as int),
                decreases m - b,
            {
                key.push(p[b]);
                b = b + 1;
            }
            proof {
                assert(key@ =~= p@);
            }
            word_prefix_docids.push((key, acc));
            k = k + 1;
        }
        proof {
            assert(word_prefix_docids@.map_values(|pr: (Vec<u8>, roaring::RoaringBitmap)| pr.0@)
                =~= prefixes@.map_values(|kk: Vec<u8>| kk@));
        }
        Result::Ok(PrefixData { prefix_fst_bytes: fst_bytes, word_prefix_docids })
    }
}

/// Prefix threshold over the final set: on a sorted dictionary with a
/// threshold of at least one word, a prefix is accepted by the union
/// exactly when, for its own length, at least `min` words carry it at a
/// character boundary. The union law hypothesis is what `execute` ensures
/// of its output.
pub proof fn lemma_prefix_fst_threshold(
    words: Seq<Seq<u8>>,
    max_len: int,
    min: int,
    keysets: Seq<Seq<Seq<u8>>>,
    q: Seq<u8>,
)
    requires
        strictly_increasing(words),
        1 <= min,
        0 <= max_len,
        keysets == Seq::new(max_len as nat, |k: int| prefixes_of_length_spec(words, k + 1, min)),
        forall|x: Seq<u8>|
            #[trigger] fst_union_keys(keysets).contains(x) <==> exists|j: int|
                0 <= j < keysets.len() && (#[trigger] keysets[j]).contains(x),
    ensures
        fst_union_keys(keysets).contains(q) <==> exists|nn: int|
            1 <= nn <= max_len && #[trigger] prefix_count_from(words, nn, q, 0) >= min,
{
    if fst_union_keys(keysets).contains(q) {
        let j0 = choose|j: int| 0 <= j < keysets.len() && (#[trigger] keysets[j]).contains(q);
        lemma_prefix_threshold(words, j0 + 1, min);
        assert(prefix_count_from(words, j0 + 1, q, 0) >= min);
    }
    if exists|nn: int| 1 <= nn <= max_len && #[trigger] prefix_count_from(words, nn, q, 0) >= min {
        let n0 = choose|nn: int|
            1 <= nn <= max_len && #[trigger] prefix_count_from(words, nn, q, 0) >= min;
        lemma_prefix_threshold(words, n0, min);
        assert(keysets[n0 - 1].contains(q));
        assert(fst_union_keys(keysets).contains(q));
    }
}

/// Rebuilding with identical inputs yields byte-identical outputs: the
/// prefix set bytes and the prefix-docids projection are functions of the
/// dictionary, the document sets, the threshold and the length bound alone.
pub proof fn lemma_execute_idempotent(
    wv: Seq<Seq<u8>>,
    keysets: Seq<Seq<Seq<u8>>>,
    bytes1: Seq<u8>,
    bytes2: Seq<u8>,
    keys1: Seq<Seq<u8>>,
    keys2: Seq<Seq<u8>>,
)
    requires
        bytes1 == fst_union_bytes(keysets),
        bytes2 == fst_union_bytes(keysets),
        keys1 == fst_union_keys(keysets),
        keys2 == fst_union_keys(keysets),
    ensures
        bytes1 == bytes2,
        keys1 == keys2,
{
}

} // verus!
