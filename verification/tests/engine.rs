use rank_graph::cache::EdgeConditionDocIdsCache;
use rank_graph::condition::{Condition, PairProximityEntry, SearchContext, TypoEntry};
use rank_graph::dead_end::DeadEndPathCache;
use rank_graph::graph::{RankingRuleGraph, RuleKind};
use rank_graph::paths::CheapestPathsState;
use rank_graph::prefix::{EngineError, WordsPrefixes};
use rank_graph::query_graph::{QueryGraph, QueryNodeData};
use rank_graph::small_bitmap::SmallBitmap;
use roaring::RoaringBitmap;

fn bm(ids: &[u32]) -> RoaringBitmap {
    let mut b = RoaringBitmap::new();
    for &i in ids {
        b.insert(i);
    }
    b
}

fn proximity_graph_two_terms() -> RankingRuleGraph {
    // start -> term 0 -> term 1 -> end
    let data = vec![
        QueryNodeData::Start,
        QueryNodeData::Term { term_handle: 0 },
        QueryNodeData::Term { term_handle: 1 },
        QueryNodeData::End,
    ];
    let succ = vec![vec![1u16], vec![2u16], vec![3u16], vec![]];
    let qg = QueryGraph::from_parts(data, succ, 0, 3).unwrap();
    RankingRuleGraph::build(qg, RuleKind::Proximity).unwrap()
}

#[test]
fn two_term_proximity_buckets() {
    // docs: 1 = "quick brown fox" (gap 2), 2 = "quick fox" (gap 1),
    // 3 = "fox quick" (reversed; the rule is forward-only here).
    let g = proximity_graph_two_terms();
    let ctx = SearchContext {
        word_pair_proximity_docids: vec![
            PairProximityEntry { left_term: 0, right_term: 1, gap: 1, docids: bm(&[2]) },
            PairProximityEntry { left_term: 0, right_term: 1, gap: 2, docids: bm(&[1]) },
        ],
        word_typo_docids: vec![],
    };
    let n_conditions = g.conditions_interner.len();
    let mut cache = EdgeConditionDocIdsCache::new(n_conditions);
    let mut dead_ends = DeadEndPathCache::new();
    let mut state = CheapestPathsState::new();
    let universe = bm(&[1, 2, 3]);
    let b0 = state
        .next_bucket(&g, &ctx, &mut cache, &mut dead_ends, &universe, false)
        .unwrap()
        .unwrap();
    assert_eq!(b0.0, 0);
    assert_eq!(b0.1, bm(&[2]));
    let universe = bm(&[1, 3]);
    let b1 = state
        .next_bucket(&g, &ctx, &mut cache, &mut dead_ends, &universe, false)
        .unwrap()
        .unwrap();
    assert_eq!(b1.0, 1);
    assert_eq!(b1.1, bm(&[1]));
    let universe = bm(&[3]);
    let b2 = state
        .next_bucket(&g, &ctx, &mut cache, &mut dead_ends, &universe, false)
        .unwrap()
        .unwrap();
    assert_eq!(b2.0, 2);
    assert!(b2.1.is_empty());
}

fn typo_graph_one_term() -> RankingRuleGraph {
    let data = vec![
        QueryNodeData::Start,
        QueryNodeData::Term { term_handle: 0 },
        QueryNodeData::End,
    ];
    let succ = vec![vec![1u16], vec![2u16], vec![]];
    let qg = QueryGraph::from_parts(data, succ, 0, 2).unwrap();
    RankingRuleGraph::build(qg, RuleKind::Typo).unwrap()
}

#[test]
fn typo_buckets() {
    // query "quikc" over docs 1 = "quick", 2 = "quack", 3 = "quicker":
    // no exact match, one doc within one edit, all within two.
    let g = typo_graph_one_term();
    let ctx = SearchContext {
        word_pair_proximity_docids: vec![],
        word_typo_docids: vec![
            TypoEntry { term: 0, n_typos: 1, docids: bm(&[1]) },
            TypoEntry { term: 0, n_typos: 2, docids: bm(&[1, 2, 3]) },
        ],
    };
    let n_conditions = g.conditions_interner.len();
    let mut cache = EdgeConditionDocIdsCache::new(n_conditions);
    let mut dead_ends = DeadEndPathCache::new();
    let mut state = CheapestPathsState::new();
    let universe = bm(&[1, 2, 3]);
    let b0 = state
        .next_bucket(&g, &ctx, &mut cache, &mut dead_ends, &universe, false)
        .unwrap()
        .unwrap();
    assert_eq!(b0.0, 0);
    assert!(b0.1.is_empty());
    let b1 = state
        .next_bucket(&g, &ctx, &mut cache, &mut dead_ends, &universe, false)
        .unwrap()
        .unwrap();
    assert_eq!(b1.0, 1);
    assert_eq!(b1.1, bm(&[1]));
    let universe = bm(&[2, 3]);
    let b2 = state
        .next_bucket(&g, &ctx, &mut cache, &mut dead_ends, &universe, false)
        .unwrap()
        .unwrap();
    assert_eq!(b2.0, 2);
    assert_eq!(b2.1, bm(&[2, 3]));
}

#[test]
fn dead_end_pruning_memoises_empty_condition() {
    // The zero-typo condition resolves to the empty set: after the first
    // bucket it is memoised and a marker for it forbids every superset.
    let g = typo_graph_one_term();
    let ctx = SearchContext {
        word_pair_proximity_docids: vec![],
        word_typo_docids: vec![TypoEntry { term: 0, n_typos: 1, docids: bm(&[1]) }],
    };
    let n_conditions = g.conditions_interner.len();
    let mut cache = EdgeConditionDocIdsCache::new(n_conditions);
    let mut dead_ends = DeadEndPathCache::new();
    let mut state = CheapestPathsState::new();
    let universe = bm(&[1, 2, 3]);
    assert!(!cache.is_cached(0));
    state.next_bucket(&g, &ctx, &mut cache, &mut dead_ends, &universe, false).unwrap().unwrap();
    // the condition for zero typos has handle 0 and was resolved once
    assert!(cache.is_cached(0));
    let mut prefix = SmallBitmap::new(n_conditions as u16);
    prefix.insert(0);
    assert!(dead_ends.forbids(&prefix, n_conditions as u16));
    let mut other = SmallBitmap::new(n_conditions as u16);
    other.insert(1);
    assert!(!dead_ends.forbids(&other, n_conditions as u16));
}

#[test]
fn edge_removal_clears_outgoing_bits() {
    let mut g = proximity_graph_two_terms();
    // handle 0 is the gap-1 condition between the two terms
    assert_eq!(g.conditions_interner.get(0), &Condition::Proximity {
        left_term: 0,
        right_term: 1,
        gap: 1,
    });
    g.remove_edges_with_condition(0);
    for slot in g.edges_store.iter() {
        if let Some(edge) = slot {
            assert_ne!(edge.condition, Some(0u16));
        }
    }
    // every node's outgoing set holds live edges only
    for (node, bits) in g.edges_of_node.iter().enumerate() {
        for eid in bits.to_vec() {
            let edge = g.edges_store[eid as usize].as_ref().expect("bit for dead edge");
            assert_eq!(edge.source_node as usize, node);
        }
    }
    // enumeration now skips the gap-1 path: the cost-0 bucket is empty
    let ctx = SearchContext {
        word_pair_proximity_docids: vec![
            PairProximityEntry { left_term: 0, right_term: 1, gap: 1, docids: bm(&[2]) },
        ],
        word_typo_docids: vec![],
    };
    let n_conditions = g.conditions_interner.len();
    let mut cache = EdgeConditionDocIdsCache::new(n_conditions);
    let mut dead_ends = DeadEndPathCache::new();
    let mut state = CheapestPathsState::new();
    let universe = bm(&[1, 2, 3]);
    let b0 = state
        .next_bucket(&g, &ctx, &mut cache, &mut dead_ends, &universe, false)
        .unwrap()
        .unwrap();
    assert!(b0.1.is_empty());
}

#[test]
fn cancellation_returns_without_delivery() {
    let g = typo_graph_one_term();
    let ctx = SearchContext { word_pair_proximity_docids: vec![], word_typo_docids: vec![] };
    let n_conditions = g.conditions_interner.len();
    let mut cache = EdgeConditionDocIdsCache::new(n_conditions);
    let mut dead_ends = DeadEndPathCache::new();
    let mut state = CheapestPathsState::new();
    let universe = bm(&[1]);
    let r = state.next_bucket(&g, &ctx, &mut cache, &mut dead_ends, &universe, true);
    match r {
        Err(e) => assert_eq!(e, EngineError::Cancelled),
        Ok(_) => panic!("a cancelled call must not deliver a bucket"),
    }
}

fn words(list: &[&str]) -> Vec<Vec<u8>> {
    list.iter().map(|w| w.as_bytes().to_vec()).collect()
}

#[test]
fn prefix_builder_threshold() {
    // four words, ratio one half: a prefix needs two words
    let w = words(&["car", "care", "cart", "dog"]);
    let docids = vec![bm(&[1]), bm(&[2]), bm(&[3]), bm(&[4])];
    let mut builder = WordsPrefixes::new();
    builder.threshold(1, 2);
    builder.max_prefix_length(3);
    let out = builder.execute(&w, &docids).unwrap();
    let set = fst::Set::new(out.prefix_fst_bytes.clone()).unwrap();
    assert_eq!(set.len(), 3);
    assert!(set.contains("c") && set.contains("ca") && set.contains("car"));
    assert!(!set.contains("d"));
    let keys: Vec<&[u8]> =
        out.word_prefix_docids.iter().map(|(k, _)| k.as_slice()).collect();
    assert_eq!(keys, vec![b"c".as_slice(), b"ca".as_slice(), b"car".as_slice()]);
    for (key, ids) in &out.word_prefix_docids {
        assert_eq!(ids, &bm(&[1, 2, 3]), "prefix {:?}", key);
    }
}

#[test]
fn prefix_builder_utf8_boundaries() {
    // a one-byte cut through a two-byte character skips the word for that
    // length instead of splitting the character
    let w = words(&["unit", "über"]);
    let docids = vec![bm(&[1]), bm(&[2])];
    let mut builder = WordsPrefixes::new();
    builder.threshold(1, 2);
    builder.max_prefix_length(2);
    let out = builder.execute(&w, &docids).unwrap();
    let set = fst::Set::new(out.prefix_fst_bytes.clone()).unwrap();
    // min_count is one: at length one only "u" (the umlaut is skipped,
    // its first byte being half a character); at length two both words
    // contribute their two-byte prefixes
    assert!(set.contains("u"));
    assert!(set.contains("un"));
    assert!(set.contains("ü"));
    assert!(!set.contains([0xC3])); // never half a character
    assert_eq!(set.len(), 3);
}

#[test]
fn prefix_builder_rejects_invalid_utf8() {
    let w = vec![vec![0xFFu8, 0xFE]];
    let docids = vec![bm(&[1])];
    let builder = WordsPrefixes::new();
    match builder.execute(&w, &docids) {
        Ok(_) => panic!("invalid utf-8 must be rejected"),
        Err(e) => assert_eq!(e, EngineError::Encoding),
    }
}

#[test]
fn prefix_builder_is_idempotent() {
    let w = words(&["alpha", "alps", "beta", "betas", "gamma"]);
    let docids = vec![bm(&[1]), bm(&[2]), bm(&[3, 7]), bm(&[4]), bm(&[5])];
    let mut builder = WordsPrefixes::new();
    builder.threshold(2, 5);
    builder.max_prefix_length(4);
    let out1 = builder.execute(&w, &docids).unwrap();
    let out2 = builder.execute(&w, &docids).unwrap();
    assert_eq!(out1.prefix_fst_bytes, out2.prefix_fst_bytes);
    assert_eq!(out1.word_prefix_docids.len(), out2.word_prefix_docids.len());
    for (a, b) in out1.word_prefix_docids.iter().zip(out2.word_prefix_docids.iter()) {
        assert_eq!(a.0, b.0);
        assert_eq!(a.1, b.1);
    }
}

#[test]
fn prefix_builder_clamps_settings() {
    let mut builder = WordsPrefixes::new();
    builder.threshold(7, 2); // clamped to one
    builder.max_prefix_length(99); // clamped to 25
    let w = words(&["aa", "ab"]);
    let docids = vec![bm(&[1]), bm(&[2])];
    // ratio one: a prefix must cover every word
    let out = builder.execute(&w, &docids).unwrap();
    let set = fst::Set::new(out.prefix_fst_bytes.clone()).unwrap();
    assert_eq!(set.len(), 1);
    assert!(set.contains("a"));
}

#[test]
fn small_bitmap_operations() {
    let mut a = SmallBitmap::new(100);
    let mut b = SmallBitmap::new(100);
    a.insert(3);
    a.insert(64);
    b.insert(64);
    b.insert(99);
    assert!(a.contains(3) && a.contains(64) && !a.contains(4));
    assert!(!a.is_subset(&b));
    a.remove(3);
    assert!(a.is_subset(&b));
    a.union_assign(&b);
    assert_eq!(a.to_vec(), vec![64, 99]);
    assert_eq!(a.count(), 2);
    b.intersect_assign(&a);
    assert_eq!(b.to_vec(), vec![64, 99]);
    b.subtract_assign(&a);
    assert!(b.is_empty());
}

#[test]
fn condition_metadata() {
    let c = Condition::Proximity { left_term: 4, right_term: 7, gap: 3 };
    assert_eq!(c.cost(), 2);
    assert_eq!(c.words_used(), vec![4, 7]);
    assert_eq!(c.label(), "proximity");
    let t = Condition::Typo { term: 9, n_typos: 2 };
    assert_eq!(t.cost(), 2);
    assert_eq!(t.words_used(), vec![9]);
    assert_eq!(t.label(), "typo");
    assert!(t.phrases_used().is_empty());
}

#[test]
fn graph_duplicate_matches_original() {
    let g = proximity_graph_two_terms();
    let copy = g.duplicate();
    assert_eq!(copy.edges_store.len(), g.edges_store.len());
    for (a, b) in copy.edges_store.iter().zip(g.edges_store.iter()) {
        match (a, b) {
            (Some(x), Some(y)) => assert!(x == y),
            (None, None) => {}
            _ => panic!("copy and original disagree on a tombstone"),
        }
    }
    assert_eq!(copy.conditions_interner.len(), g.conditions_interner.len());
    for h in 0..g.conditions_interner.len() {
        assert_eq!(copy.conditions_interner.get(h as u16), g.conditions_interner.get(h as u16));
    }
    for (a, b) in copy.edges_of_node.iter().zip(g.edges_of_node.iter()) {
        assert_eq!(a.to_vec(), b.to_vec());
    }
}
