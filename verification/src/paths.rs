//! Path enumeration over the ranking-rule graph and the cost-bucket driver.
//!
//! Paths are enumerated per exact total cost; the driver asks for cost
//! 0, 1, 2, ... in turn, so delivered costs are strictly increasing. Every
//! delivered path is a live source-to-sink path of exactly the requested
//! cost; its documents are the intersection of its conditions' resolved
//! sets under the current universe, so every bucket stays within the
//! universe.

use crate::cache::EdgeConditionDocIdsCache;
use crate::condition::{condition_docids, SearchContext};
use crate::dead_end::DeadEndPathCache;
use crate::docids::{bitmap_and_assign, bitmap_as_set, bitmap_clone, bitmap_is_empty, bitmap_or_assign};
use crate::graph::{Edge, RankingRuleGraph};
use crate::prefix::EngineError;
use crate::small_bitmap::SmallBitmap;
use vstd::prelude::*;

verus! {

/// `p` is a chain of live edge handles leading from node `from` to the
/// graph's end node.
pub open spec fn valid_path(g: RankingRuleGraph, from: int, p: Seq<u16>) -> bool
    decreases p.len(),
{
    if p.len() == 0 {
        from == g.query_graph.end_node as int
    } else {
        &&& g.live_edge(p[0] as int)
        &&& g.edge_at(p[0] as int).source_node as int == from
        &&& valid_path(g, g.edge_at(p[0] as int).dest_node as int, p.skip(1))
    }
}

/// The total cost of a path: the sum of its edges' costs.
pub open spec fn path_cost(g: RankingRuleGraph, p: Seq<u16>) -> int
    decreases p.len(),
{
    if p.len() == 0 {
        0
    } else {
        g.edge_at(p[0] as int).cost + path_cost(g, p.skip(1))
    }
}

/// Every live edge goes from a lower to a strictly higher node handle;
/// guaranteed by construction from the query graph's topological numbering.
pub open spec fn edges_forward(g: RankingRuleGraph) -> bool {
    forall|eid: int|
        #[trigger] g.live_edge(eid) ==> g.edge_at(eid).source_node < g.edge_at(eid).dest_node
}

/// A path's cost is never negative.
pub proof fn lemma_path_cost_nonneg(g: RankingRuleGraph, p: Seq<u16>)
    ensures
        path_cost(g, p) >= 0,
    decreases p.len(),
{
    if p.len() > 0 {
        lemma_path_cost_nonneg(g, p.skip(1));
    }
}

/// No valid path leaves the end node: edges only lead to strictly higher
/// handles, so a non-empty valid path starts strictly below the end node.
pub proof fn lemma_path_leaves_lower_node(g: RankingRuleGraph, from: int, p: Seq<u16>)
    requires
        g.wf(),
        edges_forward(g),
        valid_path(g, from, p),
        p.len() > 0,
    ensures
        from < g.query_graph.end_node as int,
    decreases p.len(),
{
    let dest = g.edge_at(p[0] as int).dest_node as int;
    assert(g.live_edge(p[0] as int));
    assert(valid_path(g, dest, p.skip(1)));
    if p.skip(1).len() == 0 {
        assert(dest == g.query_graph.end_node as int);
    } else {
        lemma_path_leaves_lower_node(g, dest, p.skip(1));
    }
}

/// A valid path visits strictly increasing nodes, so its cost is bounded
/// by the node count times the largest edge cost.
pub proof fn lemma_path_cost_bound(g: RankingRuleGraph, from: int, p: Seq<u16>)
    requires
        g.wf(),
        edges_forward(g),
        valid_path(g, from, p),
    ensures
        path_cost(g, p) <= 255 * (g.query_graph.node_count() - from),
        path_cost(g, p) >= 0,
        from < g.query_graph.node_count(),
    decreases p.len(),
{
    lemma_path_cost_nonneg(g, p);
    if p.len() == 0 {
        assert(from == g.query_graph.end_node as int);
    } else {
        let dest = g.edge_at(p[0] as int).dest_node as int;
        assert(g.live_edge(p[0] as int));
        lemma_path_cost_bound(g, dest, p.skip(1));
    }
}

/// All live source-to-sink paths starting at `from` whose total cost is
/// exactly `target`: every returned path is valid and costs `target`,
/// every such path is returned, and no path is returned twice.
pub fn paths_of_cost(g: &RankingRuleGraph, from: u16, target: u32) -> (r: Vec<Vec<u16>>)
    requires
        g.wf(),
        edges_forward(*g),
        (from as int) < g.query_graph.node_count(),
    ensures
        forall|k: int|
            0 <= k < r@.len() ==> valid_path(*g, from as int, (#[trigger] r@[k])@) && path_cost(
                *g,
                r@[k]@,
            ) == target,
        forall|p: Seq<u16>|
            #[trigger] valid_path(*g, from as int, p) && path_cost(*g, p) == target ==> exists|
                k: int,
            | 0 <= k < r@.len() && r@[k]@ == p,
        forall|k1: int, k2: int| 0 <= k1 < k2 < r@.len() ==> r@[k1]@ != r@[k2]@,
    decreases g.query_graph.node_count() - from,
{
    let mut result: Vec<Vec<u16>> = Vec::new();
    if from == g.query_graph.end_node {
        if target == 0 {
            let empty_path: Vec<u16> = Vec::new();
            proof {
                assert(valid_path(*g, from as int, empty_path@));
            }
            result.push(empty_path);
        }
        proof {
            assert forall|p: Seq<u16>|
                #[trigger] valid_path(*g, from as int, p) && path_cost(*g, p)
                    == target implies exists|k: int| 0 <= k < result@.len() && result@[k]@ == p by {
                if p.len() > 0 {
                    lemma_path_leaves_lower_node(*g, from as int, p);
                } else {
                    assert(path_cost(*g, p) == 0);
                    assert(target == 0);
                    assert(result@[0]@ =~= p);
                }
            }
        }
        return result;
    }
    let outgoing = g.edges_of_node[from as usize].to_vec();
    let n_out = outgoing.len();
    let mut k: usize = 0;
    while k < n_out
        invariant
            g.wf(),
            edges_forward(*g),
            (from as int) < g.query_graph.node_count(),
            from != g.query_graph.end_node,
            n_out == outgoing@.len(),
            k <= n_out,
            forall|k2: int|
                0 <= k2 < n_out ==> g.edges_of_node@[from as int].has(#[trigger] outgoing@[k2] as int),
            forall|k1: int, k2: int| 0 <= k1 < k2 < n_out ==> outgoing@[k1] < outgoing@[k2],
            forall|j: int|
                #[trigger] g.edges_of_node@[from as int].has(j) ==> exists|k2: int|
                    0 <= k2 < n_out && outgoing@[k2] == j,
            forall|k2: int|
                0 <= k2 < result@.len() ==> valid_path(*g, from as int, (#[trigger] result@[k2])@)
                    && path_cost(*g, result@[k2]@) == target,
            forall|idx: int| 0 <= idx < result@.len() ==> (#[trigger] result@[idx])@.len() > 0,
            forall|idx: int|
                0 <= idx < result@.len() ==> exists|k2: int|
                    0 <= k2 < k && outgoing@[k2] == (#[trigger] result@[idx])@[0],
            forall|i1: int, i2: int| 0 <= i1 < i2 < result@.len() ==> result@[i1]@ != result@[i2]@,
            forall|p: Seq<u16>|
                #[trigger] valid_path(*g, from as int, p) && path_cost(*g, p) == target && (exists|
                    k2: int,
                | 0 <= k2 < k && outgoing@[k2] == p[0]) ==> exists|idx: int|
                    0 <= idx < result@.len() && result@[idx]@ == p,
        decreases n_out - k,
    {
        let eid = outgoing[k];
        proof {
            assert(g.edges_of_node@[from as int].has(eid as int));
            assert(g.live_edge(eid as int) && g.edge_at(eid as int).source_node == from);
        }
        let edge = match &g.edges_store[eid as usize] {
            Option::Some(edge) => *edge,
            Option::None => {
                proof {
                    assert(false);
                }
                return result;
            },
        };
        let ghost pre_result = result@;
        if edge.cost as u32 <= target {
            let sub = paths_of_cost(g, edge.dest_node, target - edge.cost as u32);
            let n_sub = sub.len();
            let ghost base_len = result@.len() as int;
            let mut s: usize = 0;
            while s < n_sub
                invariant
                    g.wf(),
                    edges_forward(*g),
                    (from as int) < g.query_graph.node_count(),
                    g.live_edge(eid as int),
                    g.edge_at(eid as int) == edge,
                    edge.source_node == from,
                    edge.cost <= target,
                    n_sub == sub@.len(),
                    s <= n_sub,
                    base_len == pre_result.len(),
                    result@.len() == base_len + s,
                    forall|idx: int| 0 <= idx < base_len ==> result@[idx] == pre_result[idx],
                    forall|idx: int|
                        base_len <= idx < result@.len() ==> (#[trigger] result@[idx])@ == seq![eid]
                            + sub@[idx - base_len]@,
                    forall|k2: int|
                        0 <= k2 < n_sub ==> valid_path(
                            *g,
                            edge.dest_node as int,
                            (#[trigger] sub@[k2])@,
                        ) && path_cost(*g, sub@[k2]@) == target - edge.cost,
                decreases n_sub - s,
            {
                let sp = &sub[s];
                let mut np: Vec<u16> = Vec::new();
                np.push(eid);
                let m = sp.len();
                let mut j: usize = 0;
                while j < m
                    invariant
                        m == sp@.len(),
                        j <= m,
                        np@ =~= seq![eid] + sp@.subrange(0, j as int),
                    decreases m - j,
                {
                    np.push(sp[j]);
                    j = j + 1;
                }
                proof {
                    assert(np@ =~= seq![eid] + sp@);
                }
                result.push(np);
                s = s + 1;
            }
            proof {
                assert forall|k2: int|
                    0 <= k2 < result@.len() implies valid_path(
                    *g,
                    from as int,
                    (#[trigger] result@[k2])@,
                ) && path_cost(*g, result@[k2]@) == target && result@[k2]@.len() > 0 by {
                    if k2 < base_len {
                        assert(result@[k2] == pre_result[k2]);
                    } else {
                        let q = result@[k2]@;
                        assert(q == seq![eid] + sub@[k2 - base_len]@);
                        assert(q.skip(1) =~= sub@[k2 - base_len]@);
                        assert(q[0] == eid);
                        assert(valid_path(*g, from as int, q));
                        assert(path_cost(*g, q) == edge.cost + path_cost(*g, q.skip(1)));
                    }
                }
                assert forall|idx: int| 0 <= idx < result@.len() implies exists|k2: int|
                    0 <= k2 < k + 1 && outgoing@[k2] == (#[trigger] result@[idx])@[0] by {
                    if idx < base_len {
                        let k0 = choose|k2: int|
                            0 <= k2 < k && outgoing@[k2] == pre_result[idx]@[0];
                        assert(outgoing@[k0] == result@[idx]@[0]);
                    } else {
                        assert(outgoing@[k as int] == result@[idx]@[0]);
                    }
                }
                assert forall|i1: int, i2: int|
                    0 <= i1 < i2 < result@.len() implies result@[i1]@ != result@[i2]@ by {
                    if i2 >= base_len && i1 >= base_len {
                        if result@[i1]@ == result@[i2]@ {
                            assert(result@[i1]@.skip(1) =~= sub@[i1 - base_len]@);
                            assert(result@[i2]@.skip(1) =~= sub@[i2 - base_len]@);
                            assert(sub@[i1 - base_len]@ == sub@[i2 - base_len]@);
                            assert(false);
                        }
                    } else if i2 >= base_len {
                        assert(result@[i1] == pre_result[i1]);
                        let k0 = choose|k2: int|
                            0 <= k2 < k && outgoing@[k2] == pre_result[i1]@[0];
                        assert(result@[i1]@[0] == outgoing@[k0]);
                        assert(result@[i2]@[0] == outgoing@[k as int]);
                        assert(outgoing@[k0] < outgoing@[k as int]);
                        assert(result@[i1]@[0] != result@[i2]@[0]);
                    } else {
                        assert(result@[i1] == pre_result[i1] && result@[i2] == pre_result[i2]);
                    }
                }
                assert forall|p: Seq<u16>|
                    #[trigger] valid_path(*g, from as int, p) && path_cost(*g, p) == target && (
                exists|k2: int| 0 <= k2 < k + 1 && outgoing@[k2] == p[0]) implies exists|idx: int|
                    0 <= idx < result@.len() && result@[idx]@ == p by {
                    let k0 = choose|k2: int| 0 <= k2 < k + 1 && outgoing@[k2] == p[0];
                    assert(p.len() > 0);
                    if p[0] == eid {
                        assert(g.edge_at(p[0] as int) == edge);
                        assert(valid_path(*g, edge.dest_node as int, p.skip(1)));
                        assert(path_cost(*g, p) == edge.cost + path_cost(*g, p.skip(1)));
                        assert(path_cost(*g, p.skip(1)) == target - edge.cost);
                        assert(valid_path(*g, edge.dest_node as int, p.skip(1)) && path_cost(
                            *g,
                            p.skip(1),
                        ) == target - edge.cost);
                        let s0 = choose|s2: int|
                            0 <= s2 < sub@.len() && (#[trigger] sub@[s2])@ == p.skip(1);
                        assert(result@[base_len + s0]@ == seq![eid] + p.skip(1));
                        assert(seq![eid] + p.skip(1) =~= p);
                    } else {
                        assert(k0 < k && outgoing@[k0] == p[0]);
                        let i0 = choose|idx: int|
                            0 <= idx < pre_result.len() && pre_result[idx]@ == p;
                        assert(result@[i0]@ == p);
                    }
                }
            }
        } else {
            proof {
                assert forall|p: Seq<u16>|
                    #[trigger] valid_path(*g, from as int, p) && path_cost(*g, p) == target && (
                exists|k2: int| 0 <= k2 < k + 1 && outgoing@[k2] == p[0]) implies exists|idx: int|
                    0 <= idx < result@.len() && result@[idx]@ == p by {
                    let k0 = choose|k2: int| 0 <= k2 < k + 1 && outgoing@[k2] == p[0];
                    assert(p.len() > 0);
                    if p[0] == eid {
                        assert(g.edge_at(p[0] as int) == edge);
                        lemma_path_cost_nonneg(*g, p.skip(1));
                        assert(path_cost(*g, p) == edge.cost + path_cost(*g, p.skip(1)));
                        assert(false);
                    } else {
                        assert(k0 < k && outgoing@[k0] == p[0]);
                    }
                }
            }
        }
        k = k + 1;
    }
    proof {
        assert forall|p: Seq<u16>|
            #[trigger] valid_path(*g, from as int, p) && path_cost(*g, p) == target implies exists|
            idx: int,
        | 0 <= idx < result@.len() && result@[idx]@ == p by {
            assert(p.len() > 0);
            assert(g.live_edge(p[0] as int) && g.edge_at(p[0] as int).source_node == from);
            assert(g.edges_of_node@[from as int].has(p[0] as int));
            let k0 = choose|k2: int| 0 <= k2 < n_out && outgoing@[k2] == p[0] as int;
            assert(outgoing@[k0] == p[0]);
        }
    }
    result
}

/// The set of condition handles a path's edges carry.
pub fn path_conditions(g: &RankingRuleGraph, p: &Vec<u16>, n_conditions: u16) -> (r: SmallBitmap)
    requires
        g.wf(),
        g.conditions_interner.values().len() == n_conditions,
        forall|k: int| 0 <= k < p@.len() ==> g.live_edge(#[trigger] p@[k] as int),
    ensures
        r.wf(),
        r.universe_len() == n_conditions,
        forall|c: int|
            r.has(c) <==> exists|k: int|
                0 <= k < p@.len() && g.edge_at(#[trigger] p@[k] as int).condition == Option::Some(
                    c as u16,
                ) && 0 <= c < n_conditions,
    {
    let mut r = SmallBitmap::new(n_conditions);
    let n = p.len();
    let mut k: usize = 0;
    while k < n
        invariant
            g.wf(),
            g.conditions_interner.values().len() == n_conditions,
            n == p@.len(),
            k <= n,
            forall|k2: int| 0 <= k2 < n ==> g.live_edge(#[trigger] p@[k2] as int),
            r.wf(),
            r.universe_len() == n_conditions,
            forall|c: int|
                r.has(c) <==> exists|k2: int|
                    0 <= k2 < k && g.edge_at(#[trigger] p@[k2] as int).condition == Option::Some(
                        c as u16,
                    ) && 0 <= c < n_conditions,
        decreases n - k,
    {
        let eid = p[k];
        let cond = match &g.edges_store[eid as usize] {
            Option::Some(edge) => edge.condition,
            Option::None => {
                proof {
                    assert(false);
                }
                Option::None
            },
        };
        match cond {
            Option::Some(c) => {
                proof {
                    assert(g.edge_at(eid as int).condition == Option::Some(c));
                }
                r.insert(c);
                proof {
                    assert forall|c2: int| r.has(c2) implies exists|k2: int|
                        0 <= k2 < k + 1 && g.edge_at(#[trigger] p@[k2] as int).condition
                            == Option::Some(c2 as u16) && 0 <= c2 < n_conditions by {
                        if c2 == c as int {
                            assert(g.edge_at(p@[k as int] as int).condition == Option::Some(
                                c2 as u16,
                            ));
                        } else {
                            let k0 = choose|k2: int|
                                0 <= k2 < k && g.edge_at(#[trigger] p@[k2] as int).condition
                                    == Option::Some(c2 as u16) && 0 <= c2 < n_conditions;
                        }
                    }
                }
            },
            Option::None => {},
        }
        k = k + 1;
    }
    r
}

/// The documents of `u` satisfying every condition along the path; a
/// condition-free edge contributes the universe itself.
pub open spec fn path_docids(g: RankingRuleGraph, ctx: SearchContext, u: Set<u32>, p: Seq<u16>) -> Set<u32>
    decreases p.len(),
{
    if p.len() == 0 {
        u
    } else {
        match g.edge_at(p[0] as int).condition {
            Option::None => path_docids(g, ctx, u, p.skip(1)),
            Option::Some(h) => condition_docids(
                ctx,
                g.conditions_interner.values()[h as int],
            ).intersect(path_docids(g, ctx, u, p.skip(1))),
        }
    }
}

/// Document `d` satisfies the condition of edge `eid`, or the edge is free.
pub open spec fn edge_sat(g: RankingRuleGraph, ctx: SearchContext, d: u32, eid: u16) -> bool {
    match g.edge_at(eid as int).condition {
        Option::None => true,
        Option::Some(h) => condition_docids(ctx, g.conditions_interner.values()[h as int]).contains(
            d,
        ),
    }
}

/// Document `d` satisfies every condition along the path.
pub open spec fn path_sat(g: RankingRuleGraph, ctx: SearchContext, d: u32, p: Seq<u16>) -> bool {
    forall|k: int| 0 <= k < p.len() ==> edge_sat(g, ctx, d, #[trigger] p[k])
}

/// A path's documents are the universe members satisfying all its
/// conditions.
pub proof fn lemma_path_docids_char(g: RankingRuleGraph, ctx: SearchContext, u: Set<u32>, p: Seq<u16>, d: u32)
    ensures
        path_docids(g, ctx, u, p).contains(d) <==> (u.contains(d) && path_sat(g, ctx, d, p)),
    decreases p.len(),
{
    if p.len() == 0 {
        assert(path_sat(g, ctx, d, p));
    } else {
        lemma_path_docids_char(g, ctx, u, p.skip(1), d);
        if path_docids(g, ctx, u, p).contains(d) {
            assert(edge_sat(g, ctx, d, p[0]));
            assert forall|k: int| 0 <= k < p.len() implies edge_sat(g, ctx, d, #[trigger] p[k]) by {
                if k > 0 {
                    assert(p.skip(1)[k - 1] == p[k]);
                }
            }
        }
        if u.contains(d) && path_sat(g, ctx, d, p) {
            assert forall|k: int|
                0 <= k < p.skip(1).len() implies edge_sat(g, ctx, d, #[trigger] p.skip(1)[k]) by {
                assert(p.skip(1)[k] == p[k + 1]);
            }
            assert(edge_sat(g, ctx, d, p[0]));
        }
    }
}

/// A path's documents never leave the universe.
pub proof fn lemma_path_docids_in_universe(g: RankingRuleGraph, ctx: SearchContext, u: Set<u32>, p: Seq<u16>)
    ensures
        forall|d: u32| #[trigger] path_docids(g, ctx, u, p).contains(d) ==> u.contains(d),
    decreases p.len(),
{
    if p.len() > 0 {
        lemma_path_docids_in_universe(g, ctx, u, p.skip(1));
        assert forall|d: u32| #[trigger] path_docids(g, ctx, u, p).contains(d) implies u.contains(
            d,
        ) by {
            assert(path_docids(g, ctx, u, p.skip(1)).contains(d));
        }
    }
}

/// The documents of `u` satisfying every condition of the handle set `m`.
pub open spec fn cond_set_docids(g: RankingRuleGraph, ctx: SearchContext, u: Set<u32>, m: SmallBitmap) -> Set<u32> {
    Set::new(
        |d: u32|
            u.contains(d) && forall|c: int|
                #[trigger] m.has(c) ==> condition_docids(
                    ctx,
                    g.conditions_interner.values()[c],
                ).contains(d),
    )
}

/// A path's documents are those of its condition set.
pub proof fn lemma_path_docids_as_cond_set(
    g: RankingRuleGraph,
    ctx: SearchContext,
    u: Set<u32>,
    p: Seq<u16>,
    m: SmallBitmap,
)
    requires
        g.wf(),
        g.conditions_interner.values().len() <= 65535,
        forall|k: int| 0 <= k < p.len() ==> g.live_edge(#[trigger] p[k] as int),
        forall|c: int|
            m.has(c) <==> exists|k: int|
                0 <= k < p.len() && g.edge_at(#[trigger] p[k] as int).condition == Option::Some(
                    c as u16,
                ) && 0 <= c < g.conditions_interner.values().len(),
    ensures
        path_docids(g, ctx, u, p) == cond_set_docids(g, ctx, u, m),
{
    assert forall|d: u32|
        path_docids(g, ctx, u, p).contains(d) == cond_set_docids(g, ctx, u, m).contains(d) by {
        lemma_path_docids_char(g, ctx, u, p, d);
        if u.contains(d) && path_sat(g, ctx, d, p) {
            assert forall|c: int| #[trigger] m.has(c) implies condition_docids(
                ctx,
                g.conditions_interner.values()[c],
            ).contains(d) by {
                let k0 = choose|k: int|
                    0 <= k < p.len() && g.edge_at(#[trigger] p[k] as int).condition == Option::Some(
                        c as u16,
                    ) && 0 <= c < g.conditions_interner.values().len();
                assert(edge_sat(g, ctx, d, p[k0]));
            }
            assert(cond_set_docids(g, ctx, u, m).contains(d));
        }
        if cond_set_docids(g, ctx, u, m).contains(d) {
            assert forall|k: int| 0 <= k < p.len() implies edge_sat(g, ctx, d, #[trigger] p[k]) by {
                match g.edge_at(p[k] as int).condition {
                    Option::Some(h) => {
                        assert(g.live_edge(p[k] as int));
                        assert((h as int) < g.conditions_interner.values().len());
                        assert(m.has(h as int));
                        assert(condition_docids(
                            ctx,
                            g.conditions_interner.values()[h as int],
                        ).contains(d));
                    },
                    Option::None => {},
                }
            }
        }
    }
    assert(path_docids(g, ctx, u, p) =~= cond_set_docids(g, ctx, u, m));
}

/// More conditions mean fewer documents.
pub proof fn lemma_cond_set_monotone(
    g: RankingRuleGraph,
    ctx: SearchContext,
    u: Set<u32>,
    m1: SmallBitmap,
    m2: SmallBitmap,
)
    requires
        forall|c: int| #[trigger] m1.has(c) ==> m2.has(c),
    ensures
        forall|d: u32|
            #[trigger] cond_set_docids(g, ctx, u, m2).contains(d) ==> cond_set_docids(
                g,
                ctx,
                u,
                m1,
            ).contains(d),
{
}

/// Every condition set the cache forbids is empty under the universe: the
/// defining invariant of dead-end markers.
pub open spec fn dead_ends_sound(
    de: DeadEndPathCache,
    g: RankingRuleGraph,
    ctx: SearchContext,
    u: Set<u32>,
) -> bool {
    forall|m: SmallBitmap|
        #[trigger] de.forbids_spec(m) ==> (forall|d: u32| !cond_set_docids(g, ctx, u, m).contains(d))
}

/// The bucket at one cost: the union, over every valid source-to-sink
/// path of exactly that cost, of the path's documents under the universe.
pub open spec fn cost_bucket(g: RankingRuleGraph, ctx: SearchContext, u: Set<u32>, cost: int) -> Set<u32> {
    Set::new(
        |d: u32|
            exists|p: Seq<u16>|
                valid_path(g, g.query_graph.root_node as int, p) && path_cost(g, p) == cost
                    && #[trigger] path_docids(g, ctx, u, p).contains(d),
    )
}

/// The union of the documents of the paths from index `j` on.
pub open spec fn bucket_union_from(
    g: RankingRuleGraph,
    ctx: SearchContext,
    u: Set<u32>,
    paths: Seq<Seq<u16>>,
    j: int,
) -> Set<u32>
    decreases paths.len() - j,
{
    if j < 0 || j >= paths.len() {
        Set::empty()
    } else {
        path_docids(g, ctx, u, paths[j]).union(bucket_union_from(g, ctx, u, paths, j + 1))
    }
}

/// Membership in the union is membership in some path's documents.
pub proof fn lemma_bucket_union_char(
    g: RankingRuleGraph,
    ctx: SearchContext,
    u: Set<u32>,
    paths: Seq<Seq<u16>>,
    j: int,
)
    requires
        j >= 0,
    ensures
        forall|d: u32|
            #[trigger] bucket_union_from(g, ctx, u, paths, j).contains(d) <==> exists|j2: int|
                j <= j2 < paths.len() && path_docids(g, ctx, u, #[trigger] paths[j2]).contains(d),
    decreases paths.len() - j,
{
    if 0 <= j < paths.len() {
        lemma_bucket_union_char(g, ctx, u, paths, j + 1);
        assert forall|d: u32|
            #[trigger] bucket_union_from(g, ctx, u, paths, j).contains(d) <==> exists|j2: int|
                j <= j2 < paths.len() && path_docids(g, ctx, u, #[trigger] paths[j2]).contains(
                    d,
                ) by {
            if bucket_union_from(g, ctx, u, paths, j).contains(d) {
                if path_docids(g, ctx, u, paths[j]).contains(d) {
                    assert(j <= j < paths.len() && path_docids(g, ctx, u, paths[j]).contains(d));
                } else {
                    assert(bucket_union_from(g, ctx, u, paths, j + 1).contains(d));
                    let j0 = choose|j2: int|
                        j + 1 <= j2 < paths.len() && path_docids(
                            g,
                            ctx,
                            u,
                            #[trigger] paths[j2],
                        ).contains(d);
                    assert(j <= j0 < paths.len() && path_docids(g, ctx, u, paths[j0]).contains(d));
                }
            }
            if exists|j2: int|
                j <= j2 < paths.len() && path_docids(g, ctx, u, #[trigger] paths[j2]).contains(d) {
                let j0 = choose|j2: int|
                    j <= j2 < paths.len() && path_docids(g, ctx, u, #[trigger] paths[j2]).contains(
                        d,
                    );
                if j0 > j {
                    assert(bucket_union_from(g, ctx, u, paths, j + 1).contains(d));
                }
            }
        }
    }
}

/// The relation `remove_edges_with_condition` leaves between the old and
/// the new graph: same query graph and interner, same table length, and
/// exactly the slots carrying `c` tombstoned.
pub open spec fn removal_of(g2: RankingRuleGraph, g: RankingRuleGraph, c: u16) -> bool {
    &&& g2.query_graph == g.query_graph
    &&& g2.conditions_interner == g.conditions_interner
    &&& g2.edges_store@.len() == g.edges_store@.len()
    &&& forall|eid: int|
        0 <= eid < g.edges_store@.len() ==> #[trigger] g2.edges_store@[eid] == (if g.carries(
            eid,
            c,
        ) {
            Option::<Edge>::None
        } else {
            g.edges_store@[eid]
        })
}

/// A path of the pruned graph is a path of the original, with the same
/// cost and documents.
proof fn lemma_path_survives_backward(
    g: RankingRuleGraph,
    g2: RankingRuleGraph,
    ctx: SearchContext,
    u: Set<u32>,
    c: u16,
    from: int,
    p: Seq<u16>,
)
    requires
        removal_of(g2, g, c),
        valid_path(g2, from, p),
    ensures
        valid_path(g, from, p),
        path_cost(g, p) == path_cost(g2, p),
        path_docids(g, ctx, u, p) == path_docids(g2, ctx, u, p),
    decreases p.len(),
{
    if p.len() > 0 {
        assert(g2.live_edge(p[0] as int));
        assert(g2.edges_store@[p[0] as int] == g.edges_store@[p[0] as int]);
        assert(g.live_edge(p[0] as int) && g.edge_at(p[0] as int) == g2.edge_at(p[0] as int));
        lemma_path_survives_backward(
            g,
            g2,
            ctx,
            u,
            c,
            g2.edge_at(p[0] as int).dest_node as int,
            p.skip(1),
        );
    }
}

/// A path of the original that avoids condition `c` is a path of the
/// pruned graph, with the same cost and documents.
proof fn lemma_path_survives_forward(
    g: RankingRuleGraph,
    g2: RankingRuleGraph,
    ctx: SearchContext,
    u: Set<u32>,
    c: u16,
    from: int,
    p: Seq<u16>,
)
    requires
        removal_of(g2, g, c),
        valid_path(g, from, p),
        forall|k: int|
            0 <= k < p.len() ==> g.edge_at(#[trigger] p[k] as int).condition != Option::Some(c),
    ensures
        valid_path(g2, from, p),
        path_cost(g2, p) == path_cost(g, p),
        path_docids(g2, ctx, u, p) == path_docids(g, ctx, u, p),
    decreases p.len(),
{
    if p.len() > 0 {
        assert(g.live_edge(p[0] as int));
        assert(!g.carries(p[0] as int, c));
        assert(g2.edges_store@[p[0] as int] == g.edges_store@[p[0] as int]);
        assert(g2.live_edge(p[0] as int) && g2.edge_at(p[0] as int) == g.edge_at(p[0] as int));
        assert forall|k: int|
            0 <= k < p.skip(1).len() implies g.edge_at(
            #[trigger] p.skip(1)[k] as int,
        ).condition != Option::Some(c) by {
            assert(p.skip(1)[k] == p[k + 1]);
        }
        lemma_path_survives_forward(
            g,
            g2,
            ctx,
            u,
            c,
            g.edge_at(p[0] as int).dest_node as int,
            p.skip(1),
        );
    }
}

/// Removing a condition whose resolution under the universe is empty — the
/// trigger of the removal hook — loses no document: every cost bucket is
/// unchanged.
pub proof fn lemma_remove_empty_condition_preserves_buckets(
    g: RankingRuleGraph,
    g2: RankingRuleGraph,
    ctx: SearchContext,
    u: Set<u32>,
    c: u16,
    cost: int,
)
    requires
        removal_of(g2, g, c),
        (c as int) < g.conditions_interner.values().len(),
        forall|d: u32|
            !(condition_docids(ctx, g.conditions_interner.values()[c as int]).intersect(
                u,
            ).contains(d)),
    ensures
        cost_bucket(g2, ctx, u, cost) == cost_bucket(g, ctx, u, cost),
{
    let root = g.query_graph.root_node as int;
    assert forall|d: u32|
        cost_bucket(g2, ctx, u, cost).contains(d) == cost_bucket(g, ctx, u, cost).contains(d) by {
        if cost_bucket(g2, ctx, u, cost).contains(d) {
            let p = choose|p: Seq<u16>|
                valid_path(g2, root, p) && path_cost(g2, p) == cost && #[trigger] path_docids(
                    g2,
                    ctx,
                    u,
                    p,
                ).contains(d);
            lemma_path_survives_backward(g, g2, ctx, u, c, root, p);
            assert(path_docids(g, ctx, u, p).contains(d));
            assert(cost_bucket(g, ctx, u, cost).contains(d));
        }
        if cost_bucket(g, ctx, u, cost).contains(d) {
            let p = choose|p: Seq<u16>|
                valid_path(g, root, p) && path_cost(g, p) == cost && #[trigger] path_docids(
                    g,
                    ctx,
                    u,
                    p,
                ).contains(d);
            if exists|k: int|
                0 <= k < p.len() && g.edge_at(#[trigger] p[k] as int).condition == Option::Some(
                    c,
                ) {
                let k0 = choose|k: int|
                    0 <= k < p.len() && g.edge_at(#[trigger] p[k] as int).condition
                        == Option::Some(c);
                lemma_path_docids_char(g, ctx, u, p, d);
                assert(edge_sat(g, ctx, d, p[k0]));
                assert(condition_docids(ctx, g.conditions_interner.values()[c as int]).contains(
                    d,
                ));
                assert(u.contains(d));
                assert(condition_docids(ctx, g.conditions_interner.values()[c as int]).intersect(
                    u,
                ).contains(d));
                assert(false);
            } else {
                lemma_path_survives_forward(g, g2, ctx, u, c, root, p);
                assert(path_docids(g2, ctx, u, p).contains(d));
                assert(cost_bucket(g2, ctx, u, cost).contains(d));
            }
        }
    }
    assert(cost_bucket(g2, ctx, u, cost) =~= cost_bucket(g, ctx, u, cost));
}

/// The driver that delivers `(cost, bitmap)` buckets in strictly
/// increasing cost order.
pub struct CheapestPathsState {
    pub cur_cost: u32,
}

impl CheapestPathsState {
    pub fn new() -> (r: CheapestPathsState)
        ensures
            r.cur_cost == 0,
    {
        CheapestPathsState { cur_cost: 0 }
    }

    /// Deliver the bucket for the current cost: the union, over every
    /// valid source-to-sink path of that exact cost, of the documents of
    /// the universe satisfying all the path's conditions. Known dead ends
    /// are pruned, which loses nothing since their document sets are empty;
    /// paths found empty are recorded as new dead-end markers. Costs
    /// strictly increase call to call, and enumeration reports exhaustion
    /// once the cost counter passes the largest total any path can have.
    #[verifier::rlimit(60)]
    pub fn next_bucket(
        &mut self,
        g: &RankingRuleGraph,
        ctx: &SearchContext,
        docids_cache: &mut EdgeConditionDocIdsCache,
        dead_ends: &mut DeadEndPathCache,
        universe: &roaring::RoaringBitmap,
        cancelled: bool,
    ) -> (r: Result<Option<(u32, roaring::RoaringBitmap)>, EngineError>)
        requires
            g.wf(),
            edges_forward(*g),
            old(docids_cache).wf(*ctx, g.conditions_interner.values()),
            g.conditions_interner.values().len() <= 65535,
            old(dead_ends).wf(g.conditions_interner.values().len() as int),
            old(dead_ends).is_antichain(),
            dead_ends_sound(*old(dead_ends), *g, *ctx, bitmap_as_set(*universe)),
        ensures
            final(docids_cache).wf(*ctx, g.conditions_interner.values()),
            final(dead_ends).wf(g.conditions_interner.values().len() as int),
            final(dead_ends).is_antichain(),
            dead_ends_sound(*final(dead_ends), *g, *ctx, bitmap_as_set(*universe)),
            cancelled ==> (r matches Err(e) && e == EngineError::Cancelled) && *final(self) == *old(
                self,
            ) && *final(dead_ends) == *old(dead_ends) && *final(docids_cache) == *old(docids_cache),
            !cancelled ==> r is Ok,
            !cancelled && old(self).cur_cost > 0xFFFFFF ==> (r matches Ok(b) && b is None),
            r matches Ok(Some(b)) ==> {
                &&& b.0 == old(self).cur_cost
                &&& final(self).cur_cost == old(self).cur_cost + 1
                &&& bitmap_as_set(b.1).subset_of(bitmap_as_set(*universe))
                &&& bitmap_as_set(b.1) == cost_bucket(*g, *ctx, bitmap_as_set(*universe), b.0 as int)
            },
            r matches Ok(None) ==> {
                &&& *final(self) == *old(self)
                &&& old(self).cur_cost > 0xFFFFFF
                &&& forall|p: Seq<u16>|
                    valid_path(*g, g.query_graph.root_node as int, p) ==> #[trigger] path_cost(
                        *g,
                        p,
                    ) < old(self).cur_cost
            },
    {
        if cancelled {
            return Result::Err(EngineError::Cancelled);
        }
        if self.cur_cost > 0xFFFFFF {
            // The sink is unreachable at this cost and at every higher one:
            // a path visits strictly increasing nodes, so no total cost can
            // exceed the node count times the largest edge cost.
            proof {
                assert forall|p: Seq<u16>|
                    valid_path(*g, g.query_graph.root_node as int, p) implies #[trigger] path_cost(
                    *g,
                    p,
                ) < self.cur_cost by {
                    lemma_path_cost_bound(*g, g.query_graph.root_node as int, p);
                }
            }
            return Result::Ok(Option::None);
        }
        let ghost u_set = bitmap_as_set(*universe);
        let n_conditions = g.conditions_interner.len() as u16;
        let cost = self.cur_cost;
        let paths = paths_of_cost(g, g.query_graph.root_node, cost);
        let ghost paths_view = paths@.map_values(|v: Vec<u16>| v@);
        let mut bucket = crate::docids::bitmap_new();
        let n_paths = paths.len();
        let mut k: usize = 0;
        while k < n_paths
            invariant
                g.wf(),
                edges_forward(*g),
                u_set == bitmap_as_set(*universe),
                g.conditions_interner.values().len() == n_conditions,
                n_conditions <= 65535,
                docids_cache.wf(*ctx, g.conditions_interner.values()),
                dead_ends.wf(n_conditions as int),
                dead_ends.is_antichain(),
                dead_ends_sound(*dead_ends, *g, *ctx, u_set),
                n_paths == paths@.len(),
                paths_view == paths@.map_values(|v: Vec<u16>| v@),
                k <= n_paths,
                forall|k2: int|
                    0 <= k2 < n_paths ==> valid_path(
                        *g,
                        g.query_graph.root_node as int,
                        (#[trigger] paths@[k2])@,
                    ),
                bitmap_as_set(bucket).subset_of(u_set),
                bucket_union_from(*g, *ctx, u_set, paths_view, 0) =~= bitmap_as_set(bucket).union(
                    bucket_union_from(*g, *ctx, u_set, paths_view, k as int),
                ),
            decreases n_paths - k,
        {
            let p = &paths[k];
            proof {
                lemma_valid_path_edges_live(*g, g.query_graph.root_node as int, p@);
                assert(paths_view[k as int] == p@);
            }
            let conds = path_conditions(g, p, n_conditions);
            proof {
                lemma_path_docids_as_cond_set(*g, *ctx, u_set, p@, conds);
            }
            if !dead_ends.forbids(&conds, n_conditions) {
                let mut docids = bitmap_clone(universe);
                let n_e = p.len();
                let mut c: usize = 0;
                proof {
                    lemma_path_docids_in_universe(*g, *ctx, u_set, p@);
                    assert(p@.skip(0) =~= p@);
                    assert(path_docids(*g, *ctx, u_set, p@) =~= bitmap_as_set(docids).intersect(
                        path_docids(*g, *ctx, u_set, p@.skip(0)),
                    ));
                }
                while c < n_e
                    invariant
                        g.wf(),
                        u_set == bitmap_as_set(*universe),
                        g.conditions_interner.values().len() == n_conditions,
                        docids_cache.wf(*ctx, g.conditions_interner.values()),
                        n_e == p@.len(),
                        c <= n_e,
                        forall|k2: int| 0 <= k2 < n_e ==> g.live_edge(#[trigger] p@[k2] as int),
                        bitmap_as_set(docids).subset_of(u_set),
                        path_docids(*g, *ctx, u_set, p@) =~= bitmap_as_set(docids).intersect(
                            path_docids(*g, *ctx, u_set, p@.skip(c as int)),
                        ),
                    decreases n_e - c,
                {
                    let eid = p[c];
                    let ghost pre_docids = bitmap_as_set(docids);
                    let cond = match &g.edges_store[eid as usize] {
                        Option::Some(edge) => edge.condition,
                        Option::None => {
                            proof {
                                assert(false);
                            }
                            Option::None
                        },
                    };
                    proof {
                        assert(p@.skip(c as int)[0] == p@[c as int]);
                        assert(p@.skip(c as int).skip(1) =~= p@.skip(c as int + 1));
                    }
                    match cond {
                        Option::Some(h) => {
                            proof {
                                assert(g.edge_at(eid as int).condition == Option::Some(h));
                            }
                            let resolved = docids_cache.get_docids(
                                ctx,
                                &g.conditions_interner,
                                h,
                                universe,
                            );
                            bitmap_and_assign(&mut docids, &resolved);
                            proof {
                                lemma_path_docids_in_universe(
                                    *g,
                                    *ctx,
                                    u_set,
                                    p@.skip(c as int + 1),
                                );
                                assert(path_docids(*g, *ctx, u_set, p@) =~= bitmap_as_set(
                                    docids,
                                ).intersect(path_docids(*g, *ctx, u_set, p@.skip(c as int + 1))));
                            }
                        },
                        Option::None => {},
                    }
                    c = c + 1;
                }
                proof {
                    assert(p@.skip(n_e as int) =~= Seq::<u16>::empty());
                    assert(path_docids(*g, *ctx, u_set, p@) =~= bitmap_as_set(docids));
                }
                if bitmap_is_empty(&docids) {
                    let ghost pre_de = *dead_ends;
                    dead_ends.insert(conds, n_conditions);
                    proof {
                        assert forall|m: SmallBitmap| #[trigger] dead_ends.forbids_spec(m) implies (
                        forall|d: u32| !cond_set_docids(*g, *ctx, u_set, m).contains(d)) by {
                            if !pre_de.forbids_spec(m) {
                                assert(crate::dead_end::contained_in(conds, m));
                                lemma_cond_set_monotone(*g, *ctx, u_set, conds, m);
                                assert forall|d: u32|
                                    !cond_set_docids(*g, *ctx, u_set, m).contains(d) by {
                                    if cond_set_docids(*g, *ctx, u_set, m).contains(d) {
                                        assert(cond_set_docids(*g, *ctx, u_set, conds).contains(d));
                                        assert(bitmap_as_set(docids).contains(d));
                                    }
                                }
                            }
                        }
                        assert(path_docids(*g, *ctx, u_set, paths_view[k as int]) =~= Set::<
                            u32,
                        >::empty());
                    }
                } else {
                    bitmap_or_assign(&mut bucket, &docids);
                }
            } else {
                proof {
                    assert(dead_ends.forbids_spec(conds));
                    assert forall|d: u32|
                        !path_docids(*g, *ctx, u_set, paths_view[k as int]).contains(d) by {
                        if cond_set_docids(*g, *ctx, u_set, conds).contains(d) {
                            assert(!cond_set_docids(*g, *ctx, u_set, conds).contains(d));
                        }
                    }
                }
            }
            proof {
                assert(bucket_union_from(*g, *ctx, u_set, paths_view, k as int) =~= path_docids(
                    *g,
                    *ctx,
                    u_set,
                    paths_view[k as int],
                ).union(bucket_union_from(*g, *ctx, u_set, paths_view, k as int + 1)));
                assert(bucket_union_from(*g, *ctx, u_set, paths_view, 0) =~= bitmap_as_set(
                    bucket,
                ).union(bucket_union_from(*g, *ctx, u_set, paths_view, k as int + 1)));
            }
            k = k + 1;
        }
        proof {
            assert(bucket_union_from(*g, *ctx, u_set, paths_view, n_paths as int) =~= Set::<
                u32,
            >::empty());
            assert(bitmap_as_set(bucket) =~= bucket_union_from(*g, *ctx, u_set, paths_view, 0));
            lemma_bucket_union_char(*g, *ctx, u_set, paths_view, 0);
            let comprehension = Set::new(
                |d: u32|
                    exists|p: Seq<u16>|
                        valid_path(*g, g.query_graph.root_node as int, p) && path_cost(*g, p)
                            == cost && #[trigger] path_docids(*g, *ctx, u_set, p).contains(d),
            );
            assert forall|d: u32|
                bitmap_as_set(bucket).contains(d) == comprehension.contains(d) by {
                if bitmap_as_set(bucket).contains(d) {
                    let j0 = choose|j2: int|
                        0 <= j2 < paths_view.len() && path_docids(
                            *g,
                            *ctx,
                            u_set,
                            #[trigger] paths_view[j2],
                        ).contains(d);
                    assert(paths_view[j0] == paths@[j0]@);
                    assert(valid_path(*g, g.query_graph.root_node as int, paths_view[j0])
                        && path_cost(*g, paths_view[j0]) == cost);
                    assert(comprehension.contains(d));
                }
                if comprehension.contains(d) {
                    let p0 = choose|p: Seq<u16>|
                        valid_path(*g, g.query_graph.root_node as int, p) && path_cost(*g, p)
                            == cost && #[trigger] path_docids(*g, *ctx, u_set, p).contains(d);
                    let j0 = choose|k2: int| 0 <= k2 < paths@.len() && (#[trigger] paths@[k2])@ == p0;
                    assert(paths_view[j0] == p0);
                    assert(bucket_union_from(*g, *ctx, u_set, paths_view, 0).contains(d));
                }
            }
            assert(bitmap_as_set(bucket) =~= comprehension);
            assert(comprehension =~= cost_bucket(*g, *ctx, u_set, cost as int));
        }
        self.cur_cost = cost + 1;
        Result::Ok(Option::Some((cost, bucket)))
    }
}

/// Every edge handle on a valid path is live.
proof fn lemma_valid_path_edges_live(g: RankingRuleGraph, from: int, p: Seq<u16>)
    requires
        valid_path(g, from, p),
    ensures
        forall|k: int| 0 <= k < p.len() ==> g.live_edge(#[trigger] p[k] as int),
    decreases p.len(),
{
    if p.len() > 0 {
        lemma_valid_path_edges_live(g, g.edge_at(p[0] as int).dest_node as int, p.skip(1));
        assert forall|k: int| 0 <= k < p.len() implies g.live_edge(#[trigger] p[k] as int) by {
            if k > 0 {
                assert(p.skip(1)[k - 1] == p[k]);
            }
        }
    }
}

/// Strictly increasing delivery: a sequence of costs where each is larger
/// than the one before never repeats a value.
pub proof fn lemma_monotone_costs(costs: Seq<int>)
    requires
        forall|i: int| 0 <= i < costs.len() - 1 ==> #[trigger] costs[i] < costs[i + 1],
    ensures
        forall|i: int, j: int| 0 <= i < j < costs.len() ==> costs[i] < costs[j],
    decreases costs.len(),
{
    if costs.len() > 1 {
        let dl = costs.drop_last();
        assert forall|i2: int| 0 <= i2 < dl.len() - 1 implies #[trigger] dl[i2] < dl[i2 + 1] by {
            assert(dl[i2] == costs[i2] && dl[i2 + 1] == costs[i2 + 1]);
        }
        lemma_monotone_costs(dl);
        assert forall|i: int, j: int| 0 <= i < j < costs.len() implies costs[i] < costs[j] by {
            if j == costs.len() - 1 {
                if i == j - 1 {
                    assert(costs[i] < costs[j]);
                } else {
                    assert(dl[i] == costs[i] && dl[j - 1] == costs[j - 1]);
                    assert(dl[i] < dl[j - 1]);
                    assert(costs[j - 1] < costs[j]);
                }
            } else {
                assert(dl[i] == costs[i] && dl[j] == costs[j]);
            }
        }
    }
}

} // verus!
