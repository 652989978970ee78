//! The ranking-rule graph: the query graph re-edged by one ranking rule.
//!
//! The graph owns a tombstone edge table, a per-node index of outgoing
//! edges, and the interner of edge conditions. The per-node index is kept
//! consistent with the table: a node's bitmap holds exactly the live edges
//! leaving it.

use crate::condition::Condition;
use crate::interner::{DedupInterner, FixedSizeInterner};
use crate::query_graph::{QueryGraph, QueryNode, QueryNodeData};
use crate::small_bitmap::SmallBitmap;
use vstd::prelude::*;

verus! {

/// The closed set of graph-based ranking rules.
#[derive(Clone, Copy, PartialEq, Eq, Structural, Debug)]
pub enum RuleKind {
    Proximity,
    Typo,
}

/// An edge in the ranking rule graph: source and destination query nodes,
/// a traversal cost, and an optional condition handle. A condition-free
/// edge is unconditionally satisfied; its cost still applies.
#[derive(Clone, Copy)]
pub struct Edge {
    pub source_node: u16,
    pub dest_node: u16,
    pub cost: u8,
    pub condition: Option<u16>,
}

impl PartialEq for Edge {
    fn eq(&self, other: &Self) -> (r: bool) {
        self.source_node == other.source_node && self.dest_node == other.dest_node && self.cost
            == other.cost && (match (self.condition, other.condition) {
            (Option::None, Option::None) => true,
            (Option::Some(a), Option::Some(b)) => a == b,
            _ => false,
        })
    }
}

impl vstd::std_specs::cmp::PartialEqSpecImpl for Edge {
    open spec fn obeys_eq_spec() -> bool {
        true
    }

    open spec fn eq_spec(&self, other: &Edge) -> bool {
        self.source_node == other.source_node && self.dest_node == other.dest_node && self.cost
            == other.cost && self.condition == other.condition
    }
}

impl Eq for Edge {

}

/// The list of `(cost, optional condition)` edges a rule contributes
/// between two query nodes. Between two term nodes, the proximity rule
/// contributes one edge per gap in `1..=8` at cost `gap - 1`, and the typo
/// rule one edge per typo count in `0..=2` at that cost on the destination
/// term; every other pair gets one free edge of cost zero.
pub open spec fn rule_edges(rule: RuleKind, src: QueryNodeData, dst: QueryNodeData) -> Seq<
    (u8, Option<Condition>),
> {
    match rule {
        RuleKind::Proximity => match (src, dst) {
            (
                QueryNodeData::Term { term_handle: a },
                QueryNodeData::Term { term_handle: b },
            ) => Seq::new(
                8,
                |k: int|
                    (
                        k as u8,
                        Option::Some(
                            Condition::Proximity { left_term: a, right_term: b, gap: (k + 1) as u8 },
                        ),
                    ),
            ),
            _ => seq![(0u8, Option::None)],
        },
        RuleKind::Typo => match dst {
            QueryNodeData::Term { term_handle: t } => Seq::new(
                3,
                |k: int| (k as u8, Option::Some(Condition::Typo { term: t, n_typos: k as u8 })),
            ),
            _ => seq![(0u8, Option::None)],
        },
    }
}

/// Whether the concrete edge entry `(cost, cond)` realises the rule entry
/// `entry` under the interner contents `inter`.
pub open spec fn entry_matches(
    entry: (u8, Option<Condition>),
    cost: u8,
    cond: Option<u16>,
    inter: Seq<Condition>,
) -> bool {
    &&& cost == entry.0
    &&& match entry.1 {
        Option::None => cond is None,
        Option::Some(cv) => cond matches Option::Some(h) && h < inter.len() && inter[h as int]
            == cv,
    }
}

/// Ask the rule for the edges it contributes from `src` to `dst`,
/// interning each condition.
pub fn build_edges(
    rule: RuleKind,
    conditions_interner: &mut DedupInterner,
    src: &QueryNodeData,
    dst: &QueryNodeData,
) -> (r: Vec<(u8, Option<u16>)>)
    requires
        old(conditions_interner).values().len() <= 65500,
    ensures
        final(conditions_interner).values().len() <= old(conditions_interner).values().len() + 8,
        final(conditions_interner).values().len() >= old(conditions_interner).values().len(),
        forall|i: int|
            0 <= i < old(conditions_interner).values().len()
                ==> #[trigger] final(conditions_interner).values()[i] == old(
                conditions_interner,
            ).values()[i],
        r@.len() == rule_edges(rule, *src, *dst).len(),
        forall|k: int|
            0 <= k < r@.len() ==> entry_matches(
                rule_edges(rule, *src, *dst)[k],
                (#[trigger] r@[k]).0,
                r@[k].1,
                final(conditions_interner).values(),
            ),
{
    let ghost spec_entries = rule_edges(rule, *src, *dst);
    let mut r: Vec<(u8, Option<u16>)> = Vec::new();
    match rule {
        RuleKind::Proximity => {
            match (src, dst) {
                (
                    QueryNodeData::Term { term_handle: a },
                    QueryNodeData::Term { term_handle: b },
                ) => {
                    let mut gap: u8 = 1;
                    while gap <= 8
                        invariant
                            spec_entries == rule_edges(rule, *src, *dst),
                            spec_entries.len() == 8,
                            1 <= gap <= 9,
                            r@.len() == gap - 1,
                            old(conditions_interner).values().len() <= 65500,
                            conditions_interner.values().len() <= old(
                                conditions_interner,
                            ).values().len() + gap - 1,
                            conditions_interner.values().len() >= old(
                                conditions_interner,
                            ).values().len(),
                            forall|i: int|
                                0 <= i < old(conditions_interner).values().len()
                                    ==> #[trigger] conditions_interner.values()[i] == old(
                                    conditions_interner,
                                ).values()[i],
                            forall|k: int|
                                0 <= k < r@.len() ==> entry_matches(
                                    spec_entries[k],
                                    (#[trigger] r@[k]).0,
                                    r@[k].1,
                                    conditions_interner.values(),
                                ),
                            rule == RuleKind::Proximity,
                            *src == (QueryNodeData::Term { term_handle: *a }),
                            *dst == (QueryNodeData::Term { term_handle: *b }),
                        decreases 9 - gap,
                    {
                        let ghost pre = conditions_interner.values();
                        let h = conditions_interner.intern(
                            Condition::Proximity { left_term: *a, right_term: *b, gap },
                        );
                        r.push((gap - 1, Option::Some(h)));
                        proof {
                            assert forall|k: int| 0 <= k < r@.len() implies entry_matches(
                                spec_entries[k],
                                (#[trigger] r@[k]).0,
                                r@[k].1,
                                conditions_interner.values(),
                            ) by {
                                if k < r@.len() - 1 {
                                    assert(entry_matches(spec_entries[k], r@[k].0, r@[k].1, pre));
                                    let hk = r@[k].1->0;
                                    assert(conditions_interner.values()[hk as int] == pre[hk as int]);
                                }
                            }
                        }
                        gap = gap + 1;
                    }
                },
                _ => {
                    r.push((0u8, Option::None));
                },
            }
        },
        RuleKind::Typo => {
            match dst {
                QueryNodeData::Term { term_handle: t } => {
                    let mut n: u8 = 0;
                    while n <= 2
                        invariant
                            spec_entries == rule_edges(rule, *src, *dst),
                            spec_entries.len() == 3,
                            n <= 3,
                            r@.len() == n,
                            old(conditions_interner).values().len() <= 65500,
                            conditions_interner.values().len() <= old(
                                conditions_interner,
                            ).values().len() + n,
                            conditions_interner.values().len() >= old(
                                conditions_interner,
                            ).values().len(),
                            forall|i: int|
                                0 <= i < old(conditions_interner).values().len()
                                    ==> #[trigger] conditions_interner.values()[i] == old(
                                    conditions_interner,
                                ).values()[i],
                            forall|k: int|
                                0 <= k < r@.len() ==> entry_matches(
                                    spec_entries[k],
                                    (#[trigger] r@[k]).0,
                                    r@[k].1,
                                    conditions_interner.values(),
                                ),
                            rule == RuleKind::Typo,
                            *dst == (QueryNodeData::Term { term_handle: *t }),
                        decreases 3 - n,
                    {
                        let ghost pre = conditions_interner.values();
                        let h = conditions_interner.intern(
                            Condition::Typo { term: *t, n_typos: n },
                        );
                        r.push((n, Option::Some(h)));
                        proof {
                            assert forall|k: int| 0 <= k < r@.len() implies entry_matches(
                                spec_entries[k],
                                (#[trigger] r@[k]).0,
                                r@[k].1,
                                conditions_interner.values(),
                            ) by {
                                if k < r@.len() - 1 {
                                    assert(entry_matches(spec_entries[k], r@[k].0, r@[k].1, pre));
                                    let hk = r@[k].1->0;
                                    assert(conditions_interner.values()[hk as int] == pre[hk as int]);
                                }
                            }
                        }
                        n = n + 1;
                    }
                },
                _ => {
                    r.push((0u8, Option::None));
                },
            }
        },
    }
    r
}

/// The graph used by the graph-based ranking rules: built on a query graph,
/// keeping its nodes but replacing the edges.
pub struct RankingRuleGraph {
    pub query_graph: QueryGraph,
    pub edges_store: Vec<Option<Edge>>,
    pub edges_of_node: Vec<SmallBitmap>,
    pub conditions_interner: FixedSizeInterner<Condition>,
}

/// The edge `e` joins a query-graph edge and realises one of the entries the
/// rule contributes for that node pair, under interner contents `inter`.
pub open spec fn edge_sound(rule: RuleKind, qg: QueryGraph, inter: Seq<Condition>, e: Edge) -> bool {
    &&& qg.qg_edge(e.source_node as int, e.dest_node as int)
    &&& exists|k: int|
        0 <= k < rule_edges(
            rule,
            qg.nodes@[e.source_node as int].data,
            qg.nodes@[e.dest_node as int].data,
        ).len() && entry_matches(
            #[trigger] rule_edges(
                rule,
                qg.nodes@[e.source_node as int].data,
                qg.nodes@[e.dest_node as int].data,
            )[k],
            e.cost,
            e.condition,
            inter,
        )
}

proof fn lemma_edge_sound_monotone(
    rule: RuleKind,
    qg: QueryGraph,
    inter1: Seq<Condition>,
    inter2: Seq<Condition>,
    e: Edge,
)
    requires
        edge_sound(rule, qg, inter1, e),
        inter2.len() >= inter1.len(),
        forall|i: int| 0 <= i < inter1.len() ==> #[trigger] inter2[i] == inter1[i],
    ensures
        edge_sound(rule, qg, inter2, e),
{
    let entries = rule_edges(
        rule,
        qg.nodes@[e.source_node as int].data,
        qg.nodes@[e.dest_node as int].data,
    );
    let k = choose|k: int|
        0 <= k < entries.len() && entry_matches(#[trigger] entries[k], e.cost, e.condition, inter1);
    assert(entry_matches(entries[k], e.cost, e.condition, inter2));
}

/// Entry `k` of the rule's list for the node pair `(i, j)` is realised by
/// some edge of `edges` under the interner contents `inter`.
pub open spec fn pair_realized_in(
    rule: RuleKind,
    qg: QueryGraph,
    inter: Seq<Condition>,
    edges: Seq<Edge>,
    i: int,
    j: int,
    k: int,
) -> bool {
    exists|e2: int|
        #![trigger edges[e2]]
        0 <= e2 < edges.len() && edges[e2].source_node == i && edges[e2].dest_node == j
            && entry_matches(
            rule_edges(rule, qg.nodes@[i].data, qg.nodes@[j].data)[k],
            edges[e2].cost,
            edges[e2].condition,
            inter,
        )
}

/// Realisation survives growing the interner (prefix kept) and the edge
/// list (entries kept).
proof fn lemma_realized_preserved(
    rule: RuleKind,
    qg: QueryGraph,
    inter1: Seq<Condition>,
    inter2: Seq<Condition>,
    edges1: Seq<Edge>,
    edges2: Seq<Edge>,
    i: int,
    j: int,
    k: int,
)
    requires
        pair_realized_in(rule, qg, inter1, edges1, i, j, k),
        inter2.len() >= inter1.len(),
        forall|x: int| 0 <= x < inter1.len() ==> #[trigger] inter2[x] == inter1[x],
        edges2.len() >= edges1.len(),
        forall|x: int| 0 <= x < edges1.len() ==> #[trigger] edges2[x] == edges1[x],
    ensures
        pair_realized_in(rule, qg, inter2, edges2, i, j, k),
{
    let e2 = choose|e2: int|
        #![trigger edges1[e2]]
        0 <= e2 < edges1.len() && edges1[e2].source_node == i && edges1[e2].dest_node == j
            && entry_matches(
            rule_edges(rule, qg.nodes@[i].data, qg.nodes@[j].data)[k],
            edges1[e2].cost,
            edges1[e2].condition,
            inter1,
        );
    assert(edges2[e2] == edges1[e2]);
    assert(entry_matches(
        rule_edges(rule, qg.nodes@[i].data, qg.nodes@[j].data)[k],
        edges2[e2].cost,
        edges2[e2].condition,
        inter2,
    ));
}

impl RankingRuleGraph {
    /// Entry `k` of the rule's list for the node pair `(i, j)` stands as a
    /// live edge of the graph.
    pub open spec fn pair_realized(self, rule: RuleKind, i: int, j: int, k: int) -> bool {
        exists|eid: int|
            #![trigger self.edge_at(eid)]
            self.live_edge(eid) && self.edge_at(eid).source_node == i && self.edge_at(
                eid,
            ).dest_node == j && entry_matches(
                rule_edges(rule, self.query_graph.nodes@[i].data, self.query_graph.nodes@[j].data)[k],
                self.edge_at(eid).cost,
                self.edge_at(eid).condition,
                self.conditions_interner.values(),
            )
    }

    /// Every edge the rule contributes for some query-graph edge is
    /// present: the "those, and only those" half of construction.
    pub open spec fn rule_complete(self, rule: RuleKind) -> bool {
        forall|i: int, j: int, k: int|
            self.query_graph.qg_edge(i, j) && 0 <= k < rule_edges(
                rule,
                self.query_graph.nodes@[i].data,
                self.query_graph.nodes@[j].data,
            ).len() ==> #[trigger] self.pair_realized(rule, i, j, k)
    }
}

/// A strictly increasing list of values below `n` has at most `n` entries.
proof fn lemma_strictly_increasing_len(v: Seq<u16>, n: int)
    requires
        forall|k1: int, k2: int| 0 <= k1 < k2 < v.len() ==> v[k1] < v[k2],
        forall|k: int| 0 <= k < v.len() ==> v[k] < n,
        n >= 0,
    ensures
        v.len() <= n,
    decreases v.len(),
{
    if v.len() > 0 {
        let front = v.drop_last();
        assert(0 <= v[v.len() - 1] < n);
        assert forall|k: int| 0 <= k < front.len() implies front[k] < n - 1 by {
            assert(front[k] == v[k]);
            assert(v[k] < v[v.len() - 1]);
        }
        lemma_strictly_increasing_len(front, n - 1);
    }
}

impl RankingRuleGraph {
    /// Whether edge handle `eid` holds a live edge.
    pub open spec fn live_edge(self, eid: int) -> bool {
        0 <= eid < self.edges_store@.len() && self.edges_store@[eid] is Some
    }

    pub open spec fn edge_at(self, eid: int) -> Edge {
        self.edges_store@[eid]->0
    }

    /// Every live edge joins valid query nodes, and its condition handle is
    /// valid for the interner.
    pub open spec fn edges_valid(self) -> bool {
        forall|eid: int|
            #[trigger] self.live_edge(eid) ==> {
                &&& self.edge_at(eid).source_node < self.query_graph.node_count()
                &&& self.edge_at(eid).dest_node < self.query_graph.node_count()
                &&& (self.edge_at(eid).condition matches Option::Some(h) ==> h
                    < self.conditions_interner.values().len())
            }
    }

    /// The per-node outgoing index holds exactly the live edges leaving the
    /// node.
    pub open spec fn index_consistent(self) -> bool {
        forall|n: int, eid: int|
            0 <= n < self.edges_of_node@.len() ==> ((#[trigger] self.edges_of_node@[n].has(eid))
                <==> (self.live_edge(eid) && self.edge_at(eid).source_node == n))
    }

    pub open spec fn wf(self) -> bool {
        &&& self.query_graph.wf()
        &&& self.edges_store@.len() <= 65535
        &&& self.edges_of_node@.len() == self.query_graph.node_count()
        &&& forall|n: int|
            0 <= n < self.edges_of_node@.len() ==> (#[trigger] self.edges_of_node@[n]).wf()
                && self.edges_of_node@[n].universe_len() == self.edges_store@.len()
        &&& self.edges_valid()
        &&& self.index_consistent()
    }

    /// Build the ranking-rule graph for one rule over a query graph: for
    /// every query-graph edge, intern and append the edges the rule
    /// contributes. Returns `None` if the condition or edge capacity of the
    /// dense `u16` handle spaces would be exceeded.
    pub fn build(query_graph: QueryGraph, rule: RuleKind) -> (r: Option<RankingRuleGraph>)
        requires
            query_graph.wf(),
        ensures
            query_graph.node_count() <= 90 ==> r is Some,
            r matches Some(g) ==> {
                &&& g.wf()
                &&& g.query_graph == query_graph
                &&& forall|eid: int| 0 <= eid < g.edges_store@.len() ==> g.live_edge(eid)
                &&& forall|eid: int|
                    #[trigger] g.live_edge(eid) ==> edge_sound(
                        rule,
                        query_graph,
                        g.conditions_interner.values(),
                        g.edge_at(eid),
                    )
                &&& g.rule_complete(rule)
            },
    {
        let n = query_graph.nodes.len();
        let mut conditions_interner = DedupInterner::new();
        let mut edges: Vec<Edge> = Vec::new();
        let mut i: usize = 0;
        while i < n
            invariant
                query_graph.wf(),
                n == query_graph.node_count(),
                i <= n,
                edges@.len() <= 65535,
                edges@.len() <= 8 * (n * i),
                conditions_interner.values().len() <= 8 * (n * i),
                forall|e2: int|
                    0 <= e2 < edges@.len() ==> edge_sound(
                        rule,
                        query_graph,
                        conditions_interner.values(),
                        #[trigger] edges@[e2],
                    ),
                forall|i2: int, j2: int, k2: int|
                    0 <= i2 < i && query_graph.qg_edge(i2, j2) && 0 <= k2 < rule_edges(
                        rule,
                        query_graph.nodes@[i2].data,
                        query_graph.nodes@[j2].data,
                    ).len() ==> #[trigger] pair_realized_in(
                        rule,
                        query_graph,
                        conditions_interner.values(),
                        edges@,
                        i2,
                        j2,
                        k2,
                    ),
            decreases n - i,
        {
            let succ = query_graph.nodes[i].successors.to_vec();
            let m = succ.len();
            proof {
                lemma_strictly_increasing_len(succ@, n as int);
            }
            let mut s: usize = 0;
            while s < m
                invariant
                    query_graph.wf(),
                    n == query_graph.node_count(),
                    i < n,
                    m == succ@.len(),
                    m <= n,
                    s <= m,
                    edges@.len() <= 65535,
                    edges@.len() <= 8 * (n * i + s),
                    conditions_interner.values().len() <= 8 * (n * i + s),
                    forall|k: int| 0 <= k < m ==> query_graph.qg_edge(i as int, #[trigger] succ@[k] as int),
                    forall|j2: int|
                        #[trigger] query_graph.nodes@[i as int].successors.has(j2) ==> exists|
                            s2: int,
                        | 0 <= s2 < m && succ@[s2] == j2,
                    forall|e2: int|
                        0 <= e2 < edges@.len() ==> edge_sound(
                            rule,
                            query_graph,
                            conditions_interner.values(),
                            #[trigger] edges@[e2],
                        ),
                    forall|i2: int, j2: int, k2: int|
                        0 <= i2 < i && query_graph.qg_edge(i2, j2) && 0 <= k2 < rule_edges(
                            rule,
                            query_graph.nodes@[i2].data,
                            query_graph.nodes@[j2].data,
                        ).len() ==> #[trigger] pair_realized_in(
                            rule,
                            query_graph,
                            conditions_interner.values(),
                            edges@,
                            i2,
                            j2,
                            k2,
                        ),
                    forall|s2: int, k2: int|
                        0 <= s2 < s && 0 <= k2 < rule_edges(
                            rule,
                            query_graph.nodes@[i as int].data,
                            query_graph.nodes@[succ@[s2] as int].data,
                        ).len() ==> #[trigger] pair_realized_in(
                            rule,
                            query_graph,
                            conditions_interner.values(),
                            edges@,
                            i as int,
                            succ@[s2] as int,
                            k2,
                        ),
                decreases m - s,
            {
                let j = succ[s];
                if conditions_interner.len() > 65500 {
                    proof {
                        assert(8 * (n * i + s) <= 8 * (n * n)) by (nonlinear_arith)
                            requires
                                0 <= i < n,
                                0 <= s <= m <= n,
                        ;
                        assert(n > 90) by (nonlinear_arith)
                            requires
                                65500 < 8 * (n * n),
                                n >= 0,
                        ;
                    }
                    return Option::None;
                }
                let ghost pre_inter = conditions_interner.values();
                let src_data = query_graph.nodes[i].data;
                let dst_data = query_graph.nodes[j as usize].data;
                let new_edges = build_edges(rule, &mut conditions_interner, &src_data, &dst_data);
                proof {
                    assert forall|e2: int| 0 <= e2 < edges@.len() implies edge_sound(
                        rule,
                        query_graph,
                        conditions_interner.values(),
                        #[trigger] edges@[e2],
                    ) by {
                        lemma_edge_sound_monotone(
                            rule,
                            query_graph,
                            pre_inter,
                            conditions_interner.values(),
                            edges@[e2],
                        );
                    }
                    assert forall|i2: int, j2: int, k2: int|
                        0 <= i2 < i && query_graph.qg_edge(i2, j2) && 0 <= k2 < rule_edges(
                            rule,
                            query_graph.nodes@[i2].data,
                            query_graph.nodes@[j2].data,
                        ).len() implies #[trigger] pair_realized_in(
                        rule,
                        query_graph,
                        conditions_interner.values(),
                        edges@,
                        i2,
                        j2,
                        k2,
                    ) by {
                        lemma_realized_preserved(
                            rule,
                            query_graph,
                            pre_inter,
                            conditions_interner.values(),
                            edges@,
                            edges@,
                            i2,
                            j2,
                            k2,
                        );
                    }
                    assert forall|s2: int, k2: int|
                        0 <= s2 < s && 0 <= k2 < rule_edges(
                            rule,
                            query_graph.nodes@[i as int].data,
                            query_graph.nodes@[succ@[s2] as int].data,
                        ).len() implies #[trigger] pair_realized_in(
                        rule,
                        query_graph,
                        conditions_interner.values(),
                        edges@,
                        i as int,
                        succ@[s2] as int,
                        k2,
                    ) by {
                        lemma_realized_preserved(
                            rule,
                            query_graph,
                            pre_inter,
                            conditions_interner.values(),
                            edges@,
                            edges@,
                            i as int,
                            succ@[s2] as int,
                            k2,
                        );
                    }
                }
                let p = new_edges.len();
                let mut k: usize = 0;
                while k < p
                    invariant
                        query_graph.wf(),
                        n == query_graph.node_count(),
                        i < n,
                        (j as int) < n,
                        query_graph.qg_edge(i as int, j as int),
                        src_data == query_graph.nodes@[i as int].data,
                        dst_data == query_graph.nodes@[j as int].data,
                        p == new_edges@.len(),
                        k <= p,
                        p == rule_edges(rule, src_data, dst_data).len(),
                        p <= 8,
                        edges@.len() <= 8 * (n * i + s) + k,
                        conditions_interner.values().len() <= 8 * (n * i + s + 1),
                        m <= n,
                        s < m,
                        forall|k2: int|
                            0 <= k2 < p ==> entry_matches(
                                rule_edges(rule, src_data, dst_data)[k2],
                                (#[trigger] new_edges@[k2]).0,
                                new_edges@[k2].1,
                                conditions_interner.values(),
                            ),
                        edges@.len() <= 65535,
                        forall|e2: int|
                            0 <= e2 < edges@.len() ==> edge_sound(
                                rule,
                                query_graph,
                                conditions_interner.values(),
                                #[trigger] edges@[e2],
                            ),
                        forall|i2: int, j2: int, k2: int|
                            0 <= i2 < i && query_graph.qg_edge(i2, j2) && 0 <= k2 < rule_edges(
                                rule,
                                query_graph.nodes@[i2].data,
                                query_graph.nodes@[j2].data,
                            ).len() ==> #[trigger] pair_realized_in(
                                rule,
                                query_graph,
                                conditions_interner.values(),
                                edges@,
                                i2,
                                j2,
                                k2,
                            ),
                        forall|s2: int, k2: int|
                            0 <= s2 < s && 0 <= k2 < rule_edges(
                                rule,
                                query_graph.nodes@[i as int].data,
                                query_graph.nodes@[succ@[s2] as int].data,
                            ).len() ==> #[trigger] pair_realized_in(
                                rule,
                                query_graph,
                                conditions_interner.values(),
                                edges@,
                                i as int,
                                succ@[s2] as int,
                                k2,
                            ),
                        forall|k2: int|
                            0 <= k2 < k ==> #[trigger] pair_realized_in(
                                rule,
                                query_graph,
                                conditions_interner.values(),
                                edges@,
                                i as int,
                                j as int,
                                k2,
                            ),
                    decreases p - k,
                {
                    if edges.len() >= 65535 {
                        proof {
                            assert(8 * (n * i + s) + k <= 8 * (n * n)) by (nonlinear_arith)
                                requires
                                    0 <= i < n,
                                    0 <= s < m <= n,
                                    0 <= k < p <= 8,
                            ;
                            assert(n > 90) by (nonlinear_arith)
                                requires
                                    65535 <= 8 * (n * n),
                                    n >= 0,
                            ;
                        }
                        return Option::None;
                    }
                    let entry = new_edges[k];
                    let e = Edge {
                        source_node: i as u16,
                        dest_node: j,
                        cost: entry.0,
                        condition: entry.1,
                    };
                    proof {
                        assert(entry_matches(
                            rule_edges(rule, src_data, dst_data)[k as int],
                            e.cost,
                            e.condition,
                            conditions_interner.values(),
                        ));
                        assert(edge_sound(rule, query_graph, conditions_interner.values(), e));
                    }
                    let ghost pre_edges = edges@;
                    edges.push(e);
                    proof {
                        let iv = conditions_interner.values();
                        assert forall|i2: int, j2: int, k2: int|
                            0 <= i2 < i && query_graph.qg_edge(i2, j2) && 0 <= k2 < rule_edges(
                                rule,
                                query_graph.nodes@[i2].data,
                                query_graph.nodes@[j2].data,
                            ).len() implies #[trigger] pair_realized_in(
                            rule,
                            query_graph,
                            iv,
                            edges@,
                            i2,
                            j2,
                            k2,
                        ) by {
                            lemma_realized_preserved(
                                rule,
                                query_graph,
                                iv,
                                iv,
                                pre_edges,
                                edges@,
                                i2,
                                j2,
                                k2,
                            );
                        }
                        assert forall|s2: int, k2: int|
                            0 <= s2 < s && 0 <= k2 < rule_edges(
                                rule,
                                query_graph.nodes@[i as int].data,
                                query_graph.nodes@[succ@[s2] as int].data,
                            ).len() implies #[trigger] pair_realized_in(
                            rule,
                            query_graph,
                            iv,
                            edges@,
                            i as int,
                            succ@[s2] as int,
                            k2,
                        ) by {
                            lemma_realized_preserved(
                                rule,
                                query_graph,
                                iv,
                                iv,
                                pre_edges,
                                edges@,
                                i as int,
                                succ@[s2] as int,
                                k2,
                            );
                        }
                        assert forall|k2: int| 0 <= k2 < k + 1 implies #[trigger] pair_realized_in(
                            rule,
                            query_graph,
                            iv,
                            edges@,
                            i as int,
                            j as int,
                            k2,
                        ) by {
                            if k2 < k {
                                lemma_realized_preserved(
                                    rule,
                                    query_graph,
                                    iv,
                                    iv,
                                    pre_edges,
                                    edges@,
                                    i as int,
                                    j as int,
                                    k2,
                                );
                            } else {
                                assert(edges@[pre_edges.len() as int] == e);
                                assert(e.source_node as int == i as int);
                                assert(e.dest_node as int == j as int);
                            }
                        }
                    }
                    k = k + 1;
                }
                proof {
                    assert forall|s2: int, k2: int|
                        0 <= s2 < s + 1 && 0 <= k2 < rule_edges(
                            rule,
                            query_graph.nodes@[i as int].data,
                            query_graph.nodes@[succ@[s2] as int].data,
                        ).len() implies #[trigger] pair_realized_in(
                        rule,
                        query_graph,
                        conditions_interner.values(),
                        edges@,
                        i as int,
                        succ@[s2] as int,
                        k2,
                    ) by {
                        if s2 == s {
                            assert(succ@[s2] == j);
                            assert(pair_realized_in(
                                rule,
                                query_graph,
                                conditions_interner.values(),
                                edges@,
                                i as int,
                                j as int,
                                k2,
                            ));
                        }
                    }
                }
                s = s + 1;
            }
            proof {
                assert(n * i + m <= n * (i + 1)) by (nonlinear_arith)
                    requires
                        0 <= m <= n,
                        0 <= i,
                ;
                assert forall|i2: int, j2: int, k2: int|
                    0 <= i2 < i + 1 && query_graph.qg_edge(i2, j2) && 0 <= k2 < rule_edges(
                        rule,
                        query_graph.nodes@[i2].data,
                        query_graph.nodes@[j2].data,
                    ).len() implies #[trigger] pair_realized_in(
                    rule,
                    query_graph,
                    conditions_interner.values(),
                    edges@,
                    i2,
                    j2,
                    k2,
                ) by {
                    if i2 == i {
                        assert(query_graph.nodes@[i as int].successors.has(j2));
                        let s2 = choose|s3: int| 0 <= s3 < m && succ@[s3] == j2;
                        assert(succ@[s2] as int == j2);
                        assert(pair_realized_in(
                            rule,
                            query_graph,
                            conditions_interner.values(),
                            edges@,
                            i as int,
                            succ@[s2] as int,
                            k2,
                        ));
                    }
                }
            }
            i = i + 1;
        }
        // Second pass: the edge table and the per-node outgoing index.
        let n_edges = edges.len();
        let mut edges_of_node: Vec<SmallBitmap> = Vec::new();
        let mut i2: usize = 0;
        while i2 < n
            invariant
                n_edges <= 65535,
                i2 <= n,
                edges_of_node@.len() == i2,
                forall|n2: int|
                    0 <= n2 < i2 ==> (#[trigger] edges_of_node@[n2]).wf()
                        && edges_of_node@[n2].universe_len() == n_edges && forall|e2: int|
                        !edges_of_node@[n2].has(e2),
            decreases n - i2,
        {
            edges_of_node.push(SmallBitmap::new(n_edges as u16));
            i2 = i2 + 1;
        }
        let mut edges_store: Vec<Option<Edge>> = Vec::new();
        let mut eid: usize = 0;
        while eid < n_edges
            invariant
                n_edges == edges@.len(),
                n_edges <= 65535,
                eid <= n_edges,
                edges_store@.len() == eid,
                forall|e2: int| 0 <= e2 < eid ==> edges_store@[e2] == Option::Some(edges@[e2]),
            decreases n_edges - eid,
        {
            edges_store.push(Option::Some(edges[eid]));
            eid = eid + 1;
        }
        let ghost inter_vals = conditions_interner.values();
        let mut eid2: usize = 0;
        while eid2 < n_edges
            invariant
                query_graph.wf(),
                n == query_graph.node_count(),
                n_edges == edges@.len(),
                n_edges <= 65535,
                eid2 <= n_edges,
                edges_store@.len() == n_edges,
                forall|e2: int| 0 <= e2 < n_edges ==> edges_store@[e2] == Option::Some(edges@[e2]),
                forall|e2: int|
                    0 <= e2 < edges@.len() ==> edge_sound(
                        rule,
                        query_graph,
                        inter_vals,
                        #[trigger] edges@[e2],
                    ),
                edges_of_node@.len() == n,
                forall|n2: int|
                    0 <= n2 < n ==> (#[trigger] edges_of_node@[n2]).wf()
                        && edges_of_node@[n2].universe_len() == n_edges,
                forall|n2: int, e2: int|
                    0 <= n2 < n ==> ((#[trigger] edges_of_node@[n2].has(e2)) <==> (0 <= e2 < eid2
                        && edges@[e2].source_node == n2)),
            decreases n_edges - eid2,
        {
            let e = edges[eid2];
            proof {
                assert(edge_sound(rule, query_graph, inter_vals, edges@[eid2 as int]));
                assert((e.source_node as int) < n);
            }
            edges_of_node[e.source_node as usize].insert(eid2 as u16);
            eid2 = eid2 + 1;
        }
        let g = RankingRuleGraph {
            query_graph,
            edges_store,
            edges_of_node,
            conditions_interner: conditions_interner.freeze(),
        };
        proof {
            assert forall|eid3: int| #[trigger] g.live_edge(eid3) implies edge_sound(
                rule,
                g.query_graph,
                g.conditions_interner.values(),
                g.edge_at(eid3),
            ) by {
                assert(g.edge_at(eid3) == edges@[eid3]);
            }
            assert(g.edges_valid()) by {
                assert forall|eid3: int| #[trigger] g.live_edge(eid3) implies {
                    &&& g.edge_at(eid3).source_node < g.query_graph.node_count()
                    &&& g.edge_at(eid3).dest_node < g.query_graph.node_count()
                    &&& (g.edge_at(eid3).condition matches Option::Some(h) ==> h
                        < g.conditions_interner.values().len())
                } by {
                    let e = g.edge_at(eid3);
                    assert(edge_sound(rule, g.query_graph, g.conditions_interner.values(), e));
                    let entries = rule_edges(
                        rule,
                        g.query_graph.nodes@[e.source_node as int].data,
                        g.query_graph.nodes@[e.dest_node as int].data,
                    );
                    let k = choose|k: int|
                        0 <= k < entries.len() && entry_matches(
                            #[trigger] entries[k],
                            e.cost,
                            e.condition,
                            g.conditions_interner.values(),
                        );
                }
            }
            assert(g.index_consistent());
            assert forall|i2: int, j2: int, k2: int|
                g.query_graph.qg_edge(i2, j2) && 0 <= k2 < rule_edges(
                    rule,
                    g.query_graph.nodes@[i2].data,
                    g.query_graph.nodes@[j2].data,
                ).len() implies #[trigger] g.pair_realized(rule, i2, j2, k2) by {
                assert(pair_realized_in(rule, query_graph, inter_vals, edges@, i2, j2, k2));
                let e2 = choose|e3: int|
                    #![trigger edges@[e3]]
                    0 <= e3 < edges@.len() && edges@[e3].source_node == i2 && edges@[e3].dest_node
                        == j2 && entry_matches(
                        rule_edges(
                            rule,
                            query_graph.nodes@[i2].data,
                            query_graph.nodes@[j2].data,
                        )[k2],
                        edges@[e3].cost,
                        edges@[e3].condition,
                        inter_vals,
                    );
                assert(g.edges_store@[e2] == Option::Some(edges@[e2]));
                assert(g.live_edge(e2) && g.edge_at(e2) == edges@[e2]);
            }
            assert(g.rule_complete(rule));
        }
        Option::Some(g)
    }

    /// A copy of the graph: the same query graph, edge table, per-node
    /// outgoing index and interned conditions, stated by their views.
    pub fn duplicate(&self) -> (r: RankingRuleGraph)
        requires
            self.wf(),
        ensures
            r.wf(),
            r.query_graph.node_count() == self.query_graph.node_count(),
            r.query_graph.root_node == self.query_graph.root_node,
            r.query_graph.end_node == self.query_graph.end_node,
            forall|i: int|
                0 <= i < r.query_graph.node_count() ==> r.query_graph.nodes@[i].data
                    == self.query_graph.nodes@[i].data,
            forall|i: int, j: int|
                r.query_graph.qg_edge(i, j) == self.query_graph.qg_edge(i, j),
            r.edges_store@ == self.edges_store@,
            r.conditions_interner.values() == self.conditions_interner.values(),
            forall|n: int, e: int|
                0 <= n < r.edges_of_node@.len() ==> ((#[trigger] r.edges_of_node@[n].has(e))
                    <==> self.edges_of_node@[n].has(e)),
    {
        let mut nodes: Vec<QueryNode> = Vec::new();
        let n = self.query_graph.nodes.len();
        let mut i: usize = 0;
        while i < n
            invariant
                self.wf(),
                n == self.query_graph.nodes@.len(),
                i <= n,
                nodes@.len() == i,
                forall|i2: int|
                    0 <= i2 < i ==> nodes@[i2].data == self.query_graph.nodes@[i2].data,
                forall|i2: int|
                    0 <= i2 < i ==> (#[trigger] nodes@[i2].successors).wf()
                        && nodes@[i2].successors.universe_len()
                        == self.query_graph.nodes@[i2].successors.universe_len(),
                forall|i2: int, j: int|
                    0 <= i2 < i ==> ((#[trigger] nodes@[i2].successors.has(j))
                        <==> self.query_graph.nodes@[i2].successors.has(j)),
            decreases n - i,
        {
            let node = &self.query_graph.nodes[i];
            nodes.push(QueryNode { data: node.data, successors: node.successors.duplicate() });
            i = i + 1;
        }
        let query_graph = QueryGraph {
            nodes,
            root_node: self.query_graph.root_node,
            end_node: self.query_graph.end_node,
        };
        let mut edges_store: Vec<Option<Edge>> = Vec::new();
        let n_edges = self.edges_store.len();
        let mut e: usize = 0;
        while e < n_edges
            invariant
                n_edges == self.edges_store@.len(),
                e <= n_edges,
                edges_store@ =~= self.edges_store@.subrange(0, e as int),
            decreases n_edges - e,
        {
            edges_store.push(self.edges_store[e]);
            e = e + 1;
        }
        proof {
            assert(edges_store@ =~= self.edges_store@);
        }
        let mut edges_of_node: Vec<SmallBitmap> = Vec::new();
        let n_nodes = self.edges_of_node.len();
        let mut m: usize = 0;
        while m < n_nodes
            invariant
                self.wf(),
                n_nodes == self.edges_of_node@.len(),
                m <= n_nodes,
                edges_of_node@.len() == m,
                forall|m2: int|
                    0 <= m2 < m ==> (#[trigger] edges_of_node@[m2]).wf()
                        && edges_of_node@[m2].universe_len()
                        == self.edges_of_node@[m2].universe_len(),
                forall|m2: int, e2: int|
                    0 <= m2 < m ==> ((#[trigger] edges_of_node@[m2].has(e2))
                        <==> self.edges_of_node@[m2].has(e2)),
            decreases n_nodes - m,
        {
            edges_of_node.push(self.edges_of_node[m].duplicate());
            m = m + 1;
        }
        let r = RankingRuleGraph {
            query_graph,
            edges_store,
            edges_of_node,
            conditions_interner: self.conditions_interner.duplicate(),
        };
        proof {
            assert(r.query_graph.wf()) by {
                assert forall|i2: int, j: int|
                    0 <= i2 < r.query_graph.node_count() && (#[trigger] r.query_graph.nodes@[i2].successors.has(
                        j,
                    )) implies i2 < j < r.query_graph.node_count() by {
                    assert(self.query_graph.nodes@[i2].successors.has(j));
                }
            }
            assert forall|i2: int, j: int|
                r.query_graph.qg_edge(i2, j) == self.query_graph.qg_edge(i2, j) by {
                if 0 <= i2 < r.query_graph.node_count() {
                    assert(r.query_graph.nodes@[i2].successors.has(j)
                        == self.query_graph.nodes@[i2].successors.has(j));
                }
            }
            assert(r.edges_valid()) by {
                assert forall|eid: int| #[trigger] r.live_edge(eid) implies {
                    &&& r.edge_at(eid).source_node < r.query_graph.node_count()
                    &&& r.edge_at(eid).dest_node < r.query_graph.node_count()
                    &&& (r.edge_at(eid).condition matches Option::Some(h) ==> h
                        < r.conditions_interner.values().len())
                } by {
                    assert(self.live_edge(eid) && r.edge_at(eid) == self.edge_at(eid));
                }
            }
            assert(r.index_consistent()) by {
                assert forall|n2: int, e2: int|
                    0 <= n2 < r.edges_of_node@.len() implies ((#[trigger] r.edges_of_node@[n2].has(
                        e2,
                    )) <==> (r.live_edge(e2) && r.edge_at(e2).source_node == n2)) by {
                    assert(r.edges_of_node@[n2].has(e2) == self.edges_of_node@[n2].has(e2));
                    assert(r.live_edge(e2) == self.live_edge(e2));
                }
            }
        }
        r
    }

    /// Whether `eid` is a live edge carrying condition `c`.
    pub open spec fn carries(self, eid: int, c: u16) -> bool {
        self.live_edge(eid) && self.edge_at(eid).condition == Option::Some(c)
    }

    /// Remove all edges carrying the given condition, clearing their bits in
    /// their source nodes' outgoing sets.
    pub fn remove_edges_with_condition(&mut self, condition_to_remove: u16)
        requires
            old(self).wf(),
        ensures
            final(self).wf(),
            final(self).query_graph == old(self).query_graph,
            final(self).conditions_interner == old(self).conditions_interner,
            final(self).edges_store@.len() == old(self).edges_store@.len(),
            forall|eid: int|
                0 <= eid < old(self).edges_store@.len()
                    ==> #[trigger] final(self).edges_store@[eid] == (if old(self).carries(
                    eid,
                    condition_to_remove,
                ) {
                    Option::<Edge>::None
                } else {
                    old(self).edges_store@[eid]
                }),
            forall|n: int, eid: int|
                0 <= n < final(self).edges_of_node@.len()
                    ==> ((#[trigger] final(self).edges_of_node@[n].has(eid)) <==> (old(
                    self,
                ).edges_of_node@[n].has(eid) && !old(self).carries(eid, condition_to_remove))),
    {
        let ghost orig = *self;
        let n_edges = self.edges_store.len();
        let mut eid: usize = 0;
        while eid < n_edges
            invariant
                orig.wf(),
                n_edges == orig.edges_store@.len(),
                eid <= n_edges,
                self.query_graph == orig.query_graph,
                self.conditions_interner == orig.conditions_interner,
                self.edges_store@.len() == orig.edges_store@.len(),
                self.edges_of_node@.len() == orig.edges_of_node@.len(),
                forall|n: int|
                    0 <= n < self.edges_of_node@.len() ==> (#[trigger] self.edges_of_node@[n]).wf()
                        && self.edges_of_node@[n].universe_len() == self.edges_store@.len(),
                forall|e2: int|
                    0 <= e2 < eid ==> #[trigger] self.edges_store@[e2] == (if orig.carries(
                        e2,
                        condition_to_remove,
                    ) {
                        Option::<Edge>::None
                    } else {
                        orig.edges_store@[e2]
                    }),
                forall|e2: int| eid <= e2 < n_edges ==> self.edges_store@[e2] == orig.edges_store@[e2],
                forall|n: int, e2: int|
                    0 <= n < self.edges_of_node@.len() ==> ((#[trigger] self.edges_of_node@[n].has(
                        e2,
                    )) <==> (orig.edges_of_node@[n].has(e2) && !(e2 < eid && orig.carries(
                        e2,
                        condition_to_remove,
                    )))),
            decreases n_edges - eid,
        {
            let e_opt = self.edges_store[eid];
            match e_opt {
                Option::Some(edge) => {
                    let matches_cond = match edge.condition {
                        Option::Some(h) => h == condition_to_remove,
                        Option::None => false,
                    };
                    if matches_cond {
                        proof {
                            assert(self.edges_store@[eid as int] == orig.edges_store@[eid as int]);
                            assert(orig.live_edge(eid as int));
                            assert((edge.source_node as int) < orig.query_graph.node_count());
                        }
                        self.edges_store.set(eid, Option::None);
                        let src = edge.source_node;
                        self.edges_of_node[src as usize].remove(eid as u16);
                    }
                },
                Option::None => {},
            }
            eid = eid + 1;
        }
        proof {
            assert(final(self).edges_valid()) by {
                assert forall|e2: int| #[trigger] self.live_edge(e2) implies {
                    &&& self.edge_at(e2).source_node < self.query_graph.node_count()
                    &&& self.edge_at(e2).dest_node < self.query_graph.node_count()
                    &&& (self.edge_at(e2).condition matches Option::Some(h) ==> h
                        < self.conditions_interner.values().len())
                } by {
                    assert(orig.live_edge(e2));
                    assert(self.edge_at(e2) == orig.edge_at(e2));
                }
            }
        }
    }
}

} // verus!
