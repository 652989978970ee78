//! The query graph consumed read-only by the ranking-rule graph.
//!
//! A DAG of query-interpretation nodes with a unique start and end. Nodes
//! are handle-indexed; edges only go from lower to higher handles, which is
//! the topological numbering the enumerator's termination rests on.

use crate::small_bitmap::SmallBitmap;
use vstd::prelude::*;

verus! {

/// The interpretation a query node carries.
#[derive(Clone, Copy, PartialEq, Eq, Structural, Debug)]
pub enum QueryNodeData {
    /// The unique source of the graph.
    Start,
    /// The unique sink of the graph.
    End,
    /// A single indexed term.
    Term { term_handle: u16 },
    /// An interned phrase.
    Phrase { phrase_handle: u16 },
}

/// A vertex of the query graph, with its outgoing node handles.
pub struct QueryNode {
    pub data: QueryNodeData,
    pub successors: SmallBitmap,
}

/// A DAG of query interpretations with unique source and sink.
pub struct QueryGraph {
    pub nodes: Vec<QueryNode>,
    pub root_node: u16,
    pub end_node: u16,
}

impl QueryGraph {
    pub open spec fn node_count(self) -> int {
        self.nodes@.len() as int
    }

    /// Whether the query graph has an edge from node `i` to node `j`.
    pub open spec fn qg_edge(self, i: int, j: int) -> bool {
        0 <= i < self.node_count() && self.nodes@[i].successors.has(j)
    }

    pub open spec fn wf(self) -> bool {
        &&& 0 < self.node_count() <= 65535
        &&& self.root_node < self.node_count()
        &&& self.end_node < self.node_count()
        &&& forall|i: int|
            0 <= i < self.node_count() ==> (#[trigger] self.nodes@[i].successors).wf()
                && self.nodes@[i].successors.universe_len() == self.node_count()
        &&& forall|i: int, j: int|
            0 <= i < self.node_count() && (#[trigger] self.nodes@[i].successors.has(j)) ==> i < j
                < self.node_count()
    }

    /// Build a query graph from plain node data and successor lists.
    /// Returns `None` unless every edge goes from a lower to a strictly
    /// higher node handle within range, which guarantees acyclicity.
    pub fn from_parts(data: Vec<QueryNodeData>, succ: Vec<Vec<u16>>, root_node: u16, end_node: u16)
        -> (r: Option<QueryGraph>)
        requires
            data@.len() == succ@.len(),
            0 < data@.len() <= 65535,
        ensures
            (root_node < data@.len() && end_node < data@.len() && (forall|i: int, k: int|
                0 <= i < succ@.len() && 0 <= k < succ@[i]@.len() ==> i < #[trigger] succ@[i]@[k]
                    && (succ@[i]@[k] as int) < data@.len())) ==> r is Some,
            r matches Some(g) ==> {
                &&& g.wf()
                &&& g.node_count() == data@.len()
                &&& g.root_node == root_node
                &&& g.end_node == end_node
                &&& forall|i: int| 0 <= i < g.node_count() ==> g.nodes@[i].data == data@[i]
                &&& forall|i: int, j: u16|
                    0 <= i < g.node_count() ==> (#[trigger] g.qg_edge(i, j as int)
                        <==> succ@[i]@.contains(j))
            },
    {
        let n = data.len();
        if !((root_node as usize) < n) || !((end_node as usize) < n) {
            return None;
        }
        let mut nodes: Vec<QueryNode> = Vec::new();
        let mut i: usize = 0;
        while i < n
            invariant
                n == data@.len(),
                n == succ@.len(),
                0 < n <= 65535,
                i <= n,
                nodes@.len() == i,
                forall|i2: int|
                    0 <= i2 < i ==> (#[trigger] nodes@[i2].successors).wf()
                        && nodes@[i2].successors.universe_len() == n,
                forall|i2: int| 0 <= i2 < i ==> nodes@[i2].data == data@[i2],
                forall|i2: int, j: int|
                    0 <= i2 < i && (#[trigger] nodes@[i2].successors.has(j)) ==> i2 < j < n,
                forall|i2: int, j: u16|
                    0 <= i2 < i ==> ((#[trigger] nodes@[i2].successors.has(j as int))
                        <==> succ@[i2]@.contains(j)),
            decreases n - i,
        {
            let mut bm = SmallBitmap::new(n as u16);
            let row = &succ[i];
            let m = row.len();
            let mut k: usize = 0;
            while k < m
                invariant
                    n == data@.len(),
                    n == succ@.len(),
                    row@ == succ@[i as int]@,
                    i < n <= 65535,
                    m == row@.len(),
                    k <= m,
                    bm.wf(),
                    bm.universe_len() == n,
                    forall|j: int| #[trigger] bm.has(j) ==> i < j < n,
                    forall|j: u16|
                        (#[trigger] bm.has(j as int)) <==> (exists|k2: int|
                            0 <= k2 < k && row@[k2] == j),
                decreases m - k,
            {
                let j = row[k];
                proof {
                    assert(succ@[i as int]@[k as int] == j);
                }
                if !(i < j as usize) {
                    return None;
                }
                if !((j as usize) < n) {
                    return None;
                }
                bm.insert(j);
                proof {
                    assert forall|j2: u16| (#[trigger] bm.has(j2 as int)) implies (exists|k2: int|
                        0 <= k2 < k + 1 && row@[k2] == j2) by {
                        if j2 == j {
                            assert(row@[k as int] == j2);
                        } else {
                            let k0 = choose|k2: int| 0 <= k2 < k && row@[k2] == j2;
                            assert(0 <= k0 < k + 1 && row@[k0] == j2);
                        }
                    }
                }
                k = k + 1;
            }
            proof {
                assert forall|j: u16| (#[trigger] bm.has(j as int)) <==> row@.contains(j) by {
                    if bm.has(j as int) {
                        let k0 = choose|k2: int| 0 <= k2 < m && row@[k2] == j;
                        assert(row@.contains(j));
                    }
                    if row@.contains(j) {
                        let k0 = choose|k2: int| 0 <= k2 < row@.len() && row@[k2] == j;
                        assert(exists|k2: int| 0 <= k2 < m && row@[k2] == j);
                    }
                }
            }
            nodes.push(QueryNode { data: data[i], successors: bm });
            i = i + 1;
        }
        Some(QueryGraph { nodes, root_node, end_node })
    }
}

} // verus!
