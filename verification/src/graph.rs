//! The graph container: a fixed-capacity arena of node slots and edge slots.
//!
//! Slots `0..=last_node_index` hold the active nodes, and every active node's
//! `index_of` equals its own slot; all later slots hold the inactive
//! sentinel. Edges live in slots `0..=last_edge_index`, always join two
//! active nodes, and no unordered pair of nodes is joined twice. Mutations
//! reindex nodes by shifting, and rewrite every edge endpoint in the same
//! operation, so these invariants hold after every public call.

use vstd::prelude::*;
use vstd::pervasive::VecAdditionalExecFns;

use crate::edge::{edge_connects, same_unordered_pair, Edge};
use crate::error::GraphError;
use crate::node::{coords_in_range, Node};

verus! {

/// Fixed capacity of the node and edge arenas.
pub const MAX_NODES: usize = 1_000_000;

/// The mathematical model of a [`Graph`]: the two cursors and the two slot
/// sequences, with no machine-integer bounds attached.
pub ghost struct GraphView {
    pub last_node_index: int,
    pub last_edge_index: int,
    pub nodes: Seq<Node>,
    pub edges: Seq<Edge>,
}

#[derive(Clone)]
pub struct Graph {
    pub last_node_index: i32,
    pub last_edge_index: i32,
    pub nodes: Vec<Node>,
    pub edges: Vec<Edge>,
}

impl View for Graph {
    type V = GraphView;

    open spec fn view(&self) -> GraphView {
        GraphView {
            last_node_index: self.last_node_index as int,
            last_edge_index: self.last_edge_index as int,
            nodes: self.nodes@,
            edges: self.edges@,
        }
    }
}

/// A node as it reads after moving to slot `i`: same position, new identity.
pub open spec fn reindexed_node(n: Node, i: int) -> Node {
    Node { index_of: i as i32, ..n }
}

/// An edge as it reads after the node slots at or beyond `at` moved one to
/// the right.
pub open spec fn edge_shifted_right(e: Edge, at: int) -> Edge {
    Edge {
        source_index: if e.source_index >= at {
            (e.source_index + 1) as i32
        } else {
            e.source_index
        },
        destination_index: if e.destination_index >= at {
            (e.destination_index + 1) as i32
        } else {
            e.destination_index
        },
    }
}

/// An edge as it reads after the node slots at or beyond `at` moved one to
/// the left.
pub open spec fn edge_shifted_left(e: Edge, at: int) -> Edge {
    Edge {
        source_index: if e.source_index >= at {
            (e.source_index - 1) as i32
        } else {
            e.source_index
        },
        destination_index: if e.destination_index >= at {
            (e.destination_index - 1) as i32
        } else {
            e.destination_index
        },
    }
}

/// True iff `x` is one of the edge's endpoints.
pub open spec fn edge_touches(e: Edge, x: i32) -> bool {
    e.source_index == x || e.destination_index == x
}

/// The subsequence of `s` made of the edges that do not touch `x`, in their
/// original order.
pub open spec fn edges_without_node(s: Seq<Edge>, x: i32) -> Seq<Edge>
    decreases s.len(),
{
    if s.len() == 0 {
        Seq::empty()
    } else {
        let rest = edges_without_node(s.drop_last(), x);
        if edge_touches(s.last(), x) {
            rest
        } else {
            rest.push(s.last())
        }
    }
}

/// Every edge kept by `edges_without_node` comes from `s` and avoids `x`.
proof fn lemma_edges_without_node_elements(s: Seq<Edge>, x: i32)
    ensures
        edges_without_node(s, x).len() <= s.len(),
        forall|e: Edge|
            edges_without_node(s, x).contains(e) ==> s.contains(e) && !edge_touches(e, x),
    decreases s.len(),
{
    if s.len() > 0 {
        lemma_edges_without_node_elements(s.drop_last(), x);
        let kept = edges_without_node(s, x);
        assert forall|e: Edge| kept.contains(e) implies s.contains(e) && !edge_touches(e, x) by {
            if edges_without_node(s.drop_last(), x).contains(e) {
                assert(s.drop_last().contains(e));
                let i = choose|i: int| 0 <= i < s.drop_last().len() && s.drop_last()[i] == e;
                assert(s[i] == e);
            } else {
                assert(e == s.last());
            }
        }
    }
}

/// Dropping the edges that touch `x` keeps the pair-uniqueness of the rest.
proof fn lemma_edges_without_node_nodup(s: Seq<Edge>, x: i32)
    requires
        forall|j: int, k: int| 0 <= j < k < s.len() ==> !same_unordered_pair(s[j], s[k]),
    ensures
        forall|j: int, k: int|
            0 <= j < k < edges_without_node(s, x).len() ==> !same_unordered_pair(
                edges_without_node(s, x)[j],
                edges_without_node(s, x)[k],
            ),
    decreases s.len(),
{
    if s.len() > 0 {
        let butlast = s.drop_last();
        lemma_edges_without_node_nodup(butlast, x);
        lemma_edges_without_node_elements(butlast, x);
        let rest = edges_without_node(butlast, x);
        let kept = edges_without_node(s, x);
        if !edge_touches(s.last(), x) {
            assert forall|j: int, k: int| 0 <= j < k < kept.len() implies !same_unordered_pair(
                kept[j],
                kept[k],
            ) by {
                if k == kept.len() - 1 {
                    assert(kept[k] == s.last());
                    assert(kept[j] == rest[j]);
                    assert(rest.contains(rest[j]));
                    assert(butlast.contains(kept[j]));
                    let i = choose|i: int| 0 <= i < butlast.len() && butlast[i] == kept[j];
                    assert(s[i] == kept[j]);
                    assert(!same_unordered_pair(s[i], s[s.len() - 1]));
                } else {
                    assert(kept[j] == rest[j] && kept[k] == rest[k]);
                }
            }
        }
    }
}

/// For every edge of `s` touching `x`, in order, the node stored at the
/// other endpoint's slot.
pub open spec fn neighbours_along(s: Seq<Edge>, nodes: Seq<Node>, x: i32) -> Seq<Node>
    decreases s.len(),
{
    if s.len() == 0 {
        Seq::empty()
    } else {
        let rest = neighbours_along(s.drop_last(), nodes, x);
        let e = s.last();
        if e.source_index == x {
            rest.push(nodes[e.destination_index as int])
        } else if e.destination_index == x {
            rest.push(nodes[e.source_index as int])
        } else {
            rest
        }
    }
}

/// `neighbours_along` misses no edge: for every edge of `s` touching `x`,
/// the node at the other endpoint's slot is in the result.
pub proof fn lemma_neighbours_complete(s: Seq<Edge>, nodes: Seq<Node>, x: i32)
    ensures
        forall|j: int|
            0 <= j < s.len() && (#[trigger] s[j]).source_index == x ==> neighbours_along(
                s,
                nodes,
                x,
            ).contains(nodes[s[j].destination_index as int]),
        forall|j: int|
            0 <= j < s.len() && (#[trigger] s[j]).destination_index == x ==> neighbours_along(
                s,
                nodes,
                x,
            ).contains(nodes[s[j].source_index as int]),
    decreases s.len(),
{
    if s.len() > 0 {
        let butlast = s.drop_last();
        lemma_neighbours_complete(butlast, nodes, x);
        let rest = neighbours_along(butlast, nodes, x);
        let full = neighbours_along(s, nodes, x);
        assert(rest.len() <= full.len() && forall|t: int|
            0 <= t < rest.len() ==> #[trigger] full[t] == rest[t]);
        assert forall|j: int|
            0 <= j < s.len() && ((#[trigger] s[j]).source_index == x || s[j].destination_index
                == x) implies (s[j].source_index == x ==> full.contains(
            nodes[s[j].destination_index as int],
        )) && (s[j].destination_index == x ==> full.contains(nodes[s[j].source_index as int])) by {
            if j < s.len() - 1 {
                assert(butlast[j] == s[j]);
                if s[j].source_index == x {
                    let t = choose|t: int|
                        0 <= t < rest.len() && rest[t] == nodes[s[j].destination_index as int];
                    assert(full[t] == nodes[s[j].destination_index as int]);
                }
                if s[j].destination_index == x {
                    let t = choose|t: int|
                        0 <= t < rest.len() && rest[t] == nodes[s[j].source_index as int];
                    assert(full[t] == nodes[s[j].source_index as int]);
                }
            } else {
                let e = s.last();
                if e.source_index == x {
                    assert(full.last() == nodes[e.destination_index as int]);
                } else {
                    assert(full.last() == nodes[e.source_index as int]);
                }
            }
        }
    }
}

/// An edge whose endpoints both name active node slots.
pub open spec fn edge_endpoints_valid(e: Edge, last_node_index: int) -> bool {
    &&& 0 <= e.source_index <= last_node_index
    &&& 0 <= e.destination_index <= last_node_index
}

impl GraphView {
    /// Some active edge joins `a` and `b`, in either direction.
    pub open spec fn has_edge(self, a: i32, b: i32) -> bool {
        exists|j: int|
            0 <= j <= self.last_edge_index && edge_connects(#[trigger] self.edges[j], a, b)
    }

    /// Number of active nodes.
    pub open spec fn node_count(self) -> int {
        self.last_node_index + 1
    }

    /// Number of active edges.
    pub open spec fn edge_count(self) -> int {
        self.last_edge_index + 1
    }

    /// The model after a successful `add_node`: an append fills the first
    /// free slot; an insert shifts the tail one slot right, renumbering the
    /// moved nodes and every edge endpoint at or beyond the target slot.
    pub open spec fn after_add_node(self, node: Node) -> GraphView {
        let k = node.index_of as int;
        if k == self.last_node_index + 1 {
            GraphView {
                last_node_index: self.last_node_index + 1,
                nodes: self.nodes.update(k, node),
                ..self
            }
        } else {
            GraphView {
                last_node_index: self.last_node_index + 1,
                last_edge_index: self.last_edge_index,
                nodes: Seq::new(
                    self.nodes.len(),
                    |i: int|
                        if i < k {
                            self.nodes[i]
                        } else if i == k {
                            node
                        } else if i <= self.last_node_index + 1 {
                            reindexed_node(self.nodes[i - 1], i)
                        } else {
                            self.nodes[i]
                        },
                ),
                edges: Seq::new(
                    self.edges.len(),
                    |j: int|
                        if j <= self.last_edge_index {
                            edge_shifted_right(self.edges[j], k)
                        } else {
                            self.edges[j]
                        },
                ),
            }
        }
    }

    /// The model after a successful `remove_node`: every edge touching the
    /// removed slot is dropped (order of the rest kept), the later nodes all
    /// move one slot left under their new identities, and every surviving
    /// edge endpoint beyond the slot drops by one to follow them.
    pub open spec fn after_remove_node(self, idx: i32) -> GraphView {
        let kept = edges_without_node(
            self.edges.subrange(0, self.last_edge_index + 1),
            idx,
        ).map_values(|e: Edge| edge_shifted_left(e, idx as int + 1));
        GraphView {
            last_node_index: self.last_node_index - 1,
            last_edge_index: kept.len() - 1,
            nodes: Seq::new(
                self.nodes.len(),
                |i: int|
                    if i < idx as int {
                        self.nodes[i]
                    } else if i < self.last_node_index {
                        reindexed_node(self.nodes[i + 1], i)
                    } else {
                        Node::spec_inactive()
                    },
            ),
            edges: Seq::new(
                self.edges.len(),
                |j: int|
                    if j < kept.len() {
                        kept[j]
                    } else {
                        Edge::spec_inactive()
                    },
            ),
        }
    }

    /// The replacement edges that `add_node_between` appends once a matching
    /// edge was found: `(before, node)` and then `(node, after)`; with
    /// `before == after` the second append would repeat the first and is
    /// skipped.
    pub open spec fn with_surgery_edges(self, before: i32, after: i32, k: i32) -> GraphView {
        let g2 = GraphView {
            last_edge_index: self.last_edge_index + 1,
            edges: self.edges.update(
                self.last_edge_index + 1,
                Edge { source_index: before, destination_index: k },
            ),
            ..self
        };
        if before == after {
            g2
        } else {
            GraphView {
                last_edge_index: g2.last_edge_index + 1,
                edges: g2.edges.update(
                    g2.last_edge_index + 1,
                    Edge { source_index: k, destination_index: after },
                ),
                ..g2
            }
        }
    }

    /// After the node went in, some active edge joins `before` and `after`:
    /// the condition on which `add_node_between` performs its surgery.
    pub open spec fn surgery_match_exists(self, node: Node, before: i32, after: i32) -> bool {
        exists|j: int|
            0 <= j <= self.after_add_node(node).last_edge_index && edge_connects(
                #[trigger] self.after_add_node(node).edges[j],
                before,
                after,
            )
    }

    /// The model after `add_node_between` has added the node and finished
    /// its surgery: if an edge joined `before` and `after` (in either
    /// direction), it is removed and the two edges `(before, node)` and
    /// `(node, after)` are appended in its stead.
    pub open spec fn after_add_node_between(self, node: Node, before: i32, after: i32) -> GraphView {
        let g1 = self.after_add_node(node);
        let k = node.index_of;
        if exists|j: int|
            0 <= j <= g1.last_edge_index && edge_connects(#[trigger] g1.edges[j], before, after) {
            let j = choose|j: int|
                0 <= j <= g1.last_edge_index && edge_connects(
                    #[trigger] g1.edges[j],
                    before,
                    after,
                );
            let g3 = g1.with_surgery_edges(before, after, k);
            GraphView {
                last_edge_index: g3.last_edge_index - 1,
                edges: g3.edges.remove(j).push(Edge::spec_inactive()),
                ..g3
            }
        } else {
            g1
        }
    }

    /// The container invariant: contiguous active nodes that each know their
    /// own slot, sentinels everywhere beyond the cursors, edges joining only
    /// active nodes, and no unordered pair joined twice.
    pub open spec fn wf(self) -> bool {
        &&& self.nodes.len() == MAX_NODES as int
        &&& self.edges.len() == MAX_NODES as int
        &&& -1 <= self.last_node_index < MAX_NODES as int
        &&& -1 <= self.last_edge_index < MAX_NODES as int
        &&& forall|i: int|
            0 <= i <= self.last_node_index ==> (#[trigger] self.nodes[i]).index_of == i
                && coords_in_range(self.nodes[i])
        &&& forall|i: int|
            self.last_node_index < i < self.nodes.len() ==> #[trigger] self.nodes[i]
                == Node::spec_inactive()
        &&& forall|j: int|
            0 <= j <= self.last_edge_index ==> edge_endpoints_valid(
                #[trigger] self.edges[j],
                self.last_node_index,
            )
        &&& forall|j: int|
            self.last_edge_index < j < self.edges.len() ==> #[trigger] self.edges[j]
                == Edge::spec_inactive()
        &&& forall|j: int, k: int|
            0 <= j < k <= self.last_edge_index ==> !same_unordered_pair(
                #[trigger] self.edges[j],
                #[trigger] self.edges[k],
            )
    }
}

/// A successful `add_node` preserves the container invariant.
proof fn lemma_add_node_wf(o: GraphView, node: Node)
    requires
        o.wf(),
        coords_in_range(node),
        0 <= node.index_of as int <= o.last_node_index + 1,
        o.last_node_index + 1 < MAX_NODES as int,
    ensures
        o.after_add_node(node).wf(),
{
    let v = o.after_add_node(node);
    let k = node.index_of as int;
    if k == o.last_node_index + 1 {
        assert forall|i: int| 0 <= i <= v.last_node_index implies (#[trigger] v.nodes[i]).index_of
            == i && coords_in_range(v.nodes[i]) by {}
    } else {
        assert forall|i: int| 0 <= i <= v.last_node_index implies (#[trigger] v.nodes[i]).index_of
            == i && coords_in_range(v.nodes[i]) by {}
        assert forall|j: int, t: int| 0 <= j < t <= v.last_edge_index implies !same_unordered_pair(
            #[trigger] v.edges[j],
            #[trigger] v.edges[t],
        ) by {
            assert(v.edges[j] == edge_shifted_right(o.edges[j], k));
            assert(v.edges[t] == edge_shifted_right(o.edges[t], k));
            assert(!same_unordered_pair(o.edges[j], o.edges[t]));
            assert(edge_endpoints_valid(o.edges[j], o.last_node_index));
            assert(edge_endpoints_valid(o.edges[t], o.last_node_index));
        }
    }
}

/// In a well-formed graph, at most one active edge joins a given pair.
proof fn lemma_connecting_edge_unique(g: GraphView, b: i32, a: i32, j1: int, j2: int)
    requires
        g.wf(),
        0 <= j1 <= g.last_edge_index,
        0 <= j2 <= g.last_edge_index,
        edge_connects(g.edges[j1], b, a),
        edge_connects(g.edges[j2], b, a),
    ensures
        j1 == j2,
{
    if j1 != j2 {
        assert(same_unordered_pair(g.edges[j1], g.edges[j2]));
    }
}

/// No edge of the graph that `add_node` leaves behind touches the slot the
/// new node went to.
proof fn lemma_add_node_fresh(o: GraphView, node: Node)
    requires
        o.wf(),
        0 <= node.index_of as int <= o.last_node_index + 1,
        o.last_node_index + 1 < MAX_NODES as int,
    ensures
        forall|j: int|
            0 <= j <= o.after_add_node(node).last_edge_index ==> !edge_touches(
                #[trigger] o.after_add_node(node).edges[j],
                node.index_of,
            ),
{
    let g1 = o.after_add_node(node);
    let k = node.index_of as int;
    assert forall|j: int| 0 <= j <= g1.last_edge_index implies !edge_touches(
        #[trigger] g1.edges[j],
        node.index_of,
    ) by {
        assert(edge_endpoints_valid(o.edges[j], o.last_node_index));
        if k != o.last_node_index + 1 {
            assert(g1.edges[j] == edge_shifted_right(o.edges[j], k));
        }
    }
}

/// A successful `remove_node` preserves the container invariant.
proof fn lemma_remove_node_wf(o: GraphView, idx: i32)
    requires
        o.wf(),
        0 <= idx as int <= o.last_node_index,
    ensures
        o.after_remove_node(idx).wf(),
        o.after_remove_node(idx).last_edge_index <= o.last_edge_index,
{
    let v = o.after_remove_node(idx);
    let active = o.edges.subrange(0, o.last_edge_index + 1);
    let dropped = edges_without_node(active, idx);
    let kept = dropped.map_values(|e: Edge| edge_shifted_left(e, idx as int + 1));
    lemma_edges_without_node_elements(active, idx);
    lemma_edges_without_node_nodup(active, idx);
    assert forall|i: int| 0 <= i <= v.last_node_index implies (#[trigger] v.nodes[i]).index_of == i
        && coords_in_range(v.nodes[i]) by {}
    assert forall|j: int| 0 <= j <= v.last_edge_index implies edge_endpoints_valid(
        #[trigger] v.edges[j],
        v.last_node_index,
    ) by {
        assert(dropped.contains(dropped[j]));
        assert(edge_endpoints_valid(dropped[j], o.last_node_index) && !edge_touches(
            dropped[j],
            idx,
        )) by {
            assert(active.contains(dropped[j]));
            let t = choose|t: int| 0 <= t < active.len() && active[t] == dropped[j];
            assert(o.edges[t] == dropped[j]);
        }
        assert(v.edges[j] == edge_shifted_left(dropped[j], idx as int + 1));
    }
    assert forall|j: int, k: int| 0 <= j < k <= v.last_edge_index implies !same_unordered_pair(
        #[trigger] v.edges[j],
        #[trigger] v.edges[k],
    ) by {
        assert(v.edges[j] == edge_shifted_left(dropped[j], idx as int + 1));
        assert(v.edges[k] == edge_shifted_left(dropped[k], idx as int + 1));
        assert(!same_unordered_pair(dropped[j], dropped[k]));
        assert(dropped.contains(dropped[j]) && dropped.contains(dropped[k]));
        assert(edge_endpoints_valid(dropped[j], o.last_node_index) && !edge_touches(
            dropped[j],
            idx,
        )) by {
            assert(active.contains(dropped[j]));
            let t = choose|t: int| 0 <= t < active.len() && active[t] == dropped[j];
            assert(o.edges[t] == dropped[j]);
        }
        assert(edge_endpoints_valid(dropped[k], o.last_node_index) && !edge_touches(
            dropped[k],
            idx,
        )) by {
            assert(active.contains(dropped[k]));
            let t = choose|t: int| 0 <= t < active.len() && active[t] == dropped[k];
            assert(o.edges[t] == dropped[k]);
        }
    }
}

/// In a well-formed graph every stored node knows its own slot: for every
/// slot `i` in `0..=last_node_index`, the node held there has `index_of`
/// equal to `i`, and every other slot holds the inactive sentinel. Since
/// each mutation requires and re-establishes `wf`, this holds after any
/// sequence of successful mutations.
pub proof fn lemma_slot_identity(g: GraphView)
    requires
        g.wf(),
    ensures
        forall|i: int| 0 <= i <= g.last_node_index ==> (#[trigger] g.nodes[i]).index_of == i,
        forall|i: int|
            g.last_node_index < i < g.nodes.len() ==> #[trigger] g.nodes[i]
                == Node::spec_inactive(),
{
}

/// The bidirectional edge query is symmetric: for all `a` and `b`,
/// `has_edge(a, b) == has_edge(b, a)`, on any graph.
pub proof fn lemma_has_edge_symmetric(g: GraphView, a: i32, b: i32)
    ensures
        g.has_edge(a, b) == g.has_edge(b, a),
{
    if g.has_edge(a, b) {
        let j = choose|j: int| 0 <= j <= g.last_edge_index && edge_connects(#[trigger] g.edges[j], a, b);
        assert(edge_connects(g.edges[j], b, a));
    }
    if g.has_edge(b, a) {
        let j = choose|j: int| 0 <= j <= g.last_edge_index && edge_connects(#[trigger] g.edges[j], b, a);
        assert(edge_connects(g.edges[j], a, b));
    }
}

/// Cleanup correctness of `remove_node`: read in the pre-removal numbering
/// (endpoints at or beyond the removed slot moved one back up), no surviving
/// active edge has an endpoint equal to the removed slot. When the last node
/// is removed no renumbering happens, so the statement also holds literally.
pub proof fn lemma_remove_node_cleanup(o: GraphView, idx: i32)
    requires
        o.wf(),
        0 <= idx as int <= o.last_node_index,
    ensures
        forall|j: int|
            0 <= j <= o.after_remove_node(idx).last_edge_index ==> !edge_touches(
                edge_shifted_right(#[trigger] o.after_remove_node(idx).edges[j], idx as int),
                idx,
            ),
        idx as int == o.last_node_index ==> forall|j: int|
            0 <= j <= o.after_remove_node(idx).last_edge_index ==> !edge_touches(
                #[trigger] o.after_remove_node(idx).edges[j],
                idx,
            ),
{
    let v = o.after_remove_node(idx);
    let active = o.edges.subrange(0, o.last_edge_index + 1);
    let kept = edges_without_node(active, idx);
    lemma_edges_without_node_elements(active, idx);
    assert forall|j: int| 0 <= j <= v.last_edge_index implies !edge_touches(
        edge_shifted_right(#[trigger] v.edges[j], idx as int),
        idx,
    ) && (idx as int == o.last_node_index ==> !edge_touches(v.edges[j], idx)) by {
        assert(v.edges[j] == edge_shifted_left(kept[j], idx as int + 1));
        assert(kept.contains(kept[j]));
        assert(active.contains(kept[j]));
        let u = choose|u: int| 0 <= u < active.len() && active[u] == kept[j];
        assert(o.edges[u] == kept[j]);
        assert(edge_endpoints_valid(kept[j], o.last_node_index));
        assert(!edge_touches(kept[j], idx));
    }
}

/// Surgery correctness of `add_node_between`, for a node appended at the
/// first free slot of a graph that already joins `before` and `after`:
/// the node count rises by exactly one, the edge count by exactly one (one
/// edge removed, two added), the matched edge is gone, the two replacement
/// edges `(before, node)` and `(node, after)` are present, and every other
/// unordered pair is joined exactly as before.
pub proof fn lemma_add_node_between_surgery(o: GraphView, node: Node, before: i32, after: i32)
    requires
        o.wf(),
        node.index_of as int == o.last_node_index + 1,
        o.last_node_index + 1 < MAX_NODES as int,
        o.last_edge_index + 3 <= MAX_NODES as int,
        o.has_edge(before, after),
        before != after,
    ensures
        o.after_add_node_between(node, before, after).node_count() == o.node_count() + 1,
        o.after_add_node_between(node, before, after).nodes[node.index_of as int] == node,
        o.after_add_node_between(node, before, after).edge_count() == o.edge_count() + 1,
        !o.after_add_node_between(node, before, after).has_edge(before, after),
        o.after_add_node_between(node, before, after).has_edge(before, node.index_of),
        o.after_add_node_between(node, before, after).has_edge(node.index_of, after),
        forall|x: i32, y: i32|
            !edge_connects(Edge { source_index: x, destination_index: y }, before, after)
                && !edge_connects(Edge { source_index: x, destination_index: y }, before, node.index_of)
                && !edge_connects(Edge { source_index: x, destination_index: y }, node.index_of, after)
                ==> o.after_add_node_between(node, before, after).has_edge(x, y) == o.has_edge(
                x,
                y,
            ),
{
    let k = node.index_of;
    let g1 = o.after_add_node(node);
    assert(g1.edges == o.edges);
    assert(g1.last_edge_index == o.last_edge_index);
    let jw = choose|j: int|
        0 <= j <= o.last_edge_index && edge_connects(#[trigger] o.edges[j], before, after);
    assert(edge_connects(g1.edges[jw], before, after));
    assert(exists|j: int|
        0 <= j <= g1.last_edge_index && edge_connects(#[trigger] g1.edges[j], before, after));
    let j = choose|j: int|
        0 <= j <= g1.last_edge_index && edge_connects(#[trigger] g1.edges[j], before, after);
    let g3 = g1.with_surgery_edges(before, after, k);
    let v = o.after_add_node_between(node, before, after);
    assert(v.last_edge_index == o.last_edge_index + 1);
    // The matched edge joins two active nodes, so its endpoints differ from
    // the fresh slot.
    assert(edge_endpoints_valid(o.edges[j], o.last_node_index));
    assert(before != k && after != k);
    let eb = Edge { source_index: before, destination_index: k };
    let ea = Edge { source_index: k, destination_index: after };
    assert(g3.edges[o.last_edge_index + 1] == eb);
    assert(g3.edges[o.last_edge_index + 2] == ea);
    assert(g3.last_edge_index == o.last_edge_index + 2);
    // Each surviving slot of the result, traced back to its source.
    assert forall|t: int| 0 <= t <= v.last_edge_index implies (#[trigger] v.edges[t]) == (
        if t < j {
            g3.edges[t]
        } else {
            g3.edges[t + 1]
        }) by {
        assert(v.edges[t] == g3.edges.remove(j).push(Edge::spec_inactive())[t]);
    }
    // The two replacement edges sit at the tail of the result.
    assert(v.edges[o.last_edge_index] == eb);
    assert(v.edges[o.last_edge_index + 1] == ea);
    assert(edge_connects(v.edges[o.last_edge_index], before, k));
    assert(edge_connects(v.edges[o.last_edge_index + 1], k, after));
    // The matched pair is no longer joined.
    assert forall|t: int| 0 <= t <= v.last_edge_index implies !edge_connects(
        #[trigger] v.edges[t],
        before,
        after,
    ) by {
        if t < j {
            if edge_connects(g3.edges[t], before, after) {
                lemma_connecting_edge_unique(g1, before, after, t, j);
            }
        } else if t + 1 <= o.last_edge_index {
            if edge_connects(g3.edges[t + 1], before, after) {
                lemma_connecting_edge_unique(g1, before, after, t + 1, j);
            }
        }
    }
    // Every unordered pair other than the three named ones keeps its edges.
    assert forall|x: i32, y: i32|
        !edge_connects(Edge { source_index: x, destination_index: y }, before, after)
            && !edge_connects(Edge { source_index: x, destination_index: y }, before, k)
            && !edge_connects(Edge { source_index: x, destination_index: y }, k, after) implies (
    v.has_edge(x, y) == o.has_edge(x, y)) by {
        if o.has_edge(x, y) {
            let t = choose|t: int|
                0 <= t <= o.last_edge_index && edge_connects(#[trigger] o.edges[t], x, y);
            if t < j {
                assert(edge_connects(v.edges[t], x, y));
            } else {
                assert(t != j);
                assert(v.edges[t - 1] == g3.edges[t]);
                assert(edge_connects(v.edges[t - 1], x, y));
            }
            assert(v.has_edge(x, y));
        }
        if v.has_edge(x, y) {
            let t = choose|t: int|
                0 <= t <= v.last_edge_index && edge_connects(#[trigger] v.edges[t], x, y);
            let s = if t < j {
                t
            } else {
                t + 1
            };
            assert(v.edges[t] == g3.edges[s]);
            if s <= o.last_edge_index {
                assert(edge_connects(o.edges[s], x, y));
                assert(o.has_edge(x, y));
            } else {
                assert(g3.edges[s] == eb || g3.edges[s] == ea);
                assert(false);
            }
        }
    }
}

impl Graph {
    /// The container invariant, stated on the model; see [`GraphView::wf`].
    pub open spec fn wf(self) -> bool {
        self@.wf()
    }

    /// An empty graph: both cursors at `-1`, every slot a sentinel.
    pub fn new() -> (g: Graph)
        ensures
            g.wf(),
            g@.last_node_index == -1,
            g@.last_edge_index == -1,
            forall|i: int| 0 <= i < MAX_NODES as int ==> g@.nodes[i] == Node::spec_inactive(),
            forall|j: int| 0 <= j < MAX_NODES as int ==> g@.edges[j] == Edge::spec_inactive(),
    {
        let mut nodes: Vec<Node> = Vec::new();
        let mut edges: Vec<Edge> = Vec::new();
        let mut i: usize = 0;
        while i < MAX_NODES
            invariant
                i <= MAX_NODES,
                nodes@.len() == i as int,
                edges@.len() == i as int,
                forall|k: int| 0 <= k < i as int ==> nodes@[k] == Node::spec_inactive(),
                forall|k: int| 0 <= k < i as int ==> edges@[k] == Edge::spec_inactive(),
            decreases MAX_NODES - i,
        {
            nodes.push(Node::new_inactive());
            edges.push(Edge::new_inactive());
            i = i + 1;
        }
        Graph { last_node_index: -1, last_edge_index: -1, nodes, edges }
    }

    /// Direct slot lookup; the caller is responsible for the bound.
    pub fn get_node(&self, index: i32) -> (n: Node)
        requires
            0 <= index < self@.nodes.len(),
        ensures
            n == self@.nodes[index as int],
    {
        self.nodes[index as usize]
    }

    /// Moves the node slots `start_at..end_at` one to the right, renumbering
    /// each moved node to its new slot, leaves the freed slot `start_at`
    /// inactive, and raises every edge endpoint at or beyond `start_at` to
    /// follow the move. `add_node` calls this while inserting, with `end_at`
    /// the first free slot, and fills `start_at` right after; until then the
    /// freed slot breaks the contiguity invariant, so treat the result as a
    /// graph mid-mutation.
    pub fn shift_nodes_right(&mut self, start_at: i32, end_at: i32, positions_to_shift: i32)
        requires
            old(self).wf(),
            positions_to_shift == 1,
            0 <= start_at <= old(self)@.last_node_index,
            end_at == old(self)@.last_node_index + 1,
            end_at < MAX_NODES as int,
        ensures
            final(self).last_node_index == old(self).last_node_index,
            final(self).last_edge_index == old(self).last_edge_index,
            final(self)@.nodes.len() == MAX_NODES as int,
            final(self)@.edges.len() == MAX_NODES as int,
            forall|i: int| 0 <= i < start_at as int ==> final(self)@.nodes[i] == old(self)@.nodes[i],
            final(self)@.nodes[start_at as int] == Node::spec_inactive(),
            forall|i: int|
                (start_at as int) < i <= end_at as int ==> final(self)@.nodes[i] == reindexed_node(
                    old(self)@.nodes[i - 1],
                    i,
                ),
            forall|i: int|
                (end_at as int) < i < MAX_NODES as int ==> final(self)@.nodes[i] == old(
                    self,
                )@.nodes[i],
            forall|j: int|
                0 <= j <= old(self)@.last_edge_index ==> final(self)@.edges[j]
                    == edge_shifted_right(old(self)@.edges[j], start_at as int),
            forall|j: int|
                old(self)@.last_edge_index < j < MAX_NODES as int ==> final(self)@.edges[j] == old(
                    self,
                )@.edges[j],
    {
        let mut i: i32 = end_at;
        while i > start_at
            invariant
                positions_to_shift == 1,
                start_at <= i <= end_at,
                end_at == old(self)@.last_node_index + 1,
                end_at < MAX_NODES as int,
                0 <= start_at,
                self.last_node_index == old(self).last_node_index,
                self.last_edge_index == old(self).last_edge_index,
                self.nodes@.len() == MAX_NODES as int,
                self.edges == old(self).edges,
                forall|t: int| 0 <= t <= i as int ==> #[trigger] self.nodes@[t] == old(self)@.nodes[t],
                forall|t: int|
                    (i as int) < t <= end_at as int ==> #[trigger] self.nodes@[t] == reindexed_node(
                        old(self)@.nodes[t - 1],
                        t,
                    ),
                forall|t: int|
                    (end_at as int) < t < MAX_NODES as int ==> #[trigger] self.nodes@[t] == old(
                        self,
                    )@.nodes[t],
            decreases i,
        {
            let moved = self.nodes[(i - positions_to_shift) as usize];
            let mut updated = moved;
            updated.update_index(i);
            self.nodes.set(i as usize, updated);
            i = i - 1;
        }
        let mut j: i32 = 0;
        while j <= self.last_edge_index
            invariant
                positions_to_shift == 1,
                0 <= j <= self.last_edge_index + 1,
                end_at == old(self)@.last_node_index + 1,
                end_at < MAX_NODES as int,
                self.last_node_index == old(self).last_node_index,
                self.last_edge_index == old(self).last_edge_index,
                -1 <= self.last_edge_index < MAX_NODES as int,
                self.edges@.len() == MAX_NODES as int,
                self.nodes@.len() == MAX_NODES as int,
                0 <= start_at <= old(self)@.last_node_index,
                forall|t: int|
                    0 <= t <= old(self)@.last_node_index ==> (#[trigger] old(self)@.nodes[t]).index_of
                        == t && coords_in_range(old(self)@.nodes[t]),
                forall|t: int| 0 <= t < start_at as int ==> #[trigger] self.nodes@[t] == old(self)@.nodes[t],
                self.nodes@[start_at as int] == old(self)@.nodes[start_at as int],
                forall|t: int|
                    (start_at as int) < t <= end_at as int ==> #[trigger] self.nodes@[t]
                        == reindexed_node(old(self)@.nodes[t - 1], t),
                forall|t: int|
                    (end_at as int) < t < MAX_NODES as int ==> #[trigger] self.nodes@[t] == old(
                        self,
                    )@.nodes[t],
                forall|t: int|
                    0 <= t <= old(self)@.last_edge_index ==> edge_endpoints_valid(
                        #[trigger] old(self)@.edges[t],
                        old(self)@.last_node_index,
                    ),
                forall|t: int|
                    0 <= t < j as int ==> #[trigger] self.edges@[t] == edge_shifted_right(
                        old(self)@.edges[t],
                        start_at as int,
                    ),
                forall|t: int|
                    (j as int) <= t < MAX_NODES as int ==> #[trigger] self.edges@[t] == old(
                        self,
                    )@.edges[t],
            decreases self.last_edge_index - j + 1,
        {
            let e = self.edges[j as usize];
            let new_source: i32 = if e.source_index >= start_at {
                e.source_index + positions_to_shift
            } else {
                e.source_index
            };
            let new_destination: i32 = if e.destination_index >= start_at {
                e.destination_index + positions_to_shift
            } else {
                e.destination_index
            };
            self.edges.set(
                j as usize,
                Edge { source_index: new_source, destination_index: new_destination },
            );
            j = j + 1;
        }
        self.nodes.set(start_at as usize, Node::new_inactive());
    }

    /// Places an active node at its own slot index. A node with a negative
    /// index is rejected with `Ok(false)`; an index past the first free slot
    /// would leave a gap and is refused; inserting into occupied territory
    /// shifts the tail right and renumbers it together with every affected
    /// edge endpoint.
    pub fn add_node(&mut self, node_to_add: Node) -> (r: Result<bool, GraphError>)
        requires
            old(self).wf(),
            node_to_add.index_of >= 0 ==> coords_in_range(node_to_add),
        ensures
            final(self).wf(),
            node_to_add.index_of < 0 ==> r == Ok::<bool, GraphError>(false) && *final(self) == *old(
                self,
            ),
            node_to_add.index_of as int > old(self)@.last_node_index + 1 ==> r == Err::<
                bool,
                GraphError,
            >(GraphError::InvalidNodeIndex) && *final(self) == *old(self),
            0 <= node_to_add.index_of as int <= old(self)@.last_node_index + 1 && old(
                self,
            )@.last_node_index + 1 >= MAX_NODES as int ==> r == Err::<bool, GraphError>(
                GraphError::CapacityExceeded,
            ) && *final(self) == *old(self),
            0 <= node_to_add.index_of as int <= old(self)@.last_node_index + 1 && old(
                self,
            )@.last_node_index + 1 < MAX_NODES as int ==> r == Ok::<bool, GraphError>(true)
                && final(self)@ == old(self)@.after_add_node(node_to_add),
    {
        if node_to_add.index_of < 0 {
            return Ok(false);
        }
        if node_to_add.index_of > self.last_node_index + 1 {
            return Err(GraphError::InvalidNodeIndex);
        }
        if self.last_node_index == (MAX_NODES as i32) - 1 {
            return Err(GraphError::CapacityExceeded);
        }
        let new_node_index: i32 = self.last_node_index + 1;
        if node_to_add.index_of > self.last_node_index {
            self.nodes.set(node_to_add.index_of as usize, node_to_add);
        } else {
            self.shift_nodes_right(node_to_add.index_of, new_node_index, 1);
            self.nodes.set(node_to_add.index_of as usize, node_to_add);
        }
        self.last_node_index = new_node_index;
        proof {
            let v = self@;
            let o = old(self)@;
            let target = o.after_add_node(node_to_add);
            let k = node_to_add.index_of as int;
            if k == o.last_node_index + 1 {
                assert(v.nodes =~= target.nodes);
            } else {
                assert forall|i: int| 0 <= i < MAX_NODES as int implies v.nodes[i]
                    == target.nodes[i] by {}
                assert(v.nodes =~= target.nodes);
                assert forall|j: int| 0 <= j < MAX_NODES as int implies v.edges[j]
                    == target.edges[j] by {}
                assert(v.edges =~= target.edges);
            }
            assert(v == target);
            lemma_add_node_wf(o, node_to_add);
        }
        Ok(true)
    }

    /// Adds a node, then reroutes any edge joining `node_before` and
    /// `node_after` (read by their captured indices, in either direction)
    /// through the new node: the matched edge is removed and replaced by
    /// `(node_before, node)` and `(node, node_after)`.
    pub fn add_node_between(
        &mut self,
        node_to_add: Node,
        node_before: Node,
        node_after: Node,
    ) -> (r: Result<bool, GraphError>)
        requires
            old(self).wf(),
            node_to_add.index_of >= 0 ==> coords_in_range(node_to_add),
        ensures
            final(self).wf(),
            node_to_add.index_of < 0 ==> r == Ok::<bool, GraphError>(false) && *final(self) == *old(
                self,
            ),
            node_to_add.index_of as int > old(self)@.last_node_index + 1 ==> r == Err::<
                bool,
                GraphError,
            >(GraphError::InvalidNodeIndex) && *final(self) == *old(self),
            0 <= node_to_add.index_of as int <= old(self)@.last_node_index + 1 && old(
                self,
            )@.last_node_index + 1 >= MAX_NODES as int ==> r == Err::<bool, GraphError>(
                GraphError::CapacityExceeded,
            ) && *final(self) == *old(self),
            0 <= node_to_add.index_of as int <= old(self)@.last_node_index + 1 && old(
                self,
            )@.last_node_index + 1 < MAX_NODES as int && (!old(self)@.surgery_match_exists(
                node_to_add,
                node_before.index_of,
                node_after.index_of,
            ) || (node_before.index_of != node_after.index_of && old(self)@.last_edge_index + 3
                <= MAX_NODES as int) || (node_before.index_of == node_after.index_of && old(
                self,
            )@.last_edge_index + 2 <= MAX_NODES as int)) ==> r == Ok::<bool, GraphError>(true)
                && final(self)@ == old(self)@.after_add_node_between(
                node_to_add,
                node_before.index_of,
                node_after.index_of,
            ),
            0 <= node_to_add.index_of as int <= old(self)@.last_node_index + 1 && old(
                self,
            )@.last_node_index + 1 < MAX_NODES as int && old(self)@.surgery_match_exists(
                node_to_add,
                node_before.index_of,
                node_after.index_of,
            ) && old(self)@.last_edge_index + 1 == MAX_NODES as int ==> r == Err::<
                bool,
                GraphError,
            >(GraphError::CapacityExceeded) && final(self)@ == old(self)@.after_add_node(
                node_to_add,
            ),
            0 <= node_to_add.index_of as int <= old(self)@.last_node_index + 1 && old(
                self,
            )@.last_node_index + 1 < MAX_NODES as int && old(self)@.surgery_match_exists(
                node_to_add,
                node_before.index_of,
                node_after.index_of,
            ) && node_before.index_of != node_after.index_of && old(self)@.last_edge_index + 2
                == MAX_NODES as int ==> r == Err::<bool, GraphError>(GraphError::CapacityExceeded)
                && final(self)@ == (GraphView {
                last_edge_index: old(self)@.last_edge_index + 1,
                edges: old(self)@.after_add_node(node_to_add).edges.update(
                    old(self)@.last_edge_index + 1,
                    Edge {
                        source_index: node_before.index_of,
                        destination_index: node_to_add.index_of,
                    },
                ),
                ..old(self)@.after_add_node(node_to_add)
            }),
    {
        let ghost o = old(self)@;
        match self.add_node(node_to_add) {
            Err(e) => {
                return Err(e);
            },
            Ok(false) => {
                return Ok(false);
            },
            Ok(true) => {},
        }
        let ghost g1 = self@;
        proof {
            lemma_add_node_wf(o, node_to_add);
            lemma_add_node_fresh(o, node_to_add);
        }
        let b: i32 = node_before.index_of;
        let a: i32 = node_after.index_of;
        let k: i32 = node_to_add.index_of;
        let last_scan: i32 = self.last_edge_index;
        let mut edges_to_remove: Vec<i32> = Vec::new();
        let mut i: i32 = 0;
        while i <= last_scan
            invariant
                0 <= i as int <= last_scan as int + 1,
                o == old(self)@,
                o.wf(),
                g1 == o.after_add_node(node_to_add),
                g1.wf(),
                0 <= (k as int) && k as int <= o.last_node_index + 1,
                o.last_node_index + 1 < MAX_NODES as int,
                b == node_before.index_of,
                a == node_after.index_of,
                k == node_to_add.index_of,
                last_scan as int == g1.last_edge_index,
                forall|t: int|
                    0 <= t <= g1.last_edge_index ==> !edge_touches(#[trigger] g1.edges[t], k),
                self.wf(),
                edges_to_remove@.len() <= 1,
                edges_to_remove@.len() == 0 ==> self@ == g1 && (forall|t: int|
                    0 <= t < i as int ==> !edge_connects(#[trigger] g1.edges[t], b, a)),
                edges_to_remove@.len() == 1 ==> {
                    &&& 0 <= (edges_to_remove@[0] as int) && (edges_to_remove@[0] as int) < i as int
                    &&& edge_connects(g1.edges[edges_to_remove@[0] as int], b, a)
                    &&& self@ == g1.with_surgery_edges(b, a, k)
                    &&& o.surgery_match_exists(node_to_add, b, a)
                    &&& o.last_edge_index + 2 <= MAX_NODES as int
                    &&& (b != a ==> o.last_edge_index + 3 <= MAX_NODES as int)
                },
            decreases last_scan - i + 1,
        {
            let edge = self.edges[i as usize];
            proof {
                if edges_to_remove@.len() == 1 {
                    assert(self@.edges[i as int] == g1.edges[i as int]);
                }
            }
            if (edge.source_index == b && edge.destination_index == a) || (edge.source_index == a
                && edge.destination_index == b) {
                proof {
                    if edges_to_remove@.len() == 1 {
                        lemma_connecting_edge_unique(
                            g1,
                            b,
                            a,
                            edges_to_remove@[0] as int,
                            i as int,
                        );
                        assert(false);
                    }
                    assert(edge_endpoints_valid(g1.edges[i as int], g1.last_node_index));
                    assert(!edge_touches(g1.edges[i as int], k));
                    assert forall|t: int|
                        0 <= t <= g1.last_edge_index implies !edge_connects(
                        #[trigger] g1.edges[t],
                        b,
                        k,
                    ) by {
                        assert(!edge_touches(g1.edges[t], k));
                    }
                }
                let edge_a_to_b: Edge = Edge::new(b, k);
                let edge_b_to_c: Edge = Edge::new(k, a);
                let ghost g2 = g1.with_surgery_edges(b, a, k);
                proof {
                    assert(o.after_add_node(node_to_add).edges[i as int] == g1.edges[i as int]);
                    assert(o.surgery_match_exists(node_to_add, b, a));
                }
                match self.add_edge(edge_a_to_b) {
                    Err(e) => {
                        proof {
                            assert(o.last_edge_index + 1 == MAX_NODES as int);
                            assert(self@ == o.after_add_node(node_to_add));
                        }
                        return Err(e);
                    },
                    Ok(()) => {},
                }
                proof {
                    if b != a {
                        assert forall|t: int|
                            0 <= t <= self@.last_edge_index implies !edge_connects(
                            #[trigger] self@.edges[t],
                            k,
                            a,
                        ) by {
                            if t <= g1.last_edge_index {
                                assert(self@.edges[t] == g1.edges[t]);
                                assert(!edge_touches(g1.edges[t], k));
                            } else {
                                assert(self@.edges[t] == (Edge {
                                    source_index: b,
                                    destination_index: k,
                                }));
                            }
                        }
                    } else {
                        assert(edge_connects(
                            self@.edges[g1.last_edge_index + 1],
                            k,
                            a,
                        ));
                        assert(self@.has_edge(k, a));
                    }
                }
                match self.add_edge(edge_b_to_c) {
                    Err(e) => {
                        proof {
                            assert(b != a);
                            assert(o.last_edge_index + 2 == MAX_NODES as int);
                            assert(self@ == (GraphView {
                                last_edge_index: o.last_edge_index + 1,
                                edges: o.after_add_node(node_to_add).edges.update(
                                    o.last_edge_index + 1,
                                    Edge { source_index: b, destination_index: k },
                                ),
                                ..o.after_add_node(node_to_add)
                            }));
                        }
                        return Err(e);
                    },
                    Ok(()) => {},
                }
                proof {
                    assert(self@ == g2);
                    assert(o.last_edge_index + 2 <= MAX_NODES as int);
                    if b != a {
                        assert(o.last_edge_index + 3 <= MAX_NODES as int);
                    }
                }
                edges_to_remove.push(i);
            }
            i = i + 1;
        }
        let ghost target = o.after_add_node_between(node_to_add, b, a);
        proof {
            if edges_to_remove@.len() == 0 {
                assert(!(exists|j: int|
                    0 <= j <= g1.last_edge_index && edge_connects(
                        #[trigger] g1.edges[j],
                        b,
                        a,
                    )));
                assert(!o.surgery_match_exists(node_to_add, b, a)) by {
                    if o.surgery_match_exists(node_to_add, b, a) {
                        let j = choose|j: int|
                            0 <= j <= o.after_add_node(node_to_add).last_edge_index
                                && edge_connects(
                                #[trigger] o.after_add_node(node_to_add).edges[j],
                                b,
                                a,
                            );
                        assert(edge_connects(g1.edges[j], b, a));
                    }
                }
                assert(target == g1);
            } else {
                let j0 = edges_to_remove@[0] as int;
                assert(0 <= j0 <= g1.last_edge_index && edge_connects(g1.edges[j0], b, a));
                let jc = choose|j: int|
                    0 <= j <= g1.last_edge_index && edge_connects(#[trigger] g1.edges[j], b, a);
                lemma_connecting_edge_unique(g1, b, a, j0, jc);
                let g3 = g1.with_surgery_edges(b, a, k);
                assert(target == (GraphView {
                    last_edge_index: g3.last_edge_index - 1,
                    edges: g3.edges.remove(j0).push(Edge::spec_inactive()),
                    ..g3
                }));
            }
        }
        let mut t: usize = 0;
        while t < edges_to_remove.len()
            invariant
                0 <= t as int <= edges_to_remove@.len(),
                edges_to_remove@.len() <= 1,
                self.wf(),
                g1.wf(),
                last_scan as int == g1.last_edge_index,
                edges_to_remove@.len() == 0 ==> self@ == target,
                edges_to_remove@.len() == 1 ==> {
                    &&& 0 <= edges_to_remove@[0] as int <= g1.last_edge_index
                    &&& t == 0 ==> self@ == g1.with_surgery_edges(b, a, k) && target == (GraphView {
                        last_edge_index: g1.with_surgery_edges(b, a, k).last_edge_index - 1,
                        edges: g1.with_surgery_edges(b, a, k).edges.remove(
                            edges_to_remove@[0] as int,
                        ).push(Edge::spec_inactive()),
                        ..g1.with_surgery_edges(b, a, k)
                    })
                    &&& t == 1 ==> self@ == target
                },
            decreases edges_to_remove@.len() - t,
        {
            let edge_index = edges_to_remove[t];
            proof {
                let g3 = g1.with_surgery_edges(b, a, k);
                assert(self@.last_edge_index == g3.last_edge_index);
                assert(edge_index as int <= g1.last_edge_index <= g3.last_edge_index);
            }
            match self.remove_edge(edge_index) {
                Err(_) => {},
                Ok(()) => {},
            }
            t = t + 1;
        }
        proof {
            assert(self@ == target);
        }
        Ok(true)
    }

    /// Moves the node slots `start_at..=end_at` one to the left, renumbering
    /// each moved node to its new slot, marks the vacated slot `end_at`
    /// inactive, and lowers every edge endpoint at or beyond `start_at` to
    /// follow the move. `remove_node` calls this after dropping the edges
    /// touching slot `start_at - 1`; the caller is responsible for that
    /// cleanup and for retreating the node cursor afterwards.
    pub fn shift_nodes_left(&mut self, start_at: i32, end_at: i32, positions_to_shift: i32)
        requires
            positions_to_shift == 1,
            1 <= start_at as int <= end_at as int + 1,
            0 <= (end_at as int) && (end_at as int) < MAX_NODES as int,
            old(self).last_node_index == end_at,
            -1 <= old(self)@.last_edge_index < MAX_NODES as int,
            old(self)@.nodes.len() == MAX_NODES as int,
            old(self)@.edges.len() == MAX_NODES as int,
            forall|i: int|
                0 <= i <= end_at as int ==> (#[trigger] old(self)@.nodes[i]).index_of == i
                    && coords_in_range(old(self)@.nodes[i]),
            forall|j: int|
                0 <= j <= old(self)@.last_edge_index ==> edge_endpoints_valid(
                    #[trigger] old(self)@.edges[j],
                    end_at as int,
                ) && !edge_touches(old(self)@.edges[j], (start_at - 1) as i32),
        ensures
            final(self).last_node_index == old(self).last_node_index,
            final(self).last_edge_index == old(self).last_edge_index,
            final(self)@.nodes.len() == MAX_NODES as int,
            final(self)@.edges.len() == MAX_NODES as int,
            forall|i: int|
                0 <= i < start_at as int - 1 ==> final(self)@.nodes[i] == old(self)@.nodes[i],
            forall|i: int|
                start_at as int - 1 <= i < end_at as int ==> final(self)@.nodes[i]
                    == reindexed_node(old(self)@.nodes[i + 1], i),
            final(self)@.nodes[end_at as int] == Node::spec_inactive(),
            forall|i: int|
                (end_at as int) < i < MAX_NODES as int ==> final(self)@.nodes[i] == old(
                    self,
                )@.nodes[i],
            forall|j: int|
                0 <= j <= old(self)@.last_edge_index ==> final(self)@.edges[j] == edge_shifted_left(
                    old(self)@.edges[j],
                    start_at as int,
                ),
            forall|j: int|
                old(self)@.last_edge_index < j < MAX_NODES as int ==> final(self)@.edges[j] == old(
                    self,
                )@.edges[j],
    {
        let mut i: i32 = start_at;
        while i <= end_at
            invariant
                positions_to_shift == 1,
                1 <= start_at <= i,
                start_at as int <= end_at as int + 1,
                i as int <= end_at as int + 1,
                0 <= (end_at as int) && (end_at as int) < MAX_NODES as int,
                self.last_node_index == old(self).last_node_index,
                self.last_edge_index == old(self).last_edge_index,
                self.nodes@.len() == MAX_NODES as int,
                self.edges == old(self).edges,
                forall|t: int|
                    0 <= t < start_at as int - 1 ==> #[trigger] self.nodes@[t] == old(
                        self,
                    )@.nodes[t],
                forall|t: int|
                    start_at as int - 1 <= t < i as int - 1 ==> #[trigger] self.nodes@[t]
                        == reindexed_node(old(self)@.nodes[t + 1], t),
                forall|t: int|
                    (i as int) - 1 <= t < MAX_NODES as int ==> #[trigger] self.nodes@[t] == old(
                        self,
                    )@.nodes[t],
            decreases end_at - i + 1,
        {
            let moved = self.nodes[i as usize];
            let mut updated = moved;
            updated.update_index(i - positions_to_shift);
            self.nodes.set((i - positions_to_shift) as usize, updated);
            i = i + 1;
        }
        let ghost nodes_mid = self.nodes@;
        let mut j: i32 = 0;
        while j <= self.last_edge_index
            invariant
                positions_to_shift == 1,
                0 <= j <= self.last_edge_index + 1,
                1 <= start_at,
                0 <= (end_at as int) && (end_at as int) < MAX_NODES as int,
                self.last_node_index == old(self).last_node_index,
                self.last_edge_index == old(self).last_edge_index,
                -1 <= self.last_edge_index < MAX_NODES as int,
                self.edges@.len() == MAX_NODES as int,
                self.nodes@ == nodes_mid,
                nodes_mid.len() == MAX_NODES as int,
                forall|t: int|
                    0 <= t <= old(self)@.last_edge_index ==> edge_endpoints_valid(
                        #[trigger] old(self)@.edges[t],
                        old(self).last_node_index as int,
                    ),
                forall|t: int|
                    0 <= t < j as int ==> #[trigger] self.edges@[t] == edge_shifted_left(
                        old(self)@.edges[t],
                        start_at as int,
                    ),
                forall|t: int|
                    (j as int) <= t < MAX_NODES as int ==> #[trigger] self.edges@[t] == old(
                        self,
                    )@.edges[t],
            decreases self.last_edge_index - j + 1,
        {
            let e = self.edges[j as usize];
            let new_source: i32 = if e.source_index >= start_at {
                e.source_index - positions_to_shift
            } else {
                e.source_index
            };
            let new_destination: i32 = if e.destination_index >= start_at {
                e.destination_index - positions_to_shift
            } else {
                e.destination_index
            };
            self.edges.set(
                j as usize,
                Edge { source_index: new_source, destination_index: new_destination },
            );
            j = j + 1;
        }
        self.nodes.set(end_at as usize, Node::new_inactive());
    }

    /// Removes the node at `index_to_remove`: drops every edge touching it,
    /// then closes the gap by shifting the later nodes one slot left,
    /// renumbering them and every surviving edge endpoint together.
    pub fn remove_node(&mut self, index_to_remove: i32) -> (r: Result<(), GraphError>)
        requires
            old(self).wf(),
        ensures
            final(self).wf(),
            !(0 <= index_to_remove as int <= old(self)@.last_node_index) ==> r == Err::<
                (),
                GraphError,
            >(GraphError::OutOfRangeIndex) && *final(self) == *old(self),
            0 <= index_to_remove as int <= old(self)@.last_node_index ==> r == Ok::<
                (),
                GraphError,
            >(()) && final(self)@ == old(self)@.after_remove_node(index_to_remove),
    {
        if index_to_remove > self.last_node_index || index_to_remove < 0 {
            return Err(GraphError::OutOfRangeIndex);
        }
        let ghost o = old(self)@;
        let ghost active = o.edges.subrange(0, o.last_edge_index + 1);

        // Drop every edge touching the node, compacting the rest in order.
        let mut w: i32 = 0;
        let mut j: i32 = 0;
        while j <= self.last_edge_index
            invariant
                0 <= w <= j,
                j as int <= o.last_edge_index + 1,
                self.last_edge_index == o.last_edge_index,
                -1 <= o.last_edge_index < MAX_NODES as int,
                self.last_node_index == old(self).last_node_index,
                self.nodes == old(self).nodes,
                self.edges@.len() == MAX_NODES as int,
                o.edges.len() == MAX_NODES as int,
                active == o.edges.subrange(0, o.last_edge_index + 1),
                w as int == edges_without_node(o.edges.subrange(0, j as int), index_to_remove).len(),
                self.edges@.subrange(0, w as int) == edges_without_node(
                    o.edges.subrange(0, j as int),
                    index_to_remove,
                ),
                forall|t: int|
                    (j as int) <= t < MAX_NODES as int ==> #[trigger] self.edges@[t] == o.edges[t],
            decreases self.last_edge_index - j + 1,
        {
            let e = self.edges[j as usize];
            proof {
                assert(o.edges.subrange(0, j as int + 1).drop_last() =~= o.edges.subrange(
                    0,
                    j as int,
                ));
                assert(o.edges.subrange(0, j as int + 1).last() == o.edges[j as int]);
            }
            if !(e.source_index == index_to_remove || e.destination_index == index_to_remove) {
                self.edges.set(w as usize, e);
                w = w + 1;
                proof {
                    assert(self.edges@.subrange(0, w as int) =~= edges_without_node(
                        o.edges.subrange(0, j as int),
                        index_to_remove,
                    ).push(e));
                }
            }
            j = j + 1;
        }
        proof {
            assert(o.edges.subrange(0, j as int) == active);
        }

        // Blank the vacated tail of the edge arena.
        let ghost kept_len = w as int;
        let mut s: i32 = w;
        while s <= self.last_edge_index
            invariant
                0 <= w <= s,
                kept_len == w as int,
                s as int <= o.last_edge_index + 1,
                self.last_edge_index == o.last_edge_index,
                -1 <= o.last_edge_index < MAX_NODES as int,
                self.last_node_index == old(self).last_node_index,
                self.nodes == old(self).nodes,
                self.edges@.len() == MAX_NODES as int,
                self.edges@.subrange(0, w as int) == edges_without_node(
                    active,
                    index_to_remove,
                ),
                forall|t: int|
                    (w as int) <= t < s as int ==> #[trigger] self.edges@[t]
                        == Edge::spec_inactive(),
                forall|t: int|
                    o.last_edge_index < t < MAX_NODES as int ==> #[trigger] self.edges@[t]
                        == o.edges[t],
            decreases self.last_edge_index - s + 1,
        {
            self.edges.set(s as usize, Edge::new_inactive());
            s = s + 1;
        }
        self.last_edge_index = w - 1;

        // Close the node gap; edge endpoints beyond the slot follow.
        proof {
            lemma_edges_without_node_elements(active, index_to_remove);
            let kept = edges_without_node(active, index_to_remove);
            assert forall|t: int| 0 <= t <= self@.last_edge_index implies edge_endpoints_valid(
                #[trigger] self.edges@[t],
                self.last_node_index as int,
            ) && !edge_touches(self.edges@[t], index_to_remove) by {
                assert(self.edges@[t] == self.edges@.subrange(0, w as int)[t]);
                assert(self.edges@[t] == kept[t]);
                assert(kept.contains(kept[t]));
                assert(active.contains(kept[t]));
                let u = choose|u: int| 0 <= u < active.len() && active[u] == kept[t];
                assert(o.edges[u] == kept[t]);
            }
        }
        self.shift_nodes_left(index_to_remove + 1, self.last_node_index, 1);
        self.last_node_index = self.last_node_index - 1;

        proof {
            let v = self@;
            let target = o.after_remove_node(index_to_remove);
            let kept = edges_without_node(active, index_to_remove);
            assert forall|i: int| 0 <= i < MAX_NODES as int implies v.nodes[i] == target.nodes[i] by {}
            assert(v.nodes =~= target.nodes);
            assert forall|t: int| 0 <= t < MAX_NODES as int implies v.edges[t] == target.edges[t] by {
                if 0 <= t < kept.len() {
                    assert(v.edges[t] == edge_shifted_left(kept[t], index_to_remove as int + 1));
                }
            }
            assert(v.edges =~= target.edges);
            assert(v == target);
            lemma_remove_node_wf(o, index_to_remove);
        }
        Ok(())
    }

    /// Appends an edge. A no-op when the unordered pair is already joined;
    /// rejected when an endpoint is not an active node or the arena is full.
    pub fn add_edge(&mut self, edge_to_add: Edge) -> (r: Result<(), GraphError>)
        requires
            old(self).wf(),
        ensures
            final(self).wf(),
            old(self)@.has_edge(edge_to_add.source_index, edge_to_add.destination_index) ==> r
                == Ok::<(), GraphError>(()) && *final(self) == *old(self),
            !old(self)@.has_edge(edge_to_add.source_index, edge_to_add.destination_index)
                && !edge_endpoints_valid(edge_to_add, old(self)@.last_node_index) ==> r == Err::<
                (),
                GraphError,
            >(GraphError::EdgeEndpointInvalid) && *final(self) == *old(self),
            !old(self)@.has_edge(edge_to_add.source_index, edge_to_add.destination_index)
                && edge_endpoints_valid(edge_to_add, old(self)@.last_node_index) && old(
                self,
            )@.last_edge_index + 1 == MAX_NODES as int ==> r == Err::<(), GraphError>(
                GraphError::CapacityExceeded,
            ) && *final(self) == *old(self),
            !old(self)@.has_edge(edge_to_add.source_index, edge_to_add.destination_index)
                && edge_endpoints_valid(edge_to_add, old(self)@.last_node_index) && old(
                self,
            )@.last_edge_index + 1 < MAX_NODES as int ==> r == Ok::<(), GraphError>(())
                && final(self)@ == (GraphView {
                last_edge_index: old(self)@.last_edge_index + 1,
                edges: old(self)@.edges.update(old(self)@.last_edge_index + 1, edge_to_add),
                ..old(self)@
            }),
    {
        if self.has_edge_bi_directional(edge_to_add.source_index, edge_to_add.destination_index) {
            return Ok(());
        }
        if edge_to_add.source_index < 0 || edge_to_add.source_index > self.last_node_index
            || edge_to_add.destination_index < 0 || edge_to_add.destination_index
            > self.last_node_index {
            return Err(GraphError::EdgeEndpointInvalid);
        }
        if self.last_edge_index == (MAX_NODES as i32) - 1 {
            return Err(GraphError::CapacityExceeded);
        }
        let new_edge_index: i32 = self.last_edge_index + 1;
        self.edges.set(new_edge_index as usize, edge_to_add);
        self.last_edge_index = new_edge_index;
        proof {
            assert(self@.edges[self@.last_edge_index] == edge_to_add);
            assert forall|j: int, k: int| 0 <= j < k <= self@.last_edge_index implies
                !same_unordered_pair(self@.edges[j], self@.edges[k]) by {
                if k == self@.last_edge_index {
                    assert(self@.edges[j] == old(self)@.edges[j]);
                    assert(!edge_connects(
                        old(self)@.edges[j],
                        edge_to_add.source_index,
                        edge_to_add.destination_index,
                    ));
                }
            }
        }
        Ok(())
    }

    /// Clears the edge slot at `index_to_remove`, shifts every later active
    /// edge one slot left, and retreats the cursor.
    pub fn remove_edge(&mut self, index_to_remove: i32) -> (r: Result<(), GraphError>)
        requires
            old(self).wf(),
        ensures
            final(self).wf(),
            !(0 <= index_to_remove <= old(self)@.last_edge_index) ==> r == Err::<(), GraphError>(
                GraphError::OutOfRangeIndex,
            ) && *final(self) == *old(self),
            0 <= index_to_remove <= old(self)@.last_edge_index ==> r == Ok::<(), GraphError>(())
                && final(self)@ == (GraphView {
                last_edge_index: old(self)@.last_edge_index - 1,
                edges: old(self)@.edges.remove(index_to_remove as int).push(Edge::spec_inactive()),
                ..old(self)@
            }),
    {
        if index_to_remove > self.last_edge_index || index_to_remove < 0 {
            return Err(GraphError::OutOfRangeIndex);
        }
        self.edges.set(index_to_remove as usize, Edge::new_inactive());
        let mut i: i32 = index_to_remove;
        while i < self.last_edge_index
            invariant
                0 <= index_to_remove <= i <= self.last_edge_index,
                self.last_edge_index == old(self)@.last_edge_index,
                self.last_edge_index < MAX_NODES as int,
                self.edges@.len() == MAX_NODES as int,
                self.last_node_index == old(self)@.last_node_index,
                self.nodes == old(self).nodes,
                forall|j: int|
                    0 <= j < index_to_remove as int ==> #[trigger] self.edges@[j] == old(
                        self,
                    )@.edges[j],
                forall|j: int|
                    index_to_remove as int <= j < i as int ==> #[trigger] self.edges@[j] == old(
                        self,
                    )@.edges[j + 1],
                forall|j: int|
                    (i as int) < j < MAX_NODES as int ==> #[trigger] self.edges@[j] == old(
                        self,
                    )@.edges[j],
                self.edges@[i as int] == Edge::spec_inactive() || self.edges@[i as int] == old(
                    self,
                )@.edges[i as int],
            decreases self.last_edge_index - i,
        {
            let next = self.edges[(i + 1) as usize];
            self.edges.set(i as usize, next);
            i = i + 1;
        }
        self.edges.set(self.last_edge_index as usize, Edge::new_inactive());
        self.last_edge_index = self.last_edge_index - 1;
        proof {
            let v = self@;
            let o = old(self)@;
            let target = o.edges.remove(index_to_remove as int).push(Edge::spec_inactive());
            assert forall|j: int| 0 <= j < MAX_NODES as int implies v.edges[j] == target[j] by {}
            assert(v.edges =~= target);
            assert(v.wf());
        }
        Ok(())
    }

    /// The nodes connected to `node` by an edge of this graph, one entry per
    /// active edge touching `node`, in edge-storage order.
    pub fn get_connected_nodes(&self, node: Node) -> (connected: Vec<Node>)
        requires
            self.wf(),
        ensures
            connected@ == neighbours_along(
                self@.edges.subrange(0, self@.last_edge_index + 1),
                self@.nodes,
                node.index_of,
            ),
            forall|k: int|
                0 <= k < connected@.len() ==> 0 <= (#[trigger] connected@[k]).index_of as int
                    <= self@.last_node_index && connected@[k]
                    == self@.nodes[connected@[k].index_of as int] && self@.has_edge(
                    node.index_of,
                    connected@[k].index_of,
                ),
    {
        let mut connected_nodes: Vec<Node> = Vec::new();
        let mut i: i32 = 0;
        while i <= self.last_edge_index
            invariant
                self.wf(),
                0 <= i <= self@.last_edge_index + 1,
                connected_nodes@ == neighbours_along(
                    self@.edges.subrange(0, i as int),
                    self@.nodes,
                    node.index_of,
                ),
                forall|k: int|
                    0 <= k < connected_nodes@.len() ==> 0 <= (
                    #[trigger] connected_nodes@[k]).index_of as int <= self@.last_node_index
                        && connected_nodes@[k]
                        == self@.nodes[connected_nodes@[k].index_of as int] && self@.has_edge(
                        node.index_of,
                        connected_nodes@[k].index_of,
                    ),
            decreases self.last_edge_index - i + 1,
        {
            let edge = self.edges[i as usize];
            proof {
                assert(self@.edges.subrange(0, i as int + 1).drop_last() =~= self@.edges.subrange(
                    0,
                    i as int,
                ));
                assert(self@.edges.subrange(0, i as int + 1).last() == self@.edges[i as int]);
                assert(edge_connects(self@.edges[i as int], edge.source_index, edge.destination_index));
            }
            if edge.source_index == node.index_of {
                connected_nodes.push(self.nodes[edge.destination_index as usize]);
            } else if edge.destination_index == node.index_of {
                connected_nodes.push(self.nodes[edge.source_index as usize]);
            }
            i = i + 1;
        }
        connected_nodes
    }

    /// Linear scan: is some active edge equal to `(a, b)` or `(b, a)`?
    pub fn has_edge_bi_directional(&self, edge_source: i32, edge_destination: i32) -> (r: bool)
        requires
            self.wf(),
        ensures
            r == self@.has_edge(edge_source, edge_destination),
    {
        let mut i: i32 = 0;
        while i <= self.last_edge_index
            invariant
                self.wf(),
                0 <= i <= self.last_edge_index + 1,
                forall|j: int|
                    0 <= j < i as int ==> !edge_connects(
                        #[trigger] self@.edges[j],
                        edge_source,
                        edge_destination,
                    ),
            decreases self.last_edge_index - i + 1,
        {
            let edge = self.edges[i as usize];
            if edge_source == edge.source_index {
                if edge_destination == edge.destination_index {
                    return true;
                }
            } else if edge_source == edge.destination_index {
                if edge_destination == edge.source_index {
                    return true;
                }
            }
            i = i + 1;
        }
        false
    }
}

} // verus!

