//! A* shortest-path search over a graph.
//!
//! Costs are Euclidean distances rounded down to whole ticks, summed in
//! `u128` with `u128::MAX` standing for an unreachable (infinite) cost; the
//! heuristic is the Euclidean distance to the target. The frontier is
//! scanned linearly and ties are broken toward the entry that entered it
//! first, so the returned path is deterministic.

use vstd::prelude::*;

use crate::arith::saturating_add_u128;
use crate::error::GraphError;
use crate::graph::{lemma_neighbours_complete, neighbours_along, Graph, GraphView};
use crate::node::{
    coords_in_range, euclid_distance, get_distance_between_nodes, is_distance,
    lemma_euclid_distance_bounded, lemma_euclid_distance_is_distance, Node,
};
use vstd::seq_lib::*;
use vstd::set_lib::{lemma_int_range, lemma_len_subset, set_int_range};

verus! {

/// The score that marks a slot the search has not reached.
pub const INFINITE_COST: u128 = u128::MAX;

/// Every consecutive pair of `path` is joined by an active edge of `g`.
pub open spec fn path_connected_in(path: Seq<i32>, g: GraphView) -> bool {
    forall|t: int| 0 <= t < path.len() - 1 ==> g.has_edge(#[trigger] path[t], path[t + 1])
}

/// `path` is a walk through active nodes of `g` from `start` to `goal`.
pub open spec fn valid_path(path: Seq<i32>, g: GraphView, start: i32, goal: i32) -> bool {
    &&& path.len() >= 1
    &&& path[0] == start
    &&& path[path.len() - 1] == goal
    &&& forall|t: int| 0 <= t < path.len() ==> 0 <= #[trigger] path[t] <= g.last_node_index
    &&& path_connected_in(path, g)
}

/// The total cost of walking `path`: the rounded-down Euclidean distances
/// between the nodes at its consecutive slots, summed exactly.
pub open spec fn path_cost(path: Seq<i32>, nodes: Seq<Node>) -> int
    decreases path.len(),
{
    if path.len() <= 1 {
        0
    } else {
        path_cost(path.drop_last(), nodes) + euclid_distance(
            nodes[path[path.len() - 2] as int],
            nodes[path[path.len() - 1] as int],
        )
    }
}

/// Every reached node that has left the frontier bounds its neighbours:
/// walking one edge out of it can improve a score by at most that edge's
/// distance.
spec fn expansion_closure(
    g_score: Seq<u128>,
    frontier: Seq<Node>,
    g: GraphView,
    except: int,
) -> bool {
    forall|v: int, w: int|
        {
            &&& 0 <= v <= g.last_node_index
            &&& 0 <= w <= g.last_node_index
            &&& v != except
            &&& g_score[v] < INFINITE_COST
            &&& !in_frontier(frontier, v as i32)
            &&& #[trigger] g.has_edge(v as i32, w as i32)
        } ==> g_score[w] <= g_score[v] + euclid_distance(g.nodes[v], g.nodes[w])
}

/// Under the closure with an empty frontier, the search's scores bound every
/// walk: a walk from the start to `last` either costs at least as much as
/// the score recorded at `last`, or costs `INFINITE_COST` or more outright.
proof fn lemma_scores_bound_walks(
    g_score: Seq<u128>,
    g: GraphView,
    start: i32,
    goal: i32,
    path: Seq<i32>,
)
    requires
        g_score.len() == g.nodes.len(),
        g.last_node_index < g_score.len(),
        0 <= start as int <= g.last_node_index,
        g_score[start as int] == 0,
        expansion_closure(g_score, Seq::empty(), g, -1),
        valid_path(path, g, start, goal),
    ensures
        g_score[path[path.len() - 1] as int] <= path_cost(path, g.nodes) || path_cost(
            path,
            g.nodes,
        ) >= INFINITE_COST,
    decreases path.len(),
{
    if path.len() == 1 {
        assert(path[0] == start);
    } else {
        let prefix = path.drop_last();
        let v = path[path.len() - 2] as int;
        let w = path[path.len() - 1] as int;
        assert(valid_path(prefix, g, start, path[path.len() - 2])) by {
            assert(forall|t: int| 0 <= t < prefix.len() ==> prefix[t] == #[trigger] path[t]);
            assert(forall|t: int|
                0 <= t < prefix.len() - 1 ==> g.has_edge(#[trigger] prefix[t], prefix[t + 1]));
        }
        lemma_scores_bound_walks(g_score, g, start, path[path.len() - 2], prefix);
        lemma_euclid_distance_is_distance(g.nodes[v], g.nodes[w]);
        let step = euclid_distance(g.nodes[v], g.nodes[w]);
        assert(g.has_edge(path[path.len() - 2], path[path.len() - 1]));
        if path_cost(prefix, g.nodes) >= INFINITE_COST {
            assert(path_cost(path, g.nodes) >= INFINITE_COST);
        } else if g_score[v] <= path_cost(prefix, g.nodes) {
            assert(g_score[v] < INFINITE_COST);
            assert(!in_frontier(Seq::empty(), path[path.len() - 2]));
            assert(v as i32 == path[path.len() - 2] && w as i32 == path[path.len() - 1]);
            assert(g.has_edge(v as i32, w as i32));
            assert(g_score[w] <= g_score[v] + step);
        }
    }
}

/// Every frontier entry is an active node, stored at its own slot, that the
/// search has reached.
spec fn frontier_ok(frontier: Seq<Node>, g_score: Seq<u128>, g: GraphView) -> bool {
    forall|p: int|
        0 <= p < frontier.len() ==> {
            &&& 0 <= (#[trigger] frontier[p]).index_of as int <= g.last_node_index
            &&& frontier[p] == g.nodes[frontier[p].index_of as int]
            &&& g_score[frontier[p].index_of as int] < INFINITE_COST
        }
}

/// Some frontier entry sits at slot `idx`.
spec fn in_frontier(frontier: Seq<Node>, idx: i32) -> bool {
    exists|p: int| 0 <= p < frontier.len() && (#[trigger] frontier[p]).index_of == idx
}

/// The invariant tying the score and back-pointer tables to the graph.
///
/// A slot is *reached* when its score is finite. The start sits at score
/// zero with no back-pointer; every other reached slot has a back-pointer to
/// a reached neighbour along an active edge, and following back-pointers
/// strictly descends in `(score, stamp)` order, so the chains are acyclic
/// and every chain ends at the start.
spec fn search_state_wf(
    g_score: Seq<u128>,
    came_from: Seq<i32>,
    stamps: Seq<nat>,
    clock: nat,
    g: GraphView,
    start: i32,
) -> bool {
    &&& g_score.len() == g.nodes.len()
    &&& came_from.len() == g_score.len()
    &&& stamps.len() == g_score.len()
    &&& g.last_node_index < g_score.len()
    &&& 0 <= start as int <= g.last_node_index
    &&& g_score[start as int] == 0
    &&& came_from[start as int] == -1
    &&& forall|v: int|
        0 <= v < came_from.len() && #[trigger] came_from[v] != -1 ==> {
            &&& 0 <= came_from[v] as int <= g.last_node_index
            &&& 0 <= v <= g.last_node_index
            &&& g.has_edge(came_from[v], v as i32)
            &&& g_score[v] < INFINITE_COST
            &&& g_score[came_from[v] as int] < INFINITE_COST
            &&& g_score[v] >= g_score[came_from[v] as int] + euclid_distance(
                g.nodes[came_from[v] as int],
                g.nodes[v],
            )
            &&& (g_score[came_from[v] as int] < g_score[v] || (g_score[came_from[v] as int]
                == g_score[v] && stamps[came_from[v] as int] < stamps[v]))
        }
    &&& forall|v: int|
        0 <= v < g_score.len() && #[trigger] g_score[v] < INFINITE_COST && v != start as int
            ==> came_from[v] != -1
    &&& forall|v: int| 0 <= v < stamps.len() ==> #[trigger] stamps[v] < clock
}

/// The state of a search in flight: the open frontier, the back-pointer
/// table, and the two score tables.
pub ghost struct SearchState {
    pub frontier: Seq<Node>,
    pub came_from: Seq<i32>,
    pub g_score: Seq<u128>,
    pub f_score: Seq<u128>,
}

/// A cost pinned at `INFINITE_COST` instead of wrapping.
pub open spec fn saturated(x: int) -> u128 {
    if x > u128::MAX {
        u128::MAX
    } else {
        x as u128
    }
}

/// The frontier position expanded next: a linear scan keeps the entry with
/// the strictly lowest estimated total cost, so among entries with equal
/// scores the earliest one wins.
pub open spec fn lowest_f_index(frontier: Seq<Node>, f_score: Seq<u128>) -> int
    decreases frontier.len(),
{
    if frontier.len() <= 1 {
        0
    } else {
        let rest = lowest_f_index(frontier.drop_last(), f_score);
        if f_score[frontier.last().index_of as int] < f_score[frontier[rest].index_of as int] {
            frontier.len() - 1
        } else {
            rest
        }
    }
}

/// One node's expansion: each neighbour in turn is offered the cost through
/// the expanded node; an improved neighbour records its back-pointer, takes
/// the new scores, and joins the frontier unless already on it.
pub open spec fn relaxed_state(
    state: SearchState,
    current: Node,
    neighbours: Seq<Node>,
    target_node: Node,
) -> SearchState
    decreases neighbours.len(),
{
    if neighbours.len() == 0 {
        state
    } else {
        let nb = neighbours[0];
        let tentative = saturated(
            state.g_score[current.index_of as int] + euclid_distance(current, nb),
        );
        let next = if tentative < state.g_score[nb.index_of as int] {
            SearchState {
                came_from: state.came_from.update(nb.index_of as int, current.index_of),
                g_score: state.g_score.update(nb.index_of as int, tentative),
                f_score: state.f_score.update(
                    nb.index_of as int,
                    saturated(tentative + euclid_distance(nb, target_node)),
                ),
                frontier: if state.frontier.contains(nb) {
                    state.frontier
                } else {
                    state.frontier.push(nb)
                },
            }
        } else {
            state
        };
        relaxed_state(next, current, neighbours.drop_first(), target_node)
    }
}

/// The chain of recorded back-pointers walked up from `current`, read out
/// start-first. `fuel` bounds the walk; the chains the search records
/// descend strictly, so a fuel of one more than the table's length never
/// runs out on them.
pub open spec fn back_pointer_chain(came_from: Seq<i32>, current: i32, fuel: nat) -> Seq<i32>
    decreases fuel,
{
    if fuel == 0 {
        seq![current]
    } else if 0 <= (current as int) && (current as int) < came_from.len() && came_from[current as int] != -1 {
        back_pointer_chain(came_from, came_from[current as int], (fuel - 1) as nat).push(current)
    } else {
        seq![current]
    }
}

/// The reference run of the search: from `state`, repeatedly expand the
/// lowest-cost frontier entry until the target is popped (its back-pointer
/// chain is the result) or the frontier runs dry. `None` only when `fuel`
/// runs out, so any two completing fuels agree
/// ([`lemma_search_from_deterministic`]).
pub open spec fn search_from(
    state: SearchState,
    g: GraphView,
    target_index: i32,
    fuel: nat,
) -> Option<Result<Seq<i32>, GraphError>>
    decreases fuel,
{
    if fuel == 0 {
        None
    } else if state.frontier.len() == 0 {
        Some(Err(GraphError::PathNotFound))
    } else {
        let sel = lowest_f_index(state.frontier, state.f_score);
        let current = state.frontier[sel];
        let popped = SearchState { frontier: state.frontier.remove(sel), ..state };
        if current.index_of == target_index {
            Some(
                Ok(
                    back_pointer_chain(
                        popped.came_from,
                        current.index_of,
                        (popped.came_from.len() + 1) as nat,
                    ),
                ),
            )
        } else {
            let neighbours = neighbours_along(
                g.edges.subrange(0, g.last_edge_index + 1),
                g.nodes,
                current.index_of,
            );
            search_from(
                relaxed_state(popped, current, neighbours, g.nodes[target_index as int]),
                g,
                target_index,
                (fuel - 1) as nat,
            )
        }
    }
}

/// The state a search starts from: the start node alone on the frontier, no
/// back-pointers, and every score infinite except the start's.
pub open spec fn initial_search_state(g: GraphView, start_index: i32, target_index: i32) -> SearchState {
    SearchState {
        frontier: seq![g.nodes[start_index as int]],
        came_from: Seq::new(g.nodes.len(), |v: int| -1i32),
        g_score: Seq::new(g.nodes.len(), |v: int| INFINITE_COST).update(start_index as int, 0u128),
        f_score: Seq::new(g.nodes.len(), |v: int| INFINITE_COST).update(
            start_index as int,
            saturated(
                euclid_distance(g.nodes[start_index as int], g.nodes[target_index as int]),
            ),
        ),
    }
}

/// The search state read off the four running tables.
pub open spec fn state_of(
    frontier: Seq<Node>,
    came_from: Seq<i32>,
    g_score: Seq<u128>,
    f_score: Seq<u128>,
) -> SearchState {
    SearchState { frontier, came_from, g_score, f_score }
}

/// A search result with the returned path read as a sequence.
pub open spec fn result_view(r: Result<Vec<i32>, GraphError>) -> Result<Seq<i32>, GraphError> {
    match r {
        Ok(p) => Ok(p@),
        Err(e) => Err(e),
    }
}

/// The reference run is deterministic: any two fuels on which it completes
/// give the same answer, so an `exists`-fuel clause pins the result.
pub proof fn lemma_search_from_deterministic(
    state: SearchState,
    g: GraphView,
    target_index: i32,
    fuel1: nat,
    fuel2: nat,
)
    requires
        search_from(state, g, target_index, fuel1) is Some,
        search_from(state, g, target_index, fuel2) is Some,
    ensures
        search_from(state, g, target_index, fuel1) == search_from(state, g, target_index, fuel2),
    decreases fuel1,
{
    if state.frontier.len() > 0 {
        let sel = lowest_f_index(state.frontier, state.f_score);
        if state.frontier[sel].index_of != target_index {
            let popped = SearchState { frontier: state.frontier.remove(sel), ..state };
            let neighbours = neighbours_along(
                g.edges.subrange(0, g.last_edge_index + 1),
                g.nodes,
                state.frontier[sel].index_of,
            );
            lemma_search_from_deterministic(
                relaxed_state(popped, state.frontier[sel], neighbours, g.nodes[target_index as int]),
                g,
                target_index,
                (fuel1 - 1) as nat,
                (fuel2 - 1) as nat,
            );
        }
    }
}

/// A sequence of pairwise distinct indices drawn from `0..=bound` has at
/// most `bound + 1` entries.
proof fn lemma_distinct_indices_bound(s: Seq<i32>, bound: int)
    requires
        0 <= bound,
        forall|t: int| 0 <= t < s.len() ==> 0 <= #[trigger] s[t] <= bound,
        forall|t1: int, t2: int| 0 <= t1 < t2 < s.len() ==> s[t1] != s[t2],
    ensures
        s.len() <= bound + 1,
{
    let m = s.map_values(|x: i32| x as int);
    assert(m.no_duplicates()) by {
        assert forall|t1: int, t2: int|
            0 <= t1 < m.len() && 0 <= t2 < m.len() && t1 != t2 implies m[t1] != m[t2] by {
            if t1 < t2 {
                assert(s[t1] != s[t2]);
            } else {
                assert(s[t2] != s[t1]);
            }
        }
    }
    m.unique_seq_to_set();
    assert(m.to_set().subset_of(set_int_range(0, bound + 1))) by {
        assert forall|e: int| m.to_set().contains(e) implies set_int_range(
            0,
            bound + 1,
        ).contains(e) by {
            let t = choose|t: int| 0 <= t < m.len() && m[t] == e;
            assert(0 <= s[t] <= bound);
        }
    }
    lemma_int_range(0, bound + 1);
    lemma_len_subset(m.to_set(), set_int_range(0, bound + 1));
}

/// Any walk between two nodes contains a short walk between them: cutting
/// the stretch between two visits of the same slot leaves a walk, so some
/// walk visits each active slot at most once.
proof fn lemma_walk_has_short_walk(g: GraphView, start: i32, goal: i32, path: Seq<i32>)
    requires
        valid_path(path, g, start, goal),
    ensures
        exists|q: Seq<i32>|
            #[trigger] valid_path(q, g, start, goal) && q.len() <= g.last_node_index + 1,
    decreases path.len(),
{
    if exists|i: int, j: int| 0 <= i < j < path.len() && path[i] == path[j] {
        let (i, j) = choose|i: int, j: int| 0 <= i < j < path.len() && path[i] == path[j];
        let spliced = path.subrange(0, i + 1) + path.subrange(j + 1, path.len() as int);
        assert(valid_path(spliced, g, start, goal)) by {
            assert(spliced[0] == path[0]);
            assert(spliced[spliced.len() - 1] == path[path.len() - 1] || spliced[spliced.len()
                - 1] == path[j]);
            assert forall|t: int| 0 <= t < spliced.len() - 1 implies g.has_edge(
                #[trigger] spliced[t],
                spliced[t + 1],
            ) by {
                if t < i {
                    assert(spliced[t] == path[t] && spliced[t + 1] == path[t + 1]);
                } else if t == i {
                    assert(spliced[t] == path[j] && spliced[t + 1] == path[j + 1]);
                } else {
                    assert(spliced[t] == path[t + j - i] && spliced[t + 1] == path[t + 1 + j
                        - i]);
                }
            }
        }
        lemma_walk_has_short_walk(g, start, goal, spliced);
    } else {
        assert forall|t1: int, t2: int| 0 <= t1 < t2 < path.len() implies path[t1] != path[t2] by {}
        lemma_distinct_indices_bound(path, g.last_node_index);
        assert(valid_path(path, g, start, goal) && path.len() <= g.last_node_index + 1);
    }
}

/// A walk's cost grows by at most one maximal step per edge.
proof fn lemma_path_cost_bounded(path: Seq<i32>, g: GraphView)
    requires
        g.wf(),
        path.len() >= 1,
        forall|t: int| 0 <= t < path.len() ==> 0 <= #[trigger] path[t] <= g.last_node_index,
    ensures
        path_cost(path, g.nodes) <= (path.len() - 1) * 3_000_000_000_000_000_000,
    decreases path.len(),
{
    if path.len() > 1 {
        let prefix = path.drop_last();
        assert(forall|t: int| 0 <= t < prefix.len() ==> prefix[t] == #[trigger] path[t]);
        lemma_path_cost_bounded(prefix, g);
        let a = path[path.len() - 2] as int;
        let b = path[path.len() - 1] as int;
        assert(coords_in_range(g.nodes[a]) && coords_in_range(g.nodes[b]));
        lemma_euclid_distance_bounded(g.nodes[a], g.nodes[b]);
    }
}

/// `x` was reached strictly before `y` in the search's `(score, stamp)`
/// order; back-pointer chains descend strictly in it.
spec fn reached_before(g_score: Seq<u128>, stamps: Seq<nat>, x: i32, y: i32) -> bool {
    ||| g_score[x as int] < g_score[y as int]
    ||| (g_score[x as int] == g_score[y as int] && stamps[x as int] < stamps[y as int])
}

/// The total of all scores; decreases whenever one slot's score drops.
spec fn total_cost(s: Seq<u128>) -> int
    decreases s.len(),
{
    if s.len() == 0 {
        0
    } else {
        total_cost(s.drop_last()) + s.last()
    }
}

/// Putting one slot in front of a walk adds one leading step to its cost.
proof fn lemma_path_cost_prepend(x: i32, p: Seq<i32>, nodes: Seq<Node>)
    requires
        p.len() >= 1,
    ensures
        path_cost(seq![x] + p, nodes) == euclid_distance(nodes[x as int], nodes[p[0] as int])
            + path_cost(p, nodes),
    decreases p.len(),
{
    let q = seq![x] + p;
    assert(q.len() == p.len() + 1);
    assert(path_cost(q, nodes) == path_cost(q.drop_last(), nodes) + euclid_distance(
        nodes[q[q.len() - 2] as int],
        nodes[q[q.len() - 1] as int],
    ));
    if p.len() == 1 {
        assert(q.drop_last() =~= seq![x]);
        assert(path_cost(seq![x], nodes) == 0);
        assert(q[0] == x && q[1] == p[0]);
        assert(path_cost(p, nodes) == 0);
    } else {
        assert(q.drop_last() =~= seq![x] + p.drop_last());
        lemma_path_cost_prepend(x, p.drop_last(), nodes);
        assert(q[q.len() - 2] == p[p.len() - 2] && q[q.len() - 1] == p[p.len() - 1]);
        assert(p.drop_last()[0] == p[0]);
        assert(path_cost(p, nodes) == path_cost(p.drop_last(), nodes) + euclid_distance(
            nodes[p[p.len() - 2] as int],
            nodes[p[p.len() - 1] as int],
        ));
    }
}

proof fn lemma_total_cost_nonneg(s: Seq<u128>)
    ensures
        total_cost(s) >= 0,
    decreases s.len(),
{
    if s.len() > 0 {
        lemma_total_cost_nonneg(s.drop_last());
    }
}

proof fn lemma_total_cost_update(s: Seq<u128>, i: int, v: u128)
    requires
        0 <= i < s.len(),
    ensures
        total_cost(s.update(i, v)) == total_cost(s) - s[i] + v,
    decreases s.len(),
{
    let u = s.update(i, v);
    if i == s.len() - 1 {
        assert(u.drop_last() =~= s.drop_last());
    } else {
        assert(u.drop_last() =~= s.drop_last().update(i, v));
        assert(u.last() == s.last());
        lemma_total_cost_update(s.drop_last(), i, v);
    }
}

/// Walks the back-pointers from `current` up to the start, collecting the
/// slots front-first: the result runs from the start to `current`.
fn reconstruct_path(
    came_from: &Vec<i32>,
    current: i32,
    Ghost(g_score): Ghost<Seq<u128>>,
    Ghost(stamps): Ghost<Seq<nat>>,
    Ghost(clock): Ghost<nat>,
    Ghost(g): Ghost<GraphView>,
    Ghost(start): Ghost<i32>,
) -> (total_path: Vec<i32>)
    requires
        search_state_wf(g_score, came_from@, stamps, clock, g, start),
        0 <= current as int <= g.last_node_index,
        g_score[current as int] < INFINITE_COST,
    ensures
        valid_path(total_path@, g, start, current),
        path_cost(total_path@, g.nodes) <= g_score[current as int],
        forall|t1: int, t2: int|
            0 <= t1 < t2 < total_path@.len() ==> total_path@[t1] != total_path@[t2],
        total_path@ == back_pointer_chain(came_from@, current, (came_from@.len() + 1) as nat),
        came_from@[current as int] == -1 ==> total_path@ =~= seq![current],
{
    let ghost full_chain = back_pointer_chain(came_from@, current, (came_from@.len() + 1) as nat);
    let mut total_path: Vec<i32> = Vec::new();
    total_path.push(current);
    let mut current_node: i32 = current;
    while came_from[current_node as usize] != -1
        invariant
            search_state_wf(g_score, came_from@, stamps, clock, g, start),
            0 <= current_node as int <= g.last_node_index,
            g_score[current_node as int] < INFINITE_COST,
            total_path@.len() >= 1,
            total_path@[0] == current_node,
            total_path@[total_path@.len() - 1] == current,
            forall|t: int|
                0 <= t < total_path@.len() ==> 0 <= #[trigger] total_path@[t]
                    <= g.last_node_index,
            path_connected_in(total_path@, g),
            path_cost(total_path@, g.nodes) <= g_score[current as int] - g_score[current_node
                as int],
            forall|t1: int, t2: int|
                0 <= t1 < t2 < total_path@.len() ==> reached_before(
                    g_score,
                    stamps,
                    total_path@[t1],
                    total_path@[t2],
                ),
            total_path@.len() <= g.last_node_index + 2,
            full_chain == back_pointer_chain(came_from@, current, (came_from@.len() + 1) as nat),
            full_chain == back_pointer_chain(
                came_from@,
                current_node,
                (came_from@.len() + 2 - total_path@.len()) as nat,
            ) + total_path@.drop_first(),
            came_from@[current as int] == -1 ==> total_path@ =~= seq![current],
        decreases g_score[current_node as int], stamps[current_node as int],
    {
        proof {
            // The collected slots are pairwise distinct, so the walk has
            // spare fuel left for one more step.
            assert forall|t1: int, t2: int| 0 <= t1 < t2 < total_path@.len() implies total_path@[t1]
                != total_path@[t2] by {
                assert(reached_before(g_score, stamps, total_path@[t1], total_path@[t2]));
            }
            lemma_distinct_indices_bound(total_path@, g.last_node_index);
        }
        let ghost prev_path = total_path@;
        let ghost prev_head = current_node;
        let previous: i32 = came_from[current_node as usize];
        current_node = previous;
        total_path.insert(0, previous);
        proof {
            assert(total_path@ =~= seq![previous] + prev_path);
            lemma_path_cost_prepend(previous, prev_path, g.nodes);
            assert forall|t: int| 0 <= t < total_path@.len() - 1 implies g.has_edge(
                #[trigger] total_path@[t],
                total_path@[t + 1],
            ) by {
                if t > 0 {
                    assert(total_path@[t] == prev_path[t - 1]);
                    assert(total_path@[t + 1] == prev_path[t]);
                }
            }
            assert forall|t1: int, t2: int|
                0 <= t1 < t2 < total_path@.len() implies reached_before(
                g_score,
                stamps,
                total_path@[t1],
                total_path@[t2],
            ) by {
                if t1 == 0 {
                    assert(reached_before(g_score, stamps, previous, prev_head));
                    if t2 > 1 {
                        assert(reached_before(g_score, stamps, prev_head, prev_path[t2 - 1]));
                    }
                } else {
                    assert(total_path@[t1] == prev_path[t1 - 1]);
                    assert(total_path@[t2] == prev_path[t2 - 1]);
                }
            }
            // One more back-pointer step is absorbed into the collected
            // prefix; the distinctness bound left fuel to spare for it.
            let fuel_old = (came_from@.len() + 2 - prev_path.len()) as nat;
            assert(prev_path.len() <= g.last_node_index + 1);
            assert(fuel_old >= 1);
            assert(back_pointer_chain(came_from@, prev_head, fuel_old) == back_pointer_chain(
                came_from@,
                previous,
                (fuel_old - 1) as nat,
            ).push(prev_head));
            assert(total_path@.drop_first() =~= prev_path);
            assert((came_from@.len() + 2 - total_path@.len()) as nat == (fuel_old - 1) as nat);
            assert(full_chain =~= back_pointer_chain(came_from@, previous, (fuel_old - 1) as nat)
                + total_path@.drop_first()) by {
                assert(seq![prev_head] + prev_path.drop_first() =~= prev_path);
                assert(back_pointer_chain(came_from@, previous, (fuel_old - 1) as nat).push(
                    prev_head,
                ) + prev_path.drop_first() =~= back_pointer_chain(
                    came_from@,
                    previous,
                    (fuel_old - 1) as nat,
                ) + prev_path);
            }
        }
    }
    proof {
        assert(current_node == start);
        assert forall|t1: int, t2: int| 0 <= t1 < t2 < total_path@.len() implies total_path@[t1]
            != total_path@[t2] by {
            assert(reached_before(g_score, stamps, total_path@[t1], total_path@[t2]));
        }
        assert(back_pointer_chain(
            came_from@,
            current_node,
            (came_from@.len() + 2 - total_path@.len()) as nat,
        ) =~= seq![current_node]);
        assert(total_path@ =~= full_chain);
    }
    total_path
}

/// True iff some entry of `frontier` equals `node`.
fn frontier_contains(frontier: &Vec<Node>, node: Node) -> (r: bool)
    ensures
        r == exists|p: int| 0 <= p < frontier@.len() && #[trigger] frontier@[p] == node,
{
    let mut p: usize = 0;
    while p < frontier.len()
        invariant
            0 <= p <= frontier@.len(),
            forall|q: int| 0 <= q < p as int ==> #[trigger] frontier@[q] != node,
        decreases frontier@.len() - p,
    {
        if frontier[p] == node {
            return true;
        }
        p = p + 1;
    }
    false
}

/// The Euclidean distance from `node` to the target, rounded down.
fn get_heuristic(node: Node, target_node: Node) -> (r: u64)
    requires
        coords_in_range(node),
        coords_in_range(target_node),
    ensures
        is_distance(node, target_node, r as int),
        r as int == euclid_distance(node, target_node),
{
    get_distance_between_nodes(node, target_node)
}

/// A* search from `start_index` to `target_index`: repeatedly expands the
/// frontier entry with the lowest estimated total cost (ties broken toward
/// the entry that entered the frontier first) until the target is taken from
/// the frontier, then walks the recorded back-pointers into a path.
///
/// The result equals, step for step, the reference run [`search_from`]
/// from [`initial_search_state`] — selection order, tie-break and all — and
/// [`lemma_search_from_deterministic`] pins that run to a single answer.
/// A returned path starts at `start_index`, ends at `target_index`, follows
/// active edges, repeats no node, and costs less than `INFINITE_COST`; when
/// the two indices agree it is the single node itself. `PathNotFound` is
/// reported once the frontier runs empty, and exactly when no walk of
/// active edges joins the two slots at all.
#[verifier::rlimit(60)]
pub fn a_star_search(start_index: i32, target_index: i32, graph: &Graph) -> (r: Result<
    Vec<i32>,
    GraphError,
>)
    requires
        graph.wf(),
        0 <= start_index as int <= graph@.last_node_index,
        0 <= target_index as int <= graph@.last_node_index,
    ensures
        exists|fuel: nat|
            #[trigger] search_from(
                initial_search_state(graph@, start_index, target_index),
                graph@,
                target_index,
                fuel,
            ) == Some(result_view(r)),
        r matches Ok(path) ==> valid_path(path@, graph@, start_index, target_index),
        r matches Ok(path) ==> forall|t1: int, t2: int|
            0 <= t1 < t2 < path@.len() ==> path@[t1] != path@[t2],
        r matches Ok(path) ==> path_cost(path@, graph@.nodes) < INFINITE_COST,
        r matches Err(e) ==> e == GraphError::PathNotFound && start_index != target_index
            && !graph@.has_edge(start_index, target_index),
        r matches Err(e) ==> forall|path: Seq<i32>|
            !(#[trigger] valid_path(path, graph@, start_index, target_index)),
        start_index == target_index ==> (r matches Ok(path) && path@ =~= seq![start_index]),
{
    let ghost gv = graph@;
    let start_node: Node = graph.get_node(start_index);
    let target_node: Node = graph.get_node(target_index);

    let mut frontier: Vec<Node> = Vec::new();
    frontier.push(start_node);
    let capacity: usize = graph.nodes.len();

    let mut came_from: Vec<i32> = Vec::new();
    let mut g_score: Vec<u128> = Vec::new();
    let mut f_score: Vec<u128> = Vec::new();
    let mut fill: usize = 0;
    while fill < capacity
        invariant
            0 <= fill <= capacity,
            came_from@.len() == fill as int,
            g_score@.len() == fill as int,
            f_score@.len() == fill as int,
            forall|v: int| 0 <= v < fill as int ==> #[trigger] came_from@[v] == -1,
            forall|v: int| 0 <= v < fill as int ==> #[trigger] g_score@[v] == INFINITE_COST,
            forall|v: int| 0 <= v < fill as int ==> #[trigger] f_score@[v] == INFINITE_COST,
        decreases capacity - fill,
    {
        came_from.push(-1);
        g_score.push(INFINITE_COST);
        f_score.push(INFINITE_COST);
        fill = fill + 1;
    }
    g_score.set(start_index as usize, 0);
    f_score.set(start_index as usize, get_heuristic(start_node, target_node) as u128);

    let ghost mut stamps: Seq<nat> = Seq::new(capacity as nat, |v: int| 0nat);
    let ghost mut clock: nat = 1;
    let ghost mut steps: nat = 0;
    let ghost init_state = initial_search_state(gv, start_index, target_index);

    proof {
        assert(frontier@[0] == start_node);
        assert(start_node.index_of == start_index);
        assert(in_frontier(frontier@, start_index));
        assert(state_of(frontier@, came_from@, g_score@, f_score@) == init_state) by {
            assert(frontier@ =~= seq![gv.nodes[start_index as int]]);
            assert(came_from@ =~= Seq::new(gv.nodes.len(), |v: int| -1i32));
            assert(g_score@ =~= Seq::new(gv.nodes.len(), |v: int| INFINITE_COST).update(
                start_index as int,
                0u128,
            ));
            assert(f_score@ =~= Seq::new(gv.nodes.len(), |v: int| INFINITE_COST).update(
                start_index as int,
                saturated(
                    euclid_distance(
                        gv.nodes[start_index as int],
                        gv.nodes[target_index as int],
                    ),
                ),
            ));
        }
        if g_score@[target_index as int] < INFINITE_COST {
            assert(target_index == start_index);
            assert(in_frontier(frontier@, target_index));
        }
        assert forall|v: int, w: int|
            {
                &&& 0 <= v <= gv.last_node_index
                &&& 0 <= w <= gv.last_node_index
                &&& v != -1
                &&& g_score@[v] < INFINITE_COST
                &&& !in_frontier(frontier@, v as i32)
                &&& #[trigger] gv.has_edge(v as i32, w as i32)
            } implies g_score@[w] <= g_score@[v] + euclid_distance(gv.nodes[v], gv.nodes[w]) by {
            if v == start_index as int {
                assert(in_frontier(frontier@, v as i32));
            } else {
                assert(g_score@[v] == INFINITE_COST);
            }
        }
    }

    while frontier.len() > 0
        invariant
            gv == graph@,
            graph.wf(),
            0 <= start_index as int <= gv.last_node_index,
            0 <= target_index as int <= gv.last_node_index,
            start_node == gv.nodes[start_index as int],
            target_node == gv.nodes[target_index as int],
            capacity as int == gv.nodes.len(),
            search_state_wf(g_score@, came_from@, stamps, clock, gv, start_index),
            f_score@.len() == g_score@.len(),
            frontier_ok(frontier@, g_score@, gv),
            g_score@[target_index as int] < INFINITE_COST ==> in_frontier(
                frontier@,
                target_index,
            ),
            expansion_closure(g_score@, frontier@, gv, -1),
            init_state == initial_search_state(gv, start_index, target_index),
            forall|fl: nat|
                #[trigger] search_from(
                    state_of(frontier@, came_from@, g_score@, f_score@),
                    gv,
                    target_index,
                    fl,
                ) is Some ==> search_from(init_state, gv, target_index, (fl + steps) as nat)
                    == search_from(
                    state_of(frontier@, came_from@, g_score@, f_score@),
                    gv,
                    target_index,
                    fl,
                ),
        decreases total_cost(g_score@), frontier@.len(),
    {
        let ghost sum_entry = total_cost(g_score@);
        let ghost frontier_entry = frontier@;
        let ghost st_entry = state_of(frontier@, came_from@, g_score@, f_score@);

        // The frontier entry with the lowest estimated total cost; the first
        // such entry wins ties.
        let mut lowest_f_score: u128 = f_score[frontier[0].index_of as usize];
        let mut index_of_node_with_lowest_f_score: usize = 0;
        let mut scan: usize = 1;
        while scan < frontier.len()
            invariant
                frontier@ == frontier_entry,
                frontier@.len() >= 1,
                frontier_ok(frontier@, g_score@, gv),
                capacity as int == gv.nodes.len(),
                gv.last_node_index < capacity as int,
                f_score@.len() == capacity as int,
                g_score@.len() == capacity as int,
                1 <= scan <= frontier@.len(),
                0 <= (index_of_node_with_lowest_f_score as int) < frontier@.len(),
                index_of_node_with_lowest_f_score < scan,
                lowest_f_score == f_score@[frontier@[index_of_node_with_lowest_f_score as int].index_of as int],
                index_of_node_with_lowest_f_score as int == lowest_f_index(
                    frontier@.take(scan as int),
                    f_score@,
                ),
            decreases frontier@.len() - scan,
        {
            let frontier_node = frontier[scan];
            let node_f_score = f_score[frontier_node.index_of as usize];
            proof {
                let tk1 = frontier@.take(scan as int + 1);
                assert(tk1.drop_last() =~= frontier@.take(scan as int));
                assert(tk1.last() == frontier@[scan as int]);
                assert(tk1[index_of_node_with_lowest_f_score as int]
                    == frontier@[index_of_node_with_lowest_f_score as int]);
                assert(lowest_f_index(tk1, f_score@) == (if f_score@[tk1.last().index_of as int]
                    < f_score@[tk1[lowest_f_index(tk1.drop_last(), f_score@)].index_of as int] {
                    tk1.len() - 1
                } else {
                    lowest_f_index(tk1.drop_last(), f_score@)
                }));
            }
            if node_f_score < lowest_f_score {
                lowest_f_score = node_f_score;
                index_of_node_with_lowest_f_score = scan;
            }
            scan = scan + 1;
        }
        proof {
            assert(frontier@.take(frontier@.len() as int) =~= frontier@);
            assert(index_of_node_with_lowest_f_score as int == lowest_f_index(
                frontier@,
                f_score@,
            ));
        }
        let current_node: Node = frontier[index_of_node_with_lowest_f_score];
        frontier.remove(index_of_node_with_lowest_f_score);

        if current_node.index_of == target_index {
            let total_path = reconstruct_path(
                &came_from,
                current_node.index_of,
                Ghost(g_score@),
                Ghost(stamps),
                Ghost(clock),
                Ghost(gv),
                Ghost(start_index),
            );
            proof {
                // One reference step from the entry state pops the target
                // and reads off exactly this back-pointer chain.
                let sel = index_of_node_with_lowest_f_score as int;
                assert(st_entry.frontier.len() > 0);
                assert(lowest_f_index(st_entry.frontier, st_entry.f_score) == sel);
                assert(st_entry.frontier[sel] == current_node);
                assert(search_from(st_entry, gv, target_index, 1nat) == Some(
                    Ok::<Seq<i32>, GraphError>(
                        back_pointer_chain(
                            came_from@,
                            current_node.index_of,
                            (came_from@.len() + 1) as nat,
                        ),
                    ),
                ));
                assert(search_from(st_entry, gv, target_index, 1nat) == Some(
                    result_view(Ok::<Vec<i32>, GraphError>(total_path)),
                ));
                assert(search_from(st_entry, gv, target_index, 1nat) is Some);
                assert(search_from(init_state, gv, target_index, (1nat + steps) as nat)
                    == search_from(st_entry, gv, target_index, 1nat));
            }
            return Ok(total_path);
        }

        proof {
            let sel = index_of_node_with_lowest_f_score as int;
            if g_score@[target_index as int] < INFINITE_COST {
                let p = choose|p: int|
                    0 <= p < frontier_entry.len() && (#[trigger] frontier_entry[p]).index_of
                        == target_index;
                if p < sel {
                    assert(frontier@[p].index_of == target_index);
                } else {
                    assert(frontier@[p - 1].index_of == target_index);
                }
            }
            // Every node but the one just popped keeps its closure bound:
            // its frontier membership is unchanged by the pop.
            assert forall|v: int, w: int|
                {
                    &&& 0 <= v <= gv.last_node_index
                    &&& 0 <= w <= gv.last_node_index
                    &&& v != current_node.index_of as int
                    &&& g_score@[v] < INFINITE_COST
                    &&& !in_frontier(frontier@, v as i32)
                    &&& #[trigger] gv.has_edge(v as i32, w as i32)
                } implies g_score@[w] <= g_score@[v] + euclid_distance(gv.nodes[v], gv.nodes[w]) by {
                if in_frontier(frontier_entry, v as i32) {
                    let p = choose|p: int|
                        0 <= p < frontier_entry.len() && (#[trigger] frontier_entry[p]).index_of
                            == v as i32;
                    assert(p != sel);
                    if p < sel {
                        assert(frontier@[p].index_of == v as i32);
                    } else {
                        assert(frontier@[p - 1].index_of == v as i32);
                    }
                }
            }
            assert(expansion_closure(g_score@, frontier@, gv, current_node.index_of as int));
        }

        let ghost frontier_popped = frontier@;
        let ghost g_popped = g_score@;
        let connected = graph.get_connected_nodes(current_node);
        let ghost current_idx = current_node.index_of as int;
        let ghost st_popped = state_of(frontier@, came_from@, g_score@, f_score@);
        let ghost relax_goal = relaxed_state(st_popped, current_node, connected@, target_node);
        proof {
            assert(st_popped == (SearchState {
                frontier: st_entry.frontier.remove(index_of_node_with_lowest_f_score as int),
                ..st_entry
            }));
            assert(connected@.subrange(0, connected@.len() as int) =~= connected@);
        }

        let mut n_idx: usize = 0;
        while n_idx < connected.len()
            invariant
                gv == graph@,
                graph.wf(),
                0 <= start_index as int <= gv.last_node_index,
                0 <= target_index as int <= gv.last_node_index,
                target_node == gv.nodes[target_index as int],
                capacity as int == gv.nodes.len(),
                search_state_wf(g_score@, came_from@, stamps, clock, gv, start_index),
                f_score@.len() == g_score@.len(),
                frontier_ok(frontier@, g_score@, gv),
                0 <= n_idx as int <= connected@.len(),
                current_idx == current_node.index_of as int,
                0 <= current_idx <= gv.last_node_index,
                current_node == gv.nodes[current_idx],
                current_node.index_of != target_index,
                g_score@[current_idx] == g_popped[current_idx],
                g_score@[current_idx] < INFINITE_COST,
                forall|k: int|
                    0 <= k < connected@.len() ==> 0 <= (#[trigger] connected@[k]).index_of as int
                        <= gv.last_node_index && connected@[k]
                        == gv.nodes[connected@[k].index_of as int] && gv.has_edge(
                        current_node.index_of,
                        connected@[k].index_of,
                    ),
                g_score@[target_index as int] < INFINITE_COST ==> in_frontier(
                    frontier@,
                    target_index,
                ),
                expansion_closure(g_score@, frontier@, gv, current_idx),
                forall|k: int|
                    0 <= k < n_idx as int ==> #[trigger] g_score@[connected@[k].index_of as int]
                        <= g_score@[current_idx] + euclid_distance(
                        gv.nodes[current_idx],
                        gv.nodes[connected@[k].index_of as int],
                    ),
                total_cost(g_score@) < sum_entry || (g_score@ == g_popped && frontier@
                    == frontier_popped),
                frontier_popped.len() + 1 == frontier_entry.len(),
                sum_entry == total_cost(g_popped),
                target_node == gv.nodes[target_index as int],
                relaxed_state(
                    state_of(frontier@, came_from@, g_score@, f_score@),
                    current_node,
                    connected@.subrange(n_idx as int, connected@.len() as int),
                    target_node,
                ) == relax_goal,
            decreases connected@.len() - n_idx,
        {
            let ghost frontier_body_entry = frontier@;
            let ghost g_body_entry = g_score@;
            let ghost st_body = state_of(frontier@, came_from@, g_score@, f_score@);
            let ghost rem = connected@.subrange(n_idx as int, connected@.len() as int);
            let neighbour_node: Node = connected[n_idx];
            let distance_to_neighbour: u64 = get_distance_between_nodes(
                current_node,
                neighbour_node,
            );
            let tentative_g_score: u128 = saturating_add_u128(
                g_score[current_node.index_of as usize],
                distance_to_neighbour as u128,
            );
            if tentative_g_score < g_score[neighbour_node.index_of as usize] {
                let ghost g_before = g_score@;
                let ghost stamps_before = stamps;
                let ghost nb = neighbour_node.index_of as int;
                came_from.set(neighbour_node.index_of as usize, current_node.index_of);
                g_score.set(neighbour_node.index_of as usize, tentative_g_score);
                let heuristic = get_heuristic(neighbour_node, target_node);
                f_score.set(
                    neighbour_node.index_of as usize,
                    saturating_add_u128(tentative_g_score, heuristic as u128),
                );
                proof {
                    lemma_total_cost_update(g_before, nb, tentative_g_score);
                    stamps = stamps.update(nb, clock);
                    clock = clock + 1;
                    assert forall|v: int|
                        0 <= v < came_from@.len() && #[trigger] came_from@[v] != -1 implies {
                        &&& 0 <= came_from@[v] as int <= gv.last_node_index
                        &&& 0 <= v <= gv.last_node_index
                        &&& gv.has_edge(came_from@[v], v as i32)
                        &&& g_score@[v] < INFINITE_COST
                        &&& g_score@[came_from@[v] as int] < INFINITE_COST
                        &&& (g_score@[came_from@[v] as int] < g_score@[v] || (g_score@[came_from@[v]
                            as int] == g_score@[v] && stamps[came_from@[v] as int] < stamps[v]))
                    } by {
                        if v == nb {
                            assert(gv.has_edge(current_node.index_of, neighbour_node.index_of));
                            assert(tentative_g_score >= g_before[current_idx]);
                            assert(neighbour_node == gv.nodes[nb]);
                            assert(current_node == gv.nodes[current_idx]);
                            assert(distance_to_neighbour as int == euclid_distance(
                                gv.nodes[current_idx],
                                gv.nodes[nb],
                            ));
                            assert(tentative_g_score == g_before[current_idx]
                                + distance_to_neighbour);
                        } else {
                            assert(came_from@[v] != -1);
                            if came_from@[v] as int == nb {
                                assert(g_before[v] > g_before[nb] || (g_before[v] == g_before[nb]
                                    && stamps_before[nb] < stamps_before[v]));
                                assert(g_score@[v] == g_before[v]);
                                assert(g_score@[nb] < g_before[nb]);
                            }
                        }
                    }
                    assert(search_state_wf(
                        g_score@,
                        came_from@,
                        stamps,
                        clock,
                        gv,
                        start_index,
                    ));
                }
                if !frontier_contains(&frontier, neighbour_node) {
                    frontier.push(neighbour_node);
                    proof {
                        assert(frontier@[frontier@.len() - 1] == neighbour_node);
                    }
                }
                proof {
                    if g_score@[target_index as int] < INFINITE_COST {
                        if nb == target_index as int {
                            assert(neighbour_node.index_of == target_index);
                            if exists|p: int|
                                0 <= p < frontier@.len() && #[trigger] frontier@[p]
                                    == neighbour_node {
                                let p = choose|p: int|
                                    0 <= p < frontier@.len() && #[trigger] frontier@[p]
                                        == neighbour_node;
                                assert(frontier@[p].index_of == target_index);
                            }
                        } else {
                            assert(g_body_entry[target_index as int] < INFINITE_COST);
                            let p = choose|p: int|
                                0 <= p < frontier_body_entry.len() && (
                                #[trigger] frontier_body_entry[p]).index_of == target_index;
                            assert(frontier@[p].index_of == target_index);
                        }
                    }
                    // The updated neighbour is on the frontier either way.
                    let p = choose|p: int|
                        0 <= p < frontier@.len() && #[trigger] frontier@[p] == neighbour_node;
                    assert(frontier@[p].index_of == neighbour_node.index_of);
                    assert(in_frontier(frontier@, neighbour_node.index_of));
                    // The closure survives the update: the neighbour joined
                    // the frontier, its score only fell, and nothing else
                    // changed.
                    assert forall|v: int, w: int|
                        {
                            &&& 0 <= v <= gv.last_node_index
                            &&& 0 <= w <= gv.last_node_index
                            &&& v != current_idx
                            &&& g_score@[v] < INFINITE_COST
                            &&& !in_frontier(frontier@, v as i32)
                            &&& #[trigger] gv.has_edge(v as i32, w as i32)
                        } implies g_score@[w] <= g_score@[v] + euclid_distance(
                        gv.nodes[v],
                        gv.nodes[w],
                    ) by {
                        assert(v != nb);
                        if in_frontier(frontier_body_entry, v as i32) {
                            let q = choose|q: int|
                                0 <= q < frontier_body_entry.len() && (
                                #[trigger] frontier_body_entry[q]).index_of == v as i32;
                            assert(frontier@[q].index_of == v as i32);
                        }
                        assert(g_body_entry[w] <= g_body_entry[v] + euclid_distance(
                            gv.nodes[v],
                            gv.nodes[w],
                        ));
                        assert(g_score@[v] == g_body_entry[v]);
                        assert(g_score@[w] <= g_body_entry[w]);
                    }
                }
            }
            proof {
                // One scan step more: the scanned neighbour's score is
                // within one edge of the popped node's score.
                let nb_idx = neighbour_node.index_of as int;
                assert(neighbour_node == gv.nodes[nb_idx]);
                assert(current_node == gv.nodes[current_idx]);
                assert(distance_to_neighbour as int == euclid_distance(
                    gv.nodes[current_idx],
                    gv.nodes[nb_idx],
                ));
                assert(g_score@[nb_idx] <= g_score@[current_idx] + euclid_distance(
                    gv.nodes[current_idx],
                    gv.nodes[nb_idx],
                ));
                assert(connected@[n_idx as int].index_of as int == nb_idx);
                assert forall|k: int|
                    0 <= k < n_idx as int + 1 implies #[trigger] g_score@[connected@[k].index_of
                    as int] <= g_score@[current_idx] + euclid_distance(
                    gv.nodes[current_idx],
                    gv.nodes[connected@[k].index_of as int],
                ) by {
                    if k < n_idx as int {
                        assert(g_body_entry[connected@[k].index_of as int] <= g_body_entry[current_idx]
                            + euclid_distance(
                            gv.nodes[current_idx],
                            gv.nodes[connected@[k].index_of as int],
                        ));
                    }
                }
                // The reference relaxation takes the same step: same offered
                // cost, same branch, same table updates, same frontier.
                assert(rem.len() > 0 && rem[0] == neighbour_node);
                assert(rem.drop_first() =~= connected@.subrange(
                    n_idx as int + 1,
                    connected@.len() as int,
                ));
                assert(saturated(
                    st_body.g_score[current_node.index_of as int] + euclid_distance(
                        current_node,
                        neighbour_node,
                    ),
                ) == tentative_g_score);
                let st_after = state_of(frontier@, came_from@, g_score@, f_score@);
                if tentative_g_score < st_body.g_score[neighbour_node.index_of as int] {
                    assert(st_after.came_from == st_body.came_from.update(
                        neighbour_node.index_of as int,
                        current_node.index_of,
                    ));
                    assert(st_after.g_score == st_body.g_score.update(
                        neighbour_node.index_of as int,
                        tentative_g_score,
                    ));
                    assert(st_after.f_score == st_body.f_score.update(
                        neighbour_node.index_of as int,
                        saturated(
                            tentative_g_score + euclid_distance(neighbour_node, target_node),
                        ),
                    ));
                    if st_body.frontier.contains(neighbour_node) {
                        assert(st_after.frontier == st_body.frontier);
                    } else {
                        assert(st_after.frontier == st_body.frontier.push(neighbour_node));
                    }
                } else {
                    assert(st_after == st_body);
                }
                assert(relaxed_state(st_body, current_node, rem, target_node) == relaxed_state(
                    st_after,
                    current_node,
                    rem.drop_first(),
                    target_node,
                ));
            }
            n_idx = n_idx + 1;
        }
        proof {
            let active = gv.edges.subrange(0, gv.last_edge_index + 1);
            lemma_neighbours_complete(active, gv.nodes, current_node.index_of);
            // The popped node is fully expanded: every neighbour's score is
            // now within one edge of its own, so the closure holds again
            // with no slot excepted.
            assert forall|v: int, w: int|
                {
                    &&& 0 <= v <= gv.last_node_index
                    &&& 0 <= w <= gv.last_node_index
                    &&& v != -1
                    &&& g_score@[v] < INFINITE_COST
                    &&& !in_frontier(frontier@, v as i32)
                    &&& #[trigger] gv.has_edge(v as i32, w as i32)
                } implies g_score@[w] <= g_score@[v] + euclid_distance(gv.nodes[v], gv.nodes[w]) by {
                if v == current_idx {
                    let j = choose|j: int|
                        0 <= j <= gv.last_edge_index && crate::edge::edge_connects(
                            #[trigger] gv.edges[j],
                            current_node.index_of,
                            w as i32,
                        );
                    assert(active[j] == gv.edges[j]);
                    assert(connected@ == neighbours_along(active, gv.nodes, current_node.index_of));
                    assert(connected@.contains(gv.nodes[w]));
                    let k = choose|k: int|
                        0 <= k < connected@.len() && connected@[k] == gv.nodes[w];
                    assert(connected@[k].index_of as int == w);
                    assert(g_score@[connected@[k].index_of as int] <= g_score@[current_idx]
                        + euclid_distance(
                        gv.nodes[current_idx],
                        gv.nodes[connected@[k].index_of as int],
                    ));
                }
            }
            // The reference run takes the same expansion: one step from the
            // entry state lands exactly on the new state, so completing runs
            // from here complete from the start with one step more fuel.
            let st_next = state_of(frontier@, came_from@, g_score@, f_score@);
            let sel = index_of_node_with_lowest_f_score as int;
            assert(connected@.subrange(connected@.len() as int, connected@.len() as int)
                =~= Seq::<Node>::empty());
            assert(st_next == relax_goal);
            assert forall|fl: nat|
                #[trigger] search_from(st_next, gv, target_index, fl) is Some implies search_from(
                init_state,
                gv,
                target_index,
                (fl + (steps + 1)) as nat,
            ) == search_from(st_next, gv, target_index, fl) by {
                assert(search_from(st_entry, gv, target_index, (fl + 1) as nat) == search_from(
                    st_next,
                    gv,
                    target_index,
                    fl,
                ));
                assert(search_from(st_entry, gv, target_index, (fl + 1) as nat) is Some);
                assert(search_from(init_state, gv, target_index, ((fl + 1) + steps) as nat)
                    == search_from(st_entry, gv, target_index, (fl + 1) as nat));
                assert(((fl + 1) + steps) as nat == (fl + (steps + 1)) as nat);
            }
            steps = steps + 1;
            lemma_total_cost_nonneg(g_score@);
        }
    }
    proof {
        assert(g_score@[target_index as int] == INFINITE_COST);
        // With the frontier empty the closure binds every walk, and any walk
        // can be shortened to one of bounded cost: reaching the target at
        // all would give it a finite score, so no walk reaches it.
        assert(frontier@ =~= Seq::<Node>::empty());
        assert forall|path: Seq<i32>|
            !(#[trigger] valid_path(path, gv, start_index, target_index)) by {
            if valid_path(path, gv, start_index, target_index) {
                lemma_walk_has_short_walk(gv, start_index, target_index, path);
                let q = choose|q: Seq<i32>|
                    #[trigger] valid_path(q, gv, start_index, target_index) && q.len()
                        <= gv.last_node_index + 1;
                lemma_path_cost_bounded(q, gv);
                lemma_scores_bound_walks(g_score@, gv, start_index, target_index, q);
                assert((q.len() - 1) * 3_000_000_000_000_000_000 < INFINITE_COST)
                    by (nonlinear_arith)
                    requires
                        1 <= q.len() <= 1_000_001,
                ;
                assert(g_score@[target_index as int] <= path_cost(q, gv.nodes));
            }
        }
        assert(start_index != target_index) by {
            if start_index == target_index {
                assert(valid_path(seq![start_index], gv, start_index, target_index));
            }
        }
        if gv.has_edge(start_index, target_index) {
            assert(valid_path(
                seq![start_index, target_index],
                gv,
                start_index,
                target_index,
            ));
        }
        // The reference run exhausts its frontier at the same moment.
        let st_final = state_of(frontier@, came_from@, g_score@, f_score@);
        assert(search_from(st_final, gv, target_index, 1nat) == Some(
            Err::<Seq<i32>, GraphError>(GraphError::PathNotFound),
        ));
        assert(search_from(st_final, gv, target_index, 1nat) is Some);
        assert(search_from(init_state, gv, target_index, (1nat + steps) as nat) == search_from(
            st_final,
            gv,
            target_index,
            1nat,
        ));
        assert(search_from(init_state, gv, target_index, (1nat + steps) as nat) == Some(
            result_view(Err::<Vec<i32>, GraphError>(GraphError::PathNotFound)),
        ));
    }
    Err(GraphError::PathNotFound)
}

} // verus!

