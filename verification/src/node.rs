//! A node is an identity (its slot index) plus a 2D position.
//!
//! Positions are integer coordinates in fixed ticks; distances between nodes
//! are Euclidean distances in the same ticks, rounded down to a whole number,
//! so the path search works on exact integers throughout.

use vstd::prelude::*;

use crate::arith::{is_sqrt_floor, isqrt_u128};

verus! {

/// Coordinates are kept within this bound so that squared distances and
/// Manhattan distances always fit the machine integers they are computed in.
pub const COORD_LIMIT: i64 = 1_000_000_000_000_000_000;

/// A plain 2D point, as returned by [`get_midpoint_between_nodes`].
#[derive(Clone, Copy, PartialEq, Eq, Structural, Debug)]
pub struct Vector2D {
    pub x: i64,
    pub y: i64,
}

impl Vector2D {
    pub fn new(x: i64, y: i64) -> (v: Vector2D)
        ensures
            v == (Vector2D { x, y }),
    {
        Vector2D { x, y }
    }
}

/// Identity plus position. A node is active iff `index_of >= 0`; the
/// inactive sentinel is `(-1, -1, -1)`.
#[derive(Clone, Copy, PartialEq, Eq, Structural, Debug)]
pub struct Node {
    pub index_of: i32,
    pub x_pos: i64,
    pub y_pos: i64,
}

/// Both coordinates lie within [`COORD_LIMIT`].
pub open spec fn coords_in_range(n: Node) -> bool {
    &&& -COORD_LIMIT <= n.x_pos <= COORD_LIMIT
    &&& -COORD_LIMIT <= n.y_pos <= COORD_LIMIT
}

/// The squared Euclidean distance between two nodes' positions.
pub open spec fn squared_distance(a: Node, b: Node) -> int {
    (a.x_pos - b.x_pos) * (a.x_pos - b.x_pos) + (a.y_pos - b.y_pos) * (a.y_pos - b.y_pos)
}

/// `r` is the Euclidean distance between `a` and `b`, rounded down.
pub open spec fn is_distance(a: Node, b: Node, r: int) -> bool {
    is_sqrt_floor(squared_distance(a, b), r)
}

/// The Euclidean distance between `a` and `b`, rounded down, as a value.
pub open spec fn euclid_distance(a: Node, b: Node) -> int {
    choose|r: int| #[trigger] is_distance(a, b, r)
}

/// `euclid_distance` names the one rounded-down root of the squared
/// distance, and it is never negative.
pub proof fn lemma_euclid_distance_is_distance(a: Node, b: Node)
    ensures
        is_distance(a, b, euclid_distance(a, b)),
        euclid_distance(a, b) >= 0,
        forall|r: int| is_distance(a, b, r) ==> r == euclid_distance(a, b),
{
    assert(squared_distance(a, b) >= 0) by (nonlinear_arith);
    crate::arith::lemma_sqrt_floor_exists(squared_distance(a, b));
    let w = choose|r: int| #[trigger] is_sqrt_floor(squared_distance(a, b), r);
    assert(is_distance(a, b, w));
    assert forall|r: int| is_distance(a, b, r) implies r == euclid_distance(a, b) by {
        crate::arith::lemma_sqrt_floor_unique(squared_distance(a, b), r, euclid_distance(a, b));
    }
}

/// With both positions inside [`COORD_LIMIT`], one step's distance is at
/// most three times that limit.
pub proof fn lemma_euclid_distance_bounded(a: Node, b: Node)
    requires
        coords_in_range(a),
        coords_in_range(b),
    ensures
        0 <= euclid_distance(a, b) <= 3_000_000_000_000_000_000,
{
    lemma_euclid_distance_is_distance(a, b);
    let e = euclid_distance(a, b);
    assert(squared_distance(a, b) <= 8_000_000_000_000_000_000_000_000_000_000_000_000)
        by (nonlinear_arith)
        requires
            -COORD_LIMIT <= a.x_pos <= COORD_LIMIT,
            -COORD_LIMIT <= b.x_pos <= COORD_LIMIT,
            -COORD_LIMIT <= a.y_pos <= COORD_LIMIT,
            -COORD_LIMIT <= b.y_pos <= COORD_LIMIT,
            COORD_LIMIT == 1_000_000_000_000_000_000i64,
    ;
    assert(e <= 3_000_000_000_000_000_000) by (nonlinear_arith)
        requires
            0 <= e,
            e * e <= 8_000_000_000_000_000_000_000_000_000_000_000_000,
    ;
}

/// Division by two that rounds toward zero, as the machine division does.
pub open spec fn half_toward_zero(s: int) -> int {
    if s >= 0 {
        s / 2
    } else {
        -((-s) / 2)
    }
}

impl Node {
    /// The sentinel value that marks an empty node slot.
    pub open spec fn spec_inactive() -> Node {
        Node { index_of: -1i32, x_pos: -1i64, y_pos: -1i64 }
    }

    pub fn new(x: i64, y: i64, index: i32) -> (n: Node)
        ensures
            n == (Node { index_of: index, x_pos: x, y_pos: y }),
    {
        Node { index_of: index, x_pos: x, y_pos: y }
    }

    pub fn new_inactive() -> (n: Node)
        ensures
            n == Node::spec_inactive(),
    {
        Node { index_of: -1, x_pos: -1, y_pos: -1 }
    }

    pub fn update_index(&mut self, index: i32)
        ensures
            *final(self) == (Node { index_of: index, ..*old(self) }),
    {
        self.index_of = index;
    }

    pub fn is_active(self) -> (r: bool)
        ensures
            r == (self.index_of >= 0),
    {
        self.index_of >= 0
    }
}

/// The Euclidean distance between the two nodes' positions, rounded down.
pub fn get_distance_between_nodes(node_a: Node, node_b: Node) -> (r: u64)
    requires
        coords_in_range(node_a),
        coords_in_range(node_b),
    ensures
        is_distance(node_a, node_b, r as int),
        r as int == euclid_distance(node_a, node_b),
        r <= 3_000_000_000_000_000_000,
{
    let x_diff: i128 = node_a.x_pos as i128 - node_b.x_pos as i128;
    let y_diff: i128 = node_a.y_pos as i128 - node_b.y_pos as i128;
    proof {
        assert(x_diff * x_diff <= 4 * (COORD_LIMIT as int) * (COORD_LIMIT as int) && 0 <= x_diff
            * x_diff) by (nonlinear_arith)
            requires
                -2 * (COORD_LIMIT as int) <= x_diff <= 2 * (COORD_LIMIT as int),
        ;
        assert(y_diff * y_diff <= 4 * (COORD_LIMIT as int) * (COORD_LIMIT as int) && 0 <= y_diff
            * y_diff) by (nonlinear_arith)
            requires
                -2 * (COORD_LIMIT as int) <= y_diff <= 2 * (COORD_LIMIT as int),
        ;
    }
    let sq: u128 = (x_diff * x_diff) as u128 + (y_diff * y_diff) as u128;
    let root = isqrt_u128(sq);
    proof {
        assert((root as int) <= 3_000_000_000_000_000_000) by (nonlinear_arith)
            requires
                0 <= root as int,
                (root as int) * (root as int) <= sq as int,
                sq as int <= 8_000_000_000_000_000_000_000_000_000_000_000_000,
        ;
        lemma_euclid_distance_is_distance(node_a, node_b);
    }
    root as u64
}

/// The Manhattan distance between the two nodes' positions.
pub fn get_manhattan_distance_between_nodes(node_a: Node, node_b: Node) -> (r: u64)
    requires
        coords_in_range(node_a),
        coords_in_range(node_b),
    ensures
        r == vstd::math::abs(node_a.x_pos - node_b.x_pos) + vstd::math::abs(
            node_a.y_pos - node_b.y_pos,
        ),
{
    let x_diff: i128 = node_a.x_pos as i128 - node_b.x_pos as i128;
    let y_diff: i128 = node_a.y_pos as i128 - node_b.y_pos as i128;
    let x_abs: i128 = if x_diff < 0 {
        -x_diff
    } else {
        x_diff
    };
    let y_abs: i128 = if y_diff < 0 {
        -y_diff
    } else {
        y_diff
    };
    (x_abs + y_abs) as u64
}

/// The midpoint of the two nodes' positions, halves rounded toward zero.
pub fn get_midpoint_between_nodes(node_a: Node, node_b: Node) -> (r: Vector2D)
    ensures
        r.x == half_toward_zero(node_a.x_pos + node_b.x_pos),
        r.y == half_toward_zero(node_a.y_pos + node_b.y_pos),
{
    let x_sum: i128 = node_a.x_pos as i128 + node_b.x_pos as i128;
    let y_sum: i128 = node_a.y_pos as i128 + node_b.y_pos as i128;
    let x_half: i128 = if x_sum >= 0 {
        x_sum / 2
    } else {
        -((-x_sum) / 2)
    };
    let y_half: i128 = if y_sum >= 0 {
        y_sum / 2
    } else {
        -((-y_sum) / 2)
    };
    Vector2D { x: x_half as i64, y: y_half as i64 }
}

} // verus!
