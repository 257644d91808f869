//! Turning triangle index lists into line index lists for wireframe-style
//! consumers: each triangle contributes its three edges, an edge shared by
//! two triangles is emitted only once, and edges keep the order in which
//! they first appear.

use vstd::prelude::*;

verus! {

/// An index pair ordered with the smaller index first.
pub open spec fn ordered_pair(a: u32, b: u32) -> (u32, u32) {
    if a < b {
        (a, b)
    } else {
        (b, a)
    }
}

/// The `p`-th edge pair read off the triangle list: triangle `p / 3`
/// contributes its pairs `(i0, i1)`, `(i1, i2)`, `(i2, i0)`, each ordered.
pub open spec fn triangle_pair_at(triangles: Seq<u32>, p: int) -> (u32, u32) {
    let t = p / 3;
    let i0 = triangles[3 * t];
    let i1 = triangles[3 * t + 1];
    let i2 = triangles[3 * t + 2];
    if p % 3 == 0 {
        ordered_pair(i0, i1)
    } else if p % 3 == 1 {
        ordered_pair(i1, i2)
    } else {
        ordered_pair(i2, i0)
    }
}

/// All edge pairs of the complete triangles, in triangle order; a trailing
/// partial triangle contributes nothing.
pub open spec fn all_triangle_pairs(triangles: Seq<u32>) -> Seq<(u32, u32)> {
    Seq::new(3 * (triangles.len() / 3), |p: int| triangle_pair_at(triangles, p))
}

/// Keeps the first occurrence of each pair and drops the repeats.
pub open spec fn first_occurrences(s: Seq<(u32, u32)>) -> Seq<(u32, u32)>
    decreases s.len(),
{
    if s.len() == 0 {
        Seq::empty()
    } else {
        let rest = first_occurrences(s.drop_last());
        if s.drop_last().contains(s.last()) {
            rest
        } else {
            rest.push(s.last())
        }
    }
}

/// The pairs written out flat: both indices of each pair in turn.
pub open spec fn flattened_pairs(s: Seq<(u32, u32)>) -> Seq<u32>
    decreases s.len(),
{
    if s.len() == 0 {
        Seq::empty()
    } else {
        flattened_pairs(s.drop_last()).push(s.last().0).push(s.last().1)
    }
}

/// Deduplication keeps membership: a pair is among the first occurrences
/// exactly when it is in the underlying sequence.
proof fn lemma_first_occurrences_membership(s: Seq<(u32, u32)>)
    ensures
        forall|x: (u32, u32)| first_occurrences(s).contains(x) == s.contains(x),
    decreases s.len(),
{
    if s.len() > 0 {
        lemma_first_occurrences_membership(s.drop_last());
        let rest = first_occurrences(s.drop_last());
        let full = first_occurrences(s);
        assert forall|x: (u32, u32)| full.contains(x) == s.contains(x) by {
            if full.contains(x) {
                let p = choose|p: int| 0 <= p < full.len() && full[p] == x;
                if p < rest.len() {
                    assert(rest[p] == x);
                    assert(rest.contains(x));
                    assert(s.drop_last().contains(x));
                    let q = choose|q: int|
                        0 <= q < s.drop_last().len() && s.drop_last()[q] == x;
                    assert(s[q] == x);
                } else {
                    assert(x == s.last());
                }
                assert(s.contains(x));
            }
            if s.contains(x) {
                let q = choose|q: int| 0 <= q < s.len() && s[q] == x;
                if q < s.len() - 1 {
                    assert(s.drop_last()[q] == x);
                    assert(s.drop_last().contains(x));
                    assert(rest.contains(x));
                    let p = choose|p: int| 0 <= p < rest.len() && rest[p] == x;
                    assert(full[p] == x);
                } else {
                    if s.drop_last().contains(x) {
                        assert(rest.contains(x));
                        let p = choose|p: int| 0 <= p < rest.len() && rest[p] == x;
                        assert(full[p] == x);
                    } else {
                        assert(full.last() == x);
                    }
                }
                assert(full.contains(x));
            }
        }
    }
}

/// True iff `pair` is already among the collected edges.
fn edges_contain(edges: &Vec<(u32, u32)>, pair: (u32, u32)) -> (r: bool)
    ensures
        r == edges@.contains(pair),
{
    let mut p: usize = 0;
    while p < edges.len()
        invariant
            0 <= p <= edges@.len(),
            forall|q: int| 0 <= q < p as int ==> #[trigger] edges@[q] != pair,
        decreases edges@.len() - p,
    {
        let e = edges[p];
        if e.0 == pair.0 && e.1 == pair.1 {
            return true;
        }
        p = p + 1;
    }
    false
}

/// Records `pair` if it is new: appends it to the collected edges and writes
/// its two indices to the line list.
fn push_pair(
    edges: &mut Vec<(u32, u32)>,
    lines: &mut Vec<u32>,
    pair: (u32, u32),
    Ghost(seen): Ghost<Seq<(u32, u32)>>,
)
    requires
        old(edges)@ == first_occurrences(seen),
        old(lines)@ == flattened_pairs(first_occurrences(seen)),
    ensures
        final(edges)@ == first_occurrences(seen.push(pair)),
        final(lines)@ == flattened_pairs(first_occurrences(seen.push(pair))),
{
    proof {
        lemma_first_occurrences_membership(seen);
        assert(seen.push(pair).drop_last() =~= seen);
    }
    if !edges_contain(edges, pair) {
        edges.push(pair);
        lines.push(pair.0);
        lines.push(pair.1);
        proof {
            assert(edges@.drop_last() =~= first_occurrences(seen));
        }
    }
}

/// The edges of each complete triangle, smaller index first, each emitted at
/// its first appearance only, flattened into an index list.
pub fn triangles_to_lines(triangles: &[u32]) -> (lines: Vec<u32>)
    ensures
        lines@ == flattened_pairs(first_occurrences(all_triangle_pairs(triangles@))),
{
    let mut edges: Vec<(u32, u32)> = Vec::new();
    let mut lines: Vec<u32> = Vec::new();
    let triangle_count: usize = triangles.len() / 3;
    let ghost pairs = all_triangle_pairs(triangles@);

    let mut t: usize = 0;
    while t < triangle_count
        invariant
            0 <= t <= triangle_count,
            triangle_count as int == triangles@.len() / 3,
            triangles@.len() <= usize::MAX,
            pairs == all_triangle_pairs(triangles@),
            pairs.len() == 3 * (triangles@.len() / 3),
            edges@ == first_occurrences(pairs.take(3 * t as int)),
            lines@ == flattened_pairs(first_occurrences(pairs.take(3 * t as int))),
        decreases triangle_count - t,
    {
        let i0 = triangles[3 * t];
        let i1 = triangles[3 * t + 1];
        let i2 = triangles[3 * t + 2];

        let pair_01: (u32, u32) = if i0 < i1 {
            (i0, i1)
        } else {
            (i1, i0)
        };
        let pair_12: (u32, u32) = if i1 < i2 {
            (i1, i2)
        } else {
            (i2, i1)
        };
        let pair_20: (u32, u32) = if i2 < i0 {
            (i2, i0)
        } else {
            (i0, i2)
        };

        proof {
            assert(pairs.take(3 * t as int + 1).drop_last() =~= pairs.take(3 * t as int));
            assert(pairs.take(3 * t as int + 2).drop_last() =~= pairs.take(3 * t as int + 1));
            assert(pairs.take(3 * t as int + 3).drop_last() =~= pairs.take(3 * t as int + 2));
            assert(pairs[3 * t as int] == pair_01);
            assert(pairs[3 * t as int + 1] == pair_12);
            assert(pairs[3 * t as int + 2] == pair_20);
            assert(pairs.take(3 * t as int + 1) =~= pairs.take(3 * t as int).push(pair_01));
            assert(pairs.take(3 * t as int + 2) =~= pairs.take(3 * t as int + 1).push(pair_12));
            assert(pairs.take(3 * t as int + 3) =~= pairs.take(3 * t as int + 2).push(pair_20));
        }
        push_pair(&mut edges, &mut lines, pair_01, Ghost(pairs.take(3 * t as int)));
        push_pair(&mut edges, &mut lines, pair_12, Ghost(pairs.take(3 * t as int + 1)));
        push_pair(&mut edges, &mut lines, pair_20, Ghost(pairs.take(3 * t as int + 2)));
        t = t + 1;
    }
    proof {
        assert(pairs.take(3 * triangle_count as int) =~= pairs);
    }
    lines
}

} // verus!
