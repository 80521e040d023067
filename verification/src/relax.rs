//! Positional relaxation: one sweep that puts each knot at the rest
//! distance from the neighbour it hangs on.

use vstd::prelude::*;
use crate::knot::{all_coincide, graph, holds, positions, Knot};
use crate::vector::{
    dist_sq, in_plane, lemma_placed_distance, lemma_stretched_zero, magnitude, norm_sq, placed,
    target, Vec2,
};

verus! {

/// The neighbour a knot hangs on: the first in `neighbours` whose index is
/// below `index`, and so has been settled earlier in the sweep.
pub open spec fn anchor_of(neighbours: Seq<usize>, index: int) -> Option<usize>
    decreases neighbours.len(),
{
    if neighbours.len() == 0 {
        None
    } else {
        match anchor_of(neighbours.drop_last(), index) {
            Some(j) => Some(j),
            None => if neighbours.last() < index {
                Some(neighbours.last())
            } else {
                None
            },
        }
    }
}

/// Whether a distance, given by its square `d2`, differs from `rest` by
/// more than `tolerance`.
pub open spec fn out_of_tolerance(d2: int, rest: int, tolerance: int) -> bool {
    d2 > (rest + tolerance) * (rest + tolerance) || (rest > tolerance && d2 < (rest - tolerance)
        * (rest - tolerance))
}

/// Where the sweep puts the knot `index`, given the positions `pos` as the
/// knots before it have left them. A held knot and a knot without an
/// anchor stay; so does one within tolerance of the rest distance. Any
/// other is put on the ray from its anchor through itself, at the rest
/// distance; one that lies on its anchor has no such ray and stays.
pub open spec fn relaxed_position(
    pos: Seq<Vec2>,
    neighbours: Seq<usize>,
    index: int,
    rest: int,
    tolerance: int,
    held: Option<usize>,
) -> Vec2 {
    if holds(held, index) {
        pos[index]
    } else {
        match anchor_of(neighbours, index) {
            None => pos[index],
            Some(j) => if out_of_tolerance(dist_sq(pos[index], pos[j as int]), rest, tolerance) {
                placed(pos[j as int], pos[index], rest)
            } else {
                pos[index]
            },
        }
    }
}

/// The positions once the sweep has passed the first `count` knots.
pub open spec fn relaxed_prefix(
    pos: Seq<Vec2>,
    graph: Seq<Seq<usize>>,
    count: nat,
    rest: int,
    tolerance: int,
    held: Option<usize>,
) -> Seq<Vec2>
    decreases count,
{
    if count == 0 {
        pos
    } else {
        let before = relaxed_prefix(pos, graph, (count - 1) as nat, rest, tolerance, held);
        before.update(
            count - 1,
            relaxed_position(before, graph[count - 1], count - 1, rest, tolerance, held),
        )
    }
}

/// The positions after one sweep over all the knots, in index order.
pub open spec fn relaxed(
    pos: Seq<Vec2>,
    graph: Seq<Seq<usize>>,
    rest: int,
    tolerance: int,
    held: Option<usize>,
) -> Seq<Vec2> {
    relaxed_prefix(pos, graph, pos.len(), rest, tolerance, held)
}

/// An anchor lies below the knot that hangs on it, and is one of its
/// neighbours.
pub proof fn lemma_anchor_below(neighbours: Seq<usize>, index: int)
    ensures
        anchor_of(neighbours, index) matches Some(j) ==> j < index && neighbours.contains(j),
        anchor_of(neighbours, index) is None ==> forall|k: int|
            0 <= k < neighbours.len() ==> neighbours[k] >= index,
    decreases neighbours.len(),
{
    if neighbours.len() > 0 {
        let front = neighbours.drop_last();
        lemma_anchor_below(front, index);
        match anchor_of(front, index) {
            Some(j) => {
                let k = choose|k: int| 0 <= k < front.len() && front[k] == j;
                assert(neighbours[k] == j);
            },
            None => {
                assert(neighbours[neighbours.len() - 1] == neighbours.last());
                assert forall|k: int|
                    0 <= k < neighbours.len() && anchor_of(
                        neighbours,
                        index,
                    ) is None implies neighbours[k] >= index by {
                    if k < front.len() {
                        assert(front[k] == neighbours[k]);
                    }
                }
            },
        }
    }
}

/// An anchor found among the first neighbours is the anchor among all.
pub proof fn lemma_anchor_of_prefix(neighbours: Seq<usize>, index: int, count: int)
    requires
        0 <= count <= neighbours.len(),
        anchor_of(neighbours.take(count), index) is Some,
    ensures
        anchor_of(neighbours, index) == anchor_of(neighbours.take(count), index),
    decreases neighbours.len(),
{
    if count == neighbours.len() {
        assert(neighbours.take(count) == neighbours);
    } else {
        assert(neighbours.drop_last().take(count) == neighbours.take(count));
        lemma_anchor_of_prefix(neighbours.drop_last(), index, count);
    }
}

/// The sweep keeps the number of knots, and leaves alone the knots it has
/// not reached.
pub proof fn lemma_relaxed_prefix_frame(
    pos: Seq<Vec2>,
    graph: Seq<Seq<usize>>,
    count: nat,
    rest: int,
    tolerance: int,
    held: Option<usize>,
)
    requires
        count <= pos.len(),
    ensures
        relaxed_prefix(pos, graph, count, rest, tolerance, held).len() == pos.len(),
        forall|i: int|
            count <= i < pos.len() ==> relaxed_prefix(pos, graph, count, rest, tolerance, held)[i]
                == pos[i],
    decreases count,
{
    if count > 0 {
        lemma_relaxed_prefix_frame(pos, graph, (count - 1) as nat, rest, tolerance, held);
    }
}

/// Once the sweep has passed a knot, the knot stays where the sweep put it.
pub proof fn lemma_relaxed_prefix_settled(
    pos: Seq<Vec2>,
    graph: Seq<Seq<usize>>,
    count: nat,
    rest: int,
    tolerance: int,
    held: Option<usize>,
    index: int,
)
    requires
        0 <= index < count <= pos.len(),
    ensures
        relaxed_prefix(pos, graph, count, rest, tolerance, held)[index] == relaxed_prefix(
            pos,
            graph,
            (index + 1) as nat,
            rest,
            tolerance,
            held,
        )[index],
    decreases count,
{
    if count > index + 1 {
        lemma_relaxed_prefix_frame(pos, graph, (count - 1) as nat, rest, tolerance, held);
        lemma_relaxed_prefix_settled(
            pos,
            graph,
            (count - 1) as nat,
            rest,
            tolerance,
            held,
            index,
        );
    }
}

/// Whether a knot at `p` is at rest on an anchor at `a`: its distance is
/// within `tolerance` of `rest`, or it is `rest` less the rounding of one
/// unit on each axis.
pub open spec fn settled(p: Vec2, a: Vec2, rest: int, tolerance: int) -> bool {
    ||| !out_of_tolerance(dist_sq(p, a), rest, tolerance)
    ||| dist_sq(p, a) <= rest * rest < norm_sq(magnitude(p.x - a.x) + 1, magnitude(p.y - a.y) + 1)
}

/// What the sweep does to a knot that hangs on an anchor: it reads the
/// anchor where the sweep has left it, and the knot where it lay before.
pub proof fn lemma_relax_reads_settled_anchor(
    pos: Seq<Vec2>,
    graph: Seq<Seq<usize>>,
    rest: int,
    tolerance: int,
    held: Option<usize>,
    index: int,
)
    requires
        graph.len() == pos.len(),
        0 <= index < pos.len(),
        !holds(held, index),
        anchor_of(graph[index], index) is Some,
    ensures
        ({
            let out = relaxed(pos, graph, rest, tolerance, held);
            let j = anchor_of(graph[index], index).unwrap() as int;
            &&& out.len() == pos.len()
            &&& 0 <= j < index
            &&& out[index] == if out_of_tolerance(dist_sq(pos[index], out[j]), rest, tolerance) {
                placed(out[j], pos[index], rest)
            } else {
                pos[index]
            }
        }),
{
    let j = anchor_of(graph[index], index).unwrap() as int;
    lemma_anchor_below(graph[index], index);
    let n = pos.len();
    lemma_relaxed_prefix_frame(pos, graph, n, rest, tolerance, held);
    lemma_relaxed_prefix_frame(pos, graph, index as nat, rest, tolerance, held);
    lemma_relaxed_prefix_settled(pos, graph, n, rest, tolerance, held, index);
    lemma_relaxed_prefix_settled(pos, graph, n, rest, tolerance, held, j);
    lemma_relaxed_prefix_settled(pos, graph, index as nat, rest, tolerance, held, j);
}

/// After one sweep every knot that hangs on an anchor is at rest on it:
/// within the tolerance where the sweep left it alone, within rounding
/// where the sweep moved it. This holds of a knot that is not held, lay
/// apart from its anchor, and has room in the plane at the rest distance.
pub proof fn lemma_relax_settles(
    pos: Seq<Vec2>,
    graph: Seq<Seq<usize>>,
    rest: int,
    tolerance: int,
    held: Option<usize>,
    index: int,
)
    requires
        graph.len() == pos.len(),
        0 <= index < pos.len(),
        0 <= rest,
        !holds(held, index),
        anchor_of(graph[index], index) is Some,
    ensures
        ({
            let out = relaxed(pos, graph, rest, tolerance, held);
            let j = anchor_of(graph[index], index).unwrap() as int;
            pos[index] != out[j] && in_plane(
                target(out[j], pos[index], rest).0,
                target(out[j], pos[index], rest).1,
            ) ==> settled(out[index], out[j], rest, tolerance)
        }),
{
    let out = relaxed(pos, graph, rest, tolerance, held);
    let j = anchor_of(graph[index], index).unwrap() as int;
    lemma_relax_reads_settled_anchor(pos, graph, rest, tolerance, held, index);
    if pos[index] != out[j] && in_plane(
        target(out[j], pos[index], rest).0,
        target(out[j], pos[index], rest).1,
    ) {
        if out_of_tolerance(dist_sq(pos[index], out[j]), rest, tolerance) {
            lemma_placed_distance(out[j], pos[index], rest);
        }
    }
}

/// Being at rest is mutual: it does not matter which of the two knots is
/// taken for the anchor.
pub proof fn lemma_settled_symmetric(p: Vec2, a: Vec2, rest: int, tolerance: int)
    ensures
        settled(p, a, rest, tolerance) == settled(a, p, rest, tolerance),
{
    assert(dist_sq(p, a) == dist_sq(a, p)) by (nonlinear_arith)
        requires
            dist_sq(p, a) == (p.x - a.x) * (p.x - a.x) + (p.y - a.y) * (p.y - a.y),
            dist_sq(a, p) == (a.x - p.x) * (a.x - p.x) + (a.y - p.y) * (a.y - p.y),
    ;
    assert(magnitude(p.x - a.x) == magnitude(a.x - p.x));
    assert(magnitude(p.y - a.y) == magnitude(a.y - p.y));
}

/// Rounding takes less than two units from a distance: with a tolerance
/// of two units or more, a knot at rest is within the tolerance.
pub proof fn lemma_settled_within_tolerance(p: Vec2, a: Vec2, rest: int, tolerance: int)
    requires
        0 <= rest,
        2 <= tolerance,
        settled(p, a, rest, tolerance),
    ensures
        !out_of_tolerance(dist_sq(p, a), rest, tolerance),
{
    let s = dist_sq(p, a);
    if out_of_tolerance(s, rest, tolerance) {
        let kx = magnitude(p.x - a.x);
        let ky = magnitude(p.y - a.y);
        let t = kx + ky;
        let near = rest - tolerance;
        assert(s == kx * kx + ky * ky) by (nonlinear_arith)
            requires
                s == (p.x - a.x) * (p.x - a.x) + (p.y - a.y) * (p.y - a.y),
                kx == magnitude(p.x - a.x),
                ky == magnitude(p.y - a.y),
        ;
        assert(norm_sq(kx + 1, ky + 1) == s + 2 * t + 2) by (nonlinear_arith)
            requires
                s == kx * kx + ky * ky,
                t == kx + ky,
                norm_sq(kx + 1, ky + 1) == (kx + 1) * (kx + 1) + (ky + 1) * (ky + 1),
        ;
        assert(rest * rest <= (rest + tolerance) * (rest + tolerance)) by (nonlinear_arith)
            requires
                0 <= rest,
                0 <= tolerance,
        ;
        assert(near > 0 && s < near * near);
        assert(t * t <= 2 * s) by (nonlinear_arith)
            requires
                s == kx * kx + ky * ky,
                t == kx + ky,
        ;
        assert(2 * t <= 3 * near) by (nonlinear_arith)
            requires
                t * t <= 2 * s,
                s < near * near,
                0 <= t,
                0 < near,
        ;
        assert(rest * rest >= near * near + 4 * near + 4) by (nonlinear_arith)
            requires
                rest >= near + 2,
                near > 0,
        ;
    }
}

/// With a tolerance of two units or more, one sweep brings every knot
/// that hangs on an anchor to within the tolerance of the rest distance
/// from it. This holds of a knot that is not held, lay apart from its
/// anchor, and has room in the plane at the rest distance.
pub proof fn lemma_relax_within_tolerance(
    pos: Seq<Vec2>,
    graph: Seq<Seq<usize>>,
    rest: int,
    tolerance: int,
    held: Option<usize>,
    index: int,
)
    requires
        graph.len() == pos.len(),
        0 <= index < pos.len(),
        0 <= rest,
        2 <= tolerance,
        !holds(held, index),
        anchor_of(graph[index], index) is Some,
    ensures
        ({
            let out = relaxed(pos, graph, rest, tolerance, held);
            let j = anchor_of(graph[index], index).unwrap() as int;
            pos[index] != out[j] && in_plane(
                target(out[j], pos[index], rest).0,
                target(out[j], pos[index], rest).1,
            ) ==> !out_of_tolerance(dist_sq(out[index], out[j]), rest, tolerance)
        }),
{
    let out = relaxed(pos, graph, rest, tolerance, held);
    let j = anchor_of(graph[index], index).unwrap() as int;
    lemma_relax_settles(pos, graph, rest, tolerance, held, index);
    if settled(out[index], out[j], rest, tolerance) {
        lemma_settled_within_tolerance(out[index], out[j], rest, tolerance);
    }
}

/// Whether `graph` is a chain: every knot is tied to the one before it,
/// and no knot is tied to any but the one before and the one after it.
pub open spec fn is_chain(graph: Seq<Seq<usize>>) -> bool {
    &&& forall|i: int| 1 <= i < graph.len() ==> (#[trigger] graph[i]).contains((i - 1) as usize)
    &&& forall|i: int, k: int|
        0 <= i < graph.len() && 0 <= k < graph[i].len() ==> (#[trigger] graph[i][k]) == i - 1
            || graph[i][k] == i + 1
}

/// In a chain every knot but the first hangs on the knot before it.
pub proof fn lemma_chain_anchor(graph: Seq<Seq<usize>>, index: int)
    requires
        is_chain(graph),
        1 <= index < graph.len(),
    ensures
        anchor_of(graph[index], index) == Some((index - 1) as usize),
{
    lemma_anchor_below(graph[index], index);
    let before = (index - 1) as usize;
    assert(graph[index].contains(before));
    let k = choose|k: int| 0 <= k < graph[index].len() && graph[index][k] == before;
    assert(graph[index][k] < index);
    match anchor_of(graph[index], index) {
        Some(j) => {
            let m = choose|m: int| 0 <= m < graph[index].len() && graph[index][m] == j;
            assert(graph[index][m] == index - 1 || graph[index][m] == index + 1);
        },
        None => {},
    }
}

/// After one sweep over a chain, the two ends of every tie are at rest on
/// one another. This holds of a tie whose later end is not held, lay apart
/// from where the sweep has left the earlier end, and has room in the
/// plane at the rest distance from it.
pub proof fn lemma_relax_settles_chain(
    pos: Seq<Vec2>,
    graph: Seq<Seq<usize>>,
    rest: int,
    tolerance: int,
    held: Option<usize>,
    index: int,
    tie: int,
)
    requires
        graph.len() == pos.len(),
        0 <= rest,
        is_chain(graph),
        0 <= index < pos.len(),
        0 <= tie < graph[index].len(),
        graph[index][tie] < pos.len(),
    ensures
        ({
            let out = relaxed(pos, graph, rest, tolerance, held);
            let other = graph[index][tie] as int;
            let later = if other < index {
                index
            } else {
                other
            };
            let earlier = if other < index {
                other
            } else {
                index
            };
            !holds(held, later) && pos[later] != out[earlier] && in_plane(
                target(out[earlier], pos[later], rest).0,
                target(out[earlier], pos[later], rest).1,
            ) ==> settled(out[index], out[other], rest, tolerance)
        }),
{
    let out = relaxed(pos, graph, rest, tolerance, held);
    let other = graph[index][tie] as int;
    assert(other == index - 1 || other == index + 1);
    if other < index {
        lemma_chain_anchor(graph, index);
        if !holds(held, index) {
            lemma_relax_settles(pos, graph, rest, tolerance, held, index);
        }
    } else {
        lemma_chain_anchor(graph, other);
        if !holds(held, other) {
            lemma_relax_settles(pos, graph, rest, tolerance, held, other);
        }
        lemma_settled_symmetric(out[index], out[other], rest, tolerance);
    }
}

/// The sweep leaves alone a held knot, and a knot with no earlier
/// neighbour: one with no neighbours at all among them.
pub proof fn lemma_relax_leaves_unanchored(
    pos: Seq<Vec2>,
    graph: Seq<Seq<usize>>,
    rest: int,
    tolerance: int,
    held: Option<usize>,
    index: int,
)
    requires
        graph.len() == pos.len(),
        0 <= index < pos.len(),
        holds(held, index) || graph[index].len() == 0 || anchor_of(graph[index], index) is None,
    ensures
        relaxed(pos, graph, rest, tolerance, held)[index] == pos[index],
{
    lemma_relaxed_prefix_frame(pos, graph, index as nat, rest, tolerance, held);
    lemma_relaxed_prefix_settled(pos, graph, pos.len(), rest, tolerance, held, index);
}

/// Whether the sweep finds nothing to correct: every knot that hangs on an
/// anchor lies on it, or is within the tolerance of the rest distance
/// from it.
pub open spec fn all_at_rest(
    pos: Seq<Vec2>,
    graph: Seq<Seq<usize>>,
    rest: int,
    tolerance: int,
) -> bool {
    forall|i: int|
        0 <= i < graph.len() ==> match anchor_of(#[trigger] graph[i], i) {
            Some(j) => pos[i] == pos[j as int] || !out_of_tolerance(
                dist_sq(pos[i], pos[j as int]),
                rest,
                tolerance,
            ),
            None => true,
        }
}

/// Knots at rest are left alone by the sweep, as far as it has come.
pub proof fn lemma_relaxed_prefix_at_rest(
    pos: Seq<Vec2>,
    graph: Seq<Seq<usize>>,
    count: nat,
    rest: int,
    tolerance: int,
    held: Option<usize>,
)
    requires
        graph.len() == pos.len(),
        count <= pos.len(),
        0 <= rest,
        all_at_rest(pos, graph, rest, tolerance),
    ensures
        relaxed_prefix(pos, graph, count, rest, tolerance, held) == pos,
    decreases count,
{
    if count > 0 {
        let index = count - 1;
        lemma_relaxed_prefix_at_rest(pos, graph, index as nat, rest, tolerance, held);
        lemma_anchor_below(graph[index], index);
        lemma_stretched_zero(pos[index], rest);
        assert(relaxed_prefix(pos, graph, count, rest, tolerance, held) =~= pos);
    }
}

/// A network at rest is a fixed point of the sweep: where every knot lies
/// within the tolerance of the rest distance from its anchor, or on it,
/// the sweep corrects nothing.
pub proof fn lemma_relax_fixed_at_rest(
    pos: Seq<Vec2>,
    graph: Seq<Seq<usize>>,
    rest: int,
    tolerance: int,
    held: Option<usize>,
)
    requires
        graph.len() == pos.len(),
        0 <= rest,
        all_at_rest(pos, graph, rest, tolerance),
    ensures
        relaxed(pos, graph, rest, tolerance, held) == pos,
{
    lemma_relaxed_prefix_at_rest(pos, graph, pos.len(), rest, tolerance, held);
}

/// Knots that lie on their neighbours have no direction to move in: the
/// sweep changes nothing, however often it is repeated.
pub proof fn lemma_relax_coincident_fixed(
    pos: Seq<Vec2>,
    graph: Seq<Seq<usize>>,
    rest: int,
    tolerance: int,
    held: Option<usize>,
)
    requires
        graph.len() == pos.len(),
        0 <= rest,
        all_coincide(pos, graph),
    ensures
        relaxed(pos, graph, rest, tolerance, held) == pos,
{
    assert forall|i: int| 0 <= i < graph.len() implies match anchor_of(#[trigger] graph[i], i) {
        Some(j) => pos[i] == pos[j as int] || !out_of_tolerance(
            dist_sq(pos[i], pos[j as int]),
            rest,
            tolerance,
        ),
        None => true,
    } by {
        lemma_anchor_below(graph[i], i);
        if let Some(j) = anchor_of(graph[i], i) {
            let k = choose|k: int| 0 <= k < graph[i].len() && graph[i][k] == j;
            assert(pos[graph[i][k] as int] == pos[i]);
        }
    }
    lemma_relax_fixed_at_rest(pos, graph, rest, tolerance, held);
}

/// The neighbour that the knot `index` hangs on, if it has one.
pub fn anchor(neighbours: &Vec<usize>, index: usize) -> (r: Option<usize>)
    ensures
        r == anchor_of(neighbours@, index as int),
{
    let mut k: usize = 0;
    while k < neighbours.len()
        invariant
            k <= neighbours.len(),
            anchor_of(neighbours@.take(k as int), index as int) is None,
        decreases neighbours.len() - k,
    {
        proof {
            assert(neighbours@.take(k + 1).drop_last() == neighbours@.take(k as int));
        }
        if neighbours[k] < index {
            proof {
                lemma_anchor_of_prefix(neighbours@, index as int, k + 1);
            }
            return Some(neighbours[k]);
        }
        k += 1;
    }
    proof {
        assert(neighbours@.take(k as int) == neighbours@);
    }
    None
}

/// Whether the distance between `a` and `b` differs from `rest` by more
/// than `tolerance`.
pub fn is_out_of_tolerance(a: Vec2, b: Vec2, rest: u32, tolerance: u32) -> (r: bool)
    ensures
        r == out_of_tolerance(dist_sq(a, b), rest as int, tolerance as int),
{
    let d2: u128 = a.distance_squared(b);
    let far: u128 = rest as u128 + tolerance as u128;
    assert(far * far == (rest + tolerance) * (rest + tolerance) && far * far
        < 0x4_0000_0000_0000_0000) by (nonlinear_arith)
        requires
            far == rest + tolerance,
            far < 0x2_0000_0000,
    ;
    if d2 > far * far {
        return true;
    }
    if rest > tolerance {
        let near: u128 = (rest - tolerance) as u128;
        assert(near * near == (rest - tolerance) * (rest - tolerance) && near * near
            < 0x1_0000_0000_0000_0000) by (nonlinear_arith)
            requires
                near == rest - tolerance,
                near < 0x1_0000_0000,
        ;
        d2 < near * near
    } else {
        false
    }
}

/// One sweep of positional relaxation over `knots`, in index order. Each
/// knot that hangs on an earlier neighbour, and is further than
/// `tolerance` from the rest distance to it, is put at `rest_distance`
/// from where the sweep has left that neighbour. The knot `held`, if any,
/// is not moved; nor is a knot with no earlier neighbour.
pub fn relax(knots: &mut Vec<Knot>, rest_distance: u32, tolerance: u32, held: Option<usize>)
    ensures
        final(knots).len() == old(knots).len(),
        graph(final(knots)@) == graph(old(knots)@),
        positions(final(knots)@) == relaxed(
            positions(old(knots)@),
            graph(old(knots)@),
            rest_distance as int,
            tolerance as int,
            held,
        ),
{
    let ghost pos0 = positions(knots@);
    let ghost graph0 = graph(knots@);
    let n: usize = knots.len();
    let mut i: usize = 0;
    while i < n
        invariant
            i <= n,
            knots.len() == n,
            pos0.len() == n,
            graph0.len() == n,
            graph(knots@) == graph0,
            positions(knots@) == relaxed_prefix(
                pos0,
                graph0,
                i as nat,
                rest_distance as int,
                tolerance as int,
                held,
            ),
        decreases n - i,
    {
        let ghost before = positions(knots@);
        let ghost ties = knots@[i as int].neighbours;
        assert(graph0[i as int] == graph(knots@)[i as int]);
        let moved: Option<Vec2> = relax_one(knots, i, rest_distance, tolerance, held);
        if let Some(p) = moved {
            knots[i].position = p;
        }
        proof {
            let after = relaxed_position(
                before,
                graph0[i as int],
                i as int,
                rest_distance as int,
                tolerance as int,
                held,
            );
            assert(knots@[i as int].neighbours == ties);
            assert(positions(knots@) =~= before.update(i as int, after));
            assert(graph(knots@) =~= graph0);
        }
        i += 1;
    }
}

/// Where the sweep moves the knot `index` to, or `None` where it leaves
/// the knot alone.
fn relax_one(
    knots: &Vec<Knot>,
    index: usize,
    rest_distance: u32,
    tolerance: u32,
    held: Option<usize>,
) -> (moved: Option<Vec2>)
    requires
        index < knots.len(),
    ensures
        match moved {
            Some(p) => p,
            None => knots[index as int].position,
        } == relaxed_position(
            positions(knots@),
            knots[index as int].neighbours@,
            index as int,
            rest_distance as int,
            tolerance as int,
            held,
        ),
{
    if let Some(h) = held {
        if h == index {
            return None;
        }
    }
    proof {
        lemma_anchor_below(knots[index as int].neighbours@, index as int);
    }
    match anchor(&knots[index].neighbours, index) {
        None => None,
        Some(j) => {
            let p: Vec2 = knots[index].position;
            let a: Vec2 = knots[j].position;
            if is_out_of_tolerance(p, a, rest_distance, tolerance) {
                Some(a.point_toward(p, rest_distance))
            } else {
                None
            }
        },
    }
}

} // verus!
