//! Collision with circular obstacles: a knot found inside one is put back
//! on its rim.

use vstd::prelude::*;
use crate::knot::{graph, positions, Knot};
use crate::vector::{
    dist_sq, in_plane, lemma_placed_distance, lemma_placed_on_ray, magnitude, norm_sq, placed,
    target, Vec2,
};

verus! {

/// A circle that no knot may enter.
#[derive(Clone, Copy, Debug, PartialEq, Eq, Structural)]
pub struct Obstacle {
    pub center: Vec2,
    pub radius: u32,
}

/// Whether `p` lies strictly inside `obstacle`.
pub open spec fn inside(p: Vec2, obstacle: Obstacle) -> bool {
    dist_sq(p, obstacle.center) < obstacle.radius * obstacle.radius
}

/// Where `obstacle` leaves a knot at `p`: a knot inside it goes to the rim,
/// along the ray from the centre through `p`; any other stays. A knot at
/// the very centre has no such ray and stays too.
pub open spec fn pushed_out(p: Vec2, obstacle: Obstacle) -> Vec2 {
    if inside(p, obstacle) {
        placed(obstacle.center, p, obstacle.radius as int)
    } else {
        p
    }
}

/// Where `obstacles` leave a knot at `p`: each pushes in turn, in the order
/// of the list, the knot as the one before has left it.
pub open spec fn resolved_position(p: Vec2, obstacles: Seq<Obstacle>) -> Vec2
    decreases obstacles.len(),
{
    if obstacles.len() == 0 {
        p
    } else {
        pushed_out(resolved_position(p, obstacles.drop_last()), obstacles.last())
    }
}

/// The positions once every knot has been pushed out of `obstacles`.
pub open spec fn resolved(pos: Seq<Vec2>, obstacles: Seq<Obstacle>) -> Seq<Vec2> {
    Seq::new(pos.len(), |i: int| resolved_position(pos[i], obstacles))
}

/// A knot strictly inside an obstacle, and not at its centre, comes to lie
/// on the rim: at the distance of the radius from the centre, less the
/// rounding of one unit on each axis. This holds wherever the plane has
/// room for that point of the rim.
pub proof fn lemma_pushed_out_reaches_rim(p: Vec2, obstacle: Obstacle)
    requires
        inside(p, obstacle),
        p != obstacle.center,
        in_plane(
            target(obstacle.center, p, obstacle.radius as int).0,
            target(obstacle.center, p, obstacle.radius as int).1,
        ),
    ensures
        ({
            let q = pushed_out(p, obstacle);
            let c = obstacle.center;
            dist_sq(q, c) <= obstacle.radius * obstacle.radius < norm_sq(
                magnitude(q.x - c.x) + 1,
                magnitude(q.y - c.y) + 1,
            )
        }),
{
    lemma_placed_distance(obstacle.center, p, obstacle.radius as int);
}

/// A knot pushed out of an obstacle stays on the ray from the centre
/// through where it was: on the same side of the centre on each axis, and
/// within the rounding of one unit of the ray.
pub proof fn lemma_pushed_out_along_ray(p: Vec2, obstacle: Obstacle)
    requires
        inside(p, obstacle),
        p != obstacle.center,
        in_plane(
            target(obstacle.center, p, obstacle.radius as int).0,
            target(obstacle.center, p, obstacle.radius as int).1,
        ),
    ensures
        ({
            let q = pushed_out(p, obstacle);
            let c = obstacle.center;
            let dx = p.x - c.x;
            let dy = p.y - c.y;
            let wx = q.x - c.x;
            let wy = q.y - c.y;
            &&& (dx >= 0 ==> wx >= 0) && (dx <= 0 ==> wx <= 0)
            &&& (dy >= 0 ==> wy >= 0) && (dy <= 0 ==> wy <= 0)
            &&& -magnitude(dy) <= magnitude(wx) * magnitude(dy) - magnitude(wy) * magnitude(dx)
                <= magnitude(dx)
        }),
{
    lemma_placed_on_ray(obstacle.center, p, obstacle.radius as int);
}

/// A knot that lies in no obstacle is left where it is.
pub proof fn lemma_resolved_outside(p: Vec2, obstacles: Seq<Obstacle>)
    requires
        forall|k: int| 0 <= k < obstacles.len() ==> !inside(p, #[trigger] obstacles[k]),
    ensures
        resolved_position(p, obstacles) == p,
    decreases obstacles.len(),
{
    if obstacles.len() > 0 {
        let front = obstacles.drop_last();
        assert forall|k: int| 0 <= k < front.len() implies !inside(p, #[trigger] front[k]) by {
            assert(front[k] == obstacles[k]);
        }
        lemma_resolved_outside(p, front);
        assert(obstacles.last() == obstacles[obstacles.len() - 1]);
    }
}

impl Obstacle {
    /// A circle round `center`.
    pub fn new(center: Vec2, radius: u32) -> (r: Obstacle)
        ensures
            r.center == center,
            r.radius == radius,
    {
        Obstacle { center, radius }
    }

    /// Whether `p` lies strictly inside the obstacle.
    pub fn contains(&self, p: Vec2) -> (r: bool)
        ensures
            r == inside(p, *self),
    {
        let limit: u128 = self.radius as u128;
        assert(limit * limit == self.radius * self.radius && limit * limit
            < 0x1_0000_0000_0000_0000) by (nonlinear_arith)
            requires
                limit == self.radius,
                limit < 0x1_0000_0000,
        ;
        p.distance_squared(self.center) < limit * limit
    }

    /// Where the obstacle leaves a knot at `p`.
    pub fn push_out(&self, p: Vec2) -> (r: Vec2)
        ensures
            r == pushed_out(p, *self),
    {
        if self.contains(p) {
            self.center.point_toward(p, self.radius)
        } else {
            p
        }
    }
}

/// Where `obstacles` leave a knot at `p`.
pub fn resolve_position(p: Vec2, obstacles: &Vec<Obstacle>) -> (r: Vec2)
    ensures
        r == resolved_position(p, obstacles@),
{
    let mut q: Vec2 = p;
    let mut k: usize = 0;
    while k < obstacles.len()
        invariant
            k <= obstacles.len(),
            q == resolved_position(p, obstacles@.take(k as int)),
        decreases obstacles.len() - k,
    {
        proof {
            assert(obstacles@.take(k + 1).drop_last() == obstacles@.take(k as int));
        }
        q = obstacles[k].push_out(q);
        k += 1;
    }
    proof {
        assert(obstacles@.take(k as int) == obstacles@);
    }
    q
}

/// Pushes every knot out of every obstacle, the obstacles in the order of
/// the list. A knot inside two of them ends on the rim of the later one.
pub fn resolve(knots: &mut Vec<Knot>, obstacles: &Vec<Obstacle>)
    ensures
        final(knots).len() == old(knots).len(),
        graph(final(knots)@) == graph(old(knots)@),
        positions(final(knots)@) == resolved(positions(old(knots)@), obstacles@),
{
    let ghost pos0 = positions(knots@);
    let ghost graph0 = graph(knots@);
    let n: usize = knots.len();
    let mut i: usize = 0;
    while i < n
        invariant
            i <= n,
            knots.len() == n,
            pos0.len() == n,
            graph(knots@) == graph0,
            forall|j: int|
                0 <= j < i ==> positions(knots@)[j] == resolved_position(pos0[j], obstacles@),
            forall|j: int| i <= j < n ==> positions(knots@)[j] == pos0[j],
        decreases n - i,
    {
        let ghost before = positions(knots@);
        let ghost ties = knots@[i as int].neighbours;
        let q: Vec2 = resolve_position(knots[i].position, obstacles);
        knots[i].position = q;
        proof {
            assert(knots@[i as int].neighbours == ties);
            assert(positions(knots@) =~= before.update(i as int, q));
            assert(graph(knots@) =~= graph0);
        }
        i += 1;
    }
    proof {
        assert(positions(knots@) =~= resolved(pos0, obstacles@));
    }
}

} // verus!
