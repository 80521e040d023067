//! Force-based integration: every knot is drawn by its neighbours toward
//! the rest distance, a little in each of several passes.

use vstd::prelude::*;
use crate::knot::{all_coincide, graph, graph_valid, holds, positions, Knot};
use crate::vector::{
    clamped, length_squared, lemma_scaled_axis_range, lemma_stretched_zero, norm_sq, saturate,
    target, Vec2,
};

verus! {

/// The ticks of elapsed time that make one unit of time. The tension is
/// the share of a pull that a knot gives way to in one unit of time.
pub const TICKS_PER_UNIT: u64 = 1_000_000;

/// The settings of the integration.
#[derive(Clone, Copy, Debug, PartialEq, Eq, Structural)]
pub struct Spring {
    /// The distance that every tie is drawn to.
    pub rest_distance: u32,
    /// A pull no longer than this counts as satisfied and moves nothing.
    pub leeway: u32,
    /// The gain on the pulls, per unit of time.
    pub tension: u32,
    /// The most ticks that one frame may advance.
    pub max_dt: u32,
    /// The passes over the knots in one frame.
    pub substeps: u32,
}

/// The pull of a neighbour at `n` on a knot at `p`: the displacement from
/// `p` to the point at distance `rest` from `n` on the ray through `p`.
pub open spec fn pull(p: Vec2, n: Vec2, rest: int) -> (int, int) {
    (target(n, p, rest).0 - p.x, target(n, p, rest).1 - p.y)
}

/// Whether the displacement `v` is longer than `leeway`.
pub open spec fn exceeds(v: (int, int), leeway: int) -> bool {
    norm_sq(v.0, v.1) > leeway * leeway
}

/// The sum of the pulls of `neighbours` on the knot `index`, the pulls
/// within the leeway left out.
pub open spec fn pull_sum(
    pos: Seq<Vec2>,
    neighbours: Seq<usize>,
    index: int,
    rest: int,
    leeway: int,
) -> (int, int)
    decreases neighbours.len(),
{
    if neighbours.len() == 0 {
        (0, 0)
    } else {
        let sum = pull_sum(pos, neighbours.drop_last(), index, rest, leeway);
        let one = pull(pos[index], pos[neighbours.last() as int], rest);
        if exceeds(one, leeway) {
            (sum.0 + one.0, sum.1 + one.1)
        } else {
            sum
        }
    }
}

/// The velocity of the knot `index`: the sum of the pulls on it, kept
/// within the plane.
pub open spec fn velocity(
    pos: Seq<Vec2>,
    neighbours: Seq<usize>,
    index: int,
    rest: int,
    leeway: int,
) -> Vec2 {
    clamped(
        pull_sum(pos, neighbours, index, rest, leeway).0,
        pull_sum(pos, neighbours, index, rest, leeway).1,
    )
}

/// `v * num / den`, rounded toward zero.
pub open spec fn scaled_step(v: int, num: int, den: int) -> int {
    if v >= 0 {
        (v * num) / den
    } else {
        -(((-v) * num) / den)
    }
}

/// The point that a knot at `p` reaches with velocity `v` under the gain
/// `num / den`.
pub open spec fn advanced(p: Vec2, v: Vec2, num: int, den: int) -> Vec2 {
    clamped(p.x + scaled_step(v.x as int, num, den), p.y + scaled_step(v.y as int, num, den))
}

impl Spring {
    /// The numerator of the gain of one pass: the tension times the
    /// elapsed ticks, of which no more than `max_dt` count.
    pub open spec fn gain_num(self, dt: int) -> int {
        self.tension * if dt < self.max_dt {
            dt
        } else {
            self.max_dt as int
        }
    }

    /// The denominator of the gain of one pass: the ticks of one unit of
    /// time for each pass.
    pub open spec fn gain_den(self) -> int {
        self.substeps * TICKS_PER_UNIT
    }
}

/// Where a pass puts the knot `index`, given the positions `pos` as the
/// knots before it have left them: a held knot stays, any other gives way
/// to its velocity.
pub open spec fn integrated_position(
    pos: Seq<Vec2>,
    neighbours: Seq<usize>,
    index: int,
    spring: Spring,
    num: int,
    held: Option<usize>,
) -> Vec2 {
    if holds(held, index) {
        pos[index]
    } else {
        advanced(
            pos[index],
            velocity(pos, neighbours, index, spring.rest_distance as int, spring.leeway as int),
            num,
            spring.gain_den(),
        )
    }
}

/// The positions once a pass has gone over the first `count` knots.
pub open spec fn integrated_prefix(
    pos: Seq<Vec2>,
    graph: Seq<Seq<usize>>,
    count: nat,
    spring: Spring,
    num: int,
    held: Option<usize>,
) -> Seq<Vec2>
    decreases count,
{
    if count == 0 {
        pos
    } else {
        let before = integrated_prefix(pos, graph, (count - 1) as nat, spring, num, held);
        before.update(
            count - 1,
            integrated_position(before, graph[count - 1], count - 1, spring, num, held),
        )
    }
}

/// The positions after `passes` passes, each over all the knots in index
/// order and each reading what the one before has left.
pub open spec fn integrated_passes(
    pos: Seq<Vec2>,
    graph: Seq<Seq<usize>>,
    passes: nat,
    spring: Spring,
    num: int,
    held: Option<usize>,
) -> Seq<Vec2>
    decreases passes,
{
    if passes == 0 {
        pos
    } else {
        let before = integrated_passes(pos, graph, (passes - 1) as nat, spring, num, held);
        integrated_prefix(before, graph, before.len(), spring, num, held)
    }
}

/// The positions after one frame of `dt` ticks.
pub open spec fn integrated(
    pos: Seq<Vec2>,
    graph: Seq<Seq<usize>>,
    spring: Spring,
    dt: int,
    held: Option<usize>,
) -> Seq<Vec2> {
    integrated_passes(pos, graph, spring.substeps as nat, spring, spring.gain_num(dt), held)
}

/// The pull on the knot at `p` by the neighbour at `n`.
fn pull_of(p: Vec2, n: Vec2, rest: u32) -> (r: (i64, i64))
    ensures
        r.0 == pull(p, n, rest as int).0,
        r.1 == pull(p, n, rest as int).1,
        -0x1_0000_0000 < r.0 < 0x1_0000_0000,
        -0x1_0000_0000 < r.1 < 0x1_0000_0000,
{
    proof {
        lemma_scaled_axis_range(p.x - n.x, p.y - n.y, rest as int);
        lemma_scaled_axis_range(p.y - n.y, p.x - n.x, rest as int);
    }
    let w = n.offset_toward(p, rest);
    (n.x as i64 + w.0 - p.x as i64, n.y as i64 + w.1 - p.y as i64)
}

/// The velocity of the knot `index`: the sum of the pulls of its
/// neighbours that are longer than `leeway`, kept within the plane.
pub fn calculate_velocity_for(
    knots: &Vec<Knot>,
    index: usize,
    rest_distance: u32,
    leeway: u32,
) -> (v: Vec2)
    requires
        index < knots.len(),
        forall|k: int|
            0 <= k < knots[index as int].neighbours@.len() ==> (
            #[trigger] knots[index as int].neighbours@[k]) < knots.len(),
    ensures
        v == velocity(
            positions(knots@),
            knots[index as int].neighbours@,
            index as int,
            rest_distance as int,
            leeway as int,
        ),
{
    let ghost pos = positions(knots@);
    let ghost ties = knots[index as int].neighbours@;
    let limit: u128 = leeway as u128;
    assert(limit * limit == leeway * leeway && limit * limit < 0x1_0000_0000_0000_0000)
        by (nonlinear_arith)
        requires
            limit == leeway,
            limit < 0x1_0000_0000,
    ;
    let bound: u128 = limit * limit;
    let p: Vec2 = knots[index].position;
    let count: usize = knots[index].neighbours.len();
    let mut sum_x: i128 = 0;
    let mut sum_y: i128 = 0;
    let mut k: usize = 0;
    while k < count
        invariant
            k <= count,
            index < knots.len(),
            count == ties.len(),
            ties == knots[index as int].neighbours@,
            pos == positions(knots@),
            p == pos[index as int],
            forall|k: int| 0 <= k < ties.len() ==> (#[trigger] ties[k]) < knots.len(),
            bound == leeway * leeway,
            sum_x == pull_sum(
                pos,
                ties.take(k as int),
                index as int,
                rest_distance as int,
                leeway as int,
            ).0,
            sum_y == pull_sum(
                pos,
                ties.take(k as int),
                index as int,
                rest_distance as int,
                leeway as int,
            ).1,
            -0x1_0000_0000 * k <= sum_x <= 0x1_0000_0000 * k,
            -0x1_0000_0000 * k <= sum_y <= 0x1_0000_0000 * k,
        decreases count - k,
    {
        proof {
            assert(ties.take(k + 1).drop_last() == ties.take(k as int));
            assert(ties[k as int] < knots.len());
        }
        let j: usize = knots[index].neighbours[k];
        let one = pull_of(p, knots[j].position, rest_distance);
        if length_squared(one.0, one.1) > bound {
            sum_x = sum_x + one.0 as i128;
            sum_y = sum_y + one.1 as i128;
        }
        k += 1;
    }
    proof {
        assert(ties.take(k as int) == ties);
    }
    Vec2 { x: saturate(sum_x), y: saturate(sum_y) }
}

/// `v * num / den`, rounded toward zero.
fn step_of(v: i32, num: u64, den: u64) -> (r: i128)
    requires
        den > 0,
    ensures
        r == scaled_step(v as int, num as int, den as int),
        -0x1_0000_0000_0000_0000_0000_0000 < r < 0x1_0000_0000_0000_0000_0000_0000,
{
    let m: u128 = if v < 0 {
        (-(v as i64)) as u128
    } else {
        v as u128
    };
    assert(m * num < 0x1_0000_0000_0000_0000_0000_0000) by (nonlinear_arith)
        requires
            m <= 0x8000_0000,
            num < 0x1_0000_0000_0000_0000,
    ;
    let q: u128 = (m * (num as u128)) / (den as u128);
    assert(q <= m * num) by (nonlinear_arith)
        requires
            q == (m * num) / (den as int),
            den > 0,
            0 <= m * num,
    ;
    if v < 0 {
        -(q as i128)
    } else {
        q as i128
    }
}

/// The point that a knot at `p` reaches with velocity `v` under the gain
/// `num / den`.
pub fn advance(p: Vec2, v: Vec2, num: u64, den: u64) -> (r: Vec2)
    requires
        den > 0,
    ensures
        r == advanced(p, v, num as int, den as int),
{
    Vec2 {
        x: saturate(p.x as i128 + step_of(v.x, num, den)),
        y: saturate(p.y as i128 + step_of(v.y, num, den)),
    }
}

/// One frame of force-based integration over `knots`: `spring.substeps`
/// passes, each over all the knots in index order. A pass moves each knot
/// by its velocity times the tension and the time of one pass, reading its
/// neighbours where the pass has left them. Of `dt` no more than
/// `spring.max_dt` ticks count. The knot `held`, if any, is not moved.
pub fn integrate(knots: &mut Vec<Knot>, spring: &Spring, dt: u32, held: Option<usize>)
    requires
        graph_valid(graph(old(knots)@)),
    ensures
        final(knots).len() == old(knots).len(),
        graph(final(knots)@) == graph(old(knots)@),
        positions(final(knots)@) == integrated(
            positions(old(knots)@),
            graph(old(knots)@),
            *spring,
            dt as int,
            held,
        ),
{
    if spring.substeps == 0 {
        return ;
    }
    let ghost pos0 = positions(knots@);
    let ghost graph0 = graph(knots@);
    let ticks: u32 = if dt < spring.max_dt {
        dt
    } else {
        spring.max_dt
    };
    assert(spring.tension * ticks < 0x1_0000_0000_0000_0000) by (nonlinear_arith)
        requires
            spring.tension < 0x1_0000_0000,
            ticks < 0x1_0000_0000,
    ;
    let num: u64 = spring.tension as u64 * ticks as u64;
    let den: u64 = spring.substeps as u64 * TICKS_PER_UNIT;
    let n: usize = knots.len();
    let mut pass: u32 = 0;
    while pass < spring.substeps
        invariant
            pass <= spring.substeps,
            knots.len() == n,
            pos0.len() == n,
            graph0.len() == n,
            graph_valid(graph0),
            graph(knots@) == graph0,
            num == spring.gain_num(dt as int),
            den == spring.gain_den(),
            den > 0,
            positions(knots@) == integrated_passes(
                pos0,
                graph0,
                pass as nat,
                *spring,
                num as int,
                held,
            ),
        decreases spring.substeps - pass,
    {
        let ghost start = positions(knots@);
        let mut i: usize = 0;
        while i < n
            invariant
                i <= n,
                knots.len() == n,
                start.len() == n,
                graph0.len() == n,
                graph_valid(graph0),
                graph(knots@) == graph0,
                den == spring.gain_den(),
                den > 0,
                positions(knots@) == integrated_prefix(
                    start,
                    graph0,
                    i as nat,
                    *spring,
                    num as int,
                    held,
                ),
            decreases n - i,
        {
            let ghost before = positions(knots@);
            let ghost ties = knots@[i as int].neighbours;
            assert(graph0[i as int] == graph(knots@)[i as int]);
            let stays: bool = match held {
                Some(h) => h == i,
                None => false,
            };
            if !stays {
                assert forall|k: int| 0 <= k < knots[i as int].neighbours@.len() implies (
                #[trigger] knots[i as int].neighbours@[k]) < knots.len() by {
                    assert(graph0[i as int][k] < graph0.len());
                }
                let v: Vec2 = calculate_velocity_for(
                    knots,
                    i,
                    spring.rest_distance,
                    spring.leeway,
                );
                let p: Vec2 = advance(knots[i].position, v, num, den);
                knots[i].position = p;
            }
            proof {
                let after = integrated_position(
                    before,
                    graph0[i as int],
                    i as int,
                    *spring,
                    num as int,
                    held,
                );
                assert(knots@[i as int].neighbours == ties);
                assert(positions(knots@) =~= before.update(i as int, after));
                assert(graph(knots@) =~= graph0);
            }
            i += 1;
        }
        pass += 1;
    }
}

/// A pass keeps the number of knots, and leaves alone the knots it has not
/// reached.
pub proof fn lemma_integrated_prefix_frame(
    pos: Seq<Vec2>,
    graph: Seq<Seq<usize>>,
    count: nat,
    spring: Spring,
    num: int,
    held: Option<usize>,
)
    requires
        count <= pos.len(),
    ensures
        integrated_prefix(pos, graph, count, spring, num, held).len() == pos.len(),
        forall|i: int|
            count <= i < pos.len() ==> integrated_prefix(pos, graph, count, spring, num, held)[i]
                == pos[i],
    decreases count,
{
    if count > 0 {
        lemma_integrated_prefix_frame(pos, graph, (count - 1) as nat, spring, num, held);
    }
}

/// Once a pass has gone over a knot, the knot stays where the pass put it.
pub proof fn lemma_integrated_prefix_settled(
    pos: Seq<Vec2>,
    graph: Seq<Seq<usize>>,
    count: nat,
    spring: Spring,
    num: int,
    held: Option<usize>,
    index: int,
)
    requires
        0 <= index < count <= pos.len(),
    ensures
        integrated_prefix(pos, graph, count, spring, num, held)[index] == integrated_prefix(
            pos,
            graph,
            (index + 1) as nat,
            spring,
            num,
            held,
        )[index],
    decreases count,
{
    if count > index + 1 {
        lemma_integrated_prefix_frame(pos, graph, (count - 1) as nat, spring, num, held);
        lemma_integrated_prefix_settled(pos, graph, (count - 1) as nat, spring, num, held, index);
    }
}

/// Any number of passes keeps the number of knots.
pub proof fn lemma_integrated_passes_len(
    pos: Seq<Vec2>,
    graph: Seq<Seq<usize>>,
    passes: nat,
    spring: Spring,
    num: int,
    held: Option<usize>,
)
    ensures
        integrated_passes(pos, graph, passes, spring, num, held).len() == pos.len(),
    decreases passes,
{
    if passes > 0 {
        let before = integrated_passes(pos, graph, (passes - 1) as nat, spring, num, held);
        lemma_integrated_passes_len(pos, graph, (passes - 1) as nat, spring, num, held);
        lemma_integrated_prefix_frame(before, graph, before.len(), spring, num, held);
    }
}

/// A velocity of zero moves nothing.
pub proof fn lemma_advanced_at_rest(p: Vec2, num: int, den: int)
    requires
        den > 0,
    ensures
        advanced(p, Vec2 { x: 0, y: 0 }, num, den) == p,
{
    assert((0 * num) / den == 0) by (nonlinear_arith)
        requires
            den > 0,
    ;
}

/// Whether no neighbour pulls on the knot `index` by more than the
/// leeway: a knot without neighbours, or one whose neighbours all lie
/// within the leeway of the rest distance, or on the knot itself.
pub open spec fn unpulled(
    pos: Seq<Vec2>,
    neighbours: Seq<usize>,
    index: int,
    rest: int,
    leeway: int,
) -> bool {
    forall|k: int|
        0 <= k < neighbours.len() ==> !exceeds(
            pull(pos[index], pos[(#[trigger] neighbours[k]) as int], rest),
            leeway,
        )
}

/// A knot that nothing pulls on has no velocity.
pub proof fn lemma_unpulled_velocity(
    pos: Seq<Vec2>,
    neighbours: Seq<usize>,
    index: int,
    rest: int,
    leeway: int,
)
    requires
        unpulled(pos, neighbours, index, rest, leeway),
    ensures
        pull_sum(pos, neighbours, index, rest, leeway) == (0int, 0int),
        velocity(pos, neighbours, index, rest, leeway) == (Vec2 { x: 0, y: 0 }),
    decreases neighbours.len(),
{
    if neighbours.len() > 0 {
        let front = neighbours.drop_last();
        assert forall|k: int| 0 <= k < front.len() implies !exceeds(
            pull(pos[index], pos[(#[trigger] front[k]) as int], rest),
            leeway,
        ) by {
            assert(front[k] == neighbours[k]);
        }
        lemma_unpulled_velocity(pos, front, index, rest, leeway);
        assert(neighbours.last() == neighbours[neighbours.len() - 1]);
    }
}

/// Passes leave alone a held knot and a knot with no neighbours.
pub proof fn lemma_passes_leave_untied(
    pos: Seq<Vec2>,
    graph: Seq<Seq<usize>>,
    passes: nat,
    spring: Spring,
    num: int,
    held: Option<usize>,
    index: int,
)
    requires
        graph.len() == pos.len(),
        0 <= index < pos.len(),
        holds(held, index) || graph[index].len() == 0,
        passes > 0 ==> spring.gain_den() > 0,
    ensures
        integrated_passes(pos, graph, passes, spring, num, held)[index] == pos[index],
    decreases passes,
{
    if passes > 0 {
        let before = integrated_passes(pos, graph, (passes - 1) as nat, spring, num, held);
        lemma_passes_leave_untied(pos, graph, (passes - 1) as nat, spring, num, held, index);
        lemma_integrated_passes_len(pos, graph, (passes - 1) as nat, spring, num, held);
        lemma_integrated_prefix_frame(before, graph, index as nat, spring, num, held);
        lemma_integrated_prefix_settled(before, graph, before.len(), spring, num, held, index);
        let reached = integrated_prefix(before, graph, index as nat, spring, num, held);
        if !holds(held, index) {
            lemma_unpulled_velocity(
                reached,
                graph[index],
                index,
                spring.rest_distance as int,
                spring.leeway as int,
            );
            lemma_advanced_at_rest(reached[index], num, spring.gain_den());
        }
    }
}

/// Whether nothing pulls on any knot by more than the leeway.
pub open spec fn all_unpulled(
    pos: Seq<Vec2>,
    graph: Seq<Seq<usize>>,
    rest: int,
    leeway: int,
) -> bool {
    forall|i: int| 0 <= i < graph.len() ==> unpulled(pos, #[trigger] graph[i], i, rest, leeway)
}

/// Where nothing pulls by more than the leeway, a pass changes nothing, as
/// far as it has come.
pub proof fn lemma_integrated_prefix_unpulled(
    pos: Seq<Vec2>,
    graph: Seq<Seq<usize>>,
    count: nat,
    spring: Spring,
    num: int,
    held: Option<usize>,
)
    requires
        graph.len() == pos.len(),
        count <= pos.len(),
        spring.gain_den() > 0,
        all_unpulled(pos, graph, spring.rest_distance as int, spring.leeway as int),
    ensures
        integrated_prefix(pos, graph, count, spring, num, held) == pos,
    decreases count,
{
    if count > 0 {
        let index = count - 1;
        lemma_integrated_prefix_unpulled(pos, graph, index as nat, spring, num, held);
        assert(unpulled(
            pos,
            graph[index],
            index,
            spring.rest_distance as int,
            spring.leeway as int,
        ));
        lemma_unpulled_velocity(
            pos,
            graph[index],
            index,
            spring.rest_distance as int,
            spring.leeway as int,
        );
        lemma_advanced_at_rest(pos[index], num, spring.gain_den());
        assert(integrated_prefix(pos, graph, count, spring, num, held) =~= pos);
    }
}

/// Where nothing pulls by more than the leeway, any number of passes
/// changes nothing.
pub proof fn lemma_passes_unpulled_fixed(
    pos: Seq<Vec2>,
    graph: Seq<Seq<usize>>,
    passes: nat,
    spring: Spring,
    num: int,
    held: Option<usize>,
)
    requires
        graph.len() == pos.len(),
        passes > 0 ==> spring.gain_den() > 0,
        all_unpulled(pos, graph, spring.rest_distance as int, spring.leeway as int),
    ensures
        integrated_passes(pos, graph, passes, spring, num, held) == pos,
    decreases passes,
{
    if passes > 0 {
        lemma_passes_unpulled_fixed(pos, graph, (passes - 1) as nat, spring, num, held);
        lemma_integrated_prefix_unpulled(pos, graph, pos.len(), spring, num, held);
    }
}

/// Knots that lie on their neighbours pull on nothing.
pub proof fn lemma_coincident_unpulled(
    pos: Seq<Vec2>,
    graph: Seq<Seq<usize>>,
    rest: int,
    leeway: int,
)
    requires
        all_coincide(pos, graph),
    ensures
        all_unpulled(pos, graph, rest, leeway),
{
    assert forall|i: int| 0 <= i < graph.len() implies unpulled(
        pos,
        #[trigger] graph[i],
        i,
        rest,
        leeway,
    ) by {
        assert forall|k: int| 0 <= k < graph[i].len() implies !exceeds(
            pull(pos[i], pos[(#[trigger] graph[i][k]) as int], rest),
            leeway,
        ) by {
            assert(pos[graph[i][k] as int] == pos[i]);
            lemma_stretched_zero(pos[i], rest);
            assert(leeway * leeway >= 0) by (nonlinear_arith);
        }
    }
}

/// Elapsed time beyond the ceiling does not count: a frame of more than
/// `max_dt` ticks moves the knots as a frame of `max_dt` ticks does.
pub proof fn lemma_integrate_clamps_dt(
    pos: Seq<Vec2>,
    graph: Seq<Seq<usize>>,
    spring: Spring,
    dt: int,
    held: Option<usize>,
)
    requires
        dt >= spring.max_dt,
    ensures
        integrated(pos, graph, spring, dt, held) == integrated(
            pos,
            graph,
            spring,
            spring.max_dt as int,
            held,
        ),
{
}

/// A frame of integration leaves alone a held knot and a knot with no
/// neighbours: nothing pulls on it.
pub proof fn lemma_integrate_leaves_untied(
    pos: Seq<Vec2>,
    graph: Seq<Seq<usize>>,
    spring: Spring,
    dt: int,
    held: Option<usize>,
    index: int,
)
    requires
        graph.len() == pos.len(),
        0 <= index < pos.len(),
        holds(held, index) || graph[index].len() == 0,
    ensures
        integrated(pos, graph, spring, dt, held)[index] == pos[index],
{
    lemma_passes_leave_untied(
        pos,
        graph,
        spring.substeps as nat,
        spring,
        spring.gain_num(dt),
        held,
        index,
    );
}

/// A network at rest is a fixed point of the integration: where no pull
/// is longer than the leeway, a frame changes nothing, so that knots at
/// rest do not jitter.
pub proof fn lemma_integrate_fixed_at_rest(
    pos: Seq<Vec2>,
    graph: Seq<Seq<usize>>,
    spring: Spring,
    dt: int,
    held: Option<usize>,
)
    requires
        graph.len() == pos.len(),
        all_unpulled(pos, graph, spring.rest_distance as int, spring.leeway as int),
    ensures
        integrated(pos, graph, spring, dt, held) == pos,
{
    lemma_passes_unpulled_fixed(
        pos,
        graph,
        spring.substeps as nat,
        spring,
        spring.gain_num(dt),
        held,
    );
}

/// Knots that lie on their neighbours have no direction to move in: a
/// frame of integration changes nothing, however often it is repeated.
pub proof fn lemma_integrate_coincident_fixed(
    pos: Seq<Vec2>,
    graph: Seq<Seq<usize>>,
    spring: Spring,
    dt: int,
    held: Option<usize>,
)
    requires
        graph.len() == pos.len(),
        all_coincide(pos, graph),
    ensures
        integrated(pos, graph, spring, dt, held) == pos,
{
    lemma_coincident_unpulled(pos, graph, spring.rest_distance as int, spring.leeway as int);
    lemma_integrate_fixed_at_rest(pos, graph, spring, dt, held);
}

} // verus!
