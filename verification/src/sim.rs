//! The simulation: the knots, the obstacles and the pin, and the step that
//! takes them from one frame to the next.

use vstd::prelude::*;
use crate::collide::{resolve, resolved, Obstacle};
use crate::integrate::{
    integrate, integrated, lemma_integrate_coincident_fixed, lemma_integrate_leaves_untied,
    Spring,
};
use crate::knot::{
    all_coincide, check_graph, first_fault, graph, graph_valid, holds, positions, ConfigError,
    Knot,
};
use crate::pin::{
    apply_pin, lemma_first_within, next_pin, pinned, place_of, pointer_place, track_pointer,
    Pointer,
};
use crate::relax::{lemma_relax_coincident_fixed, lemma_relax_leaves_unanchored, relax, relaxed};
use crate::vector::Vec2;

verus! {

/// How the knots are drawn to the rest distance; chosen once, when the
/// simulation is set up.
#[derive(Clone, Copy, Debug, PartialEq, Eq, Structural)]
pub enum Solver {
    /// One sweep of positional relaxation in each frame.
    Relaxation { rest_distance: u32, tolerance: u32 },
    /// Force-based integration.
    Integration(Spring),
}

/// When the pinned knot is put at the pointer.
#[derive(Clone, Copy, Debug, PartialEq, Eq, Structural)]
pub enum PinPolicy {
    /// Once the knots have been solved and pushed out of the obstacles.
    /// Until then the solver moves the pinned knot like any other.
    AfterSolve,
    /// Before the solver runs, and again at the end. The solver reads the
    /// pinned knot at the pointer and does not move it.
    BeforeAndAfter,
}

/// The positions after the solver has run for one frame of `dt` ticks,
/// without moving the knot `held`.
pub open spec fn solved(
    pos: Seq<Vec2>,
    graph: Seq<Seq<usize>>,
    solver: Solver,
    dt: int,
    held: Option<usize>,
) -> Seq<Vec2> {
    match solver {
        Solver::Relaxation { rest_distance, tolerance } => relaxed(
            pos,
            graph,
            rest_distance as int,
            tolerance as int,
            held,
        ),
        Solver::Integration(spring) => integrated(pos, graph, spring, dt, held),
    }
}

/// The knot that the solver may not move: the pinned one, where the pin is
/// applied before the solver runs.
pub open spec fn held_under(policy: PinPolicy, pin: Option<usize>) -> Option<usize> {
    match policy {
        PinPolicy::AfterSolve => None,
        PinPolicy::BeforeAndAfter => pin,
    }
}

/// The positions that the solver starts from.
pub open spec fn readied(
    pos: Seq<Vec2>,
    policy: PinPolicy,
    pin: Option<usize>,
    at: Vec2,
) -> Seq<Vec2> {
    match policy {
        PinPolicy::AfterSolve => pos,
        PinPolicy::BeforeAndAfter => pinned(pos, pin, at),
    }
}

/// The positions after one frame: the pin applied as the policy says, the
/// knots solved, pushed out of the obstacles, and the pin applied.
pub open spec fn framed(
    pos: Seq<Vec2>,
    graph: Seq<Seq<usize>>,
    obstacles: Seq<Obstacle>,
    solver: Solver,
    policy: PinPolicy,
    pin: Option<usize>,
    at: Vec2,
    dt: int,
) -> Seq<Vec2> {
    pinned(
        resolved(
            solved(readied(pos, policy, pin, at), graph, solver, dt, held_under(policy, pin)),
            obstacles,
        ),
        pin,
        at,
    )
}

impl Solver {
    /// Runs the solver over `knots` for one frame of `dt` ticks, without
    /// moving the knot `held`.
    pub fn step(&self, knots: &mut Vec<Knot>, dt: u32, held: Option<usize>)
        requires
            graph_valid(graph(old(knots)@)),
        ensures
            final(knots).len() == old(knots).len(),
            graph(final(knots)@) == graph(old(knots)@),
            positions(final(knots)@) == solved(
                positions(old(knots)@),
                graph(old(knots)@),
                *self,
                dt as int,
                held,
            ),
    {
        match self {
            Solver::Relaxation { rest_distance, tolerance } => {
                relax(knots, *rest_distance, *tolerance, held);
            },
            Solver::Integration(spring) => {
                integrate(knots, spring, dt, held);
            },
        }
    }
}

/// All that a frame reads and writes.
pub struct Simulation {
    pub knots: Vec<Knot>,
    pub obstacles: Vec<Obstacle>,
    /// The pinned knot, if there is one.
    pub dragging: Option<usize>,
    pub solver: Solver,
    pub policy: PinPolicy,
    /// How near to a knot a press must be to pin it.
    pub capture_radius: u32,
}

impl Simulation {
    /// Whether every tie and the pin name a knot of the network.
    pub open spec fn wf(&self) -> bool {
        &&& graph_valid(graph(self.knots@))
        &&& self.dragging matches Some(k) ==> k < self.knots.len()
    }

    /// A simulation without knots or obstacles, and with nothing pinned.
    pub fn new(solver: Solver, policy: PinPolicy, capture_radius: u32) -> (sim: Simulation)
        ensures
            sim.wf(),
            sim.knots@.len() == 0,
            sim.obstacles@.len() == 0,
            sim.dragging is None,
            sim.solver == solver,
            sim.policy == policy,
            sim.capture_radius == capture_radius,
    {
        Simulation {
            knots: Vec::new(),
            obstacles: Vec::new(),
            dragging: None,
            solver,
            policy,
            capture_radius,
        }
    }

    /// Adds a knot at `position`, tied to nothing. Its index is the number
    /// of knots there were.
    pub fn add_knot(&mut self, position: Vec2)
        ensures
            final(self).knots.len() == old(self).knots.len() + 1,
            old(self).wf() ==> final(self).wf(),
            positions(final(self).knots@) == positions(old(self).knots@).push(position),
            graph(final(self).knots@) == graph(old(self).knots@).push(Seq::empty()),
            final(self).obstacles == old(self).obstacles,
            final(self).dragging == old(self).dragging,
            final(self).solver == old(self).solver,
            final(self).policy == old(self).policy,
            final(self).capture_radius == old(self).capture_radius,
    {
        let ghost graph0 = graph(self.knots@);
        let ghost pos0 = positions(self.knots@);
        let knot: Knot = Knot::from(position);
        self.knots.push(knot);
        proof {
            assert(positions(self.knots@) =~= pos0.push(position));
            assert(graph(self.knots@) =~= graph0.push(Seq::empty()));
            if graph_valid(graph0) {
                assert forall|i: int, j: int|
                    0 <= i < graph(self.knots@).len() && 0 <= j < graph(
                        self.knots@,
                    )[i].len() implies (#[trigger] graph(self.knots@)[i][j]) < graph(
                    self.knots@,
                ).len() by {
                    assert(graph(self.knots@)[i] == graph0[i]);
                    assert(graph0[i][j] < graph0.len());
                }
            }
        }
    }

    /// Adds an obstacle, after those there are.
    pub fn add_obstacle(&mut self, obstacle: Obstacle)
        ensures
            old(self).wf() ==> final(self).wf(),
            final(self).obstacles@ == old(self).obstacles@.push(obstacle),
            final(self).knots == old(self).knots,
            final(self).dragging == old(self).dragging,
            final(self).solver == old(self).solver,
            final(self).policy == old(self).policy,
            final(self).capture_radius == old(self).capture_radius,
    {
        self.obstacles.push(obstacle);
    }

    /// Ties the knot `knot` to the knot `neighbour`, after the ties it
    /// has. A tie from or to a knot that the network does not have is
    /// refused, and nothing changes.
    pub fn connect(&mut self, knot: usize, neighbour: usize) -> (r: Result<(), ConfigError>)
        ensures
            final(self).knots.len() == old(self).knots.len(),
            old(self).wf() ==> final(self).wf(),
            positions(final(self).knots@) == positions(old(self).knots@),
            final(self).obstacles == old(self).obstacles,
            final(self).dragging == old(self).dragging,
            final(self).solver == old(self).solver,
            final(self).policy == old(self).policy,
            final(self).capture_radius == old(self).capture_radius,
            r == if knot >= old(self).knots.len() {
                Err::<(), ConfigError>(ConfigError::UnknownKnot { knot })
            } else if neighbour >= old(self).knots.len() {
                Err(ConfigError::UnknownNeighbour { knot, neighbour })
            } else {
                Ok(())
            },
            r is Err ==> graph(final(self).knots@) == graph(old(self).knots@),
            r is Ok ==> graph(final(self).knots@) == graph(old(self).knots@).update(
                knot as int,
                graph(old(self).knots@)[knot as int].push(neighbour),
            ),
    {
        if knot >= self.knots.len() {
            return Err(ConfigError::UnknownKnot { knot });
        }
        if neighbour >= self.knots.len() {
            return Err(ConfigError::UnknownNeighbour { knot, neighbour });
        }
        let ghost graph0 = graph(self.knots@);
        let ghost pos0 = positions(self.knots@);
        self.knots[knot].add_neighbour(neighbour);
        proof {
            let graph1 = graph(self.knots@);
            assert(positions(self.knots@) =~= pos0);
            assert(graph1 =~= graph0.update(knot as int, graph0[knot as int].push(neighbour)));
            if graph_valid(graph0) {
                assert forall|i: int, j: int|
                    0 <= i < graph1.len() && 0 <= j < graph1[i].len() implies (
                #[trigger] graph1[i][j]) < graph1.len() by {
                    if i == knot && j == graph0[i].len() {
                    } else {
                        assert(graph1[i][j] == graph0[i][j]);
                    }
                }
            }
        }
        Ok(())
    }

    /// Accepts the simulation where every tie and the pin name a knot of
    /// the network. Otherwise names the first fault of the graph, or else
    /// the pin.
    pub fn check(&self) -> (r: Result<(), ConfigError>)
        ensures
            r is Ok <==> self.wf(),
            r == match first_fault(graph(self.knots@), self.knots@.len()) {
                Some(fault) => Err::<(), ConfigError>(
                    ConfigError::UnknownNeighbour { knot: fault.0, neighbour: fault.1 },
                ),
                None => match self.dragging {
                    Some(k) => if k >= self.knots.len() {
                        Err(ConfigError::UnknownKnot { knot: k })
                    } else {
                        Ok(())
                    },
                    None => Ok(()),
                },
            },
    {
        match check_graph(&self.knots) {
            Err(e) => Err(e),
            Ok(()) => match self.dragging {
                Some(k) => if k >= self.knots.len() {
                    Err(ConfigError::UnknownKnot { knot: k })
                } else {
                    Ok(())
                },
                None => Ok(()),
            },
        }
    }

    /// One frame. The pointer moves the pin; the pinned knot is put at
    /// the pointer as the policy says; the solver runs for `dt` ticks; the
    /// knots are pushed out of the obstacles; and the pinned knot is put
    /// at the pointer, where it is found when the frame is drawn.
    pub fn update(&mut self, pointer: &Pointer, dt: u32)
        requires
            old(self).wf(),
        ensures
            final(self).knots.len() == old(self).knots.len(),
            final(self).wf(),
            final(self).dragging == next_pin(
                old(self).dragging,
                positions(old(self).knots@),
                *pointer,
                old(self).capture_radius as int,
            ),
            graph(final(self).knots@) == graph(old(self).knots@),
            positions(final(self).knots@) == framed(
                positions(old(self).knots@),
                graph(old(self).knots@),
                old(self).obstacles@,
                old(self).solver,
                old(self).policy,
                final(self).dragging,
                pointer_place(*pointer),
                dt as int,
            ),
            final(self).dragging matches Some(k) ==> positions(final(self).knots@)[k as int]
                == pointer_place(*pointer),
            final(self).obstacles == old(self).obstacles,
            final(self).solver == old(self).solver,
            final(self).policy == old(self).policy,
            final(self).capture_radius == old(self).capture_radius,
    {
        let ghost graph0 = graph(self.knots@);
        proof {
            if let Some(at) = pointer.position {
                lemma_first_within(positions(self.knots@), at, self.capture_radius as int);
            }
        }
        self.dragging = track_pointer(self.dragging, &self.knots, pointer, self.capture_radius);
        let at: Vec2 = place_of(pointer);
        let held: Option<usize> = match self.policy {
            PinPolicy::AfterSolve => None,
            PinPolicy::BeforeAndAfter => {
                apply_pin(&mut self.knots, self.dragging, at);
                self.dragging
            },
        };
        assert(graph(self.knots@) == graph0);
        self.solver.step(&mut self.knots, dt, held);
        resolve(&mut self.knots, &self.obstacles);
        apply_pin(&mut self.knots, self.dragging, at);
        proof {
            assert(graph(self.knots@).len() == self.knots.len());
            assert(graph0.len() == old(self).knots.len());
        }
    }
}

/// The solver leaves alone a held knot and a knot with no neighbours,
/// whichever way it solves.
pub proof fn lemma_solve_leaves_untied(
    pos: Seq<Vec2>,
    graph: Seq<Seq<usize>>,
    solver: Solver,
    dt: int,
    held: Option<usize>,
    index: int,
)
    requires
        graph.len() == pos.len(),
        0 <= index < pos.len(),
        holds(held, index) || graph[index].len() == 0,
    ensures
        solved(pos, graph, solver, dt, held)[index] == pos[index],
{
    match solver {
        Solver::Relaxation { rest_distance, tolerance } => {
            lemma_relax_leaves_unanchored(
                pos,
                graph,
                rest_distance as int,
                tolerance as int,
                held,
                index,
            );
        },
        Solver::Integration(spring) => {
            lemma_integrate_leaves_untied(pos, graph, spring, dt, held, index);
        },
    }
}

/// Knots that lie on their neighbours are a fixed point of the solver:
/// solving once or twice leaves every one of them where it is, and no
/// division by their distance of zero goes wrong.
pub proof fn lemma_solve_coincident_fixed(
    pos: Seq<Vec2>,
    graph: Seq<Seq<usize>>,
    solver: Solver,
    dt: int,
    held: Option<usize>,
)
    requires
        graph.len() == pos.len(),
        all_coincide(pos, graph),
    ensures
        solved(pos, graph, solver, dt, held) == pos,
        solved(solved(pos, graph, solver, dt, held), graph, solver, dt, held) == pos,
{
    match solver {
        Solver::Relaxation { rest_distance, tolerance } => {
            lemma_relax_coincident_fixed(pos, graph, rest_distance as int, tolerance as int, held);
        },
        Solver::Integration(spring) => {
            lemma_integrate_coincident_fixed(pos, graph, spring, dt, held);
        },
    }
}

/// While a knot is pinned, a frame leaves it at the pointer, wherever the
/// solver and the obstacles would have put it.
pub proof fn lemma_frame_keeps_pin_at_pointer(
    pos: Seq<Vec2>,
    graph: Seq<Seq<usize>>,
    obstacles: Seq<Obstacle>,
    solver: Solver,
    policy: PinPolicy,
    k: usize,
    at: Vec2,
    dt: int,
)
    requires
        k < framed(pos, graph, obstacles, solver, policy, Some(k), at, dt).len(),
    ensures
        framed(pos, graph, obstacles, solver, policy, Some(k), at, dt)[k as int] == at,
{
}

/// With nothing pinned, a frame is the solver followed by the obstacles:
/// a knot that has been released moves as the solver moves it.
pub proof fn lemma_frame_without_pin(
    pos: Seq<Vec2>,
    graph: Seq<Seq<usize>>,
    obstacles: Seq<Obstacle>,
    solver: Solver,
    policy: PinPolicy,
    at: Vec2,
    dt: int,
)
    ensures
        framed(pos, graph, obstacles, solver, policy, None, at, dt) == resolved(
            solved(pos, graph, solver, dt, None),
            obstacles,
        ),
{
}

} // verus!
