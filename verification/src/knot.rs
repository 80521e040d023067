//! Knots and the graph that joins them.

use vstd::prelude::*;
use vstd::std_specs::convert::FromSpecImpl;
use crate::vector::Vec2;

verus! {

/// A point mass: where it is, and the knots it is tied to. A neighbour is
/// the index of a knot in the network; the tie need not be returned.
#[derive(Debug)]
pub struct Knot {
    pub position: Vec2,
    pub neighbours: Vec<usize>,
}

impl Knot {
    /// Ties this knot to the knot `other`, after the ties it already has.
    pub fn add_neighbour(&mut self, other: usize)
        ensures
            final(self).position == old(self).position,
            final(self).neighbours@ == old(self).neighbours@.push(other),
    {
        self.neighbours.push(other);
    }
}

impl FromSpecImpl<Vec2> for Knot {
    /// Two lists of the same neighbours need not be the same value, so
    /// the conversion has no one result to name here: `from` states in
    /// its own clauses what it gives.
    open spec fn obeys_from_spec() -> bool {
        false
    }

    open spec fn from_spec(value: Vec2) -> Knot {
        choose|knot: Knot| knot.position == value && knot.neighbours@.len() == 0
    }
}

impl From<Vec2> for Knot {
    /// A knot at `value`, tied to nothing.
    fn from(value: Vec2) -> (knot: Knot)
        ensures
            knot.position == value,
            knot.neighbours@ == Seq::<usize>::empty(),
    {
        Knot { position: value, neighbours: Vec::new() }
    }
}

/// Where the knots are, in index order.
pub open spec fn positions(knots: Seq<Knot>) -> Seq<Vec2> {
    Seq::new(knots.len(), |i: int| knots[i].position)
}

/// The neighbours of each knot, in index order.
pub open spec fn graph(knots: Seq<Knot>) -> Seq<Seq<usize>> {
    Seq::new(knots.len(), |i: int| knots[i].neighbours@)
}

/// Whether every neighbour in `graph` is the index of one of its knots.
pub open spec fn graph_valid(graph: Seq<Seq<usize>>) -> bool {
    forall|i: int, j: int|
        0 <= i < graph.len() && 0 <= j < graph[i].len() ==> (#[trigger] graph[i][j]) < graph.len()
}

/// Whether `held` names the knot `index`.
pub open spec fn holds(held: Option<usize>, index: int) -> bool {
    held matches Some(h) && h == index
}

/// Whether every knot lies on each of its neighbours.
pub open spec fn all_coincide(pos: Seq<Vec2>, graph: Seq<Seq<usize>>) -> bool {
    forall|i: int, k: int|
        0 <= i < graph.len() && 0 <= k < graph[i].len() ==> pos[(#[trigger] graph[i][k]) as int]
            == pos[i]
}

/// Why a network was refused.
#[derive(Clone, Copy, Debug, PartialEq, Eq, Structural)]
pub enum ConfigError {
    /// The network has no knot `knot`.
    UnknownKnot { knot: usize },
    /// The knot `knot` is tied to a knot `neighbour` that the network does
    /// not have.
    UnknownNeighbour { knot: usize, neighbour: usize },
}

/// The first of `neighbours` that is not the index of one of `len` knots.
pub open spec fn first_stray(neighbours: Seq<usize>, len: int) -> Option<usize>
    decreases neighbours.len(),
{
    if neighbours.len() == 0 {
        None
    } else {
        match first_stray(neighbours.drop_last(), len) {
            Some(v) => Some(v),
            None => if neighbours.last() >= len {
                Some(neighbours.last())
            } else {
                None
            },
        }
    }
}

/// The first fault among the first `count` knots of `graph`: the first
/// knot with a stray neighbour, and the first stray neighbour of it.
pub open spec fn first_fault(graph: Seq<Seq<usize>>, count: nat) -> Option<(usize, usize)>
    decreases count,
{
    if count == 0 {
        None
    } else {
        match first_fault(graph, (count - 1) as nat) {
            Some(fault) => Some(fault),
            None => match first_stray(graph[count - 1], graph.len() as int) {
                Some(v) => Some(((count - 1) as usize, v)),
                None => None,
            },
        }
    }
}

/// `first_stray` finds nothing just where every neighbour is in range.
pub proof fn lemma_first_stray(neighbours: Seq<usize>, len: int)
    ensures
        first_stray(neighbours, len) is None <==> forall|k: int|
            0 <= k < neighbours.len() ==> (#[trigger] neighbours[k]) < len,
        first_stray(neighbours, len) matches Some(v) ==> v >= len && neighbours.contains(v),
    decreases neighbours.len(),
{
    if neighbours.len() > 0 {
        let front = neighbours.drop_last();
        lemma_first_stray(front, len);
        assert(neighbours.last() == neighbours[neighbours.len() - 1]);
        assert forall|k: int| 0 <= k < front.len() implies front[k] == neighbours[k] by {}
        match first_stray(front, len) {
            Some(v) => {
                let k = choose|k: int| 0 <= k < front.len() && front[k] == v;
                assert(neighbours[k] == v);
            },
            None => {
                if neighbours.last() < len {
                    assert forall|k: int| 0 <= k < neighbours.len() implies (
                    #[trigger] neighbours[k]) < len by {
                        if k < front.len() {
                            assert(front[k] == neighbours[k]);
                        }
                    }
                }
            },
        }
    }
}

/// A stray neighbour found among the first is the first stray among all.
proof fn lemma_first_stray_prefix(neighbours: Seq<usize>, len: int, count: int)
    requires
        0 <= count <= neighbours.len(),
        first_stray(neighbours.take(count), len) is Some,
    ensures
        first_stray(neighbours, len) == first_stray(neighbours.take(count), len),
    decreases neighbours.len(),
{
    if count == neighbours.len() {
        assert(neighbours.take(count) == neighbours);
    } else {
        assert(neighbours.drop_last().take(count) == neighbours.take(count));
        lemma_first_stray_prefix(neighbours.drop_last(), len, count);
    }
}

/// `first_fault` finds nothing among the first `count` knots just where
/// all their neighbours are in range.
pub proof fn lemma_first_fault(graph: Seq<Seq<usize>>, count: nat)
    requires
        count <= graph.len(),
    ensures
        first_fault(graph, count) is None <==> forall|i: int, k: int|
            0 <= i < count && 0 <= k < graph[i].len() ==> (#[trigger] graph[i][k]) < graph.len(),
        first_fault(graph, count) matches Some(fault) ==> fault.0 < count && fault.1 >= graph.len()
            && graph[fault.0 as int].contains(fault.1),
    decreases count,
{
    if count > 0 {
        lemma_first_fault(graph, (count - 1) as nat);
        lemma_first_stray(graph[count - 1], graph.len() as int);
    }
}

/// The first neighbour in `neighbours` that is no index below `len`.
fn find_stray(neighbours: &Vec<usize>, len: usize) -> (r: Option<usize>)
    ensures
        r == first_stray(neighbours@, len as int),
{
    let mut k: usize = 0;
    while k < neighbours.len()
        invariant
            k <= neighbours.len(),
            first_stray(neighbours@.take(k as int), len as int) is None,
        decreases neighbours.len() - k,
    {
        proof {
            assert(neighbours@.take(k + 1).drop_last() == neighbours@.take(k as int));
        }
        if neighbours[k] >= len {
            proof {
                lemma_first_stray_prefix(neighbours@, len as int, k + 1);
            }
            return Some(neighbours[k]);
        }
        k += 1;
    }
    proof {
        assert(neighbours@.take(k as int) == neighbours@);
    }
    None
}

/// Accepts `knots` where every neighbour is the index of one of them.
/// Otherwise names the first knot with a neighbour that is none, and the
/// first such neighbour of it.
pub fn check_graph(knots: &Vec<Knot>) -> (r: Result<(), ConfigError>)
    ensures
        r is Ok <==> graph_valid(graph(knots@)),
        r == match first_fault(graph(knots@), knots@.len()) {
            Some(fault) => Err::<(), ConfigError>(
                ConfigError::UnknownNeighbour { knot: fault.0, neighbour: fault.1 },
            ),
            None => Ok(()),
        },
{
    let n: usize = knots.len();
    let mut i: usize = 0;
    while i < n
        invariant
            i <= n,
            n == knots.len(),
            first_fault(graph(knots@), i as nat) is None,
        decreases n - i,
    {
        if let Some(v) = find_stray(&knots[i].neighbours, n) {
            proof {
                lemma_fault_found(graph(knots@), (i + 1) as nat);
            }
            return Err(ConfigError::UnknownNeighbour { knot: i, neighbour: v });
        }
        i += 1;
    }
    proof {
        lemma_first_fault(graph(knots@), n as nat);
    }
    Ok(())
}

/// A fault found among the first knots is the first fault among all, and
/// the graph is not valid.
proof fn lemma_fault_found(graph: Seq<Seq<usize>>, count: nat)
    requires
        count <= graph.len(),
        first_fault(graph, count) is Some,
    ensures
        first_fault(graph, graph.len()) == first_fault(graph, count),
        !graph_valid(graph),
    decreases graph.len() - count,
{
    if count < graph.len() {
        lemma_fault_found(graph, count + 1);
    } else {
        lemma_first_fault(graph, count);
    }
}

} // verus!
