//! The pointer and the pin: which knot the pointer holds, and where.

use vstd::prelude::*;
use crate::knot::{graph, positions, Knot};
use crate::vector::{dist_sq, Vec2};

verus! {

/// What the pointer did in one frame.
#[derive(Clone, Copy, Debug)]
pub struct Pointer {
    /// Where the pointer is; `None` while it is off the surface.
    pub position: Option<Vec2>,
    /// Whether a button went down in this frame.
    pub pressed: bool,
    /// Whether a button came up in this frame.
    pub released: bool,
}

/// The first knot, in index order, that lies within `radius` of `at`.
pub open spec fn first_within(pos: Seq<Vec2>, at: Vec2, radius: int) -> Option<usize>
    decreases pos.len(),
{
    if pos.len() == 0 {
        None
    } else {
        match first_within(pos.drop_last(), at, radius) {
            Some(k) => Some(k),
            None => if dist_sq(pos.last(), at) <= radius * radius {
                Some((pos.len() - 1) as usize)
            } else {
                None
            },
        }
    }
}

/// The pin after a frame. A press pins the first knot within `radius` of
/// the pointer and changes nothing where there is none; a release without
/// a press clears the pin; a frame without a pointer changes nothing.
pub open spec fn next_pin(
    pin: Option<usize>,
    pos: Seq<Vec2>,
    pointer: Pointer,
    radius: int,
) -> Option<usize> {
    match pointer.position {
        None => pin,
        Some(at) => if pointer.pressed {
            match first_within(pos, at, radius) {
                Some(k) => Some(k),
                None => pin,
            }
        } else if pointer.released {
            None
        } else {
            pin
        },
    }
}

/// Where a pinned knot is held: at the pointer, or at the origin while
/// the pointer is off the surface.
pub open spec fn pointer_place(pointer: Pointer) -> Vec2 {
    match pointer.position {
        Some(at) => at,
        None => Vec2 { x: 0, y: 0 },
    }
}

/// The positions with the pinned knot, if there is one, put at `at`.
pub open spec fn pinned(pos: Seq<Vec2>, pin: Option<usize>, at: Vec2) -> Seq<Vec2> {
    match pin {
        Some(k) => if k < pos.len() {
            pos.update(k as int, at)
        } else {
            pos
        },
        None => pos,
    }
}

/// The knot that `first_within` finds is within the radius, and no knot
/// before it is; where it finds none, no knot is within the radius.
pub proof fn lemma_first_within(pos: Seq<Vec2>, at: Vec2, radius: int)
    requires
        pos.len() <= usize::MAX,
    ensures
        match first_within(pos, at, radius) {
            Some(k) => {
                &&& k < pos.len()
                &&& dist_sq(pos[k as int], at) <= radius * radius
                &&& forall|i: int| 0 <= i < k ==> dist_sq(#[trigger] pos[i], at) > radius * radius
            },
            None => forall|i: int|
                0 <= i < pos.len() ==> dist_sq(#[trigger] pos[i], at) > radius * radius,
        },
    decreases pos.len(),
{
    if pos.len() > 0 {
        let front = pos.drop_last();
        lemma_first_within(front, at, radius);
        assert(pos.last() == pos[pos.len() - 1]);
        assert forall|i: int| 0 <= i < front.len() implies front[i] == pos[i] by {}
        match first_within(front, at, radius) {
            Some(k) => {
                assert(front[k as int] == pos[k as int]);
                assert forall|i: int| 0 <= i < k implies dist_sq(#[trigger] pos[i], at) > radius
                    * radius by {
                    assert(front[i] == pos[i]);
                }
            },
            None => {
                assert forall|i: int| 0 <= i < pos.len() - 1 implies dist_sq(
                    #[trigger] pos[i],
                    at,
                ) > radius * radius by {
                    assert(front[i] == pos[i]);
                }
            },
        }
    }
}

/// A press within the capture radius of the knot `k`, and of no knot
/// before it, pins `k`, whatever was pinned before.
pub proof fn lemma_press_pins(
    pin: Option<usize>,
    pos: Seq<Vec2>,
    pointer: Pointer,
    radius: int,
    k: usize,
)
    requires
        pos.len() <= usize::MAX,
        k < pos.len(),
        pointer.pressed,
        pointer.position matches Some(at) && dist_sq(pos[k as int], at) <= radius * radius
            && forall|i: int| 0 <= i < k ==> dist_sq(#[trigger] pos[i], at) > radius * radius,
    ensures
        next_pin(pin, pos, pointer, radius) == Some(k),
{
    lemma_first_within(pos, pointer.position.unwrap(), radius);
}

/// A release, in a frame with the pointer on the surface and no press,
/// clears the pin.
pub proof fn lemma_release_clears(
    pin: Option<usize>,
    pos: Seq<Vec2>,
    pointer: Pointer,
    radius: int,
)
    requires
        pointer.position is Some,
        pointer.released,
        !pointer.pressed,
    ensures
        next_pin(pin, pos, pointer, radius) is None,
{
}

/// A frame without a pointer neither pins nor unpins.
pub proof fn lemma_absent_pointer_keeps_pin(
    pin: Option<usize>,
    pos: Seq<Vec2>,
    pointer: Pointer,
    radius: int,
)
    requires
        pointer.position is None,
    ensures
        next_pin(pin, pos, pointer, radius) == pin,
{
}

/// An earlier match among the first knots is the match among all.
proof fn lemma_first_within_prefix(pos: Seq<Vec2>, at: Vec2, radius: int, count: int)
    requires
        0 <= count <= pos.len(),
        first_within(pos.take(count), at, radius) is Some,
    ensures
        first_within(pos, at, radius) == first_within(pos.take(count), at, radius),
    decreases pos.len(),
{
    if count == pos.len() {
        assert(pos.take(count) == pos);
    } else {
        assert(pos.drop_last().take(count) == pos.take(count));
        lemma_first_within_prefix(pos.drop_last(), at, radius, count);
    }
}

/// The first knot, in index order, that lies within `radius` of `at`.
pub fn capture(knots: &Vec<Knot>, at: Vec2, radius: u32) -> (r: Option<usize>)
    ensures
        r == first_within(positions(knots@), at, radius as int),
{
    let ghost pos = positions(knots@);
    let mut i: usize = 0;
    while i < knots.len()
        invariant
            i <= knots.len(),
            pos == positions(knots@),
            first_within(pos.take(i as int), at, radius as int) is None,
        decreases knots.len() - i,
    {
        proof {
            assert(pos.take(i + 1).drop_last() == pos.take(i as int));
            assert(pos.take(i + 1).last() == knots[i as int].position);
        }
        if knots[i].position.is_within(at, radius) {
            proof {
                lemma_first_within_prefix(pos, at, radius as int, i + 1);
            }
            return Some(i);
        }
        i += 1;
    }
    proof {
        assert(pos.take(i as int) == pos);
    }
    None
}

/// The pin after a frame in which the pointer did `pointer`.
pub fn track_pointer(
    pin: Option<usize>,
    knots: &Vec<Knot>,
    pointer: &Pointer,
    radius: u32,
) -> (r: Option<usize>)
    ensures
        r == next_pin(pin, positions(knots@), *pointer, radius as int),
{
    match pointer.position {
        None => pin,
        Some(at) => {
            if pointer.pressed {
                match capture(knots, at, radius) {
                    Some(k) => Some(k),
                    None => pin,
                }
            } else if pointer.released {
                None
            } else {
                pin
            }
        },
    }
}

/// Where a pinned knot is held in a frame in which the pointer did
/// `pointer`.
pub fn place_of(pointer: &Pointer) -> (r: Vec2)
    ensures
        r == pointer_place(*pointer),
{
    match pointer.position {
        Some(at) => at,
        None => Vec2 { x: 0, y: 0 },
    }
}

/// Puts the pinned knot, if there is one, at `at`.
pub fn apply_pin(knots: &mut Vec<Knot>, pin: Option<usize>, at: Vec2)
    ensures
        final(knots).len() == old(knots).len(),
        graph(final(knots)@) == graph(old(knots)@),
        positions(final(knots)@) == pinned(positions(old(knots)@), pin, at),
{
    let ghost pos0 = positions(knots@);
    let ghost graph0 = graph(knots@);
    if let Some(k) = pin {
        if k < knots.len() {
            let ghost ties = knots@[k as int].neighbours;
            knots[k].position = at;
            proof {
                assert(knots@[k as int].neighbours == ties);
            }
        }
    }
    proof {
        assert(positions(knots@) =~= pinned(pos0, pin, at));
        assert(graph(knots@) =~= graph0);
    }
}

} // verus!
