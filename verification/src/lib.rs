//! A point-mass network simulator in fixed-point arithmetic.
//!
//! Knots joined by ties are drawn toward a common rest distance, pushed out
//! of circular obstacles and, while the pointer holds one, pinned to it.
//! A frame is one call of [`sim::Simulation::update`]; the caller supplies
//! the pointer and the elapsed time, and reads the knots back to draw them.
//!
//! Every coordinate is a whole number of length units, and every time a
//! whole number of ticks; how fine a unit is, the caller decides. Where a
//! result is no whole number it is rounded toward zero, once; where it
//! would leave the plane of `i32` coordinates it stops at the edge. So a
//! vector of length zero has the direction zero, and nothing is ever
//! divided by it.
//!
//! The modules state what each step computes as functions on sequences of
//! positions, prove that the code computes just that, and prove what
//! follows from it: that a sweep of relaxation leaves each knot at the rest
//! distance from the knot it hangs on, that a knot pushed out of an
//! obstacle lies on its rim and on its own ray, that knots at rest are not
//! moved, and that a pinned knot is found at the pointer.

pub mod collide;
pub mod integrate;
pub mod knot;
pub mod lattice;
pub mod pin;
pub mod relax;
pub mod sim;
pub mod sqrt;
pub mod vector;
