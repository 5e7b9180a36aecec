//! Particle life on a fixed-point plane.
//!
//! Coloured point particles pull and push their neighbours according to a table of
//! colour-pair rules. A quadtree over the particle positions answers the neighbour
//! queries of each tick.
//!
//! Every coordinate, velocity and gain is a fixed-point number with sixteen fractional
//! bits in an `i32`; sums are taken in wider integers, quotients and square roots
//! are rounded toward zero, and what is stored again saturates. A tick is therefore
//! an exact function of the state before it, the same on every machine.
//!
//! * [`fixed`]: the arithmetic.
//! * [`quadtree`]: points, squares and the tree, with the mathematical tree that its
//!   contracts speak of in [`quadtree::model`] and what holds of it in
//!   [`quadtree::laws`].
//! * [`particle`]: particles, rules and the force law.
//! * [`particle_world`]: the population and its tick.
//! * [`grid`]: a coarse table of cells.
//! * [`screen`]: from the plane to the pixels of a picture.
//! * [`error`]: configurations that are refused.

pub mod error;
pub mod fixed;
pub mod grid;
pub mod particle;
pub mod particle_world;
pub mod quadtree;
pub mod screen;
