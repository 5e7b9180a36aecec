//! A coarse table of cells that remembers one particle id for each.

use crate::fixed::UNIT;
use crate::particle::Particle;
use vstd::prelude::*;

verus! {

/// Cells along each side of the grid, and whole units along each side of a cell.
pub const GRID_SIZE: usize = 80;

/// The row or column of a coordinate: its whole units, none for a negative one, in steps
/// of `GRID_SIZE`.
pub open spec fn cell_of(c: i32) -> int {
    if c < 0 {
        0
    } else {
        (c as int / UNIT as int) / GRID_SIZE as int
    }
}

/// A square table of particle ids.
///
/// Every cell starts at the id 0, so a cell that no particle was put into cannot be told
/// from one that holds particle 0.
pub struct ParticleGrid {
    points: [[usize; GRID_SIZE]; GRID_SIZE],
}

impl ParticleGrid {
    /// The id that the cell in `row` and `column` holds.
    pub closed spec fn cell(&self, row: int, column: int) -> usize {
        self.points[row][column]
    }

    /// A grid whose cells all hold 0.
    pub fn new() -> (grid: ParticleGrid)
        ensures
            forall|row: int, column: int|
                0 <= row < GRID_SIZE && 0 <= column < GRID_SIZE ==> #[trigger] grid.cell(
                    row,
                    column,
                ) == 0,
    {
        ParticleGrid { points: [[0usize; GRID_SIZE]; GRID_SIZE] }
    }

    /// The id in the cell in `row` and `column`, if the grid has such a cell.
    pub fn get(&self, row: usize, column: usize) -> (id: Option<usize>)
        ensures
            id == (if row < GRID_SIZE && column < GRID_SIZE {
                Some(self.cell(row as int, column as int))
            } else {
                None
            }),
    {
        if row < GRID_SIZE && column < GRID_SIZE {
            Some(self.points[row][column])
        } else {
            None
        }
    }

    /// Puts `particle_id` into the cell of the particle's position, which is to lie on the
    /// grid; the id that was there is lost.
    pub fn insert(&mut self, particle: &Particle, particle_id: usize)
        requires
            cell_of(particle.pos.x) < GRID_SIZE,
            cell_of(particle.pos.y) < GRID_SIZE,
        ensures
            final(self).cell(cell_of(particle.pos.y), cell_of(particle.pos.x)) == particle_id,
            forall|row: int, column: int|
                0 <= row < GRID_SIZE && 0 <= column < GRID_SIZE && !(row == cell_of(particle.pos.y)
                    && column == cell_of(particle.pos.x)) ==> #[trigger] final(self).cell(
                    row,
                    column,
                ) == old(self).cell(row, column),
    {
        let x: usize = ParticleGrid::whole(particle.pos.x) / GRID_SIZE;
        let y: usize = ParticleGrid::whole(particle.pos.y) / GRID_SIZE;
        self.points[y][x] = particle_id;
    }

    /// The whole units of a coordinate, none for a negative one.
    fn whole(c: i32) -> (units: usize)
        ensures
            units == (if c < 0 { 0 } else { c as int / UNIT as int }),
    {
        if c < 0 {
            0
        } else {
            (c / UNIT) as usize
        }
    }
}

} // verus!
