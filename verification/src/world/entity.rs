use vstd::prelude::*;

use crate::world::block::Block;
use crate::world::position::ChunkPosition;

verus! {

/// The chunk that an entity stands in.
#[derive(Clone, Copy, Debug)]
pub struct ChunkTranslation(pub ChunkPosition);

/// Marks an entity through whose eyes the world is shown.
#[derive(Clone, Copy, Debug)]
pub struct Observer {
    pub view_distance: usize,
}

impl Default for Observer {
    fn default() -> (r: Observer)
        ensures
            r.view_distance == 0,
    {
        Observer { view_distance: 0 }
    }
}

/// Marks the entity that the local player steers.
#[derive(Clone, Copy, Debug)]
pub struct Main;

impl Default for Main {
    fn default() -> (r: Main) {
        Main
    }
}

/// A request to change the block that an entity aims at.
#[derive(Clone, Copy, Debug, PartialEq, Eq, Structural)]
pub enum Change {
    /// Put the block into the last free cell before the block aimed at.
    Place(Block),
    /// Put the block into the cell of the block aimed at.
    Break(Block),
}

impl Change {
    /// The block that the change writes.
    pub open spec fn written(self) -> Block {
        match self {
            Change::Place(b) => b,
            Change::Break(b) => b,
        }
    }

    /// The block that the change writes.
    pub fn block(&self) -> (r: Block)
        ensures
            r == self.written(),
    {
        match self {
            Change::Place(b) => *b,
            Change::Break(b) => *b,
        }
    }
}

#[derive(Clone, Copy, Debug)]
pub struct Break(pub Block);

/// Marks an entity that is drawn.
#[derive(Clone, Copy, Debug)]
pub struct Display;

/// Drives the loading of chunks around an entity: how far it loads and how
/// far the walk through the shells around it has come.
#[derive(Clone, Copy, Debug)]
pub struct Loader {
    pub load_distance: usize,
    pub recalculate_needed_chunks: bool,
    /// The next place of the walk.
    pub next_needed: usize,
}

/// Whether the machine can count the cells of the cube that holds every
/// shell up to the radius `load_distance`.
pub open spec fn walk_fits(load_distance: usize) -> bool {
    (2 * load_distance + 1) * (2 * load_distance + 1) * (2 * load_distance + 1) <= usize::MAX
}

/// Whether the machine can count the cells of the cube that holds every
/// shell up to the radius `load_distance`.
pub fn can_walk(load_distance: usize) -> (r: bool)
    ensures
        r == walk_fits(load_distance),
{
    let side: usize = match load_distance.checked_mul(2) {
        Some(twice) => match twice.checked_add(1) {
            Some(side) => side,
            None => {
                return false;
            },
        },
        None => {
            assert((2 * load_distance + 1) * (2 * load_distance + 1) * (2 * load_distance + 1)
                >= 2 * load_distance + 1) by (nonlinear_arith);
            return false;
        },
    };
    proof {
        assert(side * side * side >= side * side && side * side >= side) by (nonlinear_arith)
            requires
                side >= 1,
        ;
    }
    match side.checked_mul(side) {
        Some(plane) => plane.checked_mul(side).is_some(),
        None => false,
    }
}

impl Loader {
    /// Whether a walk can be made for the loader's distance.
    pub open spec fn wf(&self) -> bool {
        walk_fits(self.load_distance)
    }

    /// A loader that has nothing to walk through yet.
    pub fn new(load_distance: usize) -> (r: Loader)
        ensures
            r.load_distance == load_distance,
            !r.recalculate_needed_chunks,
            r.next_needed == 0,
    {
        Loader { load_distance, recalculate_needed_chunks: false, next_needed: 0 }
    }

    /// Starts the walk anew.
    pub fn restart(&mut self)
        ensures
            final(self).load_distance == old(self).load_distance,
            final(self).recalculate_needed_chunks,
            final(self).next_needed == 0,
    {
        self.next_needed = 0;
        self.recalculate_needed_chunks = true;
    }
}

} // verus!
