//! A single Game of Life cell.
//!
//! A cell publishes its current state in `is_alive` and, while a generation
//! advance is in progress, holds the already-decided next state in
//! `pending_state`.  `update` decides the pending state from the number of
//! live neighbours; `latch_state` makes the pending state current.

use vstd::prelude::*;

verus! {

/// The transition rule of the automaton: the state a cell takes in the next
/// generation, given whether it is alive now and how many of its neighbours
/// are alive now.
pub open spec fn next_state(alive: bool, alive_neighbors: int) -> bool {
    if alive {
        alive_neighbors == 2 || alive_neighbors == 3
    } else {
        alive_neighbors == 3
    }
}

#[derive(Copy, Clone, Debug)]
pub struct Cell {
    pub is_alive: bool,
    pub pending_state: bool,
}

impl Cell {
    /// Returns a new, dead cell with no pending state.
    pub fn new() -> (c: Cell)
        ensures
            !c.is_alive,
            !c.pending_state,
    {
        Cell { is_alive: false, pending_state: false }
    }

    /// Given the number of alive neighbours, decide and store the pending
    /// next state.  The published state `is_alive` is not touched.
    pub fn update(&mut self, alive_neighbors: u32)
        ensures
            final(self).is_alive == old(self).is_alive,
            final(self).pending_state == next_state(old(self).is_alive, alive_neighbors as int),
    {
        if self.is_alive {
            if alive_neighbors <= 1 || alive_neighbors > 3 {
                self.pending_state = false;
            } else {
                self.pending_state = true;
            }
        } else if alive_neighbors == 3 {
            self.pending_state = true;
        } else {
            self.pending_state = false;
        }
    }

    /// Latch the pending state: the decided next state becomes the published
    /// state, and the pending state is reset to dead.
    pub fn latch_state(&mut self)
        ensures
            final(self).is_alive == old(self).pending_state,
            !final(self).pending_state,
    {
        self.is_alive = self.pending_state;
        self.pending_state = false;
    }
}

/// A live cell survives a generation exactly when it has two or three live
/// neighbours; with any other count it dies.
pub proof fn lemma_live_cell_survival(alive_neighbors: int)
    ensures
        next_state(true, alive_neighbors) <==> (alive_neighbors == 2 || alive_neighbors == 3),
{
}

/// A dead cell becomes alive exactly when it has three live neighbours; any
/// other count keeps it dead.
pub proof fn lemma_dead_cell_birth(alive_neighbors: int)
    ensures
        next_state(false, alive_neighbors) <==> alive_neighbors == 3,
{
}

} // verus!
