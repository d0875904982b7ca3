//! The grid the visualizer draws: fixed pixel dimensions and the reference
//! seven-note sequence, with the three sort entry points delegating to the
//! engine on a private copy of the cells.

use crate::engine;
use crate::engine::Step;
use crate::note::{cells_to_arr, Note};
use vstd::prelude::*;

verus! {

/// The reference cell sequence: E, G, D, B, A, C, F.
pub open spec fn initial_cells() -> Seq<Note> {
    seq![Note::E, Note::G, Note::D, Note::B, Note::A, Note::C, Note::F]
}

/// A drawing grid holding the note sequence to sort and its pixel size.
pub struct Grid {
    width: u32,
    height: u32,
    cells: Vec<Note>,
}

impl Grid {
    /// Every grid keeps its cell count far below `i32::MAX`, so step
    /// indices always fit in an `i32`.
    #[verifier::type_invariant]
    closed spec fn inv(&self) -> bool {
        self.cells@.len() < 0x8000_0000
    }

    /// A grid of the reference configuration: 350 by 350 pixels over the
    /// fixed seven-note sequence E, G, D, B, A, C, F.
    pub fn new() -> (g: Grid)
        ensures
            g.width_spec() == 350,
            g.height_spec() == 350,
            g.cells_spec() == initial_cells(),
    {
        let width: u32 = 350;
        let height: u32 = 350;
        let cells: Vec<Note> = vec![
            Note::E,
            Note::G,
            Note::D,
            Note::B,
            Note::A,
            Note::C,
            Note::F,
        ];
        proof {
            assert(cells@ =~= initial_cells());
        }
        Grid { width, height, cells }
    }

    /// Width in pixels.
    pub closed spec fn width_spec(&self) -> u32 {
        self.width
    }

    /// Height in pixels.
    pub closed spec fn height_spec(&self) -> u32 {
        self.height
    }

    /// The note sequence held by the grid.
    pub closed spec fn cells_spec(&self) -> Seq<Note> {
        self.cells@
    }

    pub fn width(&self) -> (r: u32)
        ensures
            r == self.width_spec(),
    {
        self.width
    }

    pub fn height(&self) -> (r: u32)
        ensures
            r == self.height_spec(),
    {
        self.height
    }

    /// Display names of the current cells, in order, for rendering.
    pub fn cells(&self) -> (r: Vec<&'static str>)
        ensures
            r@.len() == self.cells_spec().len(),
            forall|i: int| 0 <= i < self.cells_spec().len() ==> r@[i]@ == self.cells_spec()[i].name(),
    {
        cells_to_arr(&self.cells)
    }

    /// Step-recording insertion sort of the grid's cells, on a private copy:
    /// the grid itself is never mutated.
    pub fn insertion_sort(&self) -> (r: Vec<Step>)
        ensures
            engine::log_view(r@) == engine::insertion_log(self.cells_spec()),
            engine::log_wf(engine::log_view(r@), self.cells_spec().len() as int),
            r@.len() >= 1,
            r@[0]@ == engine::initial_step(self.cells_spec()),
            engine::is_sorted(r@[r@.len() - 1]@.snapshot),
            r@[r@.len() - 1]@.snapshot.to_multiset() == self.cells_spec().to_multiset(),
    {
        proof {
            use_type_invariant(self);
        }
        engine::insertion_sort_steps(&self.cells)
    }

    /// Step-recording selection sort of the grid's cells, on a private copy.
    pub fn selection_sort(&self) -> (r: Vec<Step>)
        ensures
            engine::log_view(r@) == engine::selection_log(self.cells_spec()),
            engine::log_wf(engine::log_view(r@), self.cells_spec().len() as int),
            r@.len() >= 1,
            r@[0]@ == engine::initial_step(self.cells_spec()),
            engine::is_sorted(r@[r@.len() - 1]@.snapshot),
            r@[r@.len() - 1]@.snapshot.to_multiset() == self.cells_spec().to_multiset(),
    {
        proof {
            use_type_invariant(self);
        }
        engine::selection_sort_steps(&self.cells)
    }

    /// Step-recording bubble sort of the grid's cells, on a private copy.
    /// On already-sorted cells the log is exactly the initial step.
    pub fn bubble_sort(&self) -> (r: Vec<Step>)
        ensures
            engine::log_view(r@) == engine::bubble_log(self.cells_spec()),
            engine::log_wf(engine::log_view(r@), self.cells_spec().len() as int),
            r@.len() >= 1,
            r@[0]@ == engine::initial_step(self.cells_spec()),
            engine::is_sorted(r@[r@.len() - 1]@.snapshot),
            r@[r@.len() - 1]@.snapshot.to_multiset() == self.cells_spec().to_multiset(),
            engine::is_sorted(self.cells_spec()) ==> r@.len() == 1,
    {
        proof {
            use_type_invariant(self);
        }
        engine::bubble_sort_steps(&self.cells)
    }
}

} // verus!
