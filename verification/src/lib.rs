//! Core of a sorting visualizer: a small, totally ordered domain of musical
//! notes, and a step-recording sort engine that runs a classic in-place sort
//! (insertion, selection or bubble) on a private copy of a note sequence and
//! records, after every swap, a full snapshot of the sequence together with
//! the two indices that were exchanged. The returned step log lets a renderer
//! replay the whole sort one step at a time.

pub mod engine;
pub mod grid;
pub mod note;

pub use engine::Step;
pub use grid::Grid;
pub use note::Note;
