//! Core logic of a 2D drafting editor: the drawing tools, an R-tree spatial
//! index over axis-aligned boxes, and the editing model (history, selection,
//! undo, array copies) that sits on top of it.

pub mod tool;
pub mod geometry;
pub mod spatial;
pub mod engine;
pub mod canvas;
