//! Reconstructs a per-book library from an e-reader's clippings export.
//!
//! `clipping` recognizes one block of the export as a highlight record, a
//! note record, or neither; `library` folds the blocks, in order, into books
//! whose highlights are kept by location and carry the notes that fall in
//! them; `model` holds the entities; `text` the character scans the
//! recognizer is built from; `block_reading` shows that well-formed blocks
//! are read back with exactly the fields they were written with; `screen`
//! holds the steps of the interactive front end.

pub mod block_reading;
pub mod clipping;
pub mod library;
pub mod model;
pub mod screen;
pub mod text;
