//! Flatted: circular JSON.
//!
//! A value graph, whose arrays and objects may be shared or refer back to
//! themselves, is written as a flat JSON array: entry `0` is the root, and
//! every string, array and object is stored once, referred to elsewhere by the
//! decimal text of its entry's position. Reading such an array back gives a
//! graph with the same sharing and the same cycles.
//!
//! - `graph`: values and the graph of arrays and objects they point into.
//! - `flatten`: writing a graph as a flatted array or text (`stringify`).
//! - `unflatten`: reading a flatted array back into a graph (`parse`).
//! - `tree`: plain JSON trees to graphs and back.
//! - `document`: whole documents as text, flattened and unflattened.
//! - `json`, `indent`, `text`, `object`: JSON values and their text, indentation,
//!   index text, and object maps.
//! - `laws`: what holds across these operations.
pub mod text;
pub mod error;
pub mod json;
pub mod object;
pub mod graph;
pub mod flatten;
pub mod unflatten;
pub mod indent;
pub mod tree;
pub mod document;
pub mod laws;
