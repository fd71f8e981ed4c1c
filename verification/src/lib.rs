//! Compiling a Gleam project: naming its modules, ordering them by their
//! imports and laying out what is generated for each.

pub mod compile_laws;
pub mod error;
pub mod graph;
pub mod laws;
pub mod layout_laws;
pub mod model;
pub mod path;
pub mod path_laws;
pub mod project;
pub mod registry;
pub mod source;
pub mod source_laws;
pub mod text;
