//! A generator for a Markdown index of a project directory: the order of its
//! sections, the text of each section and the bookkeeping that an update of
//! an existing index needs.
pub mod config;
pub mod label_map;
pub mod laws;
pub mod paths;
pub mod text;
pub mod update;
pub mod utils;
