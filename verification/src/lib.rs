//! A small dataflow runtime: typed, named attributes are wired between
//! components that sit as nodes in a directed graph, and the graph runs them
//! in dependency order until no node can make further progress.
//!
//! - [`components`] holds the values, the components, the graph, the model
//!   that says what running a graph means, and the proofs about that model.
//! - [`types`] holds the records that components read.
//! - [`clients`] and [`database`] hold what is decided before the program
//!   talks to the bridge or to the database: addresses, headers, the names
//!   and the meaning of settings.
//! - [`text`] compares strings by their characters.

pub mod clients;
pub mod components;
pub mod database;
pub mod text;
pub mod types;
