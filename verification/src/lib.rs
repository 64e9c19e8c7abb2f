//! A verified core for a node-graph shader compositor: declarative node
//! configurations are turned into a dependency graph of render passes, and a
//! per-frame walk of that graph emits an ordered list of draw commands,
//! dependencies first and every pass at most once per frame.
//!
//! The windowing system, signal delivery, image decoding and the GPU binding
//! itself are host concerns: the core takes plain values (node entries, frame
//! time, pointer state, surface size) and hands back plain values (a graph, a
//! draw plan, structured errors).

pub mod builder;
pub mod error;
pub mod exec;
pub mod graph;
pub mod nodes;
pub mod params;
pub mod uniforms;
