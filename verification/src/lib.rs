//! Approximate nearest neighbour search over a hierarchical navigable small world
//! graph, with byte codes and product quantization for the traversal, and a builder
//! that runs on many threads.
//!
//! The element type and its arithmetic are parameters: a caller hands in functions
//! that measure, scale, average and sample, and the contracts say exactly what is
//! made of their results. A distance is a `u32` key whose order is the order of the
//! distances.

pub mod answers;
pub mod arrival;
pub mod beam;
pub mod cand;
pub mod dist;
pub mod exact;
pub mod graph;
pub mod growth;
pub mod guard;
pub mod history;
pub mod hnsw;
pub mod index;
pub mod insertion;
pub mod kmeans;
pub mod learning;
pub mod level;
pub mod links;
pub mod metric;
pub mod par;
pub mod pq;
pub mod q8;
pub mod replay;
pub mod rising;
pub mod seeding;
pub mod select;
pub mod settle;
pub mod solo;
pub mod stages;
pub mod stats;
pub mod store;
pub mod synth;
pub mod trace;
pub mod training;
pub mod truth;
pub mod visited;
mod walk;
pub mod web;
pub mod wiring;
