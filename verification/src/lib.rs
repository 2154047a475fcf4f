//! A sample-accurate signal-processing graph for driving a synthesizer.
//!
//! The crate holds a directed acyclic graph of numeric operators that is
//! re-evaluated once per output sample. Samples are stereo pairs of IEEE-754
//! bit patterns (`sample`), operators form a closed catalogue (`node`), the
//! mutable graph with its incremental evaluation cache lives in `control`,
//! reusable named subgraphs in `container`, and the persisted binary form in
//! `codec`.

pub mod codec;
pub mod container;
pub mod control;
pub mod fp;
pub mod laws;
pub mod model;
pub mod node;
pub mod presets;
pub mod sample;
pub mod text;

pub use sample::Sample;
