//! Graph structure, graph generators, error reporting and MIDI text output for
//! wave propagation on graphs.

pub mod error;
pub mod experiments;
pub mod graph;
pub mod midi;
pub mod text;

pub use error::{WaveError, WaveResult};
