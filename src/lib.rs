//! Per-key minimum, mean and maximum over a line-oriented `<key>;<value>` byte stream.
//!
//! The source is cut into line-aligned chunks (`plan`), each chunk is parsed (`record`) and
//! summarised into a local mapping of its own (`chunk`, `mapping`, `stats`), and the local
//! mappings are merged into the final one (`engine`), which `render` writes out. Values are
//! held as integers in tenths, so sums are exact and the result does not depend on how the
//! source was cut.
use vstd::prelude::*;

pub mod chunk;
pub mod config;
pub mod engine;
pub mod mapping;
pub mod plan;
pub mod record;
pub mod render;
pub mod stats;

verus! {

} // verus!
