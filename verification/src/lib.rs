//! Distance-scoring engine for a taint-guided, target-directed fuzzer.
//!
//! The crate maintains a dynamically growing control-flow graph of
//! instrumented branch points and, for every branch point, an integer
//! estimate of how close it is to one of a set of target locations.
//! Edge weights cache the destination's score and are repaired by a
//! backward walk whenever an edge is added or a target is solved.

pub mod graph;
pub mod score;
pub mod cfg;
pub mod laws;

pub use cfg::CallSiteId;
pub use cfg::CmpId;
pub use cfg::ControlFlowGraph;
pub use cfg::Edge;
pub use cfg::FixedBytes;
pub use cfg::Score;
pub use cfg::TagSeg;
