//! The pointer-linked variant of the benchmark. Its ring is linked by node index, like
//! the other variants, so it shares their node type.
pub use crate::pointer_chasing::PaddedNode;
