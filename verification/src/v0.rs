//! Version 0 of the coverage container format.
use vstd::prelude::*;

pub mod block;
pub mod bytes;
pub mod module;
pub mod edge;
pub mod chunks;
pub mod error;
pub mod header;
pub mod lzma;
pub mod snapshot;

pub use error::Error;
pub use snapshot::Alcov;
pub use header::{AlcovFlags, AlcovHeader, AlcovHeaderMetadata};
pub use module::{AlcovModule, AlcovSegment};
pub use block::{AlcovBlock, AlcovBlockMetadata};
pub use edge::{
    AlcovBlockEdges, AlcovBlockEdgesMetadata, AlcovDstBlockEdge, AlcovDstBlockEdgeMetadata,
    AlcovEdges,
};

verus! {

} // verus!
