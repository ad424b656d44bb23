//! The shared handle to the block producer that the node's services hold.

use std::sync::Arc;
use vstd::prelude::*;

verus! {

/// A block producer behind a shared, reference-counted handle.
pub struct BlockProducerAdapter<P> {
    pub block_producer: Arc<P>,
}

impl<P> BlockProducerAdapter<P> {
    /// Puts `block_producer` behind a fresh shared handle.
    pub fn new(block_producer: P) -> (r: Self)
        ensures
            *r.block_producer == block_producer,
    {
        BlockProducerAdapter { block_producer: Arc::new(block_producer) }
    }
}

} // verus!
