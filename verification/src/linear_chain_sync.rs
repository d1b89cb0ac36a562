//! What the linear chain synchronisers share: their errors, and what the
//! reactor that runs one must be able to carry.
use vstd::prelude::*;

use crate::hash::Blake2bHash;
use crate::linear_chain_fast_sync::{BlockHash, Effect};

verus! {

/// Why a synchroniser could not go on.
#[derive(Debug)]
pub enum LinearChainSyncError {
    /// The execution engine failed; its description.
    ExecutionEngineError(String),
    /// No peer had the trie under this key.
    RanOutOfFetchTrieRetries { trie_key: Blake2bHash },
    /// No peer had the block with this hash.
    RanOutOfHeaderByHashFetchRetries { block_hash: BlockHash },
    /// No peer had the block at this height.
    RanOutOfHeaderByHeightFetchRetries { height: u64 },
}

/// An event of a reactor that runs a synchroniser: it carries the
/// synchroniser's requests to the components that serve them.
pub trait ReactorEventT<I>: From<Effect<I>> + Send {

}

impl<I, REv: From<Effect<I>> + Send> ReactorEventT<I> for REv {

}

} // verus!
