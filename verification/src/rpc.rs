//! The JSON-RPC calls a client makes to a node and the state RPCs a node
//! answers: their parameters, their error codes, and the checks and
//! encodings of the Merkle proofs they carry.
use vstd::prelude::*;

use crate::bytesrepr::{deserialize, spec_deserialize, Error, FromBytes, ToBytes};
use crate::hash::Blake2bHash;
use crate::hex::{
    ascii_bytes, hex_decode, hex_decode_of_encode, hex_encode, spec_hex_decode, spec_hex_encode,
    HexError,
};
use crate::balance::{BalanceResult, U512};
use crate::linear_chain_fast_sync::Block;
use crate::merkle_proof::{spec_compute_state_hash, ProofModel, TrieMerkleProof};

verus! {

/// A hash that names a state root, a block or a deploy.
pub type Digest = Blake2bHash;

/// The path under a node's HTTP address where its JSON-RPC server listens.
pub const RPC_API_PATH: &'static str = "rpc";

/// A single JSON-RPC call to a node.
#[derive(Debug, Default)]
pub struct RpcCall {
    rpc_id: u32,
    node_address: String,
    verbose: bool,
}

impl RpcCall {
    /// A call with JSON-RPC id `rpc_id` to the node whose HTTP server is at
    /// `node_address` (such as `"http://127.0.0.1:7777"`); a verbose call
    /// prints the request.
    pub fn new(rpc_id: u32, node_address: String, verbose: bool) -> (c: Self)
        ensures
            c.rpc_id() == rpc_id,
            c.node_address()@ == node_address@,
            c.verbose() == verbose,
    {
        RpcCall { rpc_id, node_address, verbose }
    }

    /// The JSON-RPC id of the call.
    pub closed spec fn rpc_id(&self) -> u32 {
        self.rpc_id
    }

    /// The address of the node.
    pub closed spec fn node_address(&self) -> String {
        self.node_address
    }

    /// Whether the call prints what it does.
    pub closed spec fn verbose(&self) -> bool {
        self.verbose
    }

    /// The JSON-RPC id of the call.
    pub fn get_rpc_id(&self) -> (r: u32)
        ensures
            r == self.rpc_id(),
    {
        self.rpc_id
    }

    /// The address of the node.
    pub fn get_node_address(&self) -> (r: &String)
        ensures
            r@ == self.node_address()@,
    {
        &self.node_address
    }

    /// Whether the call prints what it does.
    pub fn is_verbose(&self) -> (r: bool)
        ensures
            r == self.verbose(),
    {
        self.verbose
    }
}

/// Params for the "state_get_item" RPC request.
#[derive(Debug)]
pub struct GetItemParams {
    /// Hash of the state root.
    pub state_root_hash: Digest,
    /// The key, as formatted text.
    pub key: String,
    /// The path components starting from the key as base.
    pub path: Vec<String>,
}

/// The "state_get_item" RPC.
pub struct GetItem {}

/// The method name of [`GetItem`].
pub const STATE_GET_ITEM: &'static str = "state_get_item";

/// Params for the "state_get_balance" RPC request.
#[derive(Debug)]
pub struct GetBalanceParams {
    /// The hash of state root.
    pub state_root_hash: Digest,
    /// The purse, as a formatted URef.
    pub purse_uref: String,
}

/// The "state_get_balance" RPC.
pub struct GetBalance {}

/// The method name of [`GetBalance`].
pub const STATE_GET_BALANCE: &'static str = "state_get_balance";

/// Params for the "state_get_auction_info" RPC request.
#[derive(Debug, PartialEq, Eq)]
pub struct GetAuctionInfoParams {}

/// The "state_get_auction_info" RPC.
pub struct GetAuctionInfo {}

/// The method name of [`GetAuctionInfo`].
pub const STATE_GET_AUCTION_INFO: &'static str = "state_get_auction_info";

/// The errors a node's RPC server reports, beside the standard JSON-RPC ones.
#[derive(Debug, Clone, Copy, PartialEq, Eq)]
pub enum ErrorCode {
    NoSuchDeploy,
    NoSuchBlock,
    ParseQueryKey,
    QueryFailed,
    QueryFailedToExecute,
    ParseGetBalanceURef,
    GetBalanceFailed,
    GetBalanceFailedToExecute,
    InvalidDeploy,
}

/// The JSON-RPC code of each error.
pub open spec fn spec_error_code(e: ErrorCode) -> int {
    match e {
        ErrorCode::NoSuchDeploy => -32000,
        ErrorCode::NoSuchBlock => -32001,
        ErrorCode::ParseQueryKey => -32002,
        ErrorCode::QueryFailed => -32003,
        ErrorCode::QueryFailedToExecute => -32004,
        ErrorCode::ParseGetBalanceURef => -32005,
        ErrorCode::GetBalanceFailed => -32006,
        ErrorCode::GetBalanceFailedToExecute => -32007,
        ErrorCode::InvalidDeploy => -32008,
    }
}

impl ErrorCode {
    /// The JSON-RPC code of the error.
    pub fn code(&self) -> (c: i64)
        ensures
            c == spec_error_code(*self),
    {
        match self {
            ErrorCode::NoSuchDeploy => -32000,
            ErrorCode::NoSuchBlock => -32001,
            ErrorCode::ParseQueryKey => -32002,
            ErrorCode::QueryFailed => -32003,
            ErrorCode::QueryFailedToExecute => -32004,
            ErrorCode::ParseGetBalanceURef => -32005,
            ErrorCode::GetBalanceFailed => -32006,
            ErrorCode::GetBalanceFailedToExecute => -32007,
            ErrorCode::InvalidDeploy => -32008,
        }
    }
}

/// Why the proofs in a "state_get_item" response were refused.
#[derive(Debug, Clone, Copy, PartialEq, Eq)]
pub enum ProofCheckError {
    /// The proof text is not hexadecimal.
    Decode(HexError),
    /// The proof bytes are not a list of proofs.
    Deserialize(Error),
    /// A proof's root hash could not be computed.
    Compute(Error),
    /// A proof leads to another root hash than the one queried.
    ValidationFailed,
}

/// Checks the first `n` proofs in order; the first that cannot be computed or
/// leads elsewhere decides.
pub open spec fn check_proofs<K: FromBytes, V: FromBytes>(
    proofs: Seq<ProofModel<K::V, V::V>>,
    root: Seq<u8>,
    n: nat,
) -> Result<(), ProofCheckError>
    decreases n,
{
    if n == 0 {
        Ok(())
    } else {
        match check_proofs::<K, V>(proofs, root, (n - 1) as nat) {
            Err(e) => Err(e),
            Ok(()) => match spec_compute_state_hash::<K, V>(proofs[n - 1]) {
                Err(e) => Err(ProofCheckError::Compute(e)),
                Ok(h) => if h == root {
                    Ok(())
                } else {
                    Err(ProofCheckError::ValidationFailed)
                },
            },
        }
    }
}

/// The verdict on the hexadecimal proof text of a "state_get_item" response.
pub open spec fn spec_validate_query_proofs<K: FromBytes, V: FromBytes>(
    state_root_hash: Seq<u8>,
    proof_hex: Seq<u8>,
) -> Result<(), ProofCheckError> {
    match spec_hex_decode(proof_hex) {
        Err(e) => Err(ProofCheckError::Decode(e)),
        Ok(bytes) => match spec_deserialize::<Vec<TrieMerkleProof<K, V>>>(bytes) {
            Err(e) => Err(ProofCheckError::Deserialize(e)),
            Ok(proofs) => check_proofs::<K, V>(proofs, state_root_hash, proofs.len()),
        },
    }
}

/// Checks the proofs that a node sent with a queried item: the proof text
/// must be hexadecimal, its bytes a list of proofs, and every proof must lead
/// to the state root hash that was queried.
pub fn validate_query_proofs<K: FromBytes, V: FromBytes>(
    state_root_hash: &Digest,
    proof_hex: &[u8],
) -> (r: Result<(), ProofCheckError>)
    ensures
        r == spec_validate_query_proofs::<K, V>(state_root_hash@, proof_hex@),
{
    let proof_bytes = match hex_decode(proof_hex) {
        Ok(b) => b,
        Err(e) => return Err(ProofCheckError::Decode(e)),
    };
    let proofs: Vec<TrieMerkleProof<K, V>> = match deserialize(proof_bytes.as_slice()) {
        Ok(p) => p,
        Err(e) => return Err(ProofCheckError::Deserialize(e)),
    };
    let ghost models = proofs.deep_view();
    let mut i: usize = 0;
    while i < proofs.len()
        invariant
            0 <= i <= proofs@.len(),
            models == proofs.deep_view(),
            spec_hex_decode(proof_hex@) == Ok::<Seq<u8>, HexError>(proof_bytes@),
            spec_deserialize::<Vec<TrieMerkleProof<K, V>>>(proof_bytes@) == Ok::<
                Seq<ProofModel<K::V, V::V>>,
                Error,
            >(models),
            check_proofs::<K, V>(models, state_root_hash@, i as nat) == Ok::<(), ProofCheckError>(()),
        decreases proofs@.len() - i,
    {
        assert(models[i as int] == proofs@[i as int].deep_view());
        match proofs[i].compute_state_hash() {
            Err(e) => {
                proof {
                    lemma_check_proofs_err::<K, V>(
                        models,
                        state_root_hash@,
                        (i + 1) as nat,
                        models.len(),
                        ProofCheckError::Compute(e),
                    );
                }
                return Err(ProofCheckError::Compute(e));
            },
            Ok(h) => {
                if !h.same_as(state_root_hash) {
                    proof {
                        lemma_check_proofs_err::<K, V>(
                            models,
                            state_root_hash@,
                            (i + 1) as nat,
                            models.len(),
                            ProofCheckError::ValidationFailed,
                        );
                    }
                    return Err(ProofCheckError::ValidationFailed);
                }
            },
        }
        i = i + 1;
    }
    Ok(())
}

proof fn lemma_check_proofs_err<K: FromBytes, V: FromBytes>(
    proofs: Seq<ProofModel<K::V, V::V>>,
    root: Seq<u8>,
    n1: nat,
    n2: nat,
    e: ProofCheckError,
)
    requires
        n1 <= n2,
        check_proofs::<K, V>(proofs, root, n1) == Err::<(), ProofCheckError>(e),
    ensures
        check_proofs::<K, V>(proofs, root, n2) == Err::<(), ProofCheckError>(e),
    decreases n2,
{
    if n1 < n2 {
        lemma_check_proofs_err::<K, V>(proofs, root, n1, (n2 - 1) as nat, e);
    }
}

proof fn lemma_check_proofs_ok<K: FromBytes, V: FromBytes>(
    proofs: Seq<ProofModel<K::V, V::V>>,
    root: Seq<u8>,
    n: nat,
)
    requires
        n <= proofs.len(),
        forall|i: int|
            0 <= i < proofs.len() ==> spec_compute_state_hash::<K, V>(#[trigger] proofs[i]) == Ok::<
                Seq<u8>,
                Error,
            >(root),
    ensures
        check_proofs::<K, V>(proofs, root, n) == Ok::<(), ProofCheckError>(()),
    decreases n,
{
    if n > 0 {
        lemma_check_proofs_ok::<K, V>(proofs, root, (n - 1) as nat);
        assert(spec_compute_state_hash::<K, V>(proofs[n - 1]) == Ok::<Seq<u8>, Error>(root));
    }
}

/// Law: a list of proofs that all lead to `root`, sent as the hexadecimal
/// text of its representation (as a node puts it in a response), passes a
/// client's check against `root`.
pub proof fn proofs_to_root_pass_client_check<K: FromBytes, V: FromBytes>(
    proofs: Seq<ProofModel<K::V, V::V>>,
    root: Seq<u8>,
)
    requires
        Vec::<TrieMerkleProof<K, V>>::spec_valid(proofs),
        Vec::<TrieMerkleProof<K, V>>::spec_bytes(proofs).len() <= crate::bytesrepr::max_repr_len(),
        forall|i: int|
            0 <= i < proofs.len() ==> spec_compute_state_hash::<K, V>(#[trigger] proofs[i]) == Ok::<
                Seq<u8>,
                Error,
            >(root),
    ensures
        spec_validate_query_proofs::<K, V>(
            root,
            ascii_bytes(spec_hex_encode(Vec::<TrieMerkleProof<K, V>>::spec_bytes(proofs))),
        ) == Ok::<(), ProofCheckError>(()),
{
    let bytes = Vec::<TrieMerkleProof<K, V>>::spec_bytes(proofs);
    hex_decode_of_encode(bytes);
    Vec::<TrieMerkleProof<K, V>>::lemma_roundtrip(proofs, Seq::empty());
    assert(bytes + Seq::<u8>::empty() =~= bytes);
    lemma_check_proofs_ok::<K, V>(proofs, root, proofs.len());
}

/// Where the first `n` proofs pass, each of them leads to `root`.
proof fn lemma_check_proofs_passed<K: FromBytes, V: FromBytes>(
    proofs: Seq<ProofModel<K::V, V::V>>,
    root: Seq<u8>,
    n: nat,
)
    requires
        check_proofs::<K, V>(proofs, root, n) == Ok::<(), ProofCheckError>(()),
    ensures
        forall|i: int|
            0 <= i < n ==> spec_compute_state_hash::<K, V>(#[trigger] proofs[i]) == Ok::<
                Seq<u8>,
                Error,
            >(root),
    decreases n,
{
    if n > 0 {
        lemma_check_proofs_passed::<K, V>(proofs, root, (n - 1) as nat);
    }
}

/// Law: a client's check passes only where the proof text is hexadecimal,
/// its bytes are a list of proofs, and every proof in the list leads to the
/// queried state root hash.
pub proof fn client_check_passes_only_proofs_to_root<K: FromBytes, V: FromBytes>(
    root: Seq<u8>,
    proof_hex: Seq<u8>,
)
    requires
        spec_validate_query_proofs::<K, V>(root, proof_hex) == Ok::<(), ProofCheckError>(()),
    ensures
        (spec_hex_decode(proof_hex) matches Ok(bytes) && spec_deserialize::<
            Vec<TrieMerkleProof<K, V>>,
        >(bytes) matches Ok(proofs) && forall|i: int|
            0 <= i < proofs.len() ==> spec_compute_state_hash::<K, V>(#[trigger] proofs[i]) == Ok::<
                Seq<u8>,
                Error,
            >(root)),
{
    let bytes = spec_hex_decode(proof_hex)->Ok_0;
    let proofs = spec_deserialize::<Vec<TrieMerkleProof<K, V>>>(bytes)->Ok_0;
    lemma_check_proofs_passed::<K, V>(proofs, root, proofs.len());
}

/// The hexadecimal text of the representation of `value`, as a node puts
/// proofs in its responses; an error if the representation is longer than
/// `u32::MAX` bytes.
pub fn to_hex_repr<T: ToBytes>(value: &T) -> (r: Result<String, Error>)
    ensures
        r is Ok <==> T::spec_bytes(value.deep_view()).len() <= crate::bytesrepr::max_repr_len(),
        r matches Ok(s) ==> s@ == spec_hex_encode(T::spec_bytes(value.deep_view())),
        r matches Err(e) ==> e == Error::OutOfMemory,
{
    match value.to_bytes() {
        Ok(bytes) => Ok(hex_encode(bytes.as_slice())),
        Err(e) => Err(e),
    }
}

/// What a node answers to an RPC: a result, an error of its own with its
/// code (the message describes the failure), or the standard internal error.
#[derive(Debug)]
pub enum RpcAnswer<T> {
    Success(T),
    Failed(ErrorCode),
    InternalError,
}

/// What a query of global state gave.
#[derive(Debug)]
pub enum QueryResult<K, V> {
    /// No state is stored under the root hash.
    RootNotFound,
    /// No value is stored under the key and path; the reason.
    ValueNotFound(String),
    /// The path leads back to where it passed before; where.
    CircularReference(String),
    /// The value found, with the proofs from it up to the state root.
    Success { value: V, proofs: Vec<TrieMerkleProof<K, V>> },
}

/// Result for the "state_get_item" RPC response.
#[derive(Debug)]
pub struct GetItemResult<V> {
    /// The RPC API version.
    pub api_version: String,
    /// The stored value.
    pub stored_value: V,
    /// The merkle proof, as the hexadecimal text of its representation.
    pub merkle_proof: String,
}

impl GetItem {
    /// The answer to a "state_get_item" request whose key could not be parsed.
    pub fn answer_unparsed_key<V>() -> (r: RpcAnswer<GetItemResult<V>>)
        ensures
            r matches RpcAnswer::Failed(c) && c == ErrorCode::ParseQueryKey,
    {
        RpcAnswer::Failed(ErrorCode::ParseQueryKey)
    }

    /// The answer to a "state_get_item" request from what its query gave (or
    /// the error that kept it from running): the value with its proofs as
    /// hexadecimal text, where their representation fits.
    pub fn answer_query<K: FromBytes, V: FromBytes>(
        api_version: String,
        query_result: Result<QueryResult<K, V>, String>,
    ) -> (r: RpcAnswer<GetItemResult<V>>)
        ensures
            match query_result {
                Ok(QueryResult::Success { value, proofs }) => {
                    let bytes = Vec::<TrieMerkleProof<K, V>>::spec_bytes(proofs.deep_view());
                    if bytes.len() <= crate::bytesrepr::max_repr_len() {
                        r matches RpcAnswer::Success(res) && res.api_version@ == api_version@
                            && res.stored_value == value && res.merkle_proof@ == spec_hex_encode(
                            bytes,
                        )
                    } else {
                        r is InternalError
                    }
                },
                Ok(_) => r matches RpcAnswer::Failed(c) && c == ErrorCode::QueryFailed,
                Err(_) => r matches RpcAnswer::Failed(c) && c == ErrorCode::QueryFailedToExecute,
            },
    {
        let (value, proofs) = match query_result {
            Ok(QueryResult::Success { value, proofs }) => (value, proofs),
            Ok(_) => return RpcAnswer::Failed(ErrorCode::QueryFailed),
            Err(_) => return RpcAnswer::Failed(ErrorCode::QueryFailedToExecute),
        };
        let merkle_proof = match to_hex_repr(&proofs) {
            Ok(text) => text,
            Err(_) => return RpcAnswer::InternalError,
        };
        RpcAnswer::Success(GetItemResult { api_version, stored_value: value, merkle_proof })
    }
}

/// Result for the "state_get_balance" RPC response.
#[derive(Debug)]
pub struct GetBalanceResult {
    /// The RPC API version.
    pub api_version: String,
    /// The balance value.
    pub balance_value: U512,
    /// The proofs of the main purse and of its balance, as the hexadecimal
    /// text of the representation of the pair.
    pub merkle_proof: String,
}

impl GetBalance {
    /// The answer to a "state_get_balance" request whose purse could not be parsed.
    pub fn answer_unparsed_purse() -> (r: RpcAnswer<GetBalanceResult>)
        ensures
            r matches RpcAnswer::Failed(c) && c == ErrorCode::ParseGetBalanceURef,
    {
        RpcAnswer::Failed(ErrorCode::ParseGetBalanceURef)
    }

    /// The answer to a "state_get_balance" request from what the balance
    /// query gave (or the error that kept it from running): the motes, with
    /// the two proofs as the hexadecimal text of the pair's representation.
    pub fn answer_balance<K: FromBytes, V: FromBytes>(
        api_version: String,
        balance_result: Result<BalanceResult<K, V>, String>,
    ) -> (r: RpcAnswer<GetBalanceResult>)
        ensures
            match balance_result {
                Ok(BalanceResult::Success { motes, main_purse_proof, balance_proof }) => {
                    let bytes = <(TrieMerkleProof<K, V>, TrieMerkleProof<K, V>)>::spec_bytes(
                        (main_purse_proof.deep_view(), balance_proof.deep_view()),
                    );
                    if bytes.len() <= crate::bytesrepr::max_repr_len() {
                        r matches RpcAnswer::Success(res) && res.api_version@ == api_version@
                            && res.balance_value == motes && res.merkle_proof@ == spec_hex_encode(
                            bytes,
                        )
                    } else {
                        r is InternalError
                    }
                },
                Ok(BalanceResult::RootNotFound) => r matches RpcAnswer::Failed(c) && c
                    == ErrorCode::GetBalanceFailed,
                Err(_) => r matches RpcAnswer::Failed(c) && c == ErrorCode::GetBalanceFailedToExecute,
            },
    {
        let (balance_value, main_purse_proof, balance_proof) = match balance_result {
            Ok(BalanceResult::Success { motes, main_purse_proof, balance_proof }) => (
                motes,
                main_purse_proof,
                balance_proof,
            ),
            Ok(BalanceResult::RootNotFound) => return RpcAnswer::Failed(ErrorCode::GetBalanceFailed),
            Err(_) => return RpcAnswer::Failed(ErrorCode::GetBalanceFailedToExecute),
        };
        let pair = (*main_purse_proof, *balance_proof);
        let merkle_proof = match to_hex_repr(&pair) {
            Ok(text) => text,
            Err(_) => return RpcAnswer::InternalError,
        };
        RpcAnswer::Success(GetBalanceResult { api_version, balance_value, merkle_proof })
    }
}

/// The auction state at a block: its state root hash and height (the era
/// it belongs to), the bids and the era's validators where they were read.
pub struct AuctionState<B, W> {
    pub state_root_hash: Digest,
    pub block_height: u64,
    pub bids: Option<B>,
    pub era_validators: Option<W>,
}

/// The result of a "state_get_auction_info" request.
pub struct GetAuctionInfoResult<B, W> {
    /// The RPC API version.
    pub api_version: String,
    /// The auction state.
    pub auction_state: AuctionState<B, W>,
}

impl GetAuctionInfo {
    /// The answer to a "state_get_auction_info" request, from what was read
    /// at the last added block.
    pub fn answer_auction_info<B, W>(
        api_version: String,
        state_root_hash: Digest,
        era_id: u64,
        bids: Option<B>,
        era_validators: Option<W>,
    ) -> (r: GetAuctionInfoResult<B, W>)
        ensures
            r.api_version@ == api_version@,
            r.auction_state.state_root_hash == state_root_hash,
            r.auction_state.block_height == era_id,
            r.auction_state.bids == bids,
            r.auction_state.era_validators == era_validators,
    {
        GetAuctionInfoResult {
            api_version,
            auction_state: AuctionState { state_root_hash, block_height: era_id, bids, era_validators },
        }
    }

    /// The state root hash and era of the last added block, which the auction
    /// state is read at; `NoSuchBlock` where there is none.
    pub fn answer_last_block(maybe_block: Option<&Block>) -> (r: RpcAnswer<(Digest, u64)>)
        ensures
            match maybe_block {
                Some(b) => r matches RpcAnswer::Success(x) && x.0@ == b@.header.state_root_hash
                    && x.1 == b@.header.era_id,
                None => r matches RpcAnswer::Failed(c) && c == ErrorCode::NoSuchBlock,
            },
    {
        match maybe_block {
            None => RpcAnswer::Failed(ErrorCode::NoSuchBlock),
            Some(block) => RpcAnswer::Success((block.header.state_root_hash, block.header.era_id)),
        }
    }

    /// The bids, where the query of the auction contract's bids succeeded.
    pub fn bids_of<K, V>(query_result: Result<QueryResult<K, V>, String>) -> (r: Option<V>)
        ensures
            match query_result {
                Ok(QueryResult::Success { value, .. }) => r == Some(value),
                _ => r is None,
            },
    {
        match query_result {
            Ok(QueryResult::Success { value, .. }) => Some(value),
            _ => None,
        }
    }

    /// The validators of the era, where the query found them.
    pub fn era_validators_of<W>(era_validators_result: Result<Option<W>, String>) -> (r: Option<W>)
        ensures
            match era_validators_result {
                Ok(Some(w)) => r == Some(w),
                _ => r is None,
            },
    {
        match era_validators_result {
            Ok(Some(w)) => Some(w),
            _ => None,
        }
    }
}

} // verus!
