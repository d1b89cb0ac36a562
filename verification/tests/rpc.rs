use std::collections::VecDeque;

use casper_state::balance::{BalanceRequest, BalanceResult, URef, U512};
use casper_state::bytesrepr::{Error, ToBytes};
use casper_state::hash::Blake2bHash;
use casper_state::hex::HexError;
use casper_state::json_compatibility;
use casper_state::merkle_proof::{TrieMerkleProof, TrieMerkleProofStep};
use casper_state::operations::{read_with_proof, ReadResult, WriteResult};
use casper_state::rpc::{
    to_hex_repr, validate_query_proofs, ErrorCode, GetAuctionInfo, GetBalance, GetItem,
    ProofCheckError, QueryResult, RpcAnswer, RpcCall, RPC_API_PATH, STATE_GET_AUCTION_INFO,
    STATE_GET_BALANCE, STATE_GET_ITEM,
};
use casper_state::store::InMemoryTrieStore;
use casper_state::trie::Trie;

/// A trie with two entries, the proof of the first, and the root hash.
fn proof_fixture() -> (TrieMerkleProof<u32, u32>, Blake2bHash) {
    let mut store = InMemoryTrieStore::new();
    let root: Trie<u32, u32> = Trie::node(&[]);
    let mut root_hash = root.merkle_hash().unwrap();
    store.put(&root_hash, &root).unwrap();
    for (k, v) in [(1u32, 10u32), (0x0201, 20)] {
        match casper_state::operations::write::<u32, u32>(&mut store, &root_hash, k, v).unwrap() {
            WriteResult::Written(h) => root_hash = h,
            other => panic!("unexpected {:?}", other),
        }
    }
    match read_with_proof::<u32, u32>(&store, &root_hash, &1).unwrap() {
        ReadResult::Found(p) => (p, root_hash),
        other => panic!("unexpected {:?}", other),
    }
}

#[test]
fn valid_proofs_are_accepted() {
    let (proof, root) = proof_fixture();
    let text = to_hex_repr(&vec![proof]).unwrap();
    assert_eq!(validate_query_proofs::<u32, u32>(&root, text.as_bytes()), Ok(()));
}

#[test]
fn proofs_for_another_root_are_refused() {
    let (proof, _root) = proof_fixture();
    let text = to_hex_repr(&vec![proof]).unwrap();
    let other = Blake2bHash([5; 32]);
    assert_eq!(
        validate_query_proofs::<u32, u32>(&other, text.as_bytes()),
        Err(ProofCheckError::ValidationFailed)
    );
}

#[test]
fn proof_text_must_be_hex() {
    let root = Blake2bHash([0; 32]);
    assert_eq!(
        validate_query_proofs::<u32, u32>(&root, b"abc"),
        Err(ProofCheckError::Decode(HexError::OddLength))
    );
    assert_eq!(
        validate_query_proofs::<u32, u32>(&root, b"0g"),
        Err(ProofCheckError::Decode(HexError::InvalidHexCharacter { c: 'g', index: 1 }))
    );
}

#[test]
fn proof_bytes_must_be_a_list_of_proofs() {
    let root = Blake2bHash([0; 32]);
    assert_eq!(
        validate_query_proofs::<u32, u32>(&root, b"00"),
        Err(ProofCheckError::Deserialize(Error::EarlyEndOfStream))
    );
    // An empty list proves nothing wrong.
    assert_eq!(validate_query_proofs::<u32, u32>(&root, b"00000000"), Ok(()));
}

#[test]
fn hex_repr_is_lower_case_hex_of_bytes() {
    let v: Vec<u8> = vec![0xde, 0xad];
    assert_eq!(to_hex_repr(&v).unwrap(), "02000000dead");
}

#[test]
fn error_codes() {
    assert_eq!(ErrorCode::NoSuchDeploy.code(), -32000);
    assert_eq!(ErrorCode::NoSuchBlock.code(), -32001);
    assert_eq!(ErrorCode::ParseQueryKey.code(), -32002);
    assert_eq!(ErrorCode::QueryFailed.code(), -32003);
    assert_eq!(ErrorCode::QueryFailedToExecute.code(), -32004);
    assert_eq!(ErrorCode::ParseGetBalanceURef.code(), -32005);
    assert_eq!(ErrorCode::GetBalanceFailed.code(), -32006);
    assert_eq!(ErrorCode::GetBalanceFailedToExecute.code(), -32007);
    assert_eq!(ErrorCode::InvalidDeploy.code(), -32008);
}

#[test]
fn rpc_call_keeps_its_settings() {
    let call = RpcCall::new(12, "http://127.0.0.1:7777".to_string(), true);
    assert_eq!(call.get_rpc_id(), 12);
    assert_eq!(call.get_node_address(), "http://127.0.0.1:7777");
    assert!(call.is_verbose());
    assert_eq!(RPC_API_PATH, "rpc");
    assert_eq!(STATE_GET_ITEM, "state_get_item");
    assert_eq!(STATE_GET_BALANCE, "state_get_balance");
    assert_eq!(STATE_GET_AUCTION_INFO, "state_get_auction_info");
}

#[test]
fn get_item_answers() {
    let (proof, root) = proof_fixture();
    let expected = to_hex_repr(&vec![proof.clone()]).unwrap();
    let answer = GetItem::answer_query::<u32, u32>(
        "1.0.0".to_string(),
        Ok(QueryResult::Success { value: 10, proofs: vec![proof] }),
    );
    match answer {
        RpcAnswer::Success(res) => {
            assert_eq!(res.api_version, "1.0.0");
            assert_eq!(res.stored_value, 10);
            assert_eq!(res.merkle_proof, expected);
            assert_eq!(validate_query_proofs::<u32, u32>(&root, res.merkle_proof.as_bytes()), Ok(()));
        }
        other => panic!("unexpected {:?}", other),
    }
    assert!(matches!(
        GetItem::answer_query::<u32, u32>("1.0.0".to_string(), Ok(QueryResult::RootNotFound)),
        RpcAnswer::Failed(ErrorCode::QueryFailed)
    ));
    assert!(matches!(
        GetItem::answer_query::<u32, u32>(
            "1.0.0".to_string(),
            Ok(QueryResult::ValueNotFound("no value".to_string()))
        ),
        RpcAnswer::Failed(ErrorCode::QueryFailed)
    ));
    assert!(matches!(
        GetItem::answer_query::<u32, u32>(
            "1.0.0".to_string(),
            Ok(QueryResult::CircularReference("loop".to_string()))
        ),
        RpcAnswer::Failed(ErrorCode::QueryFailed)
    ));
    assert!(matches!(
        GetItem::answer_query::<u32, u32>("1.0.0".to_string(), Err("engine down".to_string())),
        RpcAnswer::Failed(ErrorCode::QueryFailedToExecute)
    ));
    assert!(matches!(GetItem::answer_unparsed_key::<u32>(), RpcAnswer::Failed(ErrorCode::ParseQueryKey)));
}

#[test]
fn get_balance_answers() {
    let (proof, _root) = proof_fixture();
    let expected = to_hex_repr(&(proof.clone(), proof.clone())).unwrap();
    let motes = U512([5, 0, 0, 0, 0, 0, 0, 0]);
    let answer = GetBalance::answer_balance::<u32, u32>(
        "1.0.0".to_string(),
        Ok(BalanceResult::Success {
            motes,
            main_purse_proof: Box::new(proof.clone()),
            balance_proof: Box::new(proof),
        }),
    );
    match answer {
        RpcAnswer::Success(res) => {
            assert_eq!(res.balance_value.0, [5, 0, 0, 0, 0, 0, 0, 0]);
            assert_eq!(res.merkle_proof, expected);
        }
        other => panic!("unexpected {:?}", other),
    }
    assert!(matches!(
        GetBalance::answer_balance::<u32, u32>("1.0.0".to_string(), Ok(BalanceResult::RootNotFound)),
        RpcAnswer::Failed(ErrorCode::GetBalanceFailed)
    ));
    assert!(matches!(
        GetBalance::answer_balance::<u32, u32>("1.0.0".to_string(), Err("down".to_string())),
        RpcAnswer::Failed(ErrorCode::GetBalanceFailedToExecute)
    ));
    assert!(matches!(GetBalance::answer_unparsed_purse(), RpcAnswer::Failed(ErrorCode::ParseGetBalanceURef)));
}

#[test]
fn get_auction_info_answers() {
    assert!(matches!(GetAuctionInfo::answer_last_block(None), RpcAnswer::Failed(ErrorCode::NoSuchBlock)));
    assert_eq!(GetAuctionInfo::bids_of::<u32, u32>(Ok(QueryResult::Success { value: 3, proofs: vec![] })), Some(3));
    assert_eq!(GetAuctionInfo::bids_of::<u32, u32>(Ok(QueryResult::RootNotFound)), None);
    assert_eq!(GetAuctionInfo::bids_of::<u32, u32>(Err("x".to_string())), None);
    assert_eq!(GetAuctionInfo::era_validators_of::<u8>(Ok(Some(4))), Some(4));
    assert_eq!(GetAuctionInfo::era_validators_of::<u8>(Ok(None)), None);
    assert_eq!(GetAuctionInfo::era_validators_of::<u8>(Err("x".to_string())), None);
}

#[test]
fn balance_request_keeps_its_fields() {
    let uref = URef { addr: [7; 32], access_rights: 7 };
    let req = BalanceRequest::new(Blake2bHash([1; 32]), uref);
    assert_eq!(req.state_hash(), Blake2bHash([1; 32]));
    assert_eq!(req.purse_uref().addr, [7; 32]);
    assert_eq!(req.purse_uref().access_rights, 7);
}

#[test]
fn json_proof_shows_steps_as_hex() {
    let mut steps = VecDeque::new();
    steps.push_back(TrieMerkleProofStep::extension(vec![1]));
    let proof: TrieMerkleProof<u32, u32> = TrieMerkleProof::new(1, 2, steps.clone());
    let json = json_compatibility::TrieMerkleProof::try_from("hash-01".to_string(), "value", &proof).unwrap();
    assert_eq!(json.key(), "hash-01");
    assert_eq!(*json.value(), "value");
    assert_eq!(*json.proof_steps(), to_hex_repr(&steps).unwrap());
    assert_eq!(*json.proof_steps(), "01000000010100000001");
    assert_eq!(steps.to_bytes().unwrap(), vec![1, 0, 0, 0, 1, 1, 0, 0, 0, 1]);
}

#[test]
fn auction_info_answer_holds_what_was_read() {
    let root = casper_state::hash::Blake2bHash([3; 32]);
    let r = casper_state::rpc::GetAuctionInfo::answer_auction_info::<u32, u64>(
        "1.0.0".to_string(),
        root,
        7,
        Some(11),
        None,
    );
    assert_eq!(r.api_version, "1.0.0");
    assert_eq!(r.auction_state.state_root_hash, root);
    assert_eq!(r.auction_state.block_height, 7);
    assert_eq!(r.auction_state.bids, Some(11));
    assert_eq!(r.auction_state.era_validators, None);
}
