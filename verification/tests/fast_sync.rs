use casper_state::balance::U512;
use casper_state::hash::Blake2bHash;
use casper_state::linear_chain_fast_sync::{
    check_fetched_header, check_fetched_trie, fetch_block_at_height, fetch_block_at_height_outcome,
    fetch_block_by_hash_outcome, fetch_block_deploys, fetch_block_deploys_outcome, Block,
    BlockByHeight, BlockHeader, DeploysResult, Effect, Event, FetchCheck, FetchResult,
    FetchResultOrAbsent, LinearChainFastSync, ValidatorWeight,
};
use casper_state::three_stage_test_reactor::{dispatch_stage, Stage, ThreeStageTestEvent};
use casper_state::trie::Trie;
use rand::rngs::StdRng;
use rand::SeedableRng;

fn header(parent: u8, height: u64, era_id: u64, hash: u8) -> BlockHeader {
    BlockHeader {
        parent_hash: Blake2bHash([parent; 32]),
        state_root_hash: Blake2bHash([0xee; 32]),
        body_hash: Blake2bHash([0xbb; 32]),
        timestamp: 100 + height,
        era_id,
        height,
        next_era_validator_weights: None,
        hash: Blake2bHash([hash; 32]),
    }
}

fn block(parent: u8, height: u64, era_id: u64, hash: u8) -> Block {
    Block { hash: Blake2bHash([hash; 32]), header: header(parent, height, era_id, hash), body_hash: Blake2bHash([0xbb; 32]) }
}

fn weights() -> Vec<ValidatorWeight> {
    vec![ValidatorWeight { public_key: [1; 34], weight: U512([10, 0, 0, 0, 0, 0, 0, 0]) }]
}

#[test]
fn without_trusted_hash_nothing_happens() {
    let mut rng = StdRng::seed_from_u64(1);
    let mut sync: LinearChainFastSync<u64> = LinearChainFastSync::new(None, weights());
    assert!(sync.is_synced());
    let effects = sync.handle_event(&mut rng, Event::NewPeerConnected(1));
    assert!(effects.is_empty());
}

#[test]
fn syncs_up_to_trusted_hash_then_descendants() {
    let mut rng = StdRng::seed_from_u64(2);
    let trusted = Blake2bHash([0x20; 32]);
    let mut sync: LinearChainFastSync<u64> = LinearChainFastSync::new(Some(trusted), weights());
    assert!(!sync.is_synced());

    // The first peer joins the pool, which starts fast sync.
    let effects = sync.handle_event(&mut rng, Event::NewPeerConnected(1));
    assert_eq!(effects.len(), 1);
    assert!(matches!(&effects[0], Effect::JoinPeerPool { peer: 1, trusted_hash } if *trusted_hash == trusted));

    // Fast sync is done: the trusted block is asked for.
    let effects = sync.handle_event(&mut rng, Event::Done);
    assert!(matches!(&effects[..], [Effect::FetchBlockByHash { block_hash, peer: 1 }] if *block_hash == trusted));

    // The trusted block (height 1) arrives; its parent is asked for.
    let trusted_block = block(0x10, 1, 0, 0x20);
    let effects = sync.handle_event(
        &mut rng,
        Event::GetBlockHashResult(trusted, FetchResultOrAbsent::FetchResult(FetchResult::FromPeer(Box::new(trusted_block.copy()), 1))),
    );
    assert!(matches!(&effects[..], [Effect::FetchBlockByHash { block_hash, peer: 1 }] if *block_hash == Blake2bHash([0x10; 32])));

    // The parent is the first block after genesis: deploys are downloaded next.
    let genesis_child = block(0x00, 0, 0, 0x10);
    let effects = sync.handle_event(
        &mut rng,
        Event::GetBlockHashResult(Blake2bHash([0x10; 32]), FetchResultOrAbsent::FetchResult(FetchResult::FromPeer(Box::new(genesis_child.copy()), 1))),
    );
    assert!(matches!(&effects[..], [Effect::StartDownloadingDeploys]));

    // The oldest block's deploys come first.
    let effects = sync.handle_event(&mut rng, Event::StartDownloadingDeploys);
    assert!(matches!(&effects[..], [Effect::ValidateBlock { peer: 1, block, timestamp: 100 }] if block.hash == Blake2bHash([0x10; 32])));

    let effects = sync.handle_event(&mut rng, Event::GetDeploysResult(DeploysResult::Found(Box::new(genesis_child.copy()))));
    assert!(matches!(&effects[..], [Effect::ExecuteBlock(b)] if b.hash == Blake2bHash([0x10; 32])));

    // Executed; the next block's deploys are asked for.
    let effects = sync.handle_event(&mut rng, Event::BlockHandled(Box::new(genesis_child.copy())));
    assert!(matches!(&effects[..], [Effect::ValidateBlock { peer: 1, block, timestamp: 101 }] if block.hash == trusted));

    let effects = sync.handle_event(&mut rng, Event::GetDeploysResult(DeploysResult::Found(Box::new(trusted_block.copy()))));
    assert!(matches!(&effects[..], [Effect::ExecuteBlock(b)] if b.hash == trusted));

    // The trusted block is the highest seen: its descendants come next.
    let effects = sync.handle_event(&mut rng, Event::BlockHandled(Box::new(trusted_block.copy())));
    assert!(matches!(&effects[..], [Effect::FetchBlockAtHeight { height: 2, peer: 1 }]));

    // The peer has no block at height 2: it is asked again as an untried peer,
    // then, with no peer left, the sync is done.
    let effects = sync.handle_event(&mut rng, Event::GetBlockHeightResult(2, FetchResultOrAbsent::Absent(1)));
    assert!(matches!(&effects[..], [Effect::FetchBlockAtHeight { height: 2, peer: 1 }]));
    let effects = sync.handle_event(&mut rng, Event::GetBlockHeightResult(2, FetchResultOrAbsent::Absent(1)));
    assert!(effects.is_empty());
    assert!(sync.is_synced());
}

#[test]
fn peer_sending_wrong_block_is_banned() {
    let mut rng = StdRng::seed_from_u64(3);
    let trusted = Blake2bHash([0x20; 32]);
    let mut sync: LinearChainFastSync<u64> = LinearChainFastSync::new(Some(trusted), weights());
    sync.handle_event(&mut rng, Event::NewPeerConnected(1));
    sync.handle_event(&mut rng, Event::NewPeerConnected(2));
    let effects = sync.handle_event(&mut rng, Event::Done);
    assert!(matches!(&effects[..], [Effect::FetchBlockByHash { peer, .. }] if *peer == 1 || *peer == 2));
    // Peer 2 sends a block whose header has another hash.
    let wrong = block(0x10, 1, 0, 0x21);
    let effects = sync.handle_event(
        &mut rng,
        Event::GetBlockHashResult(trusted, FetchResultOrAbsent::FetchResult(FetchResult::FromPeer(Box::new(wrong), 2))),
    );
    assert!(matches!(&effects[..], [Effect::FetchBlockByHash { block_hash, peer: 1 }] if *block_hash == trusted));
    // A peer without the block is skipped for the next one.
    let effects = sync.handle_event(&mut rng, Event::GetBlockHashResult(trusted, FetchResultOrAbsent::Absent(1)));
    assert!(matches!(&effects[..], [Effect::FetchBlockByHash { block_hash, peer: 1 }] if *block_hash == trusted));
}

#[test]
fn deploys_not_found_asks_the_next_peer() {
    let mut rng = StdRng::seed_from_u64(4);
    let trusted = Blake2bHash([0x20; 32]);
    let mut sync: LinearChainFastSync<u64> = LinearChainFastSync::new(Some(trusted), weights());
    sync.handle_event(&mut rng, Event::NewPeerConnected(1));
    sync.handle_event(&mut rng, Event::NewPeerConnected(2));
    let b = block(0x10, 1, 0, 0x20);
    let effects = sync.handle_event(&mut rng, Event::GetDeploysResult(DeploysResult::NotFound(Box::new(b), 1)));
    assert!(matches!(&effects[..], [Effect::ValidateBlock { peer: 2, timestamp: 101, .. }]));
}

#[test]
fn outcomes_become_events() {
    let b = block(0x10, 4, 1, 0x20);
    let e: Event<u64> = fetch_block_by_hash_outcome(Blake2bHash([0x20; 32]), 3, None);
    assert!(matches!(e, Event::GetBlockHashResult(_, FetchResultOrAbsent::Absent(3))));
    let e: Event<u64> = fetch_block_by_hash_outcome(Blake2bHash([0x20; 32]), 3, Some(FetchResult::FromStorage(Box::new(b.copy()))));
    assert!(matches!(e, Event::GetBlockHashResult(_, FetchResultOrAbsent::FetchResult(FetchResult::FromStorage(_)))));
    let e: Event<u64> = fetch_block_at_height_outcome(4, 3, Some(FetchResult::FromPeer(Box::new(BlockByHeight::Absent(4)), 5)));
    assert!(matches!(e, Event::GetBlockHeightResult(4, FetchResultOrAbsent::Absent(5))));
    let e: Event<u64> = fetch_block_at_height_outcome(4, 3, Some(FetchResult::FromPeer(Box::new(BlockByHeight::Block(Box::new(b.copy()))), 5)));
    assert!(matches!(e, Event::GetBlockHeightResult(4, FetchResultOrAbsent::FetchResult(FetchResult::FromPeer(_, 5)))));
    let e: Event<u64> = fetch_block_at_height_outcome(4, 3, None);
    assert!(matches!(e, Event::GetBlockHeightResult(4, FetchResultOrAbsent::Absent(3))));
    let e: Event<u64> = fetch_block_deploys_outcome(6, true, b.copy());
    assert!(matches!(e, Event::GetDeploysResult(DeploysResult::Found(_))));
    let e: Event<u64> = fetch_block_deploys_outcome(6, false, b.copy());
    assert!(matches!(e, Event::GetDeploysResult(DeploysResult::NotFound(_, 6))));
    let effects = fetch_block_deploys(7u64, b.copy());
    assert!(matches!(&effects[..], [Effect::ValidateBlock { peer: 7, timestamp: 104, .. }]));
    let effects = fetch_block_at_height(7u64, 9);
    assert!(matches!(&effects[..], [Effect::FetchBlockAtHeight { height: 9, peer: 7 }]));
}

#[test]
fn fetched_headers_and_tries_are_checked() {
    let b = block(0x10, 4, 1, 0x20);
    let good = check_fetched_header::<u64>(&Blake2bHash([0x20; 32]), Some(FetchResult::FromPeer(Box::new(b.copy()), 1)));
    assert!(matches!(good, FetchCheck::Found(h) if h.height == 4));
    let bad = check_fetched_header::<u64>(&Blake2bHash([0x21; 32]), Some(FetchResult::FromPeer(Box::new(b.copy()), 1)));
    assert!(matches!(bad, FetchCheck::Ban(1)));
    assert!(matches!(check_fetched_header::<u64>(&Blake2bHash([0x21; 32]), None), FetchCheck::NotFound));

    let leaf: Trie<u32, u32> = Trie::leaf(1, 2);
    let key = leaf.merkle_hash().unwrap();
    let found = check_fetched_trie::<u32, u32, u64>(&key, Some(FetchResult::FromPeer(Box::new(leaf.clone()), 2)));
    assert!(matches!(found, FetchCheck::Found(t) if t == leaf));
    let banned = check_fetched_trie::<u32, u32, u64>(&Blake2bHash([0; 32]), Some(FetchResult::FromPeer(Box::new(leaf.clone()), 2)));
    assert!(matches!(banned, FetchCheck::Ban(2)));
}

#[test]
fn genesis_child_is_first_block_of_first_era() {
    assert!(header(0, 0, 0, 1).is_genesis_child());
    assert!(!header(0, 1, 0, 1).is_genesis_child());
    assert!(!header(0, 0, 1, 1).is_genesis_child());
}

#[test]
fn three_stages_follow_each_other() {
    let e: ThreeStageTestEvent<u8, u8, u8> = ThreeStageTestEvent::InitializerEvent(1);
    assert_eq!(e.stage(), Stage::Initializing);
    assert_eq!(dispatch_stage(Stage::Initializing, &e, false, false), Stage::Initializing);
    assert_eq!(dispatch_stage(Stage::Initializing, &e, true, true), Stage::Joining);
    let e: ThreeStageTestEvent<u8, u8, u8> = ThreeStageTestEvent::JoinerEvent(1);
    assert_eq!(dispatch_stage(Stage::Joining, &e, false, false), Stage::Joining);
    assert_eq!(dispatch_stage(Stage::Joining, &e, true, false), Stage::Validating);
    let e: ThreeStageTestEvent<u8, u8, u8> = ThreeStageTestEvent::ValidatorEvent(1);
    assert_eq!(dispatch_stage(Stage::Validating, &e, false, false), Stage::Validating);
}
