//! Fast synchronisation of the linear chain: the decisions a joining node
//! takes on each event, as a state machine whose effects the node's runtime
//! performs and whose outcomes come back as events.
use rand::rngs::StdRng;
use vstd::laws_eq::obeys_concrete_eq;
use vstd::prelude::*;

use crate::balance::U512;
use crate::bytesrepr::FromBytes;
use crate::hash::Blake2bHash;
use crate::peers::{
    peer_without_data_is_not_preferred, spec_add_peer, spec_ban, spec_get_peer, spec_mark_no_data,
    spec_mark_success, spec_reset, PeersModel, PeersState,
};
use crate::trie::{trie_hash, Trie};

verus! {

/// The hash of a block.
pub type BlockHash = Blake2bHash;

/// A validator's public key and its weight.
#[derive(Debug, Clone, Copy)]
pub struct ValidatorWeight {
    /// The tag of the key's algorithm followed by the key's bytes.
    pub public_key: [u8; 34],
    pub weight: U512,
}

/// A copy of a list of validator weights.
fn copy_weights(w: &Vec<ValidatorWeight>) -> (r: Vec<ValidatorWeight>)
    ensures
        r@ == w@,
{
    let mut r: Vec<ValidatorWeight> = Vec::new();
    let mut i: usize = 0;
    while i < w.len()
        invariant
            0 <= i <= w@.len(),
            r@ == w@.take(i as int),
        decreases w@.len() - i,
    {
        r.push(w[i]);
        assert(r@ =~= w@.take(i + 1));
        i = i + 1;
    }
    assert(w@.take(w@.len() as int) =~= w@);
    r
}

/// The model of a [`BlockHeader`].
pub struct HeaderModel {
    pub parent_hash: Seq<u8>,
    pub state_root_hash: Seq<u8>,
    pub body_hash: Seq<u8>,
    pub timestamp: u64,
    pub era_id: u64,
    pub height: u64,
    pub next_era_validator_weights: Option<Seq<ValidatorWeight>>,
    pub hash: Seq<u8>,
}

/// What the synchroniser reads of a block header.
#[derive(Debug)]
pub struct BlockHeader {
    /// The hash of the parent block.
    pub parent_hash: BlockHash,
    /// The root of the global state after the block.
    pub state_root_hash: Blake2bHash,
    /// The hash that the header expects the block's body to have.
    pub body_hash: Blake2bHash,
    /// When the block was made, in milliseconds since the Unix epoch.
    pub timestamp: u64,
    pub era_id: u64,
    pub height: u64,
    /// The validators of the next era, on the last block of an era.
    pub next_era_validator_weights: Option<Vec<ValidatorWeight>>,
    /// The hash of this header, which is the hash of its block.
    pub hash: BlockHash,
}

impl View for BlockHeader {
    type V = HeaderModel;

    open spec fn view(&self) -> HeaderModel {
        HeaderModel {
            parent_hash: self.parent_hash@,
            state_root_hash: self.state_root_hash@,
            body_hash: self.body_hash@,
            timestamp: self.timestamp,
            era_id: self.era_id,
            height: self.height,
            next_era_validator_weights: match self.next_era_validator_weights {
                Some(w) => Some(w@),
                None => None,
            },
            hash: self.hash@,
        }
    }
}

/// A header is the child of genesis when it is the first block of the first era.
pub open spec fn spec_is_genesis_child(h: HeaderModel) -> bool {
    h.era_id == 0 && h.height == 0
}

impl BlockHeader {
    /// Whether this is the header of the first block after genesis.
    pub fn is_genesis_child(&self) -> (r: bool)
        ensures
            r == spec_is_genesis_child(self@),
    {
        self.era_id == 0 && self.height == 0
    }

    /// A copy of this header.
    pub fn copy(&self) -> (r: BlockHeader)
        ensures
            r@ == self@,
    {
        BlockHeader {
            parent_hash: self.parent_hash,
            state_root_hash: self.state_root_hash,
            body_hash: self.body_hash,
            timestamp: self.timestamp,
            era_id: self.era_id,
            height: self.height,
            next_era_validator_weights: match &self.next_era_validator_weights {
                Some(w) => Some(copy_weights(w)),
                None => None,
            },
            hash: self.hash,
        }
    }
}

/// The model of a [`Block`].
pub struct BlockModel {
    pub hash: Seq<u8>,
    pub header: HeaderModel,
    pub body_hash: Seq<u8>,
}

/// What the synchroniser reads of a block.
#[derive(Debug)]
pub struct Block {
    /// The hash the block states for itself.
    pub hash: BlockHash,
    pub header: BlockHeader,
    /// The hash of the block's body.
    pub body_hash: Blake2bHash,
}

impl View for Block {
    type V = BlockModel;

    open spec fn view(&self) -> BlockModel {
        BlockModel { hash: self.hash@, header: self.header@, body_hash: self.body_hash@ }
    }
}

impl Block {
    /// A copy of this block.
    pub fn copy(&self) -> (r: Block)
        ensures
            r@ == self@,
    {
        Block { hash: self.hash, header: self.header.copy(), body_hash: self.body_hash }
    }

    /// The height of the block.
    pub fn height(&self) -> (r: u64)
        ensures
            r == self@.header.height,
    {
        self.header.height
    }
}

/// The model of a list of blocks.
pub open spec fn blocks_view(bs: Seq<Block>) -> Seq<BlockModel> {
    bs.map_values(|b: Block| b@)
}

/// The model of a [`State`].
pub enum StateModel {
    Idle,
    SyncingTrustedHash {
        linear_chain: Seq<BlockModel>,
        latest_block: Option<BlockModel>,
        validator_weights: Seq<ValidatorWeight>,
    },
    SyncingDescendants { latest_block: BlockModel, validators_for_next_block: Seq<ValidatorWeight> },
}

/// The phase of the synchronisation.
#[derive(Debug)]
pub enum State {
    /// No syncing of the linear chain configured.
    Idle,
    /// Synchronizing the linear chain up until trusted hash.
    SyncingTrustedHash {
        /// Chain of downloaded blocks from the linear chain.
        /// We will `pop()` when executing blocks.
        linear_chain: Vec<Block>,
        /// The most recent block we started to execute. This is updated whenever we start
        /// downloading deploys for the next block to be executed.
        latest_block: Box<Option<Block>>,
        /// The weights of the validators for latest block being added.
        validator_weights: Vec<ValidatorWeight>,
    },
    /// Synchronizing the descendants of the trusted hash.
    SyncingDescendants {
        /// The most recent block we started to execute. This is updated whenever we start
        /// downloading deploys for the next block to be executed.
        latest_block: Box<Block>,
        /// The validator set for the most recent block being synchronized.
        validators_for_next_block: Vec<ValidatorWeight>,
    },
}

impl View for State {
    type V = StateModel;

    open spec fn view(&self) -> StateModel {
        match self {
            State::Idle => StateModel::Idle,
            State::SyncingTrustedHash { linear_chain, latest_block, validator_weights } =>
                StateModel::SyncingTrustedHash {
                linear_chain: blocks_view(linear_chain@),
                latest_block: match **latest_block {
                    Some(b) => Some(b@),
                    None => None,
                },
                validator_weights: validator_weights@,
            },
            State::SyncingDescendants { latest_block, validators_for_next_block } =>
                StateModel::SyncingDescendants {
                latest_block: (**latest_block)@,
                validators_for_next_block: validators_for_next_block@,
            },
        }
    }
}

impl State {
    /// The phase that syncs up to the trusted hash, with the given validator weights.
    pub fn sync_trusted_hash(validator_weights: Vec<ValidatorWeight>) -> (s: State)
        ensures
            s@ == (StateModel::SyncingTrustedHash {
                linear_chain: Seq::empty(),
                latest_block: None,
                validator_weights: validator_weights@,
            }),
    {
        let s = State::SyncingTrustedHash {
            linear_chain: Vec::new(),
            latest_block: Box::new(None),
            validator_weights,
        };
        assert(blocks_view(Seq::<Block>::empty()) =~= Seq::<BlockModel>::empty());
        s
    }

    /// The phase that syncs the descendants of `latest_block`.
    pub fn sync_descendants(
        latest_block: Block,
        validators_for_latest_block: Vec<ValidatorWeight>,
    ) -> (s: State)
        ensures
            s@ == (StateModel::SyncingDescendants {
                latest_block: latest_block@,
                validators_for_next_block: validators_for_latest_block@,
            }),
    {
        State::SyncingDescendants {
            latest_block: Box::new(latest_block),
            validators_for_next_block: validators_for_latest_block,
        }
    }
}

/// The outcome of fetching an item: from local storage, or from a peer.
#[derive(Debug)]
pub enum FetchResult<T, I> {
    FromStorage(Box<T>),
    FromPeer(Box<T>, I),
}

/// The model of a [`FetchResult`].
pub enum FetchResultModel<T, I> {
    FromStorage(T),
    FromPeer(T, I),
}

impl<T: View, I> View for FetchResult<T, I> {
    type V = FetchResultModel<T::V, I>;

    open spec fn view(&self) -> FetchResultModel<T::V, I> {
        match self {
            FetchResult::FromStorage(t) => FetchResultModel::FromStorage((**t)@),
            FetchResult::FromPeer(t, i) => FetchResultModel::FromPeer((**t)@, *i),
        }
    }
}

/// A fetched item, or the peer that did not have it.
#[derive(Debug)]
pub enum FetchResultOrAbsent<T, I> {
    FetchResult(FetchResult<T, I>),
    Absent(I),
}

/// The model of a [`FetchResultOrAbsent`].
pub enum FetchResultOrAbsentModel<T, I> {
    FetchResult(FetchResultModel<T, I>),
    Absent(I),
}

impl<T: View, I> View for FetchResultOrAbsent<T, I> {
    type V = FetchResultOrAbsentModel<T::V, I>;

    open spec fn view(&self) -> FetchResultOrAbsentModel<T::V, I> {
        match self {
            FetchResultOrAbsent::FetchResult(r) => FetchResultOrAbsentModel::FetchResult(r@),
            FetchResultOrAbsent::Absent(i) => FetchResultOrAbsentModel::Absent(*i),
        }
    }
}

/// The result of asking for a block by its hash.
pub type BlockByHashResult<I> = FetchResultOrAbsent<Block, I>;

/// The result of asking for a block by its height.
pub type BlockByHeightResult<I> = FetchResultOrAbsent<Block, I>;

/// What a peer sends for a block asked for by height.
#[derive(Debug)]
pub enum BlockByHeight {
    /// The peer has no block at this height.
    Absent(u64),
    Block(Box<Block>),
}

/// The model of a [`BlockByHeight`].
pub enum BlockByHeightModel {
    Absent(u64),
    Block(BlockModel),
}

impl View for BlockByHeight {
    type V = BlockByHeightModel;

    open spec fn view(&self) -> BlockByHeightModel {
        match self {
            BlockByHeight::Absent(h) => BlockByHeightModel::Absent(*h),
            BlockByHeight::Block(b) => BlockByHeightModel::Block((**b)@),
        }
    }
}

/// Whether the deploys of a block could be had, and from whom not.
#[derive(Debug)]
pub enum DeploysResult<I> {
    Found(Box<Block>),
    NotFound(Box<Block>, I),
}

/// The model of a [`DeploysResult`].
pub enum DeploysResultModel<I> {
    Found(BlockModel),
    NotFound(BlockModel, I),
}

impl<I> View for DeploysResult<I> {
    type V = DeploysResultModel<I>;

    open spec fn view(&self) -> DeploysResultModel<I> {
        match self {
            DeploysResult::Found(b) => DeploysResultModel::Found((**b)@),
            DeploysResult::NotFound(b, i) => DeploysResultModel::NotFound((**b)@, *i),
        }
    }
}

/// Contains either a found object pointer or a retry strategy.
pub enum FoundOrRetry<O, R> {
    Found(O),
    Retry(R),
}

/// An event for the synchroniser.
#[derive(Debug)]
pub enum Event<I> {
    /// New peer connected event.  The joiner process requires a network peer to start.
    NewPeerConnected(I),
    /// Signal to ourselves that we are done syncing
    Done,
    /// Result of requesting a block by hash from network peers.
    GetBlockHashResult(BlockHash, BlockByHashResult<I>),
    /// Result of requesting a block by height from network peers.
    GetBlockHeightResult(u64, BlockByHeightResult<I>),
    /// Result of validating a block's deploys.
    GetDeploysResult(DeploysResult<I>),
    /// Signal to start downloading deploys
    StartDownloadingDeploys,
    /// Signal from linear chain that block has been processed.
    BlockHandled(Box<Block>),
}

/// The model of an [`Event`].
pub enum EventModel<I> {
    NewPeerConnected(I),
    Done,
    GetBlockHashResult(Seq<u8>, FetchResultOrAbsentModel<BlockModel, I>),
    GetBlockHeightResult(u64, FetchResultOrAbsentModel<BlockModel, I>),
    GetDeploysResult(DeploysResultModel<I>),
    StartDownloadingDeploys,
    BlockHandled(BlockModel),
}

impl<I> View for Event<I> {
    type V = EventModel<I>;

    open spec fn view(&self) -> EventModel<I> {
        match self {
            Event::NewPeerConnected(i) => EventModel::NewPeerConnected(*i),
            Event::Done => EventModel::Done,
            Event::GetBlockHashResult(h, r) => EventModel::GetBlockHashResult(h@, r@),
            Event::GetBlockHeightResult(h, r) => EventModel::GetBlockHeightResult(*h, r@),
            Event::GetDeploysResult(r) => EventModel::GetDeploysResult(r@),
            Event::StartDownloadingDeploys => EventModel::StartDownloadingDeploys,
            Event::BlockHandled(b) => EventModel::BlockHandled((**b)@),
        }
    }
}

/// Work for the node's runtime: each says what comes back as an event.
#[derive(Debug)]
pub enum Effect<I> {
    /// Add `peer` to the pool of peers for fast sync; when it is the pool's
    /// first peer, fast sync runs from `trusted_hash`, and `Event::Done` follows.
    JoinPeerPool { peer: I, trusted_hash: BlockHash },
    /// Fetch the block with `block_hash` from `peer`; the outcome comes back
    /// as [`fetch_block_by_hash_outcome`] makes it.
    FetchBlockByHash { block_hash: BlockHash, peer: I },
    /// Fetch the block at `height` from `peer`; the outcome comes back as
    /// [`fetch_block_at_height_outcome`] makes it.
    FetchBlockAtHeight { height: u64, peer: I },
    /// Have `peer` supply and validate the deploys of `block`; the outcome
    /// comes back as [`fetch_block_deploys_outcome`] makes it.
    ValidateBlock { peer: I, block: Block, timestamp: u64 },
    /// Execute `block`; nothing comes back.
    ExecuteBlock(Block),
    /// `Event::StartDownloadingDeploys` comes back straight away.
    StartDownloadingDeploys,
}

/// The model of an [`Effect`].
pub enum EffectModel<I> {
    JoinPeerPool { peer: I, trusted_hash: Seq<u8> },
    FetchBlockByHash { block_hash: Seq<u8>, peer: I },
    FetchBlockAtHeight { height: u64, peer: I },
    ValidateBlock { peer: I, block: BlockModel, timestamp: u64 },
    ExecuteBlock(BlockModel),
    StartDownloadingDeploys,
}

impl<I> View for Effect<I> {
    type V = EffectModel<I>;

    open spec fn view(&self) -> EffectModel<I> {
        match self {
            Effect::JoinPeerPool { peer, trusted_hash } => EffectModel::JoinPeerPool {
                peer: *peer,
                trusted_hash: trusted_hash@,
            },
            Effect::FetchBlockByHash { block_hash, peer } => EffectModel::FetchBlockByHash {
                block_hash: block_hash@,
                peer: *peer,
            },
            Effect::FetchBlockAtHeight { height, peer } => EffectModel::FetchBlockAtHeight {
                height: *height,
                peer: *peer,
            },
            Effect::ValidateBlock { peer, block, timestamp } => EffectModel::ValidateBlock {
                peer: *peer,
                block: block@,
                timestamp: *timestamp,
            },
            Effect::ExecuteBlock(b) => EffectModel::ExecuteBlock(b@),
            Effect::StartDownloadingDeploys => EffectModel::StartDownloadingDeploys,
        }
    }
}

/// The effects of handling an event.
pub type Effects<I> = Vec<Effect<I>>;

/// The model of a list of effects.
pub open spec fn effects_view<I>(es: Seq<Effect<I>>) -> Seq<EffectModel<I>> {
    es.map_values(|e: Effect<I>| e@)
}

/// One effect.
fn one_effect<I>(e: Effect<I>) -> (r: Effects<I>)
    ensures
        effects_view(r@) == seq![e@],
{
    let mut r: Vec<Effect<I>> = Vec::new();
    r.push(e);
    assert(effects_view(r@) =~= seq![e@]);
    r
}

/// No effects.
fn no_effects<I>() -> (r: Effects<I>)
    ensures
        effects_view(r@) == Seq::<EffectModel<I>>::empty(),
{
    let r: Vec<Effect<I>> = Vec::new();
    assert(effects_view(r@) =~= Seq::<EffectModel<I>>::empty());
    r
}

/// The event that a fetch of the block with `block_hash` from `peer` comes back as.
pub fn fetch_block_by_hash_outcome<I>(
    block_hash: BlockHash,
    peer: I,
    fetched: Option<FetchResult<Block, I>>,
) -> (e: Event<I>)
    ensures
        e@ == match fetched {
            Some(r) => EventModel::GetBlockHashResult(
                block_hash@,
                FetchResultOrAbsentModel::FetchResult(r@),
            ),
            None => EventModel::GetBlockHashResult(
                block_hash@,
                FetchResultOrAbsentModel::Absent(peer),
            ),
        },
{
    match fetched {
        Some(fetch_result) => Event::GetBlockHashResult(
            block_hash,
            FetchResultOrAbsent::FetchResult(fetch_result),
        ),
        None => Event::GetBlockHashResult(block_hash, FetchResultOrAbsent::Absent(peer)),
    }
}

/// What a fetch of a block by height comes back as: a block a peer sent,
/// one from storage, or that the peer did not have it. A peer that answers
/// `Absent` counts as not having the block.
pub open spec fn spec_block_at_height_event<I>(
    block_height: u64,
    peer: I,
    fetched: Option<FetchResultModel<BlockByHeightModel, I>>,
) -> EventModel<I> {
    EventModel::GetBlockHeightResult(
        block_height,
        match fetched {
            Some(FetchResultModel::FromPeer(BlockByHeightModel::Absent(_), from)) =>
                FetchResultOrAbsentModel::Absent(from),
            Some(FetchResultModel::FromPeer(BlockByHeightModel::Block(b), from)) =>
                FetchResultOrAbsentModel::FetchResult(FetchResultModel::FromPeer(b, from)),
            Some(FetchResultModel::FromStorage(BlockByHeightModel::Block(b))) =>
                FetchResultOrAbsentModel::FetchResult(FetchResultModel::FromStorage(b)),
            Some(FetchResultModel::FromStorage(BlockByHeightModel::Absent(_))) =>
                FetchResultOrAbsentModel::Absent(peer),
            None => FetchResultOrAbsentModel::Absent(peer),
        },
    )
}

/// Asks `peer` for the block at `block_height`.
pub fn fetch_block_at_height<I>(peer: I, block_height: u64) -> (r: Effects<I>)
    ensures
        effects_view(r@) == seq![EffectModel::FetchBlockAtHeight { height: block_height, peer }],
{
    one_effect(Effect::FetchBlockAtHeight { height: block_height, peer })
}

/// The event that a fetch of the block at `block_height` from `peer` comes
/// back as. Storage never answers `Absent`: the fetcher asks peers then.
pub fn fetch_block_at_height_outcome<I>(
    block_height: u64,
    peer: I,
    fetched: Option<FetchResult<BlockByHeight, I>>,
) -> (e: Event<I>)
    requires
        !(fetched matches Some(FetchResult::FromStorage(b)) && *b is Absent),
    ensures
        e@ == spec_block_at_height_event(
            block_height,
            peer,
            match fetched {
                Some(r) => Some(r@),
                None => None,
            },
        ),
{
    match fetched {
        Some(fetch_result) => {
            let block_by_height_result = match fetch_result {
                FetchResult::FromPeer(result, peer) => match *result {
                    BlockByHeight::Absent(_) => FetchResultOrAbsent::Absent(peer),
                    BlockByHeight::Block(block) => FetchResultOrAbsent::FetchResult(
                        FetchResult::FromPeer(block, peer),
                    ),
                },
                FetchResult::FromStorage(result) => match *result {
                    BlockByHeight::Absent(_) => {
                        proof {
                            assert(false);
                        }
                        FetchResultOrAbsent::Absent(peer)
                    },
                    BlockByHeight::Block(block) => FetchResultOrAbsent::FetchResult(
                        FetchResult::FromStorage(block),
                    ),
                },
            };
            Event::GetBlockHeightResult(block_height, block_by_height_result)
        },
        None => Event::GetBlockHeightResult(block_height, FetchResultOrAbsent::Absent(peer)),
    }
}

/// Has `peer` supply and validate the deploys of `block`.
pub fn fetch_block_deploys<I>(peer: I, block: Block) -> (r: Effects<I>)
    ensures
        effects_view(r@) == seq![
            EffectModel::ValidateBlock { peer, block: block@, timestamp: block@.header.timestamp },
        ],
{
    let block_timestamp = block.header.timestamp;
    one_effect(Effect::ValidateBlock { peer, block, timestamp: block_timestamp })
}

/// The event that a validation of `block`'s deploys with `peer` comes back as.
pub fn fetch_block_deploys_outcome<I>(peer: I, found: bool, block: Block) -> (e: Event<I>)
    ensures
        e@ == if found {
            EventModel::GetDeploysResult(DeploysResultModel::Found(block@))
        } else {
            EventModel::<I>::GetDeploysResult(DeploysResultModel::NotFound(block@, peer))
        },
{
    if found {
        Event::GetDeploysResult(DeploysResult::Found(Box::new(block)))
    } else {
        Event::GetDeploysResult(DeploysResult::NotFound(Box::new(block), peer))
    }
}

/// The model of a [`LinearChainFastSync`].
pub struct FastSyncModel<I> {
    pub trusted_hash: Option<Seq<u8>>,
    pub genesis_validator_weights: Seq<ValidatorWeight>,
    pub state: StateModel,
    pub initial_peer_id: Option<I>,
    pub peers: PeersModel<I>,
    pub trusted_header: Option<HeaderModel>,
    pub highest_block_seen: u64,
    pub current_era_validators: Option<Seq<ValidatorWeight>>,
}

/// The synchroniser's new state and the effects it asks for.
pub type Outcome<I> = (FastSyncModel<I>, Seq<EffectModel<I>>);

/// The linear chain synchroniser of a joining node.
#[derive(Debug)]
pub struct LinearChainFastSync<I> {
    /// The trusted hash we are using to sync.
    trusted_hash: Option<BlockHash>,
    /// The validators and their weights from genesis.
    genesis_validator_weights: Vec<ValidatorWeight>,
    /// The phase of the linear chain sync.
    state: State,
    /// Initial peer
    initial_peer_id: Option<I>,
    /// Peers to query for data.  Misbehaving peers will be banned.
    old_peers: PeersState<I>,
    /// The header for the trusted hash.
    trusted_header: Option<BlockHeader>,
    /// During synchronization we might see new eras being created.
    /// Track the highest block height and wait until it's handled by consensus.
    highest_block_seen: u64,
    /// As we process blocks with ascending eras, we track the validators for those eras.
    current_era_validators: Option<Vec<ValidatorWeight>>,
}

impl<I> View for LinearChainFastSync<I> {
    type V = FastSyncModel<I>;

    closed spec fn view(&self) -> FastSyncModel<I> {
        FastSyncModel {
            trusted_hash: match self.trusted_hash {
                Some(h) => Some(h@),
                None => None,
            },
            genesis_validator_weights: self.genesis_validator_weights@,
            state: self.state@,
            initial_peer_id: self.initial_peer_id,
            peers: self.old_peers@,
            trusted_header: match self.trusted_header {
                Some(h) => Some(h@),
                None => None,
            },
            highest_block_seen: self.highest_block_seen,
            current_era_validators: match self.current_era_validators {
                Some(w) => Some(w@),
                None => None,
            },
        }
    }
}

/// `s` with its peers replaced.
pub open spec fn with_peers<I>(s: FastSyncModel<I>, p: PeersModel<I>) -> FastSyncModel<I> {
    FastSyncModel { peers: p, ..s }
}

/// `s` with its phase replaced.
pub open spec fn with_state<I>(s: FastSyncModel<I>, st: StateModel) -> FastSyncModel<I> {
    FastSyncModel { state: st, ..s }
}

/// The block whose execution was started last.
pub open spec fn spec_latest_block<I>(s: FastSyncModel<I>) -> Option<BlockModel> {
    match s.state {
        StateModel::SyncingTrustedHash { latest_block, .. } => latest_block,
        StateModel::SyncingDescendants { latest_block, .. } => Some(latest_block),
        StateModel::Idle => None,
    }
}

/// Asking for the block with `block_hash`: after the peers are reset to
/// `order`, from the next peer, or from `initial_peer` when there is none.
pub open spec fn spec_fetch_block_by_hash<I>(
    s: FastSyncModel<I>,
    initial_peer: I,
    block_hash: Seq<u8>,
    order: Seq<I>,
) -> Outcome<I> {
    let (p, r) = spec_get_peer(spec_reset(s.peers, order));
    let peer = match r {
        Some(x) => x,
        None => initial_peer,
    };
    (with_peers(s, p), seq![EffectModel::FetchBlockByHash { block_hash, peer }])
}

/// Banning `peer`: where it is the initial peer, the next peer takes its
/// place; there must be one.
pub open spec fn spec_ban_peer<I>(s: FastSyncModel<I>, initial_peer: I, peer: I) -> Option<
    (FastSyncModel<I>, I),
> {
    let p = spec_ban(s.peers, peer);
    if peer == initial_peer {
        let (p2, r) = spec_get_peer(p);
        match r {
            None => None,
            Some(next) => Some((FastSyncModel { peers: p2, initial_peer_id: Some(next), ..s }, next)),
        }
    } else {
        Some((with_peers(s, p), initial_peer))
    }
}

/// Asking for the deploys of the next block to execute: the oldest block not
/// yet executed while syncing up to the trusted hash, else the latest block.
/// There must be a peer to ask.
pub open spec fn spec_fetch_next_block_deploys<I>(s: FastSyncModel<I>) -> Option<Outcome<I>> {
    let (p, r) = spec_get_peer(s.peers);
    match r {
        None => None,
        Some(peer) => {
            let s1 = with_peers(s, p);
            match s.state {
                StateModel::Idle => None,
                StateModel::SyncingTrustedHash { linear_chain, latest_block, validator_weights } =>
                    if linear_chain.len() == 0 {
                    Some((s1, Seq::empty()))
                } else {
                    let b = linear_chain.last();
                    Some(
                        (
                            with_state(
                                s1,
                                StateModel::SyncingTrustedHash {
                                    linear_chain: linear_chain.drop_last(),
                                    latest_block: Some(b),
                                    validator_weights,
                                },
                            ),
                            seq![
                                EffectModel::ValidateBlock {
                                    peer,
                                    block: b,
                                    timestamp: b.header.timestamp,
                                },
                            ],
                        ),
                    )
                },
                StateModel::SyncingDescendants { latest_block, .. } => Some(
                    (
                        s1,
                        seq![
                            EffectModel::ValidateBlock {
                                peer,
                                block: latest_block,
                                timestamp: latest_block.header.timestamp,
                            },
                        ],
                    ),
                ),
            }
        },
    }
}

/// Asking for the block after the one with `header`: its parent while
/// syncing up to the trusted hash, the next height while syncing descendants.
pub open spec fn spec_fetch_next_block<I>(
    s: FastSyncModel<I>,
    initial_peer: I,
    header: HeaderModel,
    order: Seq<I>,
) -> Option<Outcome<I>> {
    match s.state {
        StateModel::SyncingTrustedHash { .. } => Some(
            spec_fetch_block_by_hash(s, initial_peer, header.parent_hash, order),
        ),
        StateModel::SyncingDescendants { .. } => {
            let (p, r) = spec_get_peer(spec_reset(s.peers, order));
            match r {
                None => None,
                Some(peer) => if header.height == u64::MAX {
                    None
                } else {
                    Some(
                        (
                            with_peers(s, p),
                            seq![
                                EffectModel::FetchBlockAtHeight {
                                    height: (header.height + 1) as u64,
                                    peer,
                                },
                            ],
                        ),
                    )
                },
            }
        },
        StateModel::Idle => None,
    }
}

/// A downloaded block: counted towards the highest seen; while syncing up to
/// the trusted hash it joins the chain, and its parent is asked for unless it
/// is the first block after genesis, when deploys are downloaded next; while
/// syncing descendants it becomes the latest block and its deploys are asked for.
pub open spec fn spec_block_downloaded<I>(
    s: FastSyncModel<I>,
    initial_peer: I,
    b: BlockModel,
    order: Seq<I>,
) -> Option<Outcome<I>> {
    let s1 = FastSyncModel {
        peers: spec_reset(s.peers, order),
        highest_block_seen: if b.header.height > s.highest_block_seen {
            b.header.height
        } else {
            s.highest_block_seen
        },
        ..s
    };
    match s.state {
        StateModel::Idle => None,
        StateModel::SyncingTrustedHash { linear_chain, latest_block, validator_weights } => {
            let s2 = with_state(
                s1,
                StateModel::SyncingTrustedHash {
                    linear_chain: linear_chain.push(b),
                    latest_block,
                    validator_weights,
                },
            );
            if spec_is_genesis_child(b.header) {
                Some((s2, seq![EffectModel::StartDownloadingDeploys]))
            } else {
                Some(spec_fetch_block_by_hash(s2, initial_peer, b.header.parent_hash, order))
            }
        },
        StateModel::SyncingDescendants { validators_for_next_block, .. } =>
            spec_fetch_next_block_deploys(
            with_state(
                s1,
                StateModel::SyncingDescendants { latest_block: b, validators_for_next_block },
            ),
        ),
    }
}

/// The new validators where a block ends an era, else the old ones.
pub open spec fn next_weights(b: BlockModel, old: Seq<ValidatorWeight>) -> Seq<ValidatorWeight> {
    match b.header.next_era_validator_weights {
        Some(w) => w,
        None => old,
    }
}

/// A block that the linear chain has executed, which must be the latest
/// block: at the highest height seen while syncing up to the trusted hash,
/// syncing descendants starts; otherwise the next block's deploys, or the
/// next block, are asked for.
pub open spec fn spec_handle_block_processed<I>(
    s: FastSyncModel<I>,
    initial_peer: I,
    b: BlockModel,
    order: Seq<I>,
) -> Option<Outcome<I>> {
    let s0 = with_peers(s, spec_reset(s.peers, order));
    match s.state {
        StateModel::Idle => None,
        StateModel::SyncingTrustedHash { linear_chain, latest_block, validator_weights } => if latest_block
            != Some(b) {
            None
        } else if s.highest_block_seen == b.header.height {
            let (p, r) = spec_get_peer(s0.peers);
            match r {
                None => None,
                Some(peer) => if b.header.height == u64::MAX {
                    None
                } else {
                    Some(
                        (
                            FastSyncModel {
                                peers: p,
                                state: StateModel::SyncingDescendants {
                                    latest_block: b,
                                    validators_for_next_block: validator_weights,
                                },
                                ..s0
                            },
                            seq![
                                EffectModel::FetchBlockAtHeight {
                                    height: (b.header.height + 1) as u64,
                                    peer,
                                },
                            ],
                        ),
                    )
                },
            }
        } else {
            spec_fetch_next_block_deploys(
                with_state(
                    s0,
                    StateModel::SyncingTrustedHash {
                        linear_chain,
                        latest_block,
                        validator_weights: next_weights(b, validator_weights),
                    },
                ),
            )
        },
        StateModel::SyncingDescendants { latest_block, validators_for_next_block } => if latest_block
            != b {
            None
        } else {
            spec_fetch_next_block(
                with_state(
                    s0,
                    StateModel::SyncingDescendants {
                        latest_block,
                        validators_for_next_block: next_weights(b, validators_for_next_block),
                    },
                ),
                initial_peer,
                b.header,
                order,
            )
        },
    }
}

/// A block asked for by hash: from storage it must be sound; from a peer that
/// sent an unsound one, the peer is banned and the block asked for again; a
/// peer that did not have it is marked so and the block asked for again.
pub open spec fn spec_extract_block_by_hash_result<I>(
    s: FastSyncModel<I>,
    initial_peer: I,
    block_hash: Seq<u8>,
    result: FetchResultOrAbsentModel<BlockModel, I>,
    order: Seq<I>,
) -> Option<(FastSyncModel<I>, FoundOrRetry<BlockModel, Seq<EffectModel<I>>>)> {
    match result {
        FetchResultOrAbsentModel::Absent(peer) => {
            let (s1, effects) = spec_fetch_block_by_hash(
                with_peers(s, spec_mark_no_data(s.peers, peer)),
                initial_peer,
                block_hash,
                order,
            );
            Some((s1, FoundOrRetry::Retry(effects)))
        },
        FetchResultOrAbsentModel::FetchResult(FetchResultModel::FromStorage(b)) => if b.hash
            == block_hash && b.header.hash == block_hash && b.body_hash == b.header.body_hash {
            Some((s, FoundOrRetry::Found(b)))
        } else {
            None
        },
        FetchResultOrAbsentModel::FetchResult(FetchResultModel::FromPeer(b, peer)) => if b.header.hash
            != block_hash || b.header.hash != b.hash || b.body_hash != b.header.body_hash {
            match spec_ban_peer(s, initial_peer, peer) {
                None => None,
                Some((s1, next_initial)) => {
                    let (s2, effects) = spec_fetch_block_by_hash(s1, next_initial, block_hash, order);
                    Some((s2, FoundOrRetry::Retry(effects)))
                },
            }
        } else if s.peers.recent_successes < u8::MAX {
            Some((with_peers(s, spec_mark_success(s.peers, peer)), FoundOrRetry::Found(b)))
        } else {
            None
        },
    }
}

/// A peer had no block at `height`: it is marked so, and the next peer asked;
/// when no peer is left, all descendants are synced and syncing is done.
pub open spec fn spec_height_absent<I>(s: FastSyncModel<I>, height: u64, peer: I) -> Outcome<I> {
    let (p, r) = spec_get_peer(spec_mark_no_data(s.peers, peer));
    match r {
        None => (FastSyncModel { peers: p, trusted_hash: None, ..s }, Seq::empty()),
        Some(next) => (with_peers(s, p), seq![EffectModel::FetchBlockAtHeight { height, peer: next }]),
    }
}

/// What handling event `e` leads to, the peers being reset to `order`
/// wherever they are reset; `None` where the synchroniser cannot go on.
pub open spec fn spec_handle_event<I>(s: FastSyncModel<I>, e: EventModel<I>, order: Seq<I>) -> Option<
    Outcome<I>,
> {
    match s.trusted_hash {
        None => Some((s, Seq::empty())),
        Some(trusted_hash) => match e {
            EventModel::NewPeerConnected(peer) => Some(
                (
                    FastSyncModel {
                        peers: spec_add_peer(s.peers, peer),
                        initial_peer_id: if s.initial_peer_id is None {
                            Some(peer)
                        } else {
                            s.initial_peer_id
                        },
                        ..s
                    },
                    seq![EffectModel::JoinPeerPool { peer, trusted_hash }],
                ),
            ),
            EventModel::Done => match s.initial_peer_id {
                None => None,
                Some(initial_peer) => Some(
                    spec_fetch_block_by_hash(s, initial_peer, trusted_hash, order),
                ),
            },
            EventModel::GetBlockHeightResult(height, result) => match result {
                FetchResultOrAbsentModel::Absent(peer) => Some(spec_height_absent(s, height, peer)),
                FetchResultOrAbsentModel::FetchResult(FetchResultModel::FromStorage(b)) => if b.header.height
                    != height {
                    None
                } else {
                    match s.initial_peer_id {
                        None => None,
                        Some(initial_peer) => spec_block_downloaded(s, initial_peer, b, order),
                    }
                },
                FetchResultOrAbsentModel::FetchResult(FetchResultModel::FromPeer(b, peer)) => if b.header.height
                    != height {
                    Some(spec_height_absent(with_peers(s, spec_ban(s.peers, peer)), height, peer))
                } else {
                    match spec_latest_block(s) {
                    None => None,
                    Some(latest) => if b.header.parent_hash != latest.header.hash {
                        Some(spec_height_absent(with_peers(s, spec_ban(s.peers, peer)), height, peer))
                    } else if s.peers.recent_successes < u8::MAX {
                        match s.initial_peer_id {
                            None => None,
                            Some(initial_peer) => spec_block_downloaded(
                                with_peers(s, spec_mark_success(s.peers, peer)),
                                initial_peer,
                                b,
                                order,
                            ),
                        }
                    } else {
                        None
                    },
                    }
                },
            },
            EventModel::GetBlockHashResult(block_hash, result) => match s.initial_peer_id {
                None => None,
                Some(initial_peer) => match spec_extract_block_by_hash_result(
                    s,
                    initial_peer,
                    block_hash,
                    result,
                    order,
                ) {
                    None => None,
                    Some((s1, FoundOrRetry::Retry(effects))) => Some((s1, effects)),
                    Some((s1, FoundOrRetry::Found(b))) => match s1.initial_peer_id {
                        None => None,
                        Some(initial_peer) => spec_block_downloaded(s1, initial_peer, b, order),
                    },
                },
            },
            EventModel::GetDeploysResult(DeploysResultModel::Found(b)) => Some(
                (with_peers(s, spec_reset(s.peers, order)), seq![EffectModel::ExecuteBlock(b)]),
            ),
            EventModel::GetDeploysResult(DeploysResultModel::NotFound(b, peer)) => {
                let (p, r) = spec_get_peer(spec_mark_no_data(s.peers, peer));
                match r {
                    None => None,
                    Some(next) => Some(
                        (
                            with_peers(s, p),
                            seq![
                                EffectModel::ValidateBlock {
                                    peer: next,
                                    block: b,
                                    timestamp: b.header.timestamp,
                                },
                            ],
                        ),
                    ),
                }
            },
            EventModel::StartDownloadingDeploys => spec_fetch_next_block_deploys(
                with_peers(s, spec_reset(s.peers, order)),
            ),
            EventModel::BlockHandled(b) => match s.initial_peer_id {
                None => None,
                Some(initial_peer) => spec_handle_block_processed(s, initial_peer, b, order),
            },
        },
    }
}

impl<I: Copy + PartialEq> LinearChainFastSync<I> {
    /// A synchroniser for the chain up to `trusted_hash`, starting from the
    /// genesis validators; none where there is no trusted hash.
    pub fn new(trusted_hash: Option<BlockHash>, genesis_validator_weights: Vec<ValidatorWeight>) -> (r:
        Self)
        ensures
            r@ == (FastSyncModel::<I> {
                trusted_hash: match trusted_hash {
                    Some(h) => Some(h@),
                    None => None,
                },
                genesis_validator_weights: genesis_validator_weights@,
                state: StateModel::SyncingTrustedHash {
                    linear_chain: Seq::empty(),
                    latest_block: None,
                    validator_weights: genesis_validator_weights@,
                },
                initial_peer_id: None,
                peers: PeersModel {
                    known: Seq::empty(),
                    candidates: Seq::empty(),
                    successful: Seq::empty(),
                    recent_successes: 0,
                },
                trusted_header: None,
                highest_block_seen: 0,
                current_era_validators: None,
            }),
    {
        let phase = State::sync_trusted_hash(copy_weights(&genesis_validator_weights));
        LinearChainFastSync {
            trusted_hash,
            genesis_validator_weights,
            state: phase,
            initial_peer_id: None,
            old_peers: PeersState::new(),
            trusted_header: None,
            highest_block_seen: 0,
            current_era_validators: None,
        }
    }

    /// Returns `true` if we have finished syncing linear chain.
    pub fn is_synced(&self) -> (r: bool)
        ensures
            r == (self@.trusted_hash is None || self@.state is Idle),
    {
        self.trusted_hash.is_none() || match self.state {
            State::Idle => true,
            _ => false,
        }
    }

    /// Mark the process as finished syncing
    fn mark_as_done(&mut self)
        ensures
            final(self)@ == (FastSyncModel { trusted_hash: None, ..old(self)@ }),
    {
        // If there is no trusted hash, syncing is done (or never started)
        self.trusted_hash = None;
    }

    /// Bans `peer`; where it was the initial peer, the next peer becomes the
    /// initial one. Returns the initial peer.
    fn ban_peer(&mut self, initial_peer_id: I, peer: &I) -> (r: I)
        requires
            obeys_concrete_eq::<I>(),
            spec_ban_peer(old(self)@, initial_peer_id, *peer) is Some,
        ensures
            spec_ban_peer(old(self)@, initial_peer_id, *peer) == Some((final(self)@, r)),
    {
        proof {
            reveal(obeys_concrete_eq);
        }
        self.old_peers.ban(peer);
        if *peer == initial_peer_id {
            match self.old_peers.get_peer() {
                None => {
                    proof {
                        assert(false);
                    }
                    initial_peer_id
                },
                Some(next) => {
                    self.initial_peer_id = Some(next);
                    next
                },
            }
        } else {
            initial_peer_id
        }
    }

    /// Asks for the block with `block_hash` from the next peer, after the
    /// peers are reset, or from `initial_peer_id` when there is none.
    fn fetch_block_by_hash(&mut self, rng: &mut StdRng, initial_peer_id: I, block_hash: BlockHash) -> (r:
        Effects<I>)
        ensures
            exists|order: Seq<I>|
                #![trigger spec_fetch_block_by_hash(old(self)@, initial_peer_id, block_hash@, order)]
                spec_fetch_block_by_hash(old(self)@, initial_peer_id, block_hash@, order) == (
                final(self)@,
                effects_view(r@),
            ),
    {
        self.old_peers.reset_peers_to_try(rng);
        let ghost order = self.old_peers@.candidates;
        let peer = match self.old_peers.get_peer() {
            Some(p) => p,
            None => initial_peer_id,
        };
        let r = one_effect(Effect::FetchBlockByHash { block_hash, peer });
        assert(spec_fetch_block_by_hash(old(self)@, initial_peer_id, block_hash@, order) == (
        self@, effects_view(r@)));
        r
    }

    /// The block whose execution was started last.
    fn latest_block(&self) -> (r: Option<&Block>)
        ensures
            match r {
                Some(b) => spec_latest_block(self@) == Some(b@),
                None => spec_latest_block(self@) is None,
            },
    {
        match &self.state {
            State::SyncingTrustedHash { latest_block, .. } => match &**latest_block {
                Some(b) => Some(b),
                None => None,
            },
            State::SyncingDescendants { latest_block, .. } => Some(&**latest_block),
            State::Idle => None,
        }
    }

    /// Asks for the deploys of the next block to execute.
    fn fetch_next_block_deploys(&mut self) -> (r: Effects<I>)
        requires
            spec_fetch_next_block_deploys(old(self)@) is Some,
        ensures
            spec_fetch_next_block_deploys(old(self)@) == Some((final(self)@, effects_view(r@))),
    {
        let peer = self.old_peers.get_peer_unsafe();
        let mut state = State::Idle;
        std::mem::swap(&mut state, &mut self.state);
        match state {
            State::Idle => {
                proof {
                    assert(false);
                }
                no_effects()
            },
            State::SyncingTrustedHash { mut linear_chain, latest_block, validator_weights } => {
                let ghost chain = linear_chain@;
                match linear_chain.pop() {
                    None => {
                        self.state = State::SyncingTrustedHash {
                            linear_chain,
                            latest_block,
                            validator_weights,
                        };
                        // There is no block to fetch deploys for.
                        no_effects()
                    },
                    Some(block) => {
                        assert(blocks_view(linear_chain@) =~= blocks_view(chain).drop_last());
                        // The latest block is kept so that the result of its
                        // execution can be checked.
                        self.state = State::SyncingTrustedHash {
                            linear_chain,
                            latest_block: Box::new(Some(block.copy())),
                            validator_weights,
                        };
                        fetch_block_deploys(peer, block)
                    },
                }
            },
            State::SyncingDescendants { latest_block, validators_for_next_block } => {
                let block = latest_block.copy();
                self.state = State::SyncingDescendants { latest_block, validators_for_next_block };
                fetch_block_deploys(peer, block)
            },
        }
    }
}

impl<I: Copy + PartialEq> LinearChainFastSync<I> {
    /// Handles a downloaded block (see [`spec_block_downloaded`]).
    fn block_downloaded(&mut self, rng: &mut StdRng, initial_peer_id: I, block: &Block) -> (r: Effects<
        I,
    >)
        requires
            forall|order: Seq<I>|
                #![trigger spec_block_downloaded(old(self)@, initial_peer_id, block@, order)]
                spec_block_downloaded(old(self)@, initial_peer_id, block@, order) is Some,
        ensures
            exists|order: Seq<I>|
                #![trigger spec_block_downloaded(old(self)@, initial_peer_id, block@, order)]
                spec_block_downloaded(old(self)@, initial_peer_id, block@, order) == Some(
                    (final(self)@, effects_view(r@)),
                ),
    {
        let ghost s0 = self@;
        self.old_peers.reset_peers_to_try(rng);
        let ghost order = self.old_peers@.candidates;
        assert(spec_block_downloaded(s0, initial_peer_id, block@, order) is Some);
        if block.height() > self.highest_block_seen {
            self.highest_block_seen = block.height();
        }
        let mut state = State::Idle;
        std::mem::swap(&mut state, &mut self.state);
        match state {
            State::Idle => {
                proof {
                    assert(false);
                }
                no_effects()
            },
            State::SyncingTrustedHash { mut linear_chain, latest_block, validator_weights } => {
                let ghost chain = linear_chain@;
                linear_chain.push(block.copy());
                assert(blocks_view(linear_chain@) =~= blocks_view(chain).push(block@));
                self.state = State::SyncingTrustedHash {
                    linear_chain,
                    latest_block,
                    validator_weights,
                };
                if block.header.is_genesis_child() {
                    let r = one_effect(Effect::StartDownloadingDeploys);
                    assert(spec_block_downloaded(s0, initial_peer_id, block@, order) == Some(
                        (self@, effects_view(r@)),
                    ));
                    r
                } else {
                    let ghost mid = self@;
                    let r = self.fetch_block_by_hash(rng, initial_peer_id, block.header.parent_hash);
                    let ghost o2 = choose|o: Seq<I>|
                        spec_fetch_block_by_hash(mid, initial_peer_id, block@.header.parent_hash, o)
                            == (self@, effects_view(r@));
                    assert(spec_fetch_block_by_hash(mid, initial_peer_id, block@.header.parent_hash, o2)
                        == (self@, effects_view(r@)));
                    assert(spec_block_downloaded(s0, initial_peer_id, block@, o2) == Some(
                        (self@, effects_view(r@)),
                    ));
                    r
                }
            },
            State::SyncingDescendants { latest_block, validators_for_next_block } => {
                self.state = State::SyncingDescendants {
                    latest_block: Box::new(block.copy()),
                    validators_for_next_block,
                };
                // The block is executed before the next one is asked for.
                let r = self.fetch_next_block_deploys();
                assert(spec_block_downloaded(s0, initial_peer_id, block@, order) == Some(
                    (self@, effects_view(r@)),
                ));
                r
            },
        }
    }
}

impl<I: Copy + PartialEq> LinearChainFastSync<I> {
    /// Asks for the block after the one with `block_header` (see [`spec_fetch_next_block`]).
    fn fetch_next_block(&mut self, rng: &mut StdRng, initial_peer: I, block_header: &BlockHeader) -> (r:
        Effects<I>)
        requires
            forall|order: Seq<I>|
                #![trigger spec_fetch_next_block(old(self)@, initial_peer, block_header@, order)]
                spec_fetch_next_block(old(self)@, initial_peer, block_header@, order) is Some,
        ensures
            exists|order: Seq<I>|
                #![trigger spec_fetch_next_block(old(self)@, initial_peer, block_header@, order)]
                spec_fetch_next_block(old(self)@, initial_peer, block_header@, order) == Some(
                    (final(self)@, effects_view(r@)),
                ),
    {
        let ghost s0 = self@;
        let syncing_trusted_hash = match &self.state {
            State::SyncingTrustedHash { .. } => true,
            State::SyncingDescendants { .. } => false,
            State::Idle => {
                proof {
                    assert(spec_fetch_next_block(s0, initial_peer, block_header@, Seq::empty()) is Some);
                }
                return no_effects();
            },
        };
        if syncing_trusted_hash {
            let r = self.fetch_block_by_hash(rng, initial_peer, block_header.parent_hash);
            let ghost o = choose|o: Seq<I>|
                spec_fetch_block_by_hash(s0, initial_peer, block_header@.parent_hash, o) == (
                self@,
                effects_view(r@),
            );
            assert(spec_fetch_block_by_hash(s0, initial_peer, block_header@.parent_hash, o) == (
            self@, effects_view(r@)));
            assert(spec_fetch_next_block(s0, initial_peer, block_header@, o) == Some(
                (self@, effects_view(r@)),
            ));
            r
        } else {
            self.old_peers.reset_peers_to_try(rng);
            let ghost order = self.old_peers@.candidates;
            assert(spec_fetch_next_block(s0, initial_peer, block_header@, order) is Some);
            let peer = self.old_peers.get_peer_unsafe();
            let next_height = block_header.height + 1;
            let r = fetch_block_at_height(peer, next_height);
            assert(spec_fetch_next_block(s0, initial_peer, block_header@, order) == Some(
                (self@, effects_view(r@)),
            ));
            r
        }
    }

    /// Handles a block that the linear chain has executed (see [`spec_handle_block_processed`]).
    fn handle_block_processed_by_linear_chain(
        &mut self,
        rng: &mut StdRng,
        initial_peer_id: I,
        block: Block,
    ) -> (r: Effects<I>)
        requires
            forall|order: Seq<I>|
                #![trigger spec_handle_block_processed(old(self)@, initial_peer_id, block@, order)]
                spec_handle_block_processed(old(self)@, initial_peer_id, block@, order) is Some,
        ensures
            exists|order: Seq<I>|
                #![trigger spec_handle_block_processed(old(self)@, initial_peer_id, block@, order)]
                spec_handle_block_processed(old(self)@, initial_peer_id, block@, order) == Some(
                    (final(self)@, effects_view(r@)),
                ),
    {
        let ghost s0 = self@;
        let ghost b = block@;
        // Reset peers before creating new requests.
        self.old_peers.reset_peers_to_try(rng);
        let ghost order = self.old_peers@.candidates;
        assert(spec_handle_block_processed(s0, initial_peer_id, b, order) is Some);
        let mut curr_state = State::Idle;
        std::mem::swap(&mut curr_state, &mut self.state);
        match curr_state {
            State::Idle => {
                proof {
                    assert(false);
                }
                no_effects()
            },
            State::SyncingTrustedHash { linear_chain, latest_block, validator_weights } => {
                if self.highest_block_seen == block.height() {
                    // The chain is synced up to the trusted hash: sync its descendants.
                    let peer = self.old_peers.get_peer_unsafe();
                    let block_height = block.height();
                    self.state = State::sync_descendants(block, validator_weights);
                    let r = fetch_block_at_height(peer, block_height + 1);
                    assert(spec_handle_block_processed(s0, initial_peer_id, b, order) == Some(
                        (self@, effects_view(r@)),
                    ));
                    r
                } else {
                    // Keep syncing from genesis.
                    let weights = match &block.header.next_era_validator_weights {
                        Some(w) => copy_weights(w),
                        None => validator_weights,
                    };
                    self.state = State::SyncingTrustedHash {
                        linear_chain,
                        latest_block,
                        validator_weights: weights,
                    };
                    let r = self.fetch_next_block_deploys();
                    assert(spec_handle_block_processed(s0, initial_peer_id, b, order) == Some(
                        (self@, effects_view(r@)),
                    ));
                    r
                }
            },
            State::SyncingDescendants { latest_block, validators_for_next_block } => {
                let weights = match &block.header.next_era_validator_weights {
                    Some(w) => copy_weights(w),
                    None => validators_for_next_block,
                };
                self.state = State::SyncingDescendants {
                    latest_block,
                    validators_for_next_block: weights,
                };
                let ghost mid = self@;
                assert forall|o: Seq<I>| #[trigger]
                    spec_fetch_next_block(mid, initial_peer_id, b.header, o) is Some by {
                    assert(spec_handle_block_processed(s0, initial_peer_id, b, o) is Some);
                    assert(spec_fetch_next_block(mid, initial_peer_id, b.header, o)
                        == spec_handle_block_processed(s0, initial_peer_id, b, o));
                }
                let r = self.fetch_next_block(rng, initial_peer_id, &block.header);
                let ghost o2 = choose|o: Seq<I>|
                    spec_fetch_next_block(mid, initial_peer_id, b.header, o) == Some(
                        (self@, effects_view(r@)),
                    );
                assert(spec_fetch_next_block(mid, initial_peer_id, b.header, o2) == Some(
                    (self@, effects_view(r@)),
                ));
                assert(spec_handle_block_processed(s0, initial_peer_id, b, o2) == Some(
                    (self@, effects_view(r@)),
                ));
                r
            },
        }
    }
}

/// The model of what [`LinearChainFastSync::extract_block_by_hash_result`] returns.
pub open spec fn found_or_retry_view<I>(r: FoundOrRetry<&Box<Block>, Effects<I>>) -> FoundOrRetry<
    BlockModel,
    Seq<EffectModel<I>>,
> {
    match r {
        FoundOrRetry::Found(b) => FoundOrRetry::Found((**b)@),
        FoundOrRetry::Retry(e) => FoundOrRetry::Retry(effects_view(e@)),
    }
}

impl<I: Copy + PartialEq> LinearChainFastSync<I> {
    /// Extracts a `Box<Block>` from a [BlockByHashResult].
    /// Creates retry [Effects] to try to get it again if it was not found.
    pub fn extract_block_by_hash_result<'a>(
        &mut self,
        rng: &mut StdRng,
        initial_peer_id: I,
        block_hash: BlockHash,
        block_by_hash_result: &'a BlockByHashResult<I>,
    ) -> (r: FoundOrRetry<&'a Box<Block>, Effects<I>>)
        requires
            obeys_concrete_eq::<I>(),
            forall|order: Seq<I>|
                #![trigger spec_extract_block_by_hash_result(old(self)@, initial_peer_id, block_hash@, block_by_hash_result@, order)]
                spec_extract_block_by_hash_result(
                    old(self)@,
                    initial_peer_id,
                    block_hash@,
                    block_by_hash_result@,
                    order,
                ) is Some,
        ensures
            exists|order: Seq<I>|
                #![trigger spec_extract_block_by_hash_result(old(self)@, initial_peer_id, block_hash@, block_by_hash_result@, order)]
                spec_extract_block_by_hash_result(
                    old(self)@,
                    initial_peer_id,
                    block_hash@,
                    block_by_hash_result@,
                    order,
                ) == Some((final(self)@, found_or_retry_view(r))),
    {
        let ghost s0 = self@;
        let ghost res = block_by_hash_result@;
        let ghost known = self@.peers.known;
        assert(spec_extract_block_by_hash_result(s0, initial_peer_id, block_hash@, res, known) is Some);
        match block_by_hash_result {
            FetchResultOrAbsent::Absent(peer) => {
                self.old_peers.mark_peer_did_not_have_data(peer);
                let ghost mid = self@;
                let effects = self.fetch_block_by_hash(rng, initial_peer_id, block_hash);
                let ghost o = choose|o: Seq<I>|
                    spec_fetch_block_by_hash(mid, initial_peer_id, block_hash@, o) == (
                    self@,
                    effects_view(effects@),
                );
                assert(spec_fetch_block_by_hash(mid, initial_peer_id, block_hash@, o) == (
                self@, effects_view(effects@)));
                let r = FoundOrRetry::Retry(effects);
                assert(spec_extract_block_by_hash_result(s0, initial_peer_id, block_hash@, res, o)
                    == Some((self@, found_or_retry_view(r))));
                r
            },
            FetchResultOrAbsent::FetchResult(FetchResult::FromStorage(block)) => {
                // Storage holds only sound blocks: the hashes agree.
                let r = FoundOrRetry::Found(block);
                assert(spec_extract_block_by_hash_result(s0, initial_peer_id, block_hash@, res, known)
                    == Some((self@, found_or_retry_view(r))));
                r
            },
            FetchResultOrAbsent::FetchResult(FetchResult::FromPeer(block, peer)) => {
                // The hash of the header must be the hash asked for and the
                // hash the block states; the body must have the hash the
                // header expects. If not, the peer is banned and the block
                // asked for from another.
                let actual_block_hash = block.header.hash;
                let actual_body_hash = block.body_hash;
                if !actual_block_hash.same_as(&block_hash) || !actual_block_hash.same_as(&block.hash)
                    || !actual_body_hash.same_as(&block.header.body_hash) {
                    let next_initial = self.ban_peer(initial_peer_id, peer);
                    let ghost mid = self@;
                    let effects = self.fetch_block_by_hash(rng, next_initial, block_hash);
                    let ghost o = choose|o: Seq<I>|
                        spec_fetch_block_by_hash(mid, next_initial, block_hash@, o) == (
                        self@,
                        effects_view(effects@),
                    );
                    assert(spec_fetch_block_by_hash(mid, next_initial, block_hash@, o) == (
                    self@, effects_view(effects@)));
                    let r = FoundOrRetry::Retry(effects);
                    assert(spec_extract_block_by_hash_result(s0, initial_peer_id, block_hash@, res, o)
                        == Some((self@, found_or_retry_view(r))));
                    r
                } else {
                    self.old_peers.mark_peer_as_had_success_with(*peer);
                    let r = FoundOrRetry::Found(block);
                    assert(spec_extract_block_by_hash_result(s0, initial_peer_id, block_hash@, res, known)
                        == Some((self@, found_or_retry_view(r))));
                    r
                }
            },
        }
    }
}

impl<I: Copy + PartialEq> LinearChainFastSync<I> {
    /// `peer` had no block at `block_height`: asks the next peer, or, with no
    /// peer left, ends the sync (all descendants of the trusted hash are synced).
    fn block_height_absent(&mut self, block_height: u64, peer: I) -> (r: Effects<I>)
        requires
            obeys_concrete_eq::<I>(),
        ensures
            spec_height_absent(old(self)@, block_height, peer) == (final(self)@, effects_view(r@)),
    {
        self.old_peers.mark_peer_did_not_have_data(&peer);
        match self.old_peers.get_peer() {
            None => {
                self.mark_as_done();
                no_effects()
            },
            Some(next) => fetch_block_at_height(next, block_height),
        }
    }

    /// Handles `event` (see [`spec_handle_event`]): returns the effects for
    /// the node's runtime to perform.
    pub fn handle_event(&mut self, rng: &mut StdRng, event: Event<I>) -> (r: Effects<I>)
        requires
            obeys_concrete_eq::<I>(),
            forall|order: Seq<I>|
                #![trigger spec_handle_event(old(self)@, event@, order)]
                spec_handle_event(old(self)@, event@, order) is Some,
        ensures
            exists|order: Seq<I>|
                #![trigger spec_handle_event(old(self)@, event@, order)]
                spec_handle_event(old(self)@, event@, order) == Some(
                    (final(self)@, effects_view(r@)),
                ),
    {
        let ghost s0 = self@;
        let ghost ev = event@;
        let ghost known = s0.peers.known;
        assert(spec_handle_event(s0, ev, known) is Some);
        let trusted_hash = match self.trusted_hash {
            Some(h) => h,
            None => {
                // If there is no trusted hash, there is nothing to sync.
                let r = no_effects();
                assert(spec_handle_event(s0, ev, known) == Some((self@, effects_view(r@))));
                return r;
            },
        };
        match event {
            Event::NewPeerConnected(peer_id) => {
                self.old_peers.add_peer(peer_id);
                if self.initial_peer_id.is_none() {
                    self.initial_peer_id = Some(peer_id);
                }
                // The peer joins the pool for fast sync, which starts with the first peer.
                let r = one_effect(Effect::JoinPeerPool { peer: peer_id, trusted_hash });
                assert(spec_handle_event(s0, ev, known) == Some((self@, effects_view(r@))));
                r
            },
            Event::Done => {
                let initial_peer_id = match self.initial_peer_id {
                    Some(p) => p,
                    None => {
                        proof {
                            assert(false);
                        }
                        return no_effects();
                    },
                };
                let r = self.fetch_block_by_hash(rng, initial_peer_id, trusted_hash);
                let ghost o = choose|o: Seq<I>|
                    spec_fetch_block_by_hash(s0, initial_peer_id, trusted_hash@, o) == (
                    self@,
                    effects_view(r@),
                );
                assert(spec_fetch_block_by_hash(s0, initial_peer_id, trusted_hash@, o) == (
                self@, effects_view(r@)));
                assert(spec_handle_event(s0, ev, o) == Some((self@, effects_view(r@))));
                r
            },
            Event::GetBlockHeightResult(block_height, fetch_result) => match fetch_result {
                FetchResultOrAbsent::Absent(peer) => {
                    let r = self.block_height_absent(block_height, peer);
                    assert(spec_handle_event(s0, ev, known) == Some((self@, effects_view(r@))));
                    r
                },
                FetchResultOrAbsent::FetchResult(FetchResult::FromStorage(block)) => {
                    // Storage holds the block at the height asked for.
                    let initial_peer_id = match self.initial_peer_id {
                        Some(p) => p,
                        None => {
                            proof {
                                assert(false);
                            }
                            return no_effects();
                        },
                    };
                    assert forall|o: Seq<I>| #[trigger]
                        spec_block_downloaded(s0, initial_peer_id, (*block)@, o) is Some by {
                        assert(spec_handle_event(s0, ev, o) is Some);
                    }
                    let r = self.block_downloaded(rng, initial_peer_id, &block);
                    let ghost o = choose|o: Seq<I>|
                        spec_block_downloaded(s0, initial_peer_id, (*block)@, o) == Some(
                            (self@, effects_view(r@)),
                        );
                    assert(spec_block_downloaded(s0, initial_peer_id, (*block)@, o) == Some(
                        (self@, effects_view(r@)),
                    ));
                    assert(spec_handle_event(s0, ev, o) == Some((self@, effects_view(r@))));
                    r
                },
                FetchResultOrAbsent::FetchResult(FetchResult::FromPeer(block, peer)) => {
                    let mismatch = if block.height() != block_height {
                        true
                    } else {
                        match self.latest_block() {
                            Some(latest) => !block.header.parent_hash.same_as(&latest.header.hash),
                            None => {
                                proof {
                                    assert(false);
                                }
                                return no_effects();
                            },
                        }
                    };
                    if mismatch {
                        // The peer sent another block than the one asked for:
                        // it is banned, and counts as not having the block.
                        self.old_peers.ban(&peer);
                        let r = self.block_height_absent(block_height, peer);
                        assert(spec_handle_event(s0, ev, known) == Some((self@, effects_view(r@))));
                        r
                    } else {
                        self.old_peers.mark_peer_as_had_success_with(peer);
                        let initial_peer_id = match self.initial_peer_id {
                            Some(p) => p,
                            None => {
                                proof {
                                    assert(false);
                                }
                                return no_effects();
                            },
                        };
                        let ghost mid = self@;
                        assert forall|o: Seq<I>| #[trigger]
                            spec_block_downloaded(mid, initial_peer_id, (*block)@, o) is Some by {
                            assert(spec_handle_event(s0, ev, o) is Some);
                        }
                        let r = self.block_downloaded(rng, initial_peer_id, &block);
                        let ghost o = choose|o: Seq<I>|
                            spec_block_downloaded(mid, initial_peer_id, (*block)@, o) == Some(
                                (self@, effects_view(r@)),
                            );
                        assert(spec_block_downloaded(mid, initial_peer_id, (*block)@, o) == Some(
                            (self@, effects_view(r@)),
                        ));
                        assert(spec_handle_event(s0, ev, o) == Some((self@, effects_view(r@))));
                        r
                    }
                },
            },
            Event::GetBlockHashResult(block_hash, block_by_hash_result) => {
                let initial_peer_id = match self.initial_peer_id {
                    Some(p) => p,
                    None => {
                        proof {
                            assert(false);
                        }
                        return no_effects();
                    },
                };
                let ghost res = block_by_hash_result@;
                assert forall|o: Seq<I>| #[trigger]
                    spec_extract_block_by_hash_result(
                        s0,
                        initial_peer_id,
                        block_hash@,
                        res,
                        o,
                    ) is Some by {
                    assert(spec_handle_event(s0, ev, o) is Some);
                }
                match self.extract_block_by_hash_result(
                    rng,
                    initial_peer_id,
                    block_hash,
                    &block_by_hash_result,
                ) {
                    FoundOrRetry::Retry(effects) => {
                        let ghost o = choose|o: Seq<I>|
                            spec_extract_block_by_hash_result(
                                s0,
                                initial_peer_id,
                                block_hash@,
                                res,
                                o,
                            ) == Some((self@, FoundOrRetry::<BlockModel, Seq<EffectModel<I>>>::Retry(effects_view(effects@))));
                        assert(spec_extract_block_by_hash_result(
                            s0,
                            initial_peer_id,
                            block_hash@,
                            res,
                            o,
                        ) == Some((self@, FoundOrRetry::<BlockModel, Seq<EffectModel<I>>>::Retry(effects_view(effects@)))));
                        assert(spec_handle_event(s0, ev, o) == Some((self@, effects_view(effects@))));
                        effects
                    },
                    FoundOrRetry::Found(block) => {
                        let ghost mid = self@;
                        let ghost b = (**block)@;
                        let ghost o1 = choose|o: Seq<I>|
                            spec_extract_block_by_hash_result(
                                s0,
                                initial_peer_id,
                                block_hash@,
                                res,
                                o,
                            ) == Some((mid, FoundOrRetry::<BlockModel, Seq<EffectModel<I>>>::Found(b)));
                        assert(spec_extract_block_by_hash_result(
                            s0,
                            initial_peer_id,
                            block_hash@,
                            res,
                            o1,
                        ) == Some((mid, FoundOrRetry::<BlockModel, Seq<EffectModel<I>>>::Found(b))));
                        let initial_peer_id = match self.initial_peer_id {
                            Some(p) => p,
                            None => {
                                proof {
                                    assert(false);
                                }
                                return no_effects();
                            },
                        };
                        assert forall|o: Seq<I>| #[trigger]
                            spec_block_downloaded(mid, initial_peer_id, b, o) is Some by {
                            assert(spec_handle_event(s0, ev, o) is Some);
                        }
                        let r = self.block_downloaded(rng, initial_peer_id, &**block);
                        let ghost o = choose|o: Seq<I>|
                            spec_block_downloaded(mid, initial_peer_id, b, o) == Some(
                                (self@, effects_view(r@)),
                            );
                        assert(spec_block_downloaded(mid, initial_peer_id, b, o) == Some(
                            (self@, effects_view(r@)),
                        ));
                        assert(spec_handle_event(s0, ev, o) == Some((self@, effects_view(r@))));
                        r
                    },
                }
            },
            Event::GetDeploysResult(fetch_result) => match fetch_result {
                DeploysResult::Found(block) => {
                    // Reset used peers so we can download next block with the full set.
                    self.old_peers.reset_peers_to_try(rng);
                    let ghost order = self.old_peers@.candidates;
                    // Execute block
                    let r = one_effect(Effect::ExecuteBlock(*block));
                    assert(spec_handle_event(s0, ev, order) == Some((self@, effects_view(r@))));
                    r
                },
                DeploysResult::NotFound(block, peer) => {
                    self.old_peers.mark_peer_did_not_have_data(&peer);
                    match self.old_peers.get_peer() {
                        None => {
                            proof {
                                assert(false);
                            }
                            no_effects()
                        },
                        Some(next) => {
                            let r = fetch_block_deploys(next, *block);
                            assert(spec_handle_event(s0, ev, known) == Some(
                                (self@, effects_view(r@)),
                            ));
                            r
                        },
                    }
                },
            },
            Event::StartDownloadingDeploys => {
                // Start downloading deploys from the first block of the linear chain.
                self.old_peers.reset_peers_to_try(rng);
                let ghost order = self.old_peers@.candidates;
                assert(spec_handle_event(s0, ev, order) is Some);
                let r = self.fetch_next_block_deploys();
                assert(spec_handle_event(s0, ev, order) == Some((self@, effects_view(r@))));
                r
            },
            Event::BlockHandled(block) => {
                let initial_peer_id = match self.initial_peer_id {
                    Some(p) => p,
                    None => {
                        proof {
                            assert(false);
                        }
                        return no_effects();
                    },
                };
                let ghost b = (*block)@;
                assert forall|o: Seq<I>| #[trigger]
                    spec_handle_block_processed(s0, initial_peer_id, b, o) is Some by {
                    assert(spec_handle_event(s0, ev, o) is Some);
                }
                let r = self.handle_block_processed_by_linear_chain(rng, initial_peer_id, *block);
                let ghost o = choose|o: Seq<I>|
                    spec_handle_block_processed(s0, initial_peer_id, b, o) == Some(
                        (self@, effects_view(r@)),
                    );
                assert(spec_handle_block_processed(s0, initial_peer_id, b, o) == Some(
                    (self@, effects_view(r@)),
                ));
                assert(spec_handle_event(s0, ev, o) == Some((self@, effects_view(r@))));
                r
            },
        }
    }
}

/// Law: without a trusted hash there is nothing to sync: every event is
/// dropped, with no effect and no change.
pub proof fn without_trusted_hash_events_are_dropped<I>(
    s: FastSyncModel<I>,
    e: EventModel<I>,
    order: Seq<I>,
)
    requires
        s.trusted_hash is None,
    ensures
        spec_handle_event(s, e, order) == Some((s, Seq::<EffectModel<I>>::empty())),
{
}

/// Law: once the last peer had no block at the next height, the sync is
/// done and stays done.
pub proof fn sync_ends_when_no_peer_has_the_next_block<I>(
    s: FastSyncModel<I>,
    height: u64,
    peer: I,
    e: EventModel<I>,
    order: Seq<I>,
)
    requires
        spec_get_peer(spec_mark_no_data(s.peers, peer)).1 is None,
    ensures
        spec_height_absent(s, height, peer).0.trusted_hash is None,
        spec_height_absent(s, height, peer).1.len() == 0,
        spec_handle_event(spec_height_absent(s, height, peer).0, e, order) == Some(
            (spec_height_absent(s, height, peer).0, Seq::<EffectModel<I>>::empty()),
        ),
{
}

/// Law: a block downloaded while syncing descendants becomes the latest
/// block, and it is the block whose deploys are asked for next, with its own
/// timestamp; the validators for the next block stay.
pub proof fn downloaded_descendant_is_validated_next<I>(
    s: FastSyncModel<I>,
    initial_peer: I,
    b: BlockModel,
    order: Seq<I>,
    s2: FastSyncModel<I>,
    effects: Seq<EffectModel<I>>,
)
    requires
        s.state is SyncingDescendants,
        spec_block_downloaded(s, initial_peer, b, order) == Some((s2, effects)),
    ensures
        spec_latest_block(s2) == Some(b),
        s2.state == (StateModel::SyncingDescendants {
            latest_block: b,
            validators_for_next_block: s.state->validators_for_next_block,
        }),
        effects.len() == 1,
        (effects[0] matches EffectModel::ValidateBlock { block, timestamp, .. } && block == b
            && timestamp == b.header.timestamp),
{
}

/// Law: a block downloaded while syncing up to the trusted hash joins the
/// end of the chain of downloaded blocks and counts towards the highest
/// block seen; then its parent is asked for, unless it is the first block
/// after genesis, when the download of deploys starts.
pub proof fn downloaded_ancestor_joins_chain<I>(
    s: FastSyncModel<I>,
    initial_peer: I,
    b: BlockModel,
    order: Seq<I>,
    s2: FastSyncModel<I>,
    effects: Seq<EffectModel<I>>,
)
    requires
        s.state is SyncingTrustedHash,
        spec_block_downloaded(s, initial_peer, b, order) == Some((s2, effects)),
    ensures
        s2.state == (StateModel::SyncingTrustedHash {
            linear_chain: s.state->linear_chain.push(b),
            latest_block: s.state->SyncingTrustedHash_latest_block,
            validator_weights: s.state->validator_weights,
        }),
        s2.highest_block_seen >= b.header.height,
        s2.highest_block_seen >= s.highest_block_seen,
        s2.highest_block_seen == b.header.height || s2.highest_block_seen == s.highest_block_seen,
        spec_is_genesis_child(b.header) ==> effects == seq![EffectModel::<I>::StartDownloadingDeploys],
        !spec_is_genesis_child(b.header) ==> effects.len() == 1,
        !spec_is_genesis_child(b.header) ==> effects[0] is FetchBlockByHash,
        !spec_is_genesis_child(b.header) ==> effects[0]->block_hash == b.header.parent_hash,
{
}

/// Law: a block downloaded while syncing descendants is handled, rather than
/// ending in failure, exactly where a peer is left to ask for its deploys
/// once the peers to try are reset.
pub proof fn downloaded_descendant_needs_a_peer<I>(
    s: FastSyncModel<I>,
    initial_peer: I,
    b: BlockModel,
    order: Seq<I>,
)
    requires
        s.state is SyncingDescendants,
    ensures
        spec_block_downloaded(s, initial_peer, b, order) is Some <==> spec_get_peer(
            spec_reset(s.peers, order),
        ).1 is Some,
{
}

/// Law: while syncing descendants, a block that a peer sent for the height
/// asked for, whose parent is the latest block, becomes the latest block and
/// is the block whose deploys are asked for next.
pub proof fn block_at_next_height_is_validated_next<I>(
    s: FastSyncModel<I>,
    height: u64,
    b: BlockModel,
    peer: I,
    order: Seq<I>,
    s2: FastSyncModel<I>,
    effects: Seq<EffectModel<I>>,
)
    requires
        s.trusted_hash is Some,
        s.state is SyncingDescendants,
        b.header.height == height,
        b.header.parent_hash == s.state->SyncingDescendants_latest_block.header.hash,
        spec_handle_event(
            s,
            EventModel::GetBlockHeightResult(
                height,
                FetchResultOrAbsentModel::FetchResult(FetchResultModel::FromPeer(b, peer)),
            ),
            order,
        ) == Some((s2, effects)),
    ensures
        spec_latest_block(s2) == Some(b),
        effects.len() == 1,
        (effects[0] matches EffectModel::ValidateBlock { block, timestamp, .. } && block == b
            && timestamp == b.header.timestamp),
{
    downloaded_descendant_is_validated_next(
        with_peers(s, spec_mark_success(s.peers, peer)),
        s.initial_peer_id->Some_0,
        b,
        order,
        s2,
        effects,
    );
}

/// Law: after a peer did not have the deploys of block `b`, it is no longer
/// among the peers that served before (the others stay), and the deploys of
/// `b` are asked for again, from that peer only where it was still among the
/// peers to try.
pub proof fn peer_without_deploys_is_not_asked_again<I>(
    s: FastSyncModel<I>,
    b: BlockModel,
    peer: I,
    order: Seq<I>,
    s2: FastSyncModel<I>,
    effects: Seq<EffectModel<I>>,
)
    requires
        s.trusted_hash is Some,
        spec_handle_event(s, EventModel::GetDeploysResult(DeploysResultModel::NotFound(b, peer)), order)
            == Some((s2, effects)),
    ensures
        !s2.peers.successful.contains(peer),
        forall|x: I|
            x != peer ==> (#[trigger] s2.peers.successful.contains(x) <==> s.peers.successful.contains(
                x,
            )),
        effects.len() == 1,
        (effects[0] matches EffectModel::ValidateBlock { peer: next, block, timestamp } && block == b
            && timestamp == b.header.timestamp && (next == peer ==> s.peers.candidates.contains(peer))),
{
    peer_without_data_is_not_preferred(s.peers, peer);
}

/// An event of a reactor that runs this synchroniser: it carries the
/// synchroniser's requests to the components that serve them.
pub trait ReactorEventT<I>: From<Effect<I>> + Send {

}

impl<I, REv: From<Effect<I>> + Send> ReactorEventT<I> for REv {

}

/// What to make of an item fetched during fast sync: the item, a peer to
/// ban for sending another one than asked for, or that the peer did not have it.
#[derive(Debug)]
pub enum FetchCheck<T, I> {
    Found(T),
    Ban(I),
    NotFound,
}

/// Checks a block fetched for its header by `block_hash`: one from a peer
/// must have a header with that hash.
pub fn check_fetched_header<I>(block_hash: &BlockHash, fetched: Option<FetchResult<Block, I>>) -> (r:
    FetchCheck<BlockHeader, I>)
    ensures
        match fetched {
            None => r is NotFound,
            Some(FetchResult::FromStorage(b)) => r matches FetchCheck::Found(h) && h@ == b@.header,
            Some(FetchResult::FromPeer(b, peer)) => if b@.header.hash == block_hash@ {
                r matches FetchCheck::Found(h) && h@ == b@.header
            } else {
                r matches FetchCheck::Ban(p) && p == peer
            },
        },
{
    match fetched {
        None => FetchCheck::NotFound,
        Some(FetchResult::FromStorage(block)) => FetchCheck::Found(block.header.copy()),
        Some(FetchResult::FromPeer(block, peer)) => {
            if !block_hash.same_as(&block.header.hash) {
                FetchCheck::Ban(peer)
            } else {
                FetchCheck::Found(block.header.copy())
            }
        },
    }
}

/// Checks a trie fetched by `trie_key`: one from a peer must hash to that key.
pub fn check_fetched_trie<K: FromBytes, V: FromBytes, I>(
    trie_key: &Blake2bHash,
    fetched: Option<FetchResult<Trie<K, V>, I>>,
) -> (r: FetchCheck<Trie<K, V>, I>)
    requires
        fetched matches Some(FetchResult::FromPeer(t, _)) ==> crate::trie::trie_bytes::<K, V>(
            t.deep_view(),
        ).len() <= crate::bytesrepr::max_repr_len(),
    ensures
        match fetched {
            None => r is NotFound,
            Some(FetchResult::FromStorage(t)) => r matches FetchCheck::Found(x) && x.deep_view()
                == t.deep_view(),
            Some(FetchResult::FromPeer(t, peer)) => if trie_hash::<K, V>(t.deep_view()) == trie_key@ {
                r matches FetchCheck::Found(x) && x.deep_view() == t.deep_view()
            } else {
                r matches FetchCheck::Ban(p) && p == peer
            },
        },
{
    match fetched {
        None => FetchCheck::NotFound,
        Some(FetchResult::FromStorage(trie)) => FetchCheck::Found(*trie),
        Some(FetchResult::FromPeer(trie, peer)) => {
            let id = match trie.merkle_hash() {
                Ok(h) => h,
                Err(_) => {
                    proof {
                        assert(false);
                    }
                    return FetchCheck::Ban(peer);
                },
            };
            if !id.same_as(trie_key) {
                FetchCheck::Ban(peer)
            } else {
                FetchCheck::Found(*trie)
            }
        },
    }
}

} // verus!
