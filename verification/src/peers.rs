//! Bookkeeping of the peers a synchroniser asks for data: which it knows,
//! which it has not tried yet, and which have served it before.
use rand::rngs::StdRng;
use rand::seq::SliceRandom;
use std::collections::VecDeque;
use vstd::laws_eq::obeys_concrete_eq;
use vstd::prelude::*;

verus! {

/// How many retrievals in a row may go to peers that served before; after
/// that a new peer gets a turn.
pub const MAX_SUCCESSFUL_DATA_RETRIEVALS: u8 = 5;

#[verifier::external_type_specification]
#[verifier::external_body]
pub struct ExStdRng(StdRng);

/// Puts the items of `items` in a random order with rand's
/// `SliceRandom::shuffle`. The contract claims only that the result holds the
/// same items, each as often as before; the order depends on `rng`.
#[verifier::external_body]
fn shuffle_vec<I>(items: &mut Vec<I>, rng: &mut StdRng)
    ensures
        final(items)@.to_multiset() == old(items)@.to_multiset(),
        final(items)@.len() == old(items)@.len(),
{
    items.as_mut_slice().shuffle(rng);
}

/// The model of a [`PeersState`].
pub struct PeersModel<I> {
    /// The peers we know of.
    pub known: Seq<I>,
    /// The peers not yet asked; the next one is taken from the end.
    pub candidates: Seq<I>,
    /// The peers that served us before, the next one first.
    pub successful: Seq<I>,
    /// How many retrievals have recently succeeded.
    pub recent_successes: u8,
}

/// The peers of a synchroniser.
#[derive(Debug)]
pub struct PeersState<I> {
    /// Set of peers that we know of.
    peers_we_know_of: Vec<I>,
    /// Peers we have not yet requested data from.
    candidate_peers_to_try_to_get_data_from: Vec<I>,
    /// Peers we have previously successfully downloaded data from.
    /// These peers are preferred when trying to retrieve data from next.
    peers_we_have_previously_had_success_with: VecDeque<I>,
    /// A count of the number of times we have recently successfully downloaded data from a peer.
    number_of_recent_successful_retrievals_from_peers: u8,
}

impl<I> View for PeersState<I> {
    type V = PeersModel<I>;

    closed spec fn view(&self) -> PeersModel<I> {
        PeersModel {
            known: self.peers_we_know_of@,
            candidates: self.candidate_peers_to_try_to_get_data_from@,
            successful: self.peers_we_have_previously_had_success_with@,
            recent_successes: self.number_of_recent_successful_retrievals_from_peers,
        }
    }
}

/// Rotates the first peer that served before to the back, and names it.
pub open spec fn spec_take_successful<I>(m: PeersModel<I>) -> (PeersModel<I>, Option<I>) {
    if m.successful.len() == 0 {
        (m, None)
    } else {
        let p = m.successful[0];
        (PeersModel { successful: m.successful.drop_first().push(p), ..m }, Some(p))
    }
}

/// Takes the last untried peer, if any.
pub open spec fn spec_take_candidate<I>(m: PeersModel<I>) -> (PeersModel<I>, Option<I>) {
    if m.candidates.len() == 0 {
        (m, None)
    } else {
        (PeersModel { candidates: m.candidates.drop_last(), ..m }, Some(m.candidates.last()))
    }
}

/// The choice of the next peer: one that served before while fewer than
/// `MAX_SUCCESSFUL_DATA_RETRIEVALS` retrievals have succeeded in a row, else
/// an untried one (and the count starts over); each kind falls back on the other.
pub open spec fn spec_get_peer<I>(m: PeersModel<I>) -> (PeersModel<I>, Option<I>) {
    if m.recent_successes < MAX_SUCCESSFUL_DATA_RETRIEVALS {
        let (m1, r) = spec_take_successful(m);
        if r is Some {
            (m1, r)
        } else {
            spec_take_candidate(m1)
        }
    } else {
        let m0 = PeersModel { recent_successes: 0, ..m };
        let (m1, r) = spec_take_candidate(m0);
        if r is Some {
            (m1, r)
        } else {
            spec_take_successful(m1)
        }
    }
}

/// The peers after a reset that put the known peers in the order `order`
/// (taken as the known order where it does not hold the known peers).
pub open spec fn spec_reset<I>(m: PeersModel<I>, order: Seq<I>) -> PeersModel<I> {
    PeersModel {
        candidates: if reset_order_ok(m, order) {
            order
        } else {
            m.known
        },
        ..m
    }
}

/// `order` holds the known peers, each as often as it is known.
pub open spec fn reset_order_ok<I>(m: PeersModel<I>, order: Seq<I>) -> bool {
    order.to_multiset() == m.known.to_multiset() && order.len() == m.known.len()
}

/// The peers after `peer` is banned.
pub open spec fn spec_ban<I>(m: PeersModel<I>, peer: I) -> PeersModel<I> {
    PeersModel {
        known: without(m.known, peer),
        candidates: without(m.candidates, peer),
        successful: without(m.successful, peer),
        recent_successes: m.recent_successes,
    }
}

/// The peers after `peer` connects.
pub open spec fn spec_add_peer<I>(m: PeersModel<I>, peer: I) -> PeersModel<I> {
    PeersModel {
        known: if m.known.contains(peer) {
            m.known
        } else {
            m.known.push(peer)
        },
        candidates: if m.candidates.contains(peer) {
            m.candidates
        } else {
            m.candidates.push(peer)
        },
        ..m
    }
}

/// The peers after `peer` did not have the data asked for.
pub open spec fn spec_mark_no_data<I>(m: PeersModel<I>, peer: I) -> PeersModel<I> {
    PeersModel { successful: without(m.successful, peer), ..m }
}

/// The peers after `peer` served the data asked for.
pub open spec fn spec_mark_success<I>(m: PeersModel<I>, peer: I) -> PeersModel<I> {
    PeersModel {
        successful: m.successful.push(peer),
        recent_successes: (m.recent_successes + 1) as u8,
        ..m
    }
}

/// `s` without the occurrences of `peer`.
pub open spec fn without<I>(s: Seq<I>, peer: I) -> Seq<I> {
    s.filter(|p: I| p != peer)
}

/// Copies `v` leaving out every occurrence of `peer`.
fn vec_without<I: Copy + PartialEq>(v: &Vec<I>, peer: &I) -> (r: Vec<I>)
    requires
        obeys_concrete_eq::<I>(),
    ensures
        r@ == without(v@, *peer),
{
    let mut r: Vec<I> = Vec::new();
    let mut i: usize = 0;
    while i < v.len()
        invariant
            obeys_concrete_eq::<I>(),
            0 <= i <= v@.len(),
            r@ == without(v@.take(i as int), *peer),
        decreases v@.len() - i,
    {
        let p = v[i];
        proof {
            reveal(obeys_concrete_eq);
            assert(v@.take(i + 1).drop_last() =~= v@.take(i as int));
            reveal_with_fuel(Seq::<_>::filter, 1);
        }
        if p != *peer {
            r.push(p);
        }
        i = i + 1;
    }
    assert(v@.take(v@.len() as int) =~= v@);
    r
}

/// Copies `v` leaving out every occurrence of `peer`.
fn deque_without<I: Copy + PartialEq>(v: &VecDeque<I>, peer: &I) -> (r: VecDeque<I>)
    requires
        obeys_concrete_eq::<I>(),
    ensures
        r@ == without(v@, *peer),
{
    let mut r: VecDeque<I> = VecDeque::new();
    let mut i: usize = 0;
    while i < v.len()
        invariant
            obeys_concrete_eq::<I>(),
            0 <= i <= v@.len(),
            r@ == without(v@.take(i as int), *peer),
        decreases v@.len() - i,
    {
        let p = v[i];
        proof {
            reveal(obeys_concrete_eq);
            assert(v@.take(i + 1).drop_last() =~= v@.take(i as int));
            reveal_with_fuel(Seq::<_>::filter, 1);
        }
        if p != *peer {
            r.push_back(p);
        }
        i = i + 1;
    }
    assert(v@.take(v@.len() as int) =~= v@);
    r
}

/// Whether `v` holds `peer`.
fn vec_contains<I: Copy + PartialEq>(v: &Vec<I>, peer: &I) -> (r: bool)
    requires
        obeys_concrete_eq::<I>(),
    ensures
        r == v@.contains(*peer),
{
    let mut i: usize = 0;
    while i < v.len()
        invariant
            obeys_concrete_eq::<I>(),
            0 <= i <= v@.len(),
            forall|j: int| 0 <= j < i ==> v@[j] != *peer,
        decreases v@.len() - i,
    {
        proof {
            reveal(obeys_concrete_eq);
        }
        if v[i] == *peer {
            return true;
        }
        i = i + 1;
    }
    false
}

impl<I: Copy + PartialEq> PeersState<I> {
    /// No peers, and no successes yet.
    pub fn new() -> (s: Self)
        ensures
            s@ == (PeersModel::<I> {
                known: Seq::empty(),
                candidates: Seq::empty(),
                successful: Seq::empty(),
                recent_successes: 0,
            }),
    {
        PeersState {
            peers_we_know_of: Vec::new(),
            candidate_peers_to_try_to_get_data_from: Vec::new(),
            peers_we_have_previously_had_success_with: VecDeque::new(),
            number_of_recent_successful_retrievals_from_peers: 0,
        }
    }

    /// Resets the peers to try back to all the peers we know of, in a random order.
    pub fn reset_peers_to_try(&mut self, rng: &mut StdRng)
        ensures
            reset_order_ok(old(self)@, final(self)@.candidates),
            final(self)@ == spec_reset(old(self)@, final(self)@.candidates),
    {
        let mut candidates: Vec<I> = Vec::new();
        let mut i: usize = 0;
        while i < self.peers_we_know_of.len()
            invariant
                0 <= i <= self.peers_we_know_of@.len(),
                candidates@ == self.peers_we_know_of@.take(i as int),
            decreases self.peers_we_know_of@.len() - i,
        {
            candidates.push(self.peers_we_know_of[i]);
            assert(candidates@ =~= self.peers_we_know_of@.take(i + 1));
            i = i + 1;
        }
        assert(candidates@ =~= self.peers_we_know_of@);
        shuffle_vec(&mut candidates, rng);
        self.candidate_peers_to_try_to_get_data_from = candidates;
    }

    /// Returns either a peer we have previously been successful getting data
    /// from, or a peer we have not tried yet.
    pub fn get_peer(&mut self) -> (r: Option<I>)
        ensures
            (final(self)@, r) == spec_get_peer(old(self)@),
    {
        // We generally prefer peers we have had success with. However, we don't
        // want to overload peers we are getting data from, so we periodically
        // try a new peer, after `MAX_SUCCESSFUL_DATA_RETRIEVALS`.
        if self.number_of_recent_successful_retrievals_from_peers < MAX_SUCCESSFUL_DATA_RETRIEVALS {
            match self.get_peer_with_have_previously_had_success_with() {
                Some(p) => Some(p),
                None => self.candidate_peers_to_try_to_get_data_from.pop(),
            }
        } else {
            self.number_of_recent_successful_retrievals_from_peers = 0;
            match self.candidate_peers_to_try_to_get_data_from.pop() {
                Some(p) => Some(p),
                None => self.get_peer_with_have_previously_had_success_with(),
            }
        }
    }

    /// Like [`Self::get_peer`], for a caller that knows that a peer is available.
    pub fn get_peer_unsafe(&mut self) -> (r: I)
        requires
            spec_get_peer(old(self)@).1 is Some,
        ensures
            (final(self)@, Some(r)) == spec_get_peer(old(self)@),
    {
        self.get_peer().expect("At least one peer available.")
    }

    /// Peer misbehaved (returned us invalid data): forget it everywhere.
    pub fn ban(&mut self, peer: &I)
        requires
            obeys_concrete_eq::<I>(),
        ensures
            final(self)@ == spec_ban(old(self)@, *peer),
    {
        self.peers_we_know_of = vec_without(&self.peers_we_know_of, peer);
        self.candidate_peers_to_try_to_get_data_from = vec_without(
            &self.candidate_peers_to_try_to_get_data_from,
            peer,
        );
        self.peers_we_have_previously_had_success_with = deque_without(
            &self.peers_we_have_previously_had_success_with,
            peer,
        );
    }

    /// Adds a new peer to those we know of and to those to try, where it is not there yet.
    pub fn add_peer(&mut self, peer: I)
        requires
            obeys_concrete_eq::<I>(),
        ensures
            final(self)@ == spec_add_peer(old(self)@, peer),
    {
        if !vec_contains(&self.peers_we_know_of, &peer) {
            self.peers_we_know_of.push(peer);
        }
        if !vec_contains(&self.candidate_peers_to_try_to_get_data_from, &peer) {
            self.candidate_peers_to_try_to_get_data_from.push(peer);
        }
    }

    /// Returns a peer, if any, that we have downloaded data from previously;
    /// it goes to the back of those peers.
    pub fn get_peer_with_have_previously_had_success_with(&mut self) -> (r: Option<I>)
        ensures
            (final(self)@, r) == spec_take_successful(old(self)@),
    {
        let peer = match self.peers_we_have_previously_had_success_with.pop_front() {
            Some(p) => p,
            None => return None,
        };
        self.peers_we_have_previously_had_success_with.push_back(peer);
        Some(peer)
    }

    /// Peer did not respond or did not have the data we asked for.
    pub fn mark_peer_did_not_have_data(&mut self, peer: &I)
        requires
            obeys_concrete_eq::<I>(),
        ensures
            final(self)@ == spec_mark_no_data(old(self)@, *peer),
    {
        self.peers_we_have_previously_had_success_with = deque_without(
            &self.peers_we_have_previously_had_success_with,
            peer,
        );
    }

    /// Peer had the data we asked for: count the success and add it to the
    /// peers we had success with.
    pub fn mark_peer_as_had_success_with(&mut self, peer: I)
        requires
            old(self)@.recent_successes < u8::MAX,
        ensures
            final(self)@ == spec_mark_success(old(self)@, peer),
    {
        self.number_of_recent_successful_retrievals_from_peers += 1;
        self.peers_we_have_previously_had_success_with.push_back(peer);
    }
}


/// No occurrence of `peer` is left in `without(s, peer)`, and every other
/// item of `s` stays.
proof fn lemma_without<I>(s: Seq<I>, peer: I)
    ensures
        !without(s, peer).contains(peer),
        forall|x: I| x != peer ==> (#[trigger] without(s, peer).contains(x) <==> s.contains(x)),
{
    broadcast use vstd::seq_lib::group_filter_ensures;
    let pred = |p: I| p != peer;
    if without(s, peer).contains(peer) {
        let i = choose|i: int| 0 <= i < without(s, peer).len() && without(s, peer)[i] == peer;
        assert(pred(s.filter(pred)[i]));
    }
    assert forall|x: I| x != peer implies (#[trigger] without(s, peer).contains(x) <==> s.contains(
        x,
    )) by {
        if without(s, peer).contains(x) {
            s.lemma_filter_contains_rev(pred, x);
        }
        if s.contains(x) {
            let i = choose|i: int| 0 <= i < s.len() && s[i] == x;
            s.lemma_filter_contains(pred, i);
        }
    }
}

/// Law: after `peer` connects it is known and among the peers to try,
/// whatever peers were known before; no peer known or to try before is lost,
/// and the peers that served before and the count of successes stay as they were.
pub proof fn connected_peer_is_known_and_to_try<I>(m: PeersModel<I>, peer: I)
    ensures
        spec_add_peer(m, peer).known.contains(peer),
        spec_add_peer(m, peer).candidates.contains(peer),
        forall|p: I| #[trigger] m.known.contains(p) ==> spec_add_peer(m, peer).known.contains(p),
        forall|p: I|
            #[trigger] m.candidates.contains(p) ==> spec_add_peer(m, peer).candidates.contains(p),
        spec_add_peer(m, peer).successful == m.successful,
        spec_add_peer(m, peer).recent_successes == m.recent_successes,
{
    let a = spec_add_peer(m, peer);
    if !m.known.contains(peer) {
        assert(m.known.push(peer)[m.known.len() as int] == peer);
    }
    if !m.candidates.contains(peer) {
        assert(m.candidates.push(peer)[m.candidates.len() as int] == peer);
    }
    assert forall|p: I| #[trigger] m.known.contains(p) implies a.known.contains(p) by {
        let i = choose|i: int| 0 <= i < m.known.len() && m.known[i] == p;
        assert(a.known[i] == p);
    }
    assert forall|p: I| #[trigger] m.candidates.contains(p) implies a.candidates.contains(p) by {
        let i = choose|i: int| 0 <= i < m.candidates.len() && m.candidates[i] == p;
        assert(a.candidates[i] == p);
    }
}

/// Law: once a peer has connected there is always a peer to ask; where no
/// peer has served before and the connected peer was not among the peers to
/// try, it is the one asked next, even where it was known already (a peer
/// that reconnects).
pub proof fn connected_peer_is_asked<I>(m: PeersModel<I>, peer: I)
    ensures
        spec_get_peer(spec_add_peer(m, peer)).1 is Some,
        m.successful.len() == 0 && !m.candidates.contains(peer) ==> spec_get_peer(
            spec_add_peer(m, peer),
        ).1 == Some(peer),
{
    connected_peer_is_known_and_to_try(m, peer);
}

/// The peer that `spec_get_peer` names served before or was to be tried, and
/// the peers that served before stay the same.
proof fn lemma_get_peer_from<I>(m: PeersModel<I>)
    ensures
        forall|x: I| #[trigger]
            spec_get_peer(m).0.successful.contains(x) <==> m.successful.contains(x),
        spec_get_peer(m).1 matches Some(x) ==> m.successful.contains(x) || m.candidates.contains(x),
{
    if m.successful.len() > 0 {
        let p = m.successful[0];
        let rot = m.successful.drop_first().push(p);
        assert forall|x: I| #[trigger] rot.contains(x) <==> m.successful.contains(x) by {
            if rot.contains(x) {
                let i = choose|i: int| 0 <= i < rot.len() && rot[i] == x;
                if i < rot.len() - 1 {
                    assert(m.successful[i + 1] == x);
                } else {
                    assert(m.successful[0] == x);
                }
            }
            if m.successful.contains(x) {
                let i = choose|i: int| 0 <= i < m.successful.len() && m.successful[i] == x;
                if i == 0 {
                    assert(rot[rot.len() - 1] == x);
                } else {
                    assert(rot[i - 1] == x);
                }
            }
        }
    }
    if m.candidates.len() > 0 {
        assert(m.candidates.contains(m.candidates.last()));
    }
}

/// Law: after `peer` did not have the data asked for, it is no longer among
/// the peers that served before, so the next peer is `peer` only where it was
/// still to be tried; every other peer that served before stays preferred.
pub proof fn peer_without_data_is_not_preferred<I>(m: PeersModel<I>, peer: I)
    ensures
        !spec_get_peer(spec_mark_no_data(m, peer)).0.successful.contains(peer),
        spec_get_peer(spec_mark_no_data(m, peer)).1 == Some(peer) ==> m.candidates.contains(peer),
        forall|x: I|
            x != peer ==> (#[trigger] spec_get_peer(spec_mark_no_data(m, peer)).0.successful.contains(
                x,
            ) <==> m.successful.contains(x)),
{
    let m1 = spec_mark_no_data(m, peer);
    lemma_without(m.successful, peer);
    lemma_get_peer_from(m1);
}

} // verus!
