use casper_state::peers::{PeersState, MAX_SUCCESSFUL_DATA_RETRIEVALS};
use rand::rngs::StdRng;
use rand::SeedableRng;

#[test]
fn new_state_has_no_peer() {
    let mut peers: PeersState<u64> = PeersState::new();
    assert_eq!(peers.get_peer(), None);
}

#[test]
fn added_peers_are_tried_last_first() {
    let mut peers: PeersState<u64> = PeersState::new();
    peers.add_peer(1);
    peers.add_peer(2);
    peers.add_peer(2);
    assert_eq!(peers.get_peer(), Some(2));
    assert_eq!(peers.get_peer(), Some(1));
    assert_eq!(peers.get_peer(), None);
}

#[test]
fn reset_tries_every_known_peer_again() {
    let mut rng = StdRng::seed_from_u64(7);
    let mut peers: PeersState<u64> = PeersState::new();
    for p in 1..=5 {
        peers.add_peer(p);
    }
    while peers.get_peer().is_some() {}
    peers.reset_peers_to_try(&mut rng);
    let mut seen = Vec::new();
    while let Some(p) = peers.get_peer() {
        seen.push(p);
    }
    seen.sort();
    assert_eq!(seen, vec![1, 2, 3, 4, 5]);
}

#[test]
fn successful_peers_are_preferred_then_rotated() {
    let mut peers: PeersState<u64> = PeersState::new();
    peers.add_peer(1);
    peers.add_peer(2);
    peers.add_peer(3);
    peers.mark_peer_as_had_success_with(1);
    peers.mark_peer_as_had_success_with(2);
    assert_eq!(peers.get_peer(), Some(1));
    assert_eq!(peers.get_peer(), Some(2));
    assert_eq!(peers.get_peer(), Some(1));
    assert_eq!(peers.get_peer_with_have_previously_had_success_with(), Some(2));
}

#[test]
fn after_enough_successes_a_new_peer_gets_a_turn() {
    let mut peers: PeersState<u64> = PeersState::new();
    peers.add_peer(10);
    peers.add_peer(20);
    for _ in 0..MAX_SUCCESSFUL_DATA_RETRIEVALS {
        peers.mark_peer_as_had_success_with(10);
    }
    // The count has reached the limit: an untried peer comes first.
    assert_eq!(peers.get_peer(), Some(20));
    // The count starts over: peers that served come first again.
    assert_eq!(peers.get_peer(), Some(10));
}

#[test]
fn banned_peer_is_forgotten() {
    let mut peers: PeersState<u64> = PeersState::new();
    peers.add_peer(1);
    peers.add_peer(2);
    peers.mark_peer_as_had_success_with(2);
    peers.ban(&2);
    assert_eq!(peers.get_peer(), Some(1));
    assert_eq!(peers.get_peer(), None);
    let mut rng = StdRng::seed_from_u64(1);
    peers.reset_peers_to_try(&mut rng);
    assert_eq!(peers.get_peer(), Some(1));
    assert_eq!(peers.get_peer(), None);
}

#[test]
fn peer_without_data_is_no_longer_preferred() {
    let mut peers: PeersState<u64> = PeersState::new();
    peers.add_peer(1);
    peers.mark_peer_as_had_success_with(1);
    peers.mark_peer_did_not_have_data(&1);
    assert_eq!(peers.get_peer_with_have_previously_had_success_with(), None);
    assert_eq!(peers.get_peer_unsafe(), 1);
}
