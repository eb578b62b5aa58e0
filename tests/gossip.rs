use availability_distribution::resolver::FetchedLiveCandidate;
use availability_distribution::state::ProtocolState;
use availability_distribution::types::{
    AvailabilityGossipMessage, CandidateDescriptor, ErasureChunk, BENEFIT_VALID_MESSAGE, BENEFIT_VALID_MESSAGE_FIRST,
    COST_MERKLE_PROOF_INVALID, COST_NOT_A_LIVE_CANDIDATE, COST_PEER_DUPLICATE_MESSAGE, COST_PEER_MESSAGE_NOT_IN_VIEW,
    COST_WRONG_VALIDATOR_INDEX,
};
use availability_distribution::view::{heads_missing, our_validator_index};

const RELAY_PARENT: u64 = 0x05;
const ANCESTOR_0: u64 = 0x44;
const ANCESTOR_1: u64 = 0x43;
const CANDIDATE_A: u64 = 0xA1;
const CANDIDATE_B: u64 = 0xB1;
const PEER_A: u64 = 1;
const PEER_B: u64 = 2;

fn descriptor(para_id: u32) -> CandidateDescriptor {
    CandidateDescriptor { para_id, relay_parent: RELAY_PARENT, pov_hash: 0, erasure_root: 77 }
}

fn message(candidate_hash: u64, index: u32) -> AvailabilityGossipMessage {
    AvailabilityGossipMessage {
        candidate_hash,
        erasure_chunk: ErasureChunk { index, chunk: vec![42, 43, 44], proof: vec![vec![1, 2], vec![3]] },
    }
}

fn validators() -> Vec<u64> {
    (0..10).collect()
}

/// Candidates A and B live under the relay parent and its ancestor; peer A
/// views the relay parent, peer B the ancestor; our index is 0.
fn seeded_state() -> ProtocolState {
    let mut state = ProtocolState::new();
    let fetched = vec![
        (CANDIDATE_A, FetchedLiveCandidate::Fresh(descriptor(1))),
        (CANDIDATE_B, FetchedLiveCandidate::Fresh(descriptor(2))),
    ];
    state.add_relay_parent(RELAY_PARENT, validators(), Some(0), fetched, vec![ANCESTOR_0, ANCESTOR_1]);
    let fetched = vec![(CANDIDATE_A, FetchedLiveCandidate::Cached), (CANDIDATE_B, FetchedLiveCandidate::Cached)];
    state.add_relay_parent(ANCESTOR_0, validators(), Some(0), fetched, vec![ANCESTOR_1]);
    state.finish_view_change(vec![RELAY_PARENT, ANCESTOR_0]);
    state.peer_connected(PEER_A);
    state.peer_connected(PEER_B);
    assert!(state.peer_view_change(PEER_A, vec![RELAY_PARENT]).is_empty());
    assert!(state.peer_view_change(PEER_B, vec![ANCESTOR_0]).is_empty());
    state
}

fn entry(state: &ProtocolState, c: u64) -> &availability_distribution::state::PerCandidate {
    &state.per_candidate.iter().find(|e| e.0 == c).unwrap().1
}

#[test]
fn valid_first_message_then_duplicate() {
    let mut state = seeded_state();
    let out = state.handle_chunk(PEER_B, message(CANDIDATE_A, 2), true);
    assert_eq!(out.report, BENEFIT_VALID_MESSAGE_FIRST);
    assert_eq!(out.forward, vec![PEER_A]);
    assert!(out.store.is_none());
    assert_eq!(entry(&state, CANDIDATE_A).message_vault.len(), 1);

    let out = state.handle_chunk(PEER_B, message(CANDIDATE_A, 2), true);
    assert_eq!(out.report, COST_PEER_DUPLICATE_MESSAGE);
    assert!(out.forward.is_empty());
}

#[test]
fn second_valid_copy_from_another_peer() {
    let mut state = seeded_state();
    state.handle_chunk(PEER_B, message(CANDIDATE_A, 2), true);
    let out = state.handle_chunk(PEER_A, message(CANDIDATE_A, 2), true);
    assert_eq!(out.report, BENEFIT_VALID_MESSAGE);
    assert!(out.forward.is_empty());
    // the peer that left the candidate's heads is refused before duplicates are looked at
    assert!(state.peer_view_change(PEER_A, vec![]).is_empty());
    let out = state.handle_chunk(PEER_A, message(CANDIDATE_A, 2), true);
    assert_eq!(out.report, COST_PEER_MESSAGE_NOT_IN_VIEW);
}

#[test]
fn merkle_invalid_chunk_changes_nothing() {
    let mut state = seeded_state();
    let out = state.handle_chunk(PEER_B, message(CANDIDATE_A, 3), false);
    assert_eq!(out.report, COST_MERKLE_PROOF_INVALID);
    assert!(entry(&state, CANDIDATE_A).message_vault.is_empty());
    assert!(entry(&state, CANDIDATE_A).received_messages.is_empty());
}

#[test]
fn message_about_non_live_candidate() {
    let mut state = seeded_state();
    let out = state.handle_chunk(PEER_A, message(0xDEAD, 1), true);
    assert_eq!(out.report, COST_NOT_A_LIVE_CANDIDATE);
    assert!(out.forward.is_empty());
}

#[test]
fn chunk_index_beyond_validators() {
    let mut state = seeded_state();
    let out = state.handle_chunk(PEER_A, message(CANDIDATE_B, 10), true);
    assert_eq!(out.report, COST_WRONG_VALIDATOR_INDEX);
}

#[test]
fn unknown_peer_is_not_in_view() {
    let mut state = seeded_state();
    let out = state.handle_chunk(99, message(CANDIDATE_B, 1), true);
    assert_eq!(out.report, COST_PEER_MESSAGE_NOT_IN_VIEW);
}

#[test]
fn our_own_chunk_goes_to_the_store() {
    let mut state = seeded_state();
    let out = state.handle_chunk(PEER_A, message(CANDIDATE_B, 0), true);
    assert_eq!(out.report, BENEFIT_VALID_MESSAGE_FIRST);
    let store = out.store.expect("our chunk is stored");
    assert_eq!(store.candidate_hash, CANDIDATE_B);
    assert_eq!(store.relay_parent, RELAY_PARENT);
    assert_eq!(store.chunk, message(CANDIDATE_B, 0).erasure_chunk);
    assert_eq!(out.forward, vec![PEER_B]);
}

#[test]
fn every_inbound_message_gets_one_report() {
    let mut state = seeded_state();
    let inputs = vec![
        (PEER_B, message(CANDIDATE_A, 2), true),
        (PEER_B, message(CANDIDATE_A, 2), true),
        (PEER_A, message(CANDIDATE_A, 2), true),
        (PEER_A, message(CANDIDATE_A, 4), false),
        (PEER_A, message(0xBAD, 4), true),
    ];
    let reports: Vec<i32> = inputs.into_iter().map(|(p, m, ok)| state.handle_chunk(p, m, ok).report).collect();
    assert_eq!(
        reports,
        vec![
            BENEFIT_VALID_MESSAGE_FIRST,
            COST_PEER_DUPLICATE_MESSAGE,
            BENEFIT_VALID_MESSAGE,
            COST_MERKLE_PROOF_INVALID,
            COST_NOT_A_LIVE_CANDIDATE,
        ]
    );
}

#[test]
fn reputation_constants_are_ordered() {
    assert!(BENEFIT_VALID_MESSAGE_FIRST > BENEFIT_VALID_MESSAGE);
    assert!(BENEFIT_VALID_MESSAGE > 0);
    for cost in [
        COST_PEER_DUPLICATE_MESSAGE,
        COST_NOT_A_LIVE_CANDIDATE,
        COST_PEER_MESSAGE_NOT_IN_VIEW,
        COST_WRONG_VALIDATOR_INDEX,
    ] {
        assert!(cost < 0);
        assert!(COST_MERKLE_PROOF_INVALID < cost);
    }
}

#[test]
fn new_peer_view_is_caught_up_once() {
    let mut state = seeded_state();
    state.handle_chunk(PEER_B, message(CANDIDATE_A, 2), true);
    state.peer_connected(3);
    let sent = state.peer_view_change(3, vec![ANCESTOR_0]);
    assert_eq!(sent.len(), 1);
    assert_eq!(sent[0].peer, 3);
    assert_eq!(sent[0].message, message(CANDIDATE_A, 2));
    // the same view again sends nothing
    assert!(state.peer_view_change(3, vec![ANCESTOR_0]).is_empty());
    // nor does a reconnect
    state.peer_disconnected(3);
    state.peer_connected(3);
    assert!(state.peer_view_change(3, vec![RELAY_PARENT]).is_empty());
}

#[test]
fn peer_view_outside_live_heads_gets_nothing() {
    let mut state = seeded_state();
    state.handle_chunk(PEER_B, message(CANDIDATE_A, 2), true);
    state.peer_connected(4);
    assert!(state.peer_view_change(4, vec![0x99]).is_empty());
}

#[test]
fn local_chunk_is_fetched_and_gossiped() {
    let mut state = seeded_state();
    assert_eq!(state.local_chunk_request(CANDIDATE_A), Some(0));
    assert_eq!(state.local_chunk_request(0xDEAD), None);
    state.note_local_chunk(CANDIDATE_A, message(CANDIDATE_A, 0).erasure_chunk);
    assert_eq!(state.local_chunk_request(CANDIDATE_A), None);
    let sent = state.gossip_candidate(CANDIDATE_A);
    let peers: Vec<u64> = sent.iter().map(|s| s.peer).collect();
    assert_eq!(peers, vec![PEER_A, PEER_B]);
    assert!(state.gossip_candidate(CANDIDATE_A).is_empty());
}

#[test]
fn repeated_view_change_is_idempotent() {
    let mut state = seeded_state();
    let view = state.view.clone();
    assert!(heads_missing(&view, &state.view).is_empty());
    let receipts_before = state.receipts.len();
    let heads_before = state.per_relay_parent.len();
    let candidates_before = state.per_candidate.len();
    state.finish_view_change(view.clone());
    assert_eq!(state.view, view);
    assert_eq!(state.receipts.len(), receipts_before);
    assert_eq!(state.per_relay_parent.len(), heads_before);
    assert_eq!(state.per_candidate.len(), candidates_before);
}

#[test]
fn view_teardown_drops_everything() {
    let mut state = seeded_state();
    state.receipts.push((RELAY_PARENT, vec![CANDIDATE_A]));
    state.receipts.push((0x77, vec![]));
    state.finish_view_change(vec![RELAY_PARENT]);
    assert_eq!(state.per_relay_parent.len(), 1);
    assert_eq!(entry(&state, CANDIDATE_A).live_in, vec![RELAY_PARENT]);
    assert_eq!(state.receipts.len(), 1);
    state.finish_view_change(vec![]);
    assert!(state.per_relay_parent.is_empty());
    assert!(state.per_candidate.is_empty());
    assert!(state.receipts.is_empty());
}

#[test]
fn heads_added_and_removed() {
    let old = vec![1, 2, 3];
    let new = vec![3, 4, 4, 5];
    assert_eq!(heads_missing(&new, &old), vec![4, 5]);
    assert_eq!(heads_missing(&old, &new), vec![1, 2]);
}

#[test]
fn validator_index_is_first_key_held() {
    assert_eq!(our_validator_index(&vec![10, 11, 12], &vec![12, 11]), Some(1));
    assert_eq!(our_validator_index(&vec![10, 11, 12], &vec![13]), None);
}

#[test]
fn head_without_record_is_resolved_again() {
    let mut state = seeded_state();
    // a head whose queries failed got no record; it stays to be resolved
    state.finish_view_change(vec![RELAY_PARENT, ANCESTOR_0, 0x99]);
    assert_eq!(state.heads_to_resolve(&state.view.clone()), vec![0x99]);
    assert_eq!(state.heads_to_resolve(&vec![RELAY_PARENT]), Vec::<u64>::new());
}

#[test]
fn records_outside_the_view_are_dropped() {
    let mut state = seeded_state();
    state.receipts.push((ANCESTOR_0, vec![CANDIDATE_A]));
    state.receipts.push((ANCESTOR_1, vec![CANDIDATE_A]));
    // the ancestor leaves the view; its record goes, the relay parent keeps the candidates
    state.finish_view_change(vec![RELAY_PARENT]);
    assert_eq!(state.per_relay_parent.len(), 1);
    assert_eq!(entry(&state, CANDIDATE_A).live_in, vec![RELAY_PARENT]);
    assert_eq!(entry(&state, CANDIDATE_A).descriptor, descriptor(1));
    // both are still recorded ancestors of the relay parent, so their receipts stay
    assert_eq!(state.receipts.len(), 2);
}
