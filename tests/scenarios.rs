use availability_distribution::ancestry::{ancestors_in_same_session, next_session_query};
use availability_distribution::resolver::{
    needs_runtime_query, occupied_paras, query_pending_availability_at, CoreState, FetchedLiveCandidate,
};
use availability_distribution::state::{PerCandidate, PerRelayParent, ProtocolState};
use availability_distribution::types::{
    AvailabilityGossipMessage, CandidateDescriptor, ErasureChunk, BENEFIT_VALID_MESSAGE, BENEFIT_VALID_MESSAGE_FIRST,
    COST_NOT_A_LIVE_CANDIDATE, COST_PEER_DUPLICATE_MESSAGE, COST_PEER_MESSAGE_NOT_IN_VIEW,
};
use availability_distribution::view::{heads_missing, our_validator_index};

const RELAY_PARENT: u64 = 0x05;
const ANCESTORS: [u64; 4] = [0x44, 0x33, 0x22, 0x11];
const CHAIN_A: u32 = 1;
const CHAIN_B: u32 = 2;
const PEER_A: u64 = 1;
const PEER_B: u64 = 2;

fn validator_public() -> Vec<u64> {
    vec![100, 101, 102, 103, 104]
}

fn our_index() -> Option<u32> {
    Some(4)
}

fn descriptor(para_id: u32, relay_parent: u64, pov_hash: u64) -> CandidateDescriptor {
    CandidateDescriptor { para_id, relay_parent, pov_hash, erasure_root: pov_hash + 1 }
}

fn candidate(descriptor: CandidateDescriptor, live_in: Vec<u64>) -> PerCandidate {
    PerCandidate {
        descriptor,
        validators: validator_public(),
        validator_index: our_index(),
        message_vault: Vec::new(),
        received_messages: Vec::new(),
        sent_messages: Vec::new(),
        live_in,
    }
}

/// A chunk with a valid branch for its candidate's erasure root.
fn valid_gossip(candidate_hash: u64, index: u32, block_data: Vec<u8>) -> AvailabilityGossipMessage {
    AvailabilityGossipMessage {
        candidate_hash,
        erasure_chunk: ErasureChunk { index, chunk: block_data, proof: vec![vec![index as u8]] },
    }
}

fn has_key<V>(v: &[(u64, V)], k: u64) -> bool {
    v.iter().any(|e| e.0 == k)
}

fn get<V>(v: &[(u64, V)], k: u64) -> &V {
    &v.iter().find(|e| e.0 == k).unwrap().1
}

/// Two candidates live under the relay parent and its parent; peer B views
/// the parent, peer A the relay parent.
fn two_candidate_state(candidate_hash_a: u64, candidate_hash_b: u64) -> ProtocolState {
    let live_in = vec![RELAY_PARENT, ANCESTORS[0]];
    ProtocolState {
        peer_views: vec![(PEER_B, vec![ANCESTORS[0]]), (PEER_A, vec![RELAY_PARENT])],
        view: vec![RELAY_PARENT],
        receipts: vec![
            (ANCESTORS[0], vec![candidate_hash_a, candidate_hash_b]),
            (RELAY_PARENT, vec![candidate_hash_a, candidate_hash_b]),
        ],
        per_candidate: vec![
            (candidate_hash_a, candidate(descriptor(CHAIN_A, RELAY_PARENT, 0xA0), live_in.clone())),
            (candidate_hash_b, candidate(descriptor(CHAIN_B, RELAY_PARENT, 0xB0), live_in)),
        ],
        per_relay_parent: vec![
            (RELAY_PARENT, PerRelayParent {
                ancestors: vec![ANCESTORS[0], ANCESTORS[1]],
                live_candidates: vec![candidate_hash_a, candidate_hash_b],
            }),
            (ANCESTORS[0], PerRelayParent {
                ancestors: vec![ANCESTORS[1], ANCESTORS[2]],
                live_candidates: vec![candidate_hash_a, candidate_hash_b],
            }),
        ],
    }
}

#[test]
fn reputation_verification() {
    let candidate_hash_a = 0xCA;
    let candidate_hash_b = 0xCB;
    let candidate_hash_c = 0xCC;
    let mut state = two_candidate_state(candidate_hash_a, candidate_hash_b);

    let valid = valid_gossip(candidate_hash_a, 2, vec![42, 43, 44]);

    // valid (first, from b)
    let outcome = state.handle_chunk(PEER_B, valid.clone(), true);
    assert_eq!(outcome.report, BENEFIT_VALID_MESSAGE_FIRST);
    // after the report, the chunk goes on to peer a
    assert_eq!(1, outcome.forward.len());
    assert_eq!(outcome.forward[0], PEER_A);

    // valid (duplicate, from b)
    let outcome = state.handle_chunk(PEER_B, valid.clone(), true);
    assert_eq!(outcome.report, COST_PEER_DUPLICATE_MESSAGE);

    // valid (second, from a)
    let outcome = state.handle_chunk(PEER_A, valid.clone(), true);
    assert_eq!(outcome.report, BENEFIT_VALID_MESSAGE);

    // peer a is not interested in anything anymore
    state.peer_view_change(PEER_A, vec![]);

    // the view check comes before the duplicate check
    let outcome = state.handle_chunk(PEER_A, valid.clone(), true);
    assert_eq!(outcome.report, COST_PEER_MESSAGE_NOT_IN_VIEW);

    state.peer_disconnected(PEER_B);
    state.peer_connected(PEER_B);

    // a message about a candidate that is not live
    let valid2 = valid_gossip(candidate_hash_c, 1, vec![48, 49, 50]);
    let outcome = state.handle_chunk(PEER_A, valid2, true);
    assert_eq!(outcome.report, COST_NOT_A_LIVE_CANDIDATE);
}

#[test]
fn reputation_multiple_peers_same_chunk() {
    let candidate_hash_a = 0xCA;
    let candidate_hash_b = 0xCB;
    let mut state = two_candidate_state(candidate_hash_a, candidate_hash_b);
    let current = RELAY_PARENT;

    let valid = valid_gossip(candidate_hash_b, 2, vec![45, 46, 47]);

    // make peer a and b listen on `current`
    assert!(state.peer_view_change(PEER_A, vec![current]).is_empty());
    assert!(state.peer_view_change(PEER_B, vec![current]).is_empty());

    let outcome = state.handle_chunk(PEER_A, valid.clone(), true);
    assert_eq!(outcome.report, BENEFIT_VALID_MESSAGE_FIRST);
    assert_eq!(1, outcome.forward.len());
    assert_eq!(outcome.forward[0], PEER_B);

    // let b send the same message
    let outcome = state.handle_chunk(PEER_B, valid.clone(), true);
    assert_eq!(outcome.report, BENEFIT_VALID_MESSAGE);
    // there is nothing else to send
    assert!(outcome.forward.is_empty());
    assert!(outcome.store.is_none());
}

#[test]
fn candidates_overlapping() {
    // 4 ancestors, allows us to create two overlapping sets of ancestors of size 3
    let ancestors = [0xA0, 0xA1, 0xA2, 0xA3];
    let mut state = ProtocolState::new();
    let validators = validator_public();
    let validator_index = Some(0);
    let relay_parent = RELAY_PARENT;
    let pov_hash = 0x48;

    // the same candidate for each ancestor
    let create_candidate = |ancestor: u64| (0x1000 + ancestor, descriptor(CHAIN_B, ancestor, pov_hash));
    let candidate_rp = create_candidate(relay_parent);
    let candidate_a0 = create_candidate(ancestors[0]);
    let candidate_a1 = create_candidate(ancestors[1]);
    let candidate_a2 = create_candidate(ancestors[2]);
    let candidate_a3 = create_candidate(ancestors[3]);

    let fresh = |c: (u64, CandidateDescriptor)| (c.0, FetchedLiveCandidate::Fresh(c.1));
    let candidate_set_rp = vec![fresh(candidate_rp), fresh(candidate_a0), fresh(candidate_a1), fresh(candidate_a2)];
    let candidate_set_a0 = vec![fresh(candidate_a0), fresh(candidate_a1), fresh(candidate_a2), fresh(candidate_a3)];

    state.add_relay_parent(relay_parent, validators.clone(), validator_index, candidate_set_rp, ancestors.to_vec());

    assert!(has_key(&state.per_candidate, candidate_rp.0));
    assert!(has_key(&state.per_candidate, candidate_a0.0));
    assert!(has_key(&state.per_candidate, candidate_a1.0));
    assert!(has_key(&state.per_candidate, candidate_a2.0));
    assert!(!has_key(&state.per_candidate, candidate_a3.0));

    state.add_relay_parent(ancestors[0], validators.clone(), validator_index, candidate_set_a0, ancestors.to_vec());

    assert!(get(&state.per_candidate, candidate_rp.0).live_in.contains(&relay_parent));
    assert!(get(&state.per_candidate, candidate_a0.0).live_in.contains(&relay_parent));

    // replacing the view is part of a view change, so the view does not change here
    assert!(has_key(&state.per_candidate, candidate_rp.0));
    assert!(has_key(&state.per_candidate, candidate_a0.0));
    assert!(has_key(&state.per_candidate, candidate_a1.0));
    assert!(has_key(&state.per_candidate, candidate_a2.0));
    assert!(has_key(&state.per_candidate, candidate_a3.0));

    state.remove_relay_parent(relay_parent);

    assert!(!has_key(&state.per_candidate, candidate_rp.0));
    assert!(has_key(&state.per_candidate, candidate_a0.0));
    assert!(has_key(&state.per_candidate, candidate_a1.0));
    assert!(has_key(&state.per_candidate, candidate_a2.0));
    assert!(has_key(&state.per_candidate, candidate_a3.0));

    state.remove_relay_parent(ancestors[0]);

    assert!(!has_key(&state.per_candidate, candidate_rp.0));
    assert!(!has_key(&state.per_candidate, candidate_a0.0));
    assert!(!has_key(&state.per_candidate, candidate_a1.0));
    assert!(!has_key(&state.per_candidate, candidate_a2.0));
    assert!(!has_key(&state.per_candidate, candidate_a3.0));
}

#[test]
fn view_setup_w_overlapping_ancestors_teardown() {
    let candidate_hash_a = 0xCA;
    let candidate_hash_b = 0xCB;
    let live_in = vec![RELAY_PARENT, ANCESTORS[0]];
    let mut state = ProtocolState {
        view: vec![RELAY_PARENT, ANCESTORS[0]],
        receipts: vec![
            (RELAY_PARENT, vec![candidate_hash_a, candidate_hash_b]),
            (ANCESTORS[0], vec![candidate_hash_a, candidate_hash_b]),
        ],
        per_candidate: vec![
            (candidate_hash_a, candidate(descriptor(CHAIN_A, RELAY_PARENT, 0xA0), live_in.clone())),
            (candidate_hash_b, candidate(descriptor(CHAIN_A, ANCESTORS[0], 0xA0), live_in)),
        ],
        per_relay_parent: vec![
            (RELAY_PARENT, PerRelayParent {
                ancestors: vec![ANCESTORS[0], ANCESTORS[1], ANCESTORS[2]],
                live_candidates: vec![candidate_hash_a, candidate_hash_b],
            }),
            (ANCESTORS[0], PerRelayParent {
                ancestors: vec![ANCESTORS[1], ANCESTORS[2]],
                live_candidates: vec![candidate_hash_a, candidate_hash_b],
            }),
        ],
        peer_views: Vec::new(),
    };

    // clear our view: no head is added, so nothing is queried or sent
    let new_view: Vec<u64> = vec![];
    assert!(heads_missing(&new_view, &state.view).is_empty());
    state.finish_view_change(new_view);

    assert!(state.per_candidate.is_empty());
    assert!(state.per_relay_parent.is_empty());
}

#[test]
fn check_views() {
    let candidate_a = (0xCA, descriptor(CHAIN_A, RELAY_PARENT, 0xA0));
    let candidate_b = (0xCB, descriptor(CHAIN_B, RELAY_PARENT, 0xB0));
    let candidate_hash_a = candidate_a.0;
    let candidate_hash_b = candidate_b.0;
    let pending = |para: u32| if para == CHAIN_A { candidate_a } else { candidate_b };
    let current = RELAY_PARENT;
    let ancestors = ANCESTORS;
    let genesis = 0xAA;

    let mut state = ProtocolState::new();

    // our view becomes [current]: it is the one head to resolve
    let view = vec![current];
    assert_eq!(state.heads_to_resolve(&view), vec![current]);

    // the keystore holds the first validator's key
    let validators = validator_public();
    let validator_index = our_validator_index(&validators, &vec![validators[0]]);
    assert_eq!(validator_index, Some(0));

    // the chain answers two ancestors, the second being the genesis
    let chain = vec![ancestors[0], genesis];
    let desired = 1;
    let mut sessions = Vec::new();
    while let Some(h) = next_session_query(&chain, desired, &sessions, 3) {
        assert_eq!(h, genesis);
        sessions.push(1);
    }
    let in_session = ancestors_in_same_session(&chain, desired, &sessions, 3);
    assert_eq!(in_session, vec![ancestors[0]]);

    // the ancestor is resolved first, then the head
    let heads = vec![ancestors[0], current];
    let cores_ancestor = vec![CoreState::Occupied(CHAIN_A), CoreState::Occupied(CHAIN_B)];
    let cores_current = vec![
        CoreState::Occupied(CHAIN_A),
        CoreState::Free,
        CoreState::Free,
        CoreState::Occupied(CHAIN_B),
        CoreState::Free,
        CoreState::Free,
    ];
    assert!(needs_runtime_query(&state.receipts, ancestors[0]));
    assert!(needs_runtime_query(&state.receipts, current));
    let answers: Vec<Vec<(u64, CandidateDescriptor)>> = vec![
        occupied_paras(&cores_ancestor).into_iter().map(pending).collect(),
        occupied_paras(&cores_current).into_iter().map(pending).collect(),
    ];
    let fetched = query_pending_availability_at(&heads, &mut state.receipts, &answers);
    let candidates: Vec<u64> = fetched.iter().map(|e| e.0).collect();
    state.add_relay_parent(current, validators, validator_index, fetched, in_session);

    // the store has our chunk of the first candidate only
    for (i, &c) in candidates.iter().enumerate() {
        let index = state.local_chunk_request(c).expect("our index is within the validators");
        assert_eq!(index, 0);
        if i == 0 {
            state.note_local_chunk(c, valid_gossip(c, 0, vec![42, 43, 44]).erasure_chunk);
        }
    }
    for &c in &candidates {
        assert!(state.gossip_candidate(c).is_empty());
    }
    state.finish_view_change(view);

    state.peer_connected(PEER_A);
    state.peer_view_change(PEER_A, vec![current]);
    state.peer_connected(PEER_B);
    state.peer_view_change(PEER_B, vec![ancestors[0]]);

    let mut peer_views = state.peer_views.clone();
    peer_views.sort();
    assert_eq!(peer_views, vec![(PEER_A, vec![RELAY_PARENT]), (PEER_B, vec![ANCESTORS[0]])]);
    assert_eq!(state.view, vec![RELAY_PARENT]);
    let mut receipts: Vec<(u64, Vec<u64>)> = state
        .receipts
        .iter()
        .map(|(h, cs)| {
            let mut cs = cs.clone();
            cs.sort();
            (*h, cs)
        })
        .collect();
    receipts.sort();
    let mut expected = vec![
        (RELAY_PARENT, vec![candidate_hash_a, candidate_hash_b]),
        (ANCESTORS[0], vec![candidate_hash_a, candidate_hash_b]),
    ];
    expected.sort();
    assert_eq!(receipts, expected);
}

#[test]
fn normal_ops() {
    let candidate_hash_a = 0xCA;
    let candidate_hash_b = 0xCB;
    let live_in = vec![RELAY_PARENT, ANCESTORS[0]];
    // peers view the relay parent, so that their chunks pass the view check
    let mut state = ProtocolState {
        peer_views: vec![(PEER_B, vec![RELAY_PARENT]), (PEER_A, vec![RELAY_PARENT])],
        view: vec![RELAY_PARENT],
        receipts: vec![
            (ANCESTORS[0], vec![candidate_hash_a, candidate_hash_b]),
            (RELAY_PARENT, vec![candidate_hash_a, candidate_hash_b]),
        ],
        per_candidate: vec![
            (candidate_hash_a, candidate(descriptor(CHAIN_A, RELAY_PARENT, 0xA0), live_in.clone())),
            (candidate_hash_b, candidate(descriptor(CHAIN_A, ANCESTORS[0], 0xB0), live_in)),
        ],
        per_relay_parent: vec![
            (RELAY_PARENT, PerRelayParent {
                ancestors: vec![ANCESTORS[0], ANCESTORS[1], ANCESTORS[2]],
                live_candidates: vec![candidate_hash_a, candidate_hash_b],
            }),
            (ANCESTORS[0], PerRelayParent {
                ancestors: vec![ANCESTORS[1], ANCESTORS[2], ANCESTORS[3]],
                live_candidates: vec![candidate_hash_a, candidate_hash_b],
            }),
        ],
    };
    let vault_at = |state: &ProtocolState, index: u32| {
        get(&state.per_candidate, candidate_hash_b)
            .message_vault
            .iter()
            .find(|m| m.erasure_chunk.index == index)
            .cloned()
    };

    // our own chunk, from peer a: stored, and rewarded as a first copy
    let erasure_chunk_index = our_index().unwrap();
    let gossip = valid_gossip(candidate_hash_b, erasure_chunk_index, vec![45, 46, 47]);
    let outcome = state.handle_chunk(PEER_A, gossip.clone(), true);
    assert_eq!(outcome.report, BENEFIT_VALID_MESSAGE_FIRST);
    let store = outcome.store.expect("our chunk goes to the store");
    assert_eq!(store.candidate_hash, candidate_hash_b);
    assert_eq!(store.relay_parent, ANCESTORS[0]);
    assert_eq!(vault_at(&state, erasure_chunk_index), Some(gossip));

    // chunk 1 from peer b
    let erasure_chunk_index = 1u32;
    let gossip = valid_gossip(candidate_hash_b, erasure_chunk_index, vec![45, 46, 47]);
    let outcome = state.handle_chunk(PEER_B, gossip.clone(), true);
    assert_eq!(outcome.report, BENEFIT_VALID_MESSAGE_FIRST);
    assert_eq!(vault_at(&state, erasure_chunk_index), Some(gossip));

    // the same chunk from peer a
    let gossip = valid_gossip(candidate_hash_b, erasure_chunk_index, vec![45, 46, 47]);
    let outcome = state.handle_chunk(PEER_A, gossip.clone(), true);
    assert_eq!(outcome.report, BENEFIT_VALID_MESSAGE);
    assert_eq!(vault_at(&state, erasure_chunk_index), Some(gossip));
}
