use availability_distribution::resolver::{
    occupied_paras, query_pending_availability_at, CoreState, FetchedLiveCandidate,
};
use availability_distribution::state::{PerCandidate, PerRelayParent, ProtocolState};
use availability_distribution::types::CandidateDescriptor;

fn descriptor(para_id: u32, relay_parent: u64) -> CandidateDescriptor {
    CandidateDescriptor { para_id, relay_parent, pov_hash: 0, erasure_root: 0 }
}

fn candidate_with_live_in(live_in: Vec<u64>) -> PerCandidate {
    PerCandidate {
        descriptor: descriptor(0, 0),
        validators: Vec::new(),
        validator_index: None,
        message_vault: Vec::new(),
        received_messages: Vec::new(),
        sent_messages: Vec::new(),
        live_in,
    }
}

fn has_key<V>(v: &[(u64, V)], k: u64) -> bool {
    v.iter().any(|e| e.0 == k)
}

fn get<V>(v: &[(u64, V)], k: u64) -> &V {
    &v.iter().find(|e| e.0 == k).unwrap().1
}

#[test]
fn clean_up_receipts_cache_unions_ancestors_and_view() {
    let mut state = ProtocolState::new();

    let hash_a = 0x00;
    let hash_b = 0x01;
    let hash_c = 0x02;
    let hash_d = 0x03;

    state.receipts.push((hash_a, Vec::new()));
    state.receipts.push((hash_b, Vec::new()));
    state.receipts.push((hash_c, Vec::new()));
    state.receipts.push((hash_d, Vec::new()));

    state.per_relay_parent.push((hash_a, PerRelayParent { ancestors: vec![hash_b], live_candidates: Vec::new() }));
    state.per_relay_parent.push((hash_c, PerRelayParent { ancestors: Vec::new(), live_candidates: Vec::new() }));

    state.clean_up_receipts_cache();

    // the view is empty: no head pins anything, recorded or not
    assert_eq!(state.receipts.len(), 0);
    assert!(!has_key(&state.receipts, hash_a));
    assert!(!has_key(&state.receipts, hash_b));
    assert!(!has_key(&state.receipts, hash_c));
    assert!(!has_key(&state.receipts, hash_d));
}

#[test]
fn clean_up_receipts_cache_keeps_view_and_its_ancestors() {
    let mut state = ProtocolState::new();
    for h in 0..4u64 {
        state.receipts.push((h, Vec::new()));
    }
    state.view = vec![0, 2];
    state.per_relay_parent.push((0, PerRelayParent { ancestors: vec![1], live_candidates: Vec::new() }));
    // a record outside the view pins neither itself nor its ancestors
    state.per_relay_parent.push((5, PerRelayParent { ancestors: vec![3], live_candidates: Vec::new() }));

    state.clean_up_receipts_cache();

    assert_eq!(state.receipts.len(), 3);
    assert!(has_key(&state.receipts, 0));
    assert!(has_key(&state.receipts, 1));
    assert!(has_key(&state.receipts, 2));
    assert!(!has_key(&state.receipts, 3));
}

#[test]
fn remove_relay_parent_only_removes_per_candidate_if_final() {
    let mut state = ProtocolState::new();

    let hash_a = 0;
    let hash_b = 1;

    let candidate_hash_a = 46;

    state.per_relay_parent.push((hash_a, PerRelayParent { ancestors: vec![], live_candidates: vec![candidate_hash_a] }));
    state.per_relay_parent.push((hash_b, PerRelayParent { ancestors: vec![], live_candidates: vec![candidate_hash_a] }));
    state.per_candidate.push((candidate_hash_a, candidate_with_live_in(vec![hash_a, hash_b])));

    state.remove_relay_parent(hash_a);

    assert!(!has_key(&state.per_relay_parent, hash_a));
    assert!(!get(&state.per_candidate, candidate_hash_a).live_in.contains(&hash_a));
    assert!(get(&state.per_candidate, candidate_hash_a).live_in.contains(&hash_b));

    state.remove_relay_parent(hash_b);

    assert!(!has_key(&state.per_relay_parent, hash_b));
    assert!(!has_key(&state.per_candidate, candidate_hash_a));
}

#[test]
fn add_relay_parent_includes_all_live_candidates() {
    let relay_parent = 0x00;

    let mut state = ProtocolState::new();

    let ancestor_a = 1;

    let candidate_hash_a = 10;
    let candidate_hash_b = 11;

    let candidates = vec![
        (candidate_hash_a, FetchedLiveCandidate::Fresh(descriptor(0, 0))),
        (candidate_hash_b, FetchedLiveCandidate::Cached),
    ];

    state.add_relay_parent(relay_parent, Vec::new(), None, candidates, vec![ancestor_a]);

    assert!(get(&state.per_candidate, candidate_hash_a).live_in.contains(&relay_parent));
    assert!(get(&state.per_candidate, candidate_hash_b).live_in.contains(&relay_parent));

    let per_relay_parent = get(&state.per_relay_parent, relay_parent);

    assert!(per_relay_parent.live_candidates.contains(&candidate_hash_a));
    assert!(per_relay_parent.live_candidates.contains(&candidate_hash_b));
}

#[test]
fn query_pending_availability_at_pulls_from_and_updates_receipts() {
    let hash_a = 0u64;
    let hash_b = 1u64;

    let para_a = 1;
    let para_b = 2;
    let para_c = 3;

    let candidate_a = descriptor(para_a, 69);
    let candidate_b = descriptor(para_b, 69);
    let candidate_c = descriptor(para_c, 69);

    let candidate_hash_a = 101;
    let candidate_hash_b = 102;
    let candidate_hash_c = 103;
    let hash_of = |para: u32| match para {
        1 => (candidate_hash_a, candidate_a),
        2 => (candidate_hash_b, candidate_b),
        _ => (candidate_hash_c, candidate_c),
    };

    // receipts has an initial entry for hash_a but not hash_b.
    let mut receipts = vec![(hash_a, vec![candidate_hash_a, candidate_hash_b])];

    // hash_a is answered out of the cache: only hash_b's cores are asked for.
    let cores_b = vec![CoreState::Occupied(para_b), CoreState::Occupied(para_c)];
    let answer_b: Vec<_> = occupied_paras(&cores_b).into_iter().map(hash_of).collect();
    let answers = vec![Vec::new(), answer_b];

    let live_candidates = query_pending_availability_at(&vec![hash_a, hash_b], &mut receipts, &answers);

    assert_eq!(live_candidates.len(), 3);
    assert_eq!(*get(&live_candidates, candidate_hash_a), FetchedLiveCandidate::Cached);
    assert_eq!(*get(&live_candidates, candidate_hash_b), FetchedLiveCandidate::Cached);
    assert!(matches!(get(&live_candidates, candidate_hash_c), FetchedLiveCandidate::Fresh(_)));

    assert!(get(&receipts, hash_b).contains(&candidate_hash_b));
    assert!(get(&receipts, hash_b).contains(&candidate_hash_c));
}

#[test]
fn occupied_paras_skips_free_and_scheduled_cores() {
    let cores = vec![
        CoreState::Free,
        CoreState::Occupied(7),
        CoreState::Scheduled(8),
        CoreState::Occupied(9),
    ];
    assert_eq!(occupied_paras(&cores), vec![7, 9]);
    assert_eq!(occupied_paras(&Vec::new()), Vec::<u32>::new());
}

#[test]
fn fresh_candidate_is_tagged_once_per_resolution() {
    let mut receipts = Vec::new();
    let d = descriptor(5, 1);
    let answers = vec![vec![(20, d)], vec![(20, d), (21, d)]];
    let live = query_pending_availability_at(&vec![1, 2], &mut receipts, &answers);
    assert_eq!(live, vec![(20, FetchedLiveCandidate::Fresh(d)), (21, FetchedLiveCandidate::Fresh(d))]);
    assert_eq!(receipts.len(), 2);
    // a second resolution finds everything in the cache
    let again = query_pending_availability_at(&vec![1, 2], &mut receipts, &vec![Vec::new(), Vec::new()]);
    assert_eq!(again, vec![(20, FetchedLiveCandidate::Cached), (21, FetchedLiveCandidate::Cached)]);
}

#[test]
fn add_relay_parent_keeps_existing_entry_and_fills_fresh_one() {
    let mut state = ProtocolState::new();
    let d1 = descriptor(1, 100);
    state.add_relay_parent(100, vec![7, 8], Some(1), vec![(30, FetchedLiveCandidate::Fresh(d1))], vec![]);
    let d2 = descriptor(2, 200);
    state.add_relay_parent(200, vec![9], Some(0), vec![(30, FetchedLiveCandidate::Fresh(d2))], vec![]);
    let entry = get(&state.per_candidate, 30);
    assert_eq!(entry.descriptor, d1);
    assert_eq!(entry.validators, vec![7, 8]);
    assert_eq!(entry.validator_index, Some(1));
    assert_eq!(entry.live_in.len(), 2);
    // the relation holds from both sides
    assert!(get(&state.per_relay_parent, 100).live_candidates.contains(&30));
    assert!(get(&state.per_relay_parent, 200).live_candidates.contains(&30));
}

#[test]
fn cached_candidate_unknown_before_gets_an_empty_entry() {
    let mut state = ProtocolState::new();
    state.add_relay_parent(1, vec![5], Some(0), vec![(40, FetchedLiveCandidate::Cached)], vec![]);
    let entry = get(&state.per_candidate, 40);
    assert_eq!(entry.descriptor, descriptor(0, 0));
    assert!(entry.validators.is_empty());
    assert_eq!(entry.validator_index, None);
}

#[test]
fn re_adding_a_head_replaces_its_candidates() {
    let mut state = ProtocolState::new();
    state.add_relay_parent(1, vec![], None, vec![(50, FetchedLiveCandidate::Cached)], vec![]);
    state.add_relay_parent(1, vec![], None, vec![(51, FetchedLiveCandidate::Cached)], vec![]);
    assert!(!has_key(&state.per_candidate, 50));
    assert!(has_key(&state.per_candidate, 51));
    assert_eq!(state.per_relay_parent.len(), 1);
}

#[test]
fn candidate_listed_by_a_cached_head_is_cached() {
    // a new head whose runtime answer lists a candidate that a cached ancestor lists too
    let new_head = 10u64;
    let cached_ancestor = 11u64;
    let d = descriptor(1, cached_ancestor);
    let mut receipts = vec![(cached_ancestor, vec![7])];
    let answers = vec![vec![(7, d), (8, d)], Vec::new()];
    let live = query_pending_availability_at(&vec![new_head, cached_ancestor], &mut receipts, &answers);
    assert_eq!(live, vec![(7, FetchedLiveCandidate::Cached), (8, FetchedLiveCandidate::Fresh(d))]);
    assert_eq!(*get(&receipts, cached_ancestor), vec![7]);
    assert_eq!(*get(&receipts, new_head), vec![7, 8]);
}

#[test]
fn candidate_cached_under_another_head_is_cached() {
    // the cache lists candidate 7 under a head that is not part of this resolution
    let other_head = 30u64;
    let new_head = 31u64;
    let d = descriptor(1, new_head);
    let mut receipts = vec![(other_head, vec![7])];
    let answers = vec![vec![(7, d), (9, d)]];
    let live = query_pending_availability_at(&vec![new_head], &mut receipts, &answers);
    assert_eq!(live, vec![(7, FetchedLiveCandidate::Cached), (9, FetchedLiveCandidate::Fresh(d))]);
    assert_eq!(*get(&receipts, new_head), vec![7, 9]);
    assert_eq!(*get(&receipts, other_head), vec![7]);
}
