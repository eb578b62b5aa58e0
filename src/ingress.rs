//! Chunk messages that peers send us.
use vstd::prelude::*;
use crate::assoc::{find_key, has_key, keys_unique, lemma_lookup_at, lookup};
use crate::gossip::{overlaps, pair_recorded, views_intersect};
use crate::state::{entry_wf, lemma_same_links, same_links, vault_for, PerCandidate, ProtocolState};
use crate::types::{
    messages_equal, AvailabilityGossipMessage, CandidateHash, ErasureChunk, MessageModel, PeerId, RelayHash,
    ValidatorIndex, BENEFIT_VALID_MESSAGE, BENEFIT_VALID_MESSAGE_FIRST, COST_MERKLE_PROOF_INVALID,
    COST_NOT_A_LIVE_CANDIDATE, COST_PEER_DUPLICATE_MESSAGE, COST_PEER_MESSAGE_NOT_IN_VIEW, COST_WRONG_VALIDATOR_INDEX,
};

verus! {

/// A chunk to hand to the availability store: it is our own.
pub struct StoreChunk {
    pub candidate_hash: CandidateHash,
    pub relay_parent: RelayHash,
    pub chunk: ErasureChunk,
}

/// What to do about one inbound chunk message: report the sender with
/// `report`, store the chunk when asked (before reporting), and forward the
/// message to the peers in `forward`.
pub struct IngressOutcome {
    pub report: i32,
    pub store: Option<StoreChunk>,
    pub forward: Vec<PeerId>,
}

/// The vault already holds a message equal to `m` under its index.
pub open spec fn vault_holds(vault: Seq<AvailabilityGossipMessage>, m: MessageModel) -> bool {
    exists|w: int| 0 <= w < vault.len() && (#[trigger] vault[w])@ == m
}

/// The peers, in peer order, to forward chunk `idx` to: every peer but the
/// sender whose view shares a head with `live_in`, and that neither was sent
/// that chunk nor sent it to us.
pub open spec fn forward_targets(
    pv: Seq<(PeerId, Vec<RelayHash>)>,
    live_in: Seq<RelayHash>,
    origin: PeerId,
    idx: ValidatorIndex,
    sent: Seq<(PeerId, ValidatorIndex)>,
    received: Seq<(PeerId, ValidatorIndex)>,
) -> Seq<PeerId>
    decreases pv.len(),
{
    if pv.len() == 0 {
        Seq::empty()
    } else {
        let rest = forward_targets(pv.drop_last(), live_in, origin, idx, sent, received);
        let q = pv.last().0;
        if q != origin && overlaps(pv.last().1@, live_in) && !sent.contains((q, idx)) && !received.contains((q, idx)) {
            rest.push(q)
        } else {
            rest
        }
    }
}

/// `s` with pair `x` recorded.
pub open spec fn recorded(s: Seq<(PeerId, ValidatorIndex)>, x: (PeerId, ValidatorIndex)) -> Seq<(PeerId, ValidatorIndex)> {
    if s.contains(x) { s } else { s.push(x) }
}

/// `vault` with `m` put under its chunk index, replacing a message there.
pub open spec fn vault_put(vault: Seq<AvailabilityGossipMessage>, m: AvailabilityGossipMessage) -> Seq<AvailabilityGossipMessage> {
    if exists|w: int| 0 <= w < vault.len() && (#[trigger] vault[w]).erasure_chunk.index == m.erasure_chunk.index {
        vault.update(
            choose|w: int| 0 <= w < vault.len() && (#[trigger] vault[w]).erasure_chunk.index == m.erasure_chunk.index,
            m,
        )
    } else {
        vault.push(m)
    }
}

/// Position of the message of chunk `idx` in the vault.
pub fn vault_slot(vault: &Vec<AvailabilityGossipMessage>, idx: ValidatorIndex) -> (r: Option<usize>)
    ensures
        match r {
            Some(w) => w < vault@.len() && vault@[w as int].erasure_chunk.index == idx,
            None => forall|w: int| 0 <= w < vault@.len() ==> (#[trigger] vault@[w]).erasure_chunk.index != idx,
        },
{
    let mut i: usize = 0;
    while i < vault.len()
        invariant
            i <= vault@.len(),
            forall|w: int| 0 <= w < i ==> (#[trigger] vault@[w]).erasure_chunk.index != idx,
        decreases vault.len() - i,
    {
        if vault[i].erasure_chunk.index == idx {
            return Some(i);
        }
        i = i + 1;
    }
    None
}

/// Records pair `x` unless it is there.
fn record_pair(v: &mut Vec<(PeerId, ValidatorIndex)>, x: (PeerId, ValidatorIndex))
    requires
        old(v)@.no_duplicates(),
    ensures
        final(v)@ == recorded(old(v)@, x),
        final(v)@.no_duplicates(),
{
    if !pair_recorded(v, x.0, x.1) {
        v.push(x);
        proof {
            assert forall|a: int, b: int| 0 <= a < v@.len() && 0 <= b < v@.len() && a != b implies v@[a] != v@[b] by {
                if a == old(v)@.len() {
                    assert(old(v)@[b] == v@[b]);
                } else if b == old(v)@.len() {
                    assert(old(v)@[a] == v@[a]);
                } else {
                    assert(old(v)@[a] != old(v)@[b]);
                }
            }
        }
    }
}

/// Records that chunk `idx` went to each of `peers`.
fn record_forwards(sent: &mut Vec<(PeerId, ValidatorIndex)>, peers: &Vec<PeerId>, idx: ValidatorIndex)
    requires
        old(sent)@.no_duplicates(),
        peers@.no_duplicates(),
        forall|a: int| 0 <= a < peers@.len() ==> !old(sent)@.contains((#[trigger] peers@[a], idx)),
    ensures
        final(sent)@ == old(sent)@ + forwarded_pairs(peers@, idx),
        final(sent)@.no_duplicates(),
{
    let mut i: usize = 0;
    while i < peers.len()
        invariant
            i <= peers@.len(),
            peers@.no_duplicates(),
            old(sent)@.no_duplicates(),
            forall|a: int| 0 <= a < peers@.len() ==> !old(sent)@.contains((#[trigger] peers@[a], idx)),
            sent@ == old(sent)@ + forwarded_pairs(peers@.take(i as int), idx),
            sent@.no_duplicates(),
        decreases peers.len() - i,
    {
        let ghost before = sent@;
        let q = peers[i];
        assert(!before.contains((q, idx))) by {
            if before.contains((q, idx)) {
                let w = choose|w: int| 0 <= w < before.len() && before[w] == (q, idx);
                if w >= old(sent)@.len() {
                    let a = w - old(sent)@.len();
                    assert(forwarded_pairs(peers@.take(i as int), idx)[a] == (peers@[a], idx));
                    assert(peers@[a] == peers@[i as int]);
                } else {
                    assert(old(sent)@[w] == (q, idx));
                }
            }
        }
        sent.push((q, idx));
        proof {
            assert(forwarded_pairs(peers@.take(i + 1), idx) =~= forwarded_pairs(peers@.take(i as int), idx).push((q, idx)));
            assert(sent@ =~= old(sent)@ + forwarded_pairs(peers@.take(i + 1), idx));
            assert forall|a: int, b: int| 0 <= a < sent@.len() && 0 <= b < sent@.len() && a != b implies sent@[a] != sent@[b] by {
                if a == before.len() {
                    assert(before[b] == sent@[b]);
                } else if b == before.len() {
                    assert(before[a] == sent@[a]);
                } else {
                    assert(before[a] != before[b]);
                }
            }
        }
        i = i + 1;
    }
    assert(peers@.take(i as int) =~= peers@);
}

/// Puts `m` in the vault under its chunk index.
pub fn put_in_vault(vault: &mut Vec<AvailabilityGossipMessage>, m: AvailabilityGossipMessage)
    requires
        forall|i: int, j: int| 0 <= i < old(vault)@.len() && 0 <= j < old(vault)@.len()
            && (#[trigger] old(vault)@[i]).erasure_chunk.index == (#[trigger] old(vault)@[j]).erasure_chunk.index ==> i == j,
    ensures
        final(vault)@ == vault_put(old(vault)@, m),
        forall|i: int, j: int| 0 <= i < final(vault)@.len() && 0 <= j < final(vault)@.len()
            && (#[trigger] final(vault)@[i]).erasure_chunk.index == (#[trigger] final(vault)@[j]).erasure_chunk.index ==> i == j,
{
    let idx = m.erasure_chunk.index;
    match vault_slot(vault, idx) {
        Some(w) => {
            proof {
                let c = choose|x: int| 0 <= x < old(vault)@.len() && (#[trigger] old(vault)@[x]).erasure_chunk.index == idx;
                assert(old(vault)@[c].erasure_chunk.index == old(vault)@[w as int].erasure_chunk.index);
            }
            vault.remove(w);
            vault.insert(w, m);
            proof {
                assert(vault@ =~= old(vault)@.update(w as int, m));
                assert forall|i: int, j: int| 0 <= i < vault@.len() && 0 <= j < vault@.len()
                    && (#[trigger] vault@[i]).erasure_chunk.index == (#[trigger] vault@[j]).erasure_chunk.index implies i == j by {
                    assert(vault@[i].erasure_chunk.index == old(vault)@[i].erasure_chunk.index);
                    assert(vault@[j].erasure_chunk.index == old(vault)@[j].erasure_chunk.index);
                }
            }
        },
        None => {
            vault.push(m);
            proof {
                assert forall|i: int, j: int| 0 <= i < vault@.len() && 0 <= j < vault@.len()
                    && (#[trigger] vault@[i]).erasure_chunk.index == (#[trigger] vault@[j]).erasure_chunk.index implies i == j by {
                    if i < old(vault)@.len() && j < old(vault)@.len() {
                        assert(old(vault)@[i] == vault@[i]);
                        assert(old(vault)@[j] == vault@[j]);
                    } else if i < old(vault)@.len() {
                        assert(old(vault)@[i] == vault@[i]);
                    } else if j < old(vault)@.len() {
                        assert(old(vault)@[j] == vault@[j]);
                    }
                }
            }
        },
    }
}

/// The pairs that forwarding chunk `idx` to `peers` records.
pub open spec fn forwarded_pairs(peers: Seq<PeerId>, idx: ValidatorIndex) -> Seq<(PeerId, ValidatorIndex)> {
    peers.map_values(|q: PeerId| (q, idx))
}

/// `e` is `e0` after accepting chunk message `m` from `origin` and
/// forwarding it to `fwd`: the sender is recorded, the forwards are recorded
/// as sent, and a first copy is put in the vault.
pub open spec fn accepted(
    e: PerCandidate,
    e0: PerCandidate,
    origin: PeerId,
    m: AvailabilityGossipMessage,
    fwd: Seq<PeerId>,
    first: bool,
) -> bool {
    let idx = m.erasure_chunk.index;
    &&& e.descriptor == e0.descriptor
    &&& e.validators == e0.validators
    &&& e.validator_index == e0.validator_index
    &&& e.live_in == e0.live_in
    &&& e.received_messages@ == recorded(e0.received_messages@, (origin, idx))
    &&& e.sent_messages@ == e0.sent_messages@ + forwarded_pairs(fwd, idx)
    &&& e.message_vault@ == if first { vault_put(e0.message_vault@, m) } else { e0.message_vault@ }
}

impl ProtocolState {
    /// The report owed for chunk message `m` from `origin`, where
    /// `proof_valid` says whether its Merkle branch verifies against the
    /// candidate's erasure root.
    pub open spec fn ingress_report(self, origin: PeerId, m: MessageModel, proof_valid: bool) -> i32 {
        let c = m.candidate_hash;
        let idx = m.erasure_chunk.index;
        let e = lookup(self.per_candidate@, c);
        if !has_key(self.per_candidate@, c) {
            COST_NOT_A_LIVE_CANDIDATE
        } else if !overlaps(e.live_in@, self.peer_view_of(origin)) {
            COST_PEER_MESSAGE_NOT_IN_VIEW
        } else if idx >= e.validators@.len() {
            COST_WRONG_VALIDATOR_INDEX
        } else if vault_holds(e.message_vault@, m) {
            if e.received_messages@.contains((origin, idx)) {
                COST_PEER_DUPLICATE_MESSAGE
            } else {
                BENEFIT_VALID_MESSAGE
            }
        } else if !proof_valid {
            COST_MERKLE_PROOF_INVALID
        } else {
            BENEFIT_VALID_MESSAGE_FIRST
        }
    }

    /// The peers to forward chunk `idx` of a candidate to, given its records.
    pub fn forward_peers(
        &self,
        live_in: &Vec<RelayHash>,
        origin: PeerId,
        idx: ValidatorIndex,
        sent: &Vec<(PeerId, ValidatorIndex)>,
        received: &Vec<(PeerId, ValidatorIndex)>,
    ) -> (r: Vec<PeerId>)
        requires
            keys_unique(self.peer_views@),
        ensures
            r@ == forward_targets(self.peer_views@, live_in@, origin, idx, sent@, received@),
            r@.no_duplicates(),
            forall|a: int| 0 <= a < r@.len() ==> !sent@.contains((#[trigger] r@[a], idx)) && r@[a] != origin,
    {
        let ghost pv = self.peer_views@;
        let mut out: Vec<PeerId> = Vec::new();
        let mut i: usize = 0;
        while i < self.peer_views.len()
            invariant
                i <= pv.len(),
                pv == self.peer_views@,
                keys_unique(pv),
                out@ == forward_targets(pv.take(i as int), live_in@, origin, idx, sent@, received@),
                out@.no_duplicates(),
                forall|a: int| 0 <= a < out@.len() ==> !sent@.contains((#[trigger] out@[a], idx)) && out@[a] != origin,
                forall|a: int| 0 <= a < out@.len() ==> exists|w: int| 0 <= w < i && pv[w].0 == #[trigger] out@[a],
            decreases pv.len() - i,
        {
            assert(pv.take(i + 1).drop_last() =~= pv.take(i as int));
            let q = self.peer_views[i].0;
            if q != origin && views_intersect(&self.peer_views[i].1, live_in) && !pair_recorded(sent, q, idx)
                && !pair_recorded(received, q, idx) {
                proof {
                    assert(overlaps(pv[i as int].1@, live_in@) == overlaps(self.peer_views@[i as int].1@, live_in@));
                    assert(forall|r: RelayHash| pv[i as int].1@.contains(r) && live_in@.contains(r) <==> live_in@.contains(r) && pv[i as int].1@.contains(r));
                }
                let ghost before = out@;
                out.push(q);
                proof {
                    assert forall|a: int, b: int| 0 <= a < out@.len() && 0 <= b < out@.len() && a != b implies out@[a] != out@[b] by {
                        if a == before.len() {
                            let w = choose|w: int| 0 <= w < i && pv[w].0 == #[trigger] before[b];
                            assert(w != i);
                        } else if b == before.len() {
                            let w = choose|w: int| 0 <= w < i && pv[w].0 == #[trigger] before[a];
                            assert(w != i);
                        } else {
                            assert(before[a] != before[b]);
                        }
                    }
                    assert forall|a: int| 0 <= a < out@.len() implies exists|w: int| 0 <= w < i + 1 && pv[w].0 == #[trigger] out@[a] by {
                        if a < before.len() {
                            let w = choose|w: int| 0 <= w < i && pv[w].0 == #[trigger] before[a];
                            assert(pv[w].0 == out@[a]);
                        } else {
                            assert(pv[i as int].0 == out@[a]);
                        }
                    }
                }
            } else {
                proof {
                    assert(forall|r: RelayHash| pv[i as int].1@.contains(r) && live_in@.contains(r) <==> live_in@.contains(r) && pv[i as int].1@.contains(r));
                    assert forall|a: int| 0 <= a < out@.len() implies exists|w: int| 0 <= w < i + 1 && pv[w].0 == #[trigger] out@[a] by {
                        let w = choose|w: int| 0 <= w < i && pv[w].0 == #[trigger] out@[a];
                        assert(0 <= w < i + 1);
                    }
                }
            }
            i = i + 1;
        }
        assert(pv.take(i as int) =~= pv);
        out
    }

    /// Handles chunk message `message` from peer `origin`. `proof_valid`
    /// says whether the chunk's Merkle branch verifies against the
    /// candidate's erasure root; it is read only once the other checks pass.
    ///
    /// The sender always gets exactly one report. A message that is refused
    /// changes nothing. An accepted one is recorded as received from
    /// `origin` and is forwarded to the interested peers that have not seen
    /// it; a first valid copy also enters the vault and, when its index is
    /// ours, goes to the availability store.
    ///
    /// Forwarding is evaluated on every accepted message, the first copy and
    /// a valid copy from a new sender alike, and reaches each interested peer
    /// that was neither sent the chunk nor sent it to us. A duplicate from
    /// the same sender is refused before that point and forwards nothing: a
    /// peer that could use the chunk already got it from the first copy.
    pub fn handle_chunk(&mut self, origin: PeerId, message: AvailabilityGossipMessage, proof_valid: bool) -> (r: IngressOutcome)
        requires
            old(self).wf(),
            old(self).records_wf(),
        ensures
            final(self).wf(),
            final(self).records_wf(),
            r.report == old(self).ingress_report(origin, message@, proof_valid),
            final(self).view == old(self).view,
            final(self).peer_views == old(self).peer_views,
            final(self).per_relay_parent == old(self).per_relay_parent,
            final(self).receipts == old(self).receipts,
            r.report < 0 ==> *final(self) == *old(self) && r.forward@.len() == 0 && r.store.is_none(),
            r.report == BENEFIT_VALID_MESSAGE_FIRST ==> proof_valid,
            r.report > 0 ==> ({
                let c = message.candidate_hash;
                let idx = message.erasure_chunk.index;
                let e0 = lookup(old(self).per_candidate@, c);
                let first = r.report == BENEFIT_VALID_MESSAGE_FIRST;
                &&& r.forward@ == forward_targets(old(self).peer_views@, e0.live_in@, origin, idx,
                    e0.sent_messages@, recorded(e0.received_messages@, (origin, idx)))
                &&& forall|x: CandidateHash| #[trigger] has_key(final(self).per_candidate@, x) <==> has_key(old(self).per_candidate@, x)
                &&& forall|x: CandidateHash| x != c && has_key(old(self).per_candidate@, x) ==>
                    #[trigger] lookup(final(self).per_candidate@, x) == lookup(old(self).per_candidate@, x)
                &&& accepted(lookup(final(self).per_candidate@, c), e0, origin, message, r.forward@, first)
                &&& match r.store {
                    Some(st) => first && e0.validator_index == Some(idx) && st.candidate_hash == c
                        && st.relay_parent == e0.descriptor.relay_parent && st.chunk@ == message.erasure_chunk@,
                    None => !(first && e0.validator_index == Some(idx)),
                }
            }),
    {
        let c = message.candidate_hash;
        let idx = message.erasure_chunk.index;
        let ghost m = message@;
        let k = match find_key(&self.per_candidate, c) {
            Some(k) => k,
            None => {
                return IngressOutcome { report: COST_NOT_A_LIVE_CANDIDATE, store: None, forward: Vec::new() };
            },
        };
        proof {
            lemma_lookup_at(self.per_candidate@, k as int);
        }
        let interested = match find_key(&self.peer_views, origin) {
            Some(i) => {
                proof {
                    lemma_lookup_at(self.peer_views@, i as int);
                }
                views_intersect(&self.per_candidate[k].1.live_in, &self.peer_views[i].1)
            },
            None => {
                assert(self.peer_view_of(origin).len() == 0);
                assert(!overlaps(self.per_candidate@[k as int].1.live_in@, self.peer_view_of(origin)));
                false
            },
        };
        if !interested {
            return IngressOutcome { report: COST_PEER_MESSAGE_NOT_IN_VIEW, store: None, forward: Vec::new() };
        }
        if idx as usize >= self.per_candidate[k].1.validators.len() {
            return IngressOutcome { report: COST_WRONG_VALIDATOR_INDEX, store: None, forward: Vec::new() };
        }
        let ghost e0 = self.per_candidate@[k as int].1;
        let holds = match vault_slot(&self.per_candidate[k].1.message_vault, idx) {
            Some(w) => messages_equal(&self.per_candidate[k].1.message_vault[w], &message),
            None => false,
        };
        proof {
            assert(entry_wf(e0));
            if vault_holds(e0.message_vault@, m) {
                let w = choose|w: int| 0 <= w < e0.message_vault@.len() && (#[trigger] e0.message_vault@[w])@ == m;
                assert(e0.message_vault@[w].erasure_chunk.index == idx);
            }
        }
        assert(holds == vault_holds(e0.message_vault@, m));
        let ghost s0 = *self;
        let ghost pc0 = self.per_candidate@;
        if holds {
            if pair_recorded(&self.per_candidate[k].1.received_messages, origin, idx) {
                return IngressOutcome { report: COST_PEER_DUPLICATE_MESSAGE, store: None, forward: Vec::new() };
            }
            let (key, mut cand) = self.per_candidate.remove(k);
            record_pair(&mut cand.received_messages, (origin, idx));
            let fwd = self.forward_peers(&cand.live_in, origin, idx, &cand.sent_messages, &cand.received_messages);
            record_forwards(&mut cand.sent_messages, &fwd, idx);
            self.per_candidate.insert(k, (key, cand));
            proof {
                assert(self.per_candidate@ =~= pc0.update(k as int, (pc0[k as int].0, self.per_candidate@[k as int].1)));
                self.lemma_entry_replaced(s0, k as int);
            }
            IngressOutcome { report: BENEFIT_VALID_MESSAGE, store: None, forward: fwd }
        } else {
            if !proof_valid {
                return IngressOutcome { report: COST_MERKLE_PROOF_INVALID, store: None, forward: Vec::new() };
            }
            let ours = match self.per_candidate[k].1.validator_index {
                Some(v) => v == idx,
                None => false,
            };
            let store = if ours {
                Some(StoreChunk {
                    candidate_hash: c,
                    relay_parent: self.per_candidate[k].1.descriptor.relay_parent,
                    chunk: crate::gossip::copy_message(&message).erasure_chunk,
                })
            } else {
                None
            };
            let (key, mut cand) = self.per_candidate.remove(k);
            let ghost msg = message;
            put_in_vault(&mut cand.message_vault, message);
            record_pair(&mut cand.received_messages, (origin, idx));
            let fwd = self.forward_peers(&cand.live_in, origin, idx, &cand.sent_messages, &cand.received_messages);
            record_forwards(&mut cand.sent_messages, &fwd, idx);
            self.per_candidate.insert(k, (key, cand));
            proof {
                assert(self.per_candidate@ =~= pc0.update(k as int, (pc0[k as int].0, self.per_candidate@[k as int].1)));
                self.lemma_entry_replaced(s0, k as int);
            }
            IngressOutcome { report: BENEFIT_VALID_MESSAGE_FIRST, store, forward: fwd }
        }
    }

    /// Replacing entry `k` of the candidates by one with the same `live_in`
    /// and well-formed records keeps the state well formed.
    pub proof fn lemma_entry_replaced(self, s0: ProtocolState, k: int)
        requires
            s0.wf(),
            s0.records_wf(),
            0 <= k < s0.per_candidate@.len(),
            self.view == s0.view,
            self.peer_views == s0.peer_views,
            self.per_relay_parent == s0.per_relay_parent,
            self.receipts == s0.receipts,
            self.per_candidate@ == s0.per_candidate@.update(k, (s0.per_candidate@[k].0, self.per_candidate@[k].1)),
            self.per_candidate@[k].1.live_in == s0.per_candidate@[k].1.live_in,
            entry_wf(self.per_candidate@[k].1),
            vault_for(self.per_candidate@[k].1, s0.per_candidate@[k].0),
        ensures
            self.wf(),
            self.records_wf(),
            forall|x: CandidateHash| #[trigger] has_key(self.per_candidate@, x) <==> has_key(s0.per_candidate@, x),
            forall|x: CandidateHash| x != s0.per_candidate@[k].0 && has_key(s0.per_candidate@, x) ==>
                #[trigger] lookup(self.per_candidate@, x) == lookup(s0.per_candidate@, x),
            lookup(self.per_candidate@, s0.per_candidate@[k].0) == self.per_candidate@[k].1,
    {
        crate::assoc::lemma_update_at(s0.per_candidate@, k, self.per_candidate@[k].1);
        let c = s0.per_candidate@[k].0;
        lemma_lookup_at(s0.per_candidate@, k);
        assert forall|x: CandidateHash| has_key(self.per_candidate@, x) implies #[trigger] self.live_in_of(x) == s0.live_in_of(x) by {}
        assert(same_links(s0, self));
        lemma_same_links(s0, self);
        assert forall|x: CandidateHash| has_key(self.per_candidate@, x) implies entry_wf(#[trigger] lookup(self.per_candidate@, x)) by {
            if x != c {
                assert(entry_wf(lookup(s0.per_candidate@, x)));
                assert(vault_for(lookup(s0.per_candidate@, x), x));
            }
        }
    }

    /// The erasure root that chunks of candidate `c` must verify against.
    pub fn erasure_root_of(&self, c: CandidateHash) -> (r: Option<u64>)
        requires
            keys_unique(self.per_candidate@),
        ensures
            r == if has_key(self.per_candidate@, c) {
                Some(lookup(self.per_candidate@, c).descriptor.erasure_root)
            } else {
                None::<u64>
            },
    {
        match find_key(&self.per_candidate, c) {
            Some(k) => {
                proof {
                    lemma_lookup_at(self.per_candidate@, k as int);
                }
                Some(self.per_candidate[k].1.descriptor.erasure_root)
            },
            None => None,
        }
    }
}

} // verus!
