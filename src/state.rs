//! The indexed state of the gossip protocol: relay heads of interest, the
//! candidates live under them, and what each peer has sent and been sent.
use vstd::prelude::*;
use crate::assoc::{
    copy_ids, find_key, has_key, in_prefix, insert_value, key_in_prefix, key_set, keys_unique, lemma_lookup_at, lemma_push_fresh,
    lemma_remove_at, lemma_update_at, lookup, remove_value, vec_contains,
};
use crate::resolver::{receipts_wf, FetchedLiveCandidate, ReceiptsCache};
use crate::types::{
    AvailabilityGossipMessage, CandidateDescriptor, CandidateHash, PeerId, RelayHash,
    ValidatorId, ValidatorIndex,
};

verus! {

/// What is known of a relay head in our view.
pub struct PerRelayParent {
    /// Its ancestors in the same session, nearest first.
    pub ancestors: Vec<RelayHash>,
    /// Candidates pending availability under it or under those ancestors.
    pub live_candidates: Vec<CandidateHash>,
}

/// What is known of a live candidate.
pub struct PerCandidate {
    pub descriptor: CandidateDescriptor,
    /// Validators of the session the candidate belongs to.
    pub validators: Vec<ValidatorId>,
    /// Our own position among them, if we are one of them.
    pub validator_index: Option<ValidatorIndex>,
    /// Every valid chunk message seen, at most one per chunk index.
    pub message_vault: Vec<AvailabilityGossipMessage>,
    /// `(peer, chunk index)` pairs accepted from peers.
    pub received_messages: Vec<(PeerId, ValidatorIndex)>,
    /// `(peer, chunk index)` pairs sent to peers.
    pub sent_messages: Vec<(PeerId, ValidatorIndex)>,
    /// Heads of our view under which the candidate is live.
    pub live_in: Vec<RelayHash>,
}

/// The whole state of the protocol.
pub struct ProtocolState {
    /// Our view: the relay heads of interest.
    pub view: Vec<RelayHash>,
    /// The view of each connected peer.
    pub peer_views: Vec<(PeerId, Vec<RelayHash>)>,
    pub per_relay_parent: Vec<(RelayHash, PerRelayParent)>,
    pub per_candidate: Vec<(CandidateHash, PerCandidate)>,
    /// Candidates found pending under each head queried so far.
    pub receipts: ReceiptsCache,
}

/// `a` and `b` agree on everything but `live_in`.
pub open spec fn same_but_live_in(a: PerCandidate, b: PerCandidate) -> bool {
    &&& a.descriptor == b.descriptor
    &&& a.validators == b.validators
    &&& a.validator_index == b.validator_index
    &&& a.message_vault == b.message_vault
    &&& a.received_messages == b.received_messages
    &&& a.sent_messages == b.sent_messages
}

/// The vault holds one message per chunk index, and the records of what was
/// received and sent hold each `(peer, chunk index)` pair once.
pub open spec fn entry_wf(e: PerCandidate) -> bool {
    &&& forall|i: int, j: int| 0 <= i < e.message_vault@.len() && 0 <= j < e.message_vault@.len()
        && (#[trigger] e.message_vault@[i]).erasure_chunk.index == (#[trigger] e.message_vault@[j]).erasure_chunk.index ==> i == j
    &&& e.received_messages@.no_duplicates()
    &&& e.sent_messages@.no_duplicates()
}

/// Every message in the vault of `e` is a chunk of candidate `c`.
pub open spec fn vault_for(e: PerCandidate, c: CandidateHash) -> bool {
    forall|i: int| 0 <= i < e.message_vault@.len() ==> (#[trigger] e.message_vault@[i]).candidate_hash == c
}

/// Two states share the live relation and the relay-head records; only
/// message records of candidates may differ.
pub open spec fn same_links(s0: ProtocolState, s1: ProtocolState) -> bool {
    &&& s1.per_relay_parent == s0.per_relay_parent
    &&& s1.receipts == s0.receipts
    &&& keys_unique(s1.per_candidate@)
    &&& forall|c: CandidateHash| #[trigger] has_key(s1.per_candidate@, c) <==> has_key(s0.per_candidate@, c)
    &&& forall|c: CandidateHash| has_key(s1.per_candidate@, c) ==> #[trigger] s1.live_in_of(c) == s0.live_in_of(c)
}

/// Changing message records, or peer views, keeps the indexes well formed.
pub proof fn lemma_same_links(s0: ProtocolState, s1: ProtocolState)
    requires
        s0.wf(),
        same_links(s0, s1),
        keys_unique(s1.peer_views@),
    ensures
        s1.wf(),
{
    assert forall|r: RelayHash| #[trigger] s1.live_candidates_of(r) == s0.live_candidates_of(r) by {}
    assert(s1.linked());
    assert(s1.pinned());
}

/// `e` is `e0` with `relay` taken out of its `live_in`.
pub open spec fn without_head(e: PerCandidate, e0: PerCandidate, relay: RelayHash) -> bool {
    &&& same_but_live_in(e, e0)
    &&& e.live_in@.no_duplicates()
    &&& forall|r: RelayHash| #[trigger] e.live_in@.contains(r) <==> (e0.live_in@.contains(r) && r != relay)
}

/// `e` is `e0` with `relay` added to its `live_in`.
pub open spec fn with_head(e: PerCandidate, e0: PerCandidate, relay: RelayHash) -> bool {
    &&& same_but_live_in(e, e0)
    &&& e.live_in@.no_duplicates()
    &&& forall|r: RelayHash| #[trigger] e.live_in@.contains(r) <==> (e0.live_in@.contains(r) || r == relay)
}

/// The descriptor of a candidate learnt only from the cache.
pub open spec fn unknown_descriptor() -> CandidateDescriptor {
    CandidateDescriptor { para_id: 0, relay_parent: 0, pov_hash: 0, erasure_root: 0 }
}

/// A new entry for a candidate found under `relay`: a fresh finding brings
/// the descriptor and the session's validators, a cached one nothing; no
/// message is known yet.
pub open spec fn new_entry(
    e: PerCandidate,
    f: FetchedLiveCandidate,
    validators: Seq<ValidatorId>,
    validator_index: Option<ValidatorIndex>,
    relay: RelayHash,
) -> bool {
    &&& match f {
        FetchedLiveCandidate::Fresh(d) => e.descriptor == d && e.validators@ == validators
            && e.validator_index == validator_index,
        FetchedLiveCandidate::Cached => e.descriptor == unknown_descriptor() && e.validators@.len() == 0
            && e.validator_index.is_none(),
    }
    &&& e.message_vault@.len() == 0
    &&& e.received_messages@.len() == 0
    &&& e.sent_messages@.len() == 0
    &&& e.live_in@ == seq![relay]
}

impl ProtocolState {
    /// Candidate `c` is live under some head other than `relay`.
    pub open spec fn kept_without(self, c: CandidateHash, relay: RelayHash) -> bool {
        has_key(self.per_candidate@, c) && exists|r: RelayHash| r != relay && #[trigger] self.live_in_of(c).contains(r)
    }

    /// Heads under which candidate `c` is live.
    pub open spec fn live_in_of(self, c: CandidateHash) -> Seq<RelayHash> {
        lookup(self.per_candidate@, c).live_in@
    }

    /// Candidates live under head `r`.
    pub open spec fn live_candidates_of(self, r: RelayHash) -> Seq<CandidateHash> {
        lookup(self.per_relay_parent@, r).live_candidates@
    }

    /// Ancestors recorded for head `r`.
    pub open spec fn ancestors_of(self, r: RelayHash) -> Seq<RelayHash> {
        lookup(self.per_relay_parent@, r).ancestors@
    }

    /// The two indexes describe one relation: `r` is in the `live_in` of `c`
    /// exactly when `c` is among the live candidates of `r`.
    pub open spec fn linked(self) -> bool {
        forall|c: CandidateHash, r: RelayHash|
            #![trigger self.live_in_of(c).contains(r)]
            #![trigger self.live_candidates_of(r).contains(c)]
            (has_key(self.per_candidate@, c) && self.live_in_of(c).contains(r))
            <==> (has_key(self.per_relay_parent@, r) && self.live_candidates_of(r).contains(c))
    }

    /// Every candidate entry is pinned by at least one head.
    pub open spec fn pinned(self) -> bool {
        forall|c: CandidateHash| has_key(self.per_candidate@, c) ==> #[trigger] self.live_in_of(c).len() > 0
    }

    /// The indexes are well formed: unique keys, duplicate-free sets, and
    /// the live relation kept on both sides.
    pub open spec fn wf(self) -> bool {
        &&& keys_unique(self.per_candidate@)
        &&& keys_unique(self.per_relay_parent@)
        &&& forall|c: CandidateHash| has_key(self.per_candidate@, c) ==> #[trigger] self.live_in_of(c).no_duplicates()
        &&& forall|r: RelayHash| has_key(self.per_relay_parent@, r) ==> #[trigger] self.live_candidates_of(r).no_duplicates()
        &&& self.linked()
        &&& self.pinned()
        &&& receipts_wf(self.receipts@)
        &&& keys_unique(self.peer_views@)
    }

    /// Each candidate's message records are well formed.
    pub open spec fn records_wf(self) -> bool {
        forall|c: CandidateHash| has_key(self.per_candidate@, c) ==>
            entry_wf(#[trigger] lookup(self.per_candidate@, c)) && vault_for(lookup(self.per_candidate@, c), c)
    }

    /// An empty state.
    pub fn new() -> (r: ProtocolState)
        ensures
            r.wf(),
            r.view@.len() == 0,
            r.peer_views@.len() == 0,
            r.per_relay_parent@.len() == 0,
            r.per_candidate@.len() == 0,
            r.receipts@.len() == 0,
    {
        ProtocolState {
            view: Vec::new(),
            peer_views: Vec::new(),
            per_relay_parent: Vec::new(),
            per_candidate: Vec::new(),
            receipts: Vec::new(),
        }
    }

    /// Drops head `relay`: it leaves the `live_in` of each of its
    /// candidates, and a candidate left with no head is dropped.
    pub fn remove_relay_parent(&mut self, relay: RelayHash)
        requires
            old(self).wf(),
        ensures
            final(self).wf(),
            old(self).records_wf() ==> final(self).records_wf(),
            final(self).view == old(self).view,
            final(self).peer_views == old(self).peer_views,
            final(self).receipts == old(self).receipts,
            !has_key(final(self).per_relay_parent@, relay),
            forall|r: RelayHash| r != relay ==> (has_key(final(self).per_relay_parent@, r) <==> has_key(old(self).per_relay_parent@, r)),
            forall|r: RelayHash| r != relay && has_key(old(self).per_relay_parent@, r) ==>
                lookup(final(self).per_relay_parent@, r) == lookup(old(self).per_relay_parent@, r),
            forall|c: CandidateHash| has_key(final(self).per_candidate@, c) <==> old(self).kept_without(c, relay),
            forall|c: CandidateHash| #[trigger] has_key(final(self).per_candidate@, c) ==>
                same_but_live_in(lookup(final(self).per_candidate@, c), lookup(old(self).per_candidate@, c)),
            forall|c: CandidateHash, r: RelayHash| has_key(final(self).per_candidate@, c) ==>
                (#[trigger] final(self).live_in_of(c).contains(r) <==> (old(self).live_in_of(c).contains(r) && r != relay)),
    {
        let ghost s0 = *self;
        let i = match find_key(&self.per_relay_parent, relay) {
            Some(i) => i,
            None => {
                assert forall|c: CandidateHash| has_key(self.per_candidate@, c) implies
                    (exists|r: RelayHash| r != relay && s0.live_in_of(c).contains(r)) by {
                    assert(self.live_in_of(c).len() > 0);
                    let r = self.live_in_of(c)[0];
                    assert(self.live_in_of(c).contains(r));
                    assert(has_key(self.per_relay_parent@, r));
                }
                assert forall|c: CandidateHash, r: RelayHash| has_key(self.per_candidate@, c) implies
                    (#[trigger] self.live_in_of(c).contains(r) <==> (s0.live_in_of(c).contains(r) && r != relay)) by {
                    if self.live_in_of(c).contains(r) {
                        assert(has_key(self.per_relay_parent@, r));
                    }
                }
                return;
            },
        };
        proof {
            lemma_lookup_at(self.per_relay_parent@, i as int);
            lemma_remove_at(self.per_relay_parent@, i as int);
        }
        let (_, entry) = self.per_relay_parent.remove(i);
        let ghost pc0 = self.per_candidate@;
        let list = entry.live_candidates;
        assert(list@ == s0.live_candidates_of(relay));
        let mut j: usize = 0;
        while j < list.len()
            invariant
                j <= list@.len(),
                i < s0.per_relay_parent@.len(),
                list@ == s0.live_candidates_of(relay),
                list@.no_duplicates(),
                s0.wf(),
                has_key(s0.per_relay_parent@, relay),
                pc0 == s0.per_candidate@,
                self.view == s0.view,
                self.peer_views == s0.peer_views,
                self.receipts == s0.receipts,
                self.per_relay_parent@ == s0.per_relay_parent@.remove(i as int),
                keys_unique(self.per_candidate@),
                forall|c: CandidateHash| has_key(self.per_candidate@, c) ==> has_key(pc0, c),
                forall|c: CandidateHash|
                    #![trigger has_key(self.per_candidate@, c)]
                    #![trigger lookup(self.per_candidate@, c)]
                    has_key(pc0, c) && !in_prefix(list@, j as int, c) ==>
                    has_key(self.per_candidate@, c) && lookup(self.per_candidate@, c) == lookup(pc0, c),
                forall|c: CandidateHash| has_key(pc0, c) && #[trigger] in_prefix(list@, j as int, c) ==>
                    (has_key(self.per_candidate@, c) <==> exists|r: RelayHash| r != relay && s0.live_in_of(c).contains(r)),
                forall|c: CandidateHash| has_key(self.per_candidate@, c) && in_prefix(list@, j as int, c) ==>
                    without_head(#[trigger] lookup(self.per_candidate@, c), lookup(pc0, c), relay),
            decreases list.len() - j,
        {
            let c = list[j];
            let ghost pc1 = self.per_candidate@;
            assert(!in_prefix(list@, j as int, c)) by {
                if in_prefix(list@, j as int, c) {
                    let w = choose|w: int| 0 <= w < j && list@[w] == c;
                    assert(list@[w] == list@[j as int]);
                }
            }
            assert(s0.live_candidates_of(relay).contains(c)) by {
                assert(list@[j as int] == c);
            }
            assert(has_key(pc0, c) && s0.live_in_of(c).contains(relay));
            proof {
                crate::assoc::lemma_in_prefix_step(list@, j as int);
            }
            match find_key(&self.per_candidate, c) {
                Some(k) => {
                    proof {
                        lemma_lookup_at(pc1, k as int);
                    }
                    assert(lookup(pc1, c) == lookup(pc0, c));
                    let (key, mut cand) = self.per_candidate.remove(k);
                    remove_value(&mut cand.live_in, relay);
                    if cand.live_in.len() == 0 {
                        proof {
                            lemma_remove_at(pc1, k as int);
                            assert(self.per_candidate@ == pc1.remove(k as int));
                            assert forall|r: RelayHash| !(r != relay && s0.live_in_of(c).contains(r)) by {}
                        }
                    } else {
                        proof {
                            lemma_update_at(pc1, k as int, cand);
                        }
                        self.per_candidate.insert(k, (key, cand));
                        proof {
                            assert(self.per_candidate@ =~= pc1.update(k as int, (c, cand)));
                            let r0 = cand.live_in@[0];
                            assert(cand.live_in@.contains(r0));
                        }
                    }
                },
                None => {
                    assert(false);
                },
            }
            assert forall|x: CandidateHash|
                #![trigger has_key(self.per_candidate@, x)]
                #![trigger lookup(self.per_candidate@, x)]
                has_key(pc0, x) && !in_prefix(list@, j + 1, x) implies
                has_key(self.per_candidate@, x) && lookup(self.per_candidate@, x) == lookup(pc0, x) by {
                assert(x != c);
                assert(!in_prefix(list@, j as int, x));
                assert(has_key(pc1, x));
            }
            assert forall|x: CandidateHash| has_key(self.per_candidate@, x) && in_prefix(list@, j + 1, x) implies
                without_head(#[trigger] lookup(self.per_candidate@, x), lookup(pc0, x), relay) by {
                if x != c {
                    assert(in_prefix(list@, j as int, x));
                    assert(has_key(pc1, x));
                }
            }
            j = j + 1;
        }
        proof {
            crate::assoc::lemma_in_prefix_all(list@);
        }
        proof {
            let s1 = *self;
            assert forall|c: CandidateHash| has_key(s1.per_candidate@, c) implies
                same_but_live_in(#[trigger] lookup(s1.per_candidate@, c), lookup(pc0, c))
                && s1.live_in_of(c).no_duplicates()
                && (forall|r: RelayHash| s1.live_in_of(c).contains(r) <==> (s0.live_in_of(c).contains(r) && r != relay))
                && s1.live_in_of(c).len() > 0 by {
                assert(has_key(pc0, c));
                assert(in_prefix(list@, j as int, c) <==> list@.contains(c));
                if !list@.contains(c) {
                    assert(!s0.live_in_of(c).contains(relay));
                    assert(s0.live_in_of(c).no_duplicates());
                    assert(s0.live_in_of(c).len() > 0);
                } else {
                    assert(in_prefix(list@, j as int, c));
                    assert(without_head(lookup(s1.per_candidate@, c), lookup(pc0, c), relay));
                    assert(s0.live_candidates_of(relay).contains(c));
                    let r = choose|r: RelayHash| r != relay && s0.live_in_of(c).contains(r);
                    assert(s1.live_in_of(c).contains(r));
                }
            }
            assert forall|c: CandidateHash| has_key(s1.per_candidate@, c) <==>
                (has_key(pc0, c) && exists|r: RelayHash| r != relay && s0.live_in_of(c).contains(r)) by {
                assert(in_prefix(list@, j as int, c) <==> list@.contains(c));
                if has_key(pc0, c) && list@.contains(c) {
                    assert(s0.live_candidates_of(relay).contains(c));
                }
                if has_key(pc0, c) && !list@.contains(c) {
                    assert(has_key(s1.per_candidate@, c));
                    assert(s0.live_in_of(c).len() > 0);
                    let r = s0.live_in_of(c)[0];
                    assert(s0.live_in_of(c).contains(r));
                    assert(!s0.live_in_of(c).contains(relay));
                }
            }
            assert forall|r: RelayHash| has_key(s1.per_relay_parent@, r) <==> (has_key(s0.per_relay_parent@, r) && r != relay) by {}
            assert forall|r: RelayHash| has_key(s1.per_relay_parent@, r) implies
                lookup(s1.per_relay_parent@, r) == lookup(s0.per_relay_parent@, r) by {}
            assert forall|c: CandidateHash, r: RelayHash|
                #![trigger s1.live_in_of(c).contains(r)]
                #![trigger s1.live_candidates_of(r).contains(c)]
                (has_key(s1.per_candidate@, c) && s1.live_in_of(c).contains(r))
                <==> (has_key(s1.per_relay_parent@, r) && s1.live_candidates_of(r).contains(c)) by {
                if r != relay && has_key(s1.per_relay_parent@, r) && s1.live_candidates_of(r).contains(c) {
                    assert(s0.live_candidates_of(r).contains(c));
                    assert(s0.live_in_of(c).contains(r));
                }
            }
            assert(keys_unique(s1.per_candidate@));
            assert(keys_unique(s1.per_relay_parent@));
            assert(s1.linked());
            assert(s1.pinned());
            assert(receipts_wf(s1.receipts@));
            assert forall|r: RelayHash| has_key(s1.per_relay_parent@, r) implies #[trigger] s1.live_candidates_of(r).no_duplicates() by {
                assert(lookup(s1.per_relay_parent@, r) == lookup(s0.per_relay_parent@, r));
                assert(s0.live_candidates_of(r).no_duplicates());
            }
        }
    }

    /// Records head `relay` with its in-session `ancestors` and the
    /// candidates found under them. Each candidate gets `relay` in its
    /// `live_in`; one not known yet gets an entry, filled from a fresh finding.
    /// An earlier record of `relay` is replaced.
    pub fn add_relay_parent(
        &mut self,
        relay: RelayHash,
        validators: Vec<ValidatorId>,
        validator_index: Option<ValidatorIndex>,
        candidates: Vec<(CandidateHash, FetchedLiveCandidate)>,
        ancestors: Vec<RelayHash>,
    )
        requires
            old(self).wf(),
            keys_unique(candidates@),
        ensures
            final(self).wf(),
            old(self).records_wf() ==> final(self).records_wf(),
            final(self).view == old(self).view,
            final(self).peer_views == old(self).peer_views,
            final(self).receipts == old(self).receipts,
            has_key(final(self).per_relay_parent@, relay),
            final(self).ancestors_of(relay) == ancestors@,
            forall|c: CandidateHash| #[trigger] final(self).live_candidates_of(relay).contains(c) <==> has_key(candidates@, c),
            forall|r: RelayHash| r != relay ==> (has_key(final(self).per_relay_parent@, r) <==> has_key(old(self).per_relay_parent@, r)),
            forall|r: RelayHash| r != relay && has_key(old(self).per_relay_parent@, r) ==>
                lookup(final(self).per_relay_parent@, r) == lookup(old(self).per_relay_parent@, r),
            forall|c: CandidateHash| has_key(final(self).per_candidate@, c) <==>
                (old(self).kept_without(c, relay) || has_key(candidates@, c)),
            forall|c: CandidateHash| old(self).kept_without(c, relay) ==>
                same_but_live_in(#[trigger] lookup(final(self).per_candidate@, c), lookup(old(self).per_candidate@, c)),
            forall|c: CandidateHash| has_key(candidates@, c) && !old(self).kept_without(c, relay) ==>
                new_entry(#[trigger] lookup(final(self).per_candidate@, c), lookup(candidates@, c), validators@, validator_index, relay),
            forall|c: CandidateHash, r: RelayHash| has_key(final(self).per_candidate@, c) ==>
                (#[trigger] final(self).live_in_of(c).contains(r) <==>
                    ((has_key(old(self).per_candidate@, c) && old(self).live_in_of(c).contains(r) && r != relay)
                    || (r == relay && has_key(candidates@, c)))),
    {
        if find_key(&self.per_relay_parent, relay).is_some() {
            self.remove_relay_parent(relay);
        } else {
            proof {
                assert forall|c: CandidateHash| has_key(self.per_candidate@, c) implies
                    !(#[trigger] self.live_in_of(c).contains(relay)) by {}
                assert forall|c: CandidateHash| has_key(self.per_candidate@, c) implies self.kept_without(c, relay) by {
                    let r = self.live_in_of(c)[0];
                    assert(self.live_in_of(c).contains(r));
                }
            }
        }
        let ghost s0 = *old(self);
        let ghost s1 = *self;
        assert(forall|c: CandidateHash| has_key(s1.per_candidate@, c) <==> s0.kept_without(c, relay));
        let mut j: usize = 0;
        while j < candidates.len()
            invariant
                j <= candidates@.len(),
                keys_unique(candidates@),
                s1.wf(),
                !has_key(s1.per_relay_parent@, relay),
                self.view == s1.view,
                self.peer_views == s1.peer_views,
                self.receipts == s1.receipts,
                self.per_relay_parent == s1.per_relay_parent,
                keys_unique(self.per_candidate@),
                forall|c: CandidateHash| #[trigger] has_key(self.per_candidate@, c) <==>
                    (has_key(s1.per_candidate@, c) || key_in_prefix(candidates@, j as int, c)),
                forall|c: CandidateHash|
                    #![trigger has_key(self.per_candidate@, c)]
                    #![trigger lookup(self.per_candidate@, c)]
                    has_key(s1.per_candidate@, c) && !key_in_prefix(candidates@, j as int, c) ==>
                    lookup(self.per_candidate@, c) == lookup(s1.per_candidate@, c),
                forall|c: CandidateHash| has_key(s1.per_candidate@, c) && key_in_prefix(candidates@, j as int, c) ==>
                    with_head(#[trigger] lookup(self.per_candidate@, c), lookup(s1.per_candidate@, c), relay),
                forall|c: CandidateHash| !has_key(s1.per_candidate@, c) && key_in_prefix(candidates@, j as int, c) ==>
                    new_entry(#[trigger] lookup(self.per_candidate@, c), lookup(candidates@, c), validators@, validator_index, relay),
            decreases candidates.len() - j,
        {
            let c = candidates[j].0;
            let f = candidates[j].1;
            let ghost pc1 = self.per_candidate@;
            proof {
                lemma_lookup_at(candidates@, j as int);
            }
            assert(!key_in_prefix(candidates@, j as int, c));
            match find_key(&self.per_candidate, c) {
                Some(k) => {
                    proof {
                        lemma_lookup_at(pc1, k as int);
                    }
                    assert(has_key(s1.per_candidate@, c));
                    assert(lookup(pc1, c) == lookup(s1.per_candidate@, c));
                    assert(s1.live_in_of(c).no_duplicates());
                    let (key, mut cand) = self.per_candidate.remove(k);
                    insert_value(&mut cand.live_in, relay);
                    proof {
                        lemma_update_at(pc1, k as int, cand);
                    }
                    self.per_candidate.insert(k, (key, cand));
                    assert(self.per_candidate@ =~= pc1.update(k as int, (c, cand)));
                },
                None => {
                    assert(!has_key(s1.per_candidate@, c));
                    let mut live_in: Vec<RelayHash> = Vec::new();
                    live_in.push(relay);
                    assert(live_in@ =~= seq![relay]);
                    let cand = match f {
                        FetchedLiveCandidate::Fresh(d) => PerCandidate {
                            descriptor: d,
                            validators: copy_ids(&validators),
                            validator_index: validator_index,
                            message_vault: Vec::new(),
                            received_messages: Vec::new(),
                            sent_messages: Vec::new(),
                            live_in,
                        },
                        FetchedLiveCandidate::Cached => PerCandidate {
                            descriptor: CandidateDescriptor { para_id: 0, relay_parent: 0, pov_hash: 0, erasure_root: 0 },
                            validators: Vec::new(),
                            validator_index: None,
                            message_vault: Vec::new(),
                            received_messages: Vec::new(),
                            sent_messages: Vec::new(),
                            live_in,
                        },
                    };
                    proof {
                        lemma_push_fresh(pc1, c, cand);
                    }
                    self.per_candidate.push((c, cand));
                },
            }
            proof {
                crate::assoc::lemma_key_in_prefix_step(candidates@, j as int);
                assert forall|x: CandidateHash| #[trigger] has_key(self.per_candidate@, x) <==>
                    (has_key(s1.per_candidate@, x) || key_in_prefix(candidates@, j + 1, x)) by {
                    assert(has_key(pc1, x) <==> (has_key(s1.per_candidate@, x) || key_in_prefix(candidates@, j as int, x)));
                }
                assert forall|x: CandidateHash|
                    #![trigger has_key(self.per_candidate@, x)]
                    #![trigger lookup(self.per_candidate@, x)]
                    has_key(s1.per_candidate@, x) && !key_in_prefix(candidates@, j + 1, x) implies
                    lookup(self.per_candidate@, x) == lookup(s1.per_candidate@, x) by {
                    assert(x != c);
                    assert(has_key(pc1, x));
                }
                assert forall|x: CandidateHash| has_key(s1.per_candidate@, x) && key_in_prefix(candidates@, j + 1, x) implies
                    with_head(#[trigger] lookup(self.per_candidate@, x), lookup(s1.per_candidate@, x), relay) by {
                    if x != c {
                        assert(key_in_prefix(candidates@, j as int, x));
                        assert(has_key(pc1, x));
                    }
                }
                assert forall|x: CandidateHash| !has_key(s1.per_candidate@, x) && key_in_prefix(candidates@, j + 1, x) implies
                    new_entry(#[trigger] lookup(self.per_candidate@, x), lookup(candidates@, x), validators@, validator_index, relay) by {
                    if x != c {
                        assert(key_in_prefix(candidates@, j as int, x));
                        assert(has_key(pc1, x));
                    }
                }
            }
            j = j + 1;
        }
        let mut live: Vec<CandidateHash> = Vec::new();
        let mut w: usize = 0;
        while w < candidates.len()
            invariant
                w <= candidates@.len(),
                keys_unique(candidates@),
                live@.len() == w,
                forall|i: int| 0 <= i < w ==> live@[i] == candidates@[i].0,
            decreases candidates.len() - w,
        {
            live.push(candidates[w].0);
            w = w + 1;
        }
        proof {
            assert forall|a: int, b: int| 0 <= a < live@.len() && 0 <= b < live@.len() && a != b implies live@[a] != live@[b] by {}
            assert forall|c: CandidateHash| live@.contains(c) <==> has_key(candidates@, c) by {
                if live@.contains(c) {
                    let i = choose|i: int| 0 <= i < live@.len() && live@[i] == c;
                    assert(candidates@[i].0 == c);
                }
                if has_key(candidates@, c) {
                    let i = choose|i: int| 0 <= i < candidates@.len() && candidates@[i].0 == c;
                    assert(live@[i] == c);
                }
            }
            assert forall|c: CandidateHash| has_key(candidates@, c) <==> #[trigger] key_in_prefix(candidates@, j as int, c) by {
                if has_key(candidates@, c) {
                    let i = choose|i: int| 0 <= i < candidates@.len() && candidates@[i].0 == c;
                    assert(0 <= i < j && candidates@[i].0 == c);
                }
            }
        }
        let entry = PerRelayParent { ancestors, live_candidates: live };
        let ghost pc2 = self.per_candidate@;
        proof {
            lemma_push_fresh(self.per_relay_parent@, relay, entry);
        }
        self.per_relay_parent.push((relay, entry));
        proof {
            let s2 = *self;
            assert forall|c: CandidateHash, r: RelayHash| has_key(s2.per_candidate@, c) implies
                (#[trigger] s2.live_in_of(c).contains(r) <==>
                    ((has_key(s1.per_candidate@, c) && s1.live_in_of(c).contains(r))
                    || (r == relay && has_key(candidates@, c)))) by {
                assert(key_in_prefix(candidates@, j as int, c) <==> has_key(candidates@, c));
                assert(s2.per_candidate@ == pc2);
                if has_key(s1.per_candidate@, c) {
                    if has_key(candidates@, c) {
                        assert(with_head(lookup(pc2, c), lookup(s1.per_candidate@, c), relay));
                    } else {
                        assert(lookup(pc2, c) == lookup(s1.per_candidate@, c));
                        assert(!s1.live_in_of(c).contains(relay));
                    }
                } else {
                    assert(key_in_prefix(candidates@, j as int, c));
                    assert(new_entry(lookup(pc2, c), lookup(candidates@, c), validators@, validator_index, relay));
                    assert(s2.live_in_of(c) == seq![relay]);
                    assert(s2.live_in_of(c)[0] == relay);
                    if s2.live_in_of(c).contains(r) {
                        let q = choose|q: int| 0 <= q < s2.live_in_of(c).len() && s2.live_in_of(c)[q] == r;
                        assert(q == 0);
                    }
                }
            }
            assert forall|c: CandidateHash| has_key(s1.per_candidate@, c) implies !(#[trigger] s1.live_in_of(c).contains(relay)) by {}
            assert forall|c: CandidateHash, r: RelayHash|
                #![trigger s2.live_in_of(c).contains(r)]
                #![trigger s2.live_candidates_of(r).contains(c)]
                (has_key(s2.per_candidate@, c) && s2.live_in_of(c).contains(r))
                <==> (has_key(s2.per_relay_parent@, r) && s2.live_candidates_of(r).contains(c)) by {
                if r != relay {
                    assert(has_key(s2.per_relay_parent@, r) <==> has_key(s1.per_relay_parent@, r));
                    if has_key(s1.per_relay_parent@, r) {
                        assert(s2.live_candidates_of(r) == s1.live_candidates_of(r));
                    }
                    if has_key(s1.per_relay_parent@, r) && s1.live_candidates_of(r).contains(c) {
                        assert(s1.live_in_of(c).contains(r));
                    }
                } else {
                    assert(s2.live_candidates_of(r) == live@);
                }
            }
            assert forall|c: CandidateHash| has_key(s2.per_candidate@, c) implies #[trigger] s2.live_in_of(c).len() > 0
                && s2.live_in_of(c).no_duplicates() by {
                if has_key(s1.per_candidate@, c) {
                    assert(s1.live_in_of(c).len() > 0);
                    assert(s1.live_in_of(c).contains(s1.live_in_of(c)[0]));
                    assert(s2.live_in_of(c).contains(s1.live_in_of(c)[0]));
                } else {
                    assert(new_entry(lookup(pc2, c), lookup(candidates@, c), validators@, validator_index, relay));
                }
            }
            assert forall|r: RelayHash| has_key(s2.per_relay_parent@, r) implies #[trigger] s2.live_candidates_of(r).no_duplicates() by {
                if r != relay {
                    assert(has_key(s1.per_relay_parent@, r));
                    assert(s1.live_candidates_of(r).no_duplicates());
                }
            }
            assert(s2.linked());
            assert(s2.pinned());
            assert forall|c: CandidateHash| s0.kept_without(c, relay) implies
                same_but_live_in(#[trigger] lookup(s2.per_candidate@, c), lookup(s0.per_candidate@, c)) by {
                assert(has_key(s1.per_candidate@, c));
            }
            assert forall|c: CandidateHash| has_key(candidates@, c) && !s0.kept_without(c, relay) implies
                new_entry(#[trigger] lookup(s2.per_candidate@, c), lookup(candidates@, c), validators@, validator_index, relay) by {
                assert(!has_key(s1.per_candidate@, c));
            }
        }
    }

    /// The heads that keep their cached receipts: the heads of our view
    /// and the recorded ancestors of each of them.
    pub open spec fn view_pins(self) -> Set<RelayHash> {
        Set::new(|h: RelayHash| self.view@.contains(h)
            || exists|r: RelayHash| self.view@.contains(r) && has_key(self.per_relay_parent@, r)
                && #[trigger] self.ancestors_of(r).contains(h))
    }

    /// Every recorded head is in our view.
    pub open spec fn records_in_view(self) -> bool {
        forall|r: RelayHash| #[trigger] has_key(self.per_relay_parent@, r) ==> self.view@.contains(r)
    }

    /// Whether head `h` is one of `view_pins`.
    pub fn is_pinned(&self, h: RelayHash) -> (b: bool)
        requires
            keys_unique(self.per_relay_parent@),
        ensures
            b == self.view_pins().contains(h),
    {
        if vec_contains(&self.view, h) {
            return true;
        }
        let mut i: usize = 0;
        while i < self.per_relay_parent.len()
            invariant
                i <= self.per_relay_parent@.len(),
                !self.view@.contains(h),
                keys_unique(self.per_relay_parent@),
                forall|w: int| 0 <= w < i ==> !(self.view@.contains(self.per_relay_parent@[w].0)
                    && (#[trigger] self.per_relay_parent@[w]).1.ancestors@.contains(h)),
            decreases self.per_relay_parent.len() - i,
        {
            let e = &self.per_relay_parent[i];
            proof {
                lemma_lookup_at(self.per_relay_parent@, i as int);
            }
            if vec_contains(&self.view, e.0) && vec_contains(&e.1.ancestors, h) {
                assert(self.ancestors_of(e.0).contains(h));
                return true;
            }
            i = i + 1;
        }
        proof {
            assert forall|r: RelayHash| self.view@.contains(r) && has_key(self.per_relay_parent@, r) implies
                !(#[trigger] self.ancestors_of(r).contains(h)) by {
                let w = choose|w: int| 0 <= w < self.per_relay_parent@.len() && self.per_relay_parent@[w].0 == r;
                lemma_lookup_at(self.per_relay_parent@, w);
                assert(!(self.view@.contains(self.per_relay_parent@[w].0) && self.per_relay_parent@[w].1.ancestors@.contains(h)));
            }
        }
        false
    }

    /// Keeps in the receipts cache only the heads in `view_pins`: the heads
    /// of our view and the recorded ancestors of each of them.
    pub fn clean_up_receipts_cache(&mut self)
        requires
            old(self).wf(),
        ensures
            final(self).wf(),
            final(self).view == old(self).view,
            final(self).peer_views == old(self).peer_views,
            final(self).per_relay_parent == old(self).per_relay_parent,
            final(self).per_candidate == old(self).per_candidate,
            key_set(final(self).receipts@) == key_set(old(self).receipts@).intersect(old(self).view_pins()),
            forall|h: RelayHash| #[trigger] has_key(final(self).receipts@, h) ==>
                lookup(final(self).receipts@, h)@ == lookup(old(self).receipts@, h)@,
    {
        let ghost rc = self.receipts@;
        let ghost s0 = *self;
        let ghost pins = self.view_pins();
        let mut kept: ReceiptsCache = Vec::new();
        let mut i: usize = 0;
        while i < self.receipts.len()
            invariant
                i <= rc.len(),
                self.receipts@ == rc,
                s0.wf(),
                s0 == *old(self),
                *self == s0,
                pins == s0.view_pins(),
                keys_unique(kept@),
                forall|x: RelayHash| #[trigger] has_key(kept@, x) <==> (key_in_prefix(rc, i as int, x) && pins.contains(x)),
                forall|x: RelayHash| #[trigger] has_key(kept@, x) ==> lookup(kept@, x)@ == lookup(rc, x)@,
            decreases rc.len() - i,
        {
            let h = self.receipts[i].0;
            proof {
                lemma_lookup_at(rc, i as int);
                crate::assoc::lemma_key_in_prefix_step(rc, i as int);
                assert(!key_in_prefix(rc, i as int, h)) by {
                    if key_in_prefix(rc, i as int, h) {
                        let w = choose|w: int| 0 <= w < i && rc[w].0 == h;
                        assert(w == i);
                    }
                }
            }
            let ghost prev = kept@;
            if self.is_pinned(h) {
                let set = copy_ids(&self.receipts[i].1);
                proof {
                    lemma_push_fresh(kept@, h, set);
                }
                kept.push((h, set));
                proof {
                    assert forall|x: RelayHash| #[trigger] has_key(kept@, x) <==> (key_in_prefix(rc, i + 1, x) && pins.contains(x)) by {
                        assert(has_key(kept@, x) <==> (has_key(prev, x) || x == h));
                    }
                    assert forall|x: RelayHash| #[trigger] has_key(kept@, x) implies lookup(kept@, x)@ == lookup(rc, x)@ by {
                        assert(has_key(kept@, x) <==> (has_key(prev, x) || x == h));
                    }
                }
            } else {
                proof {
                    assert forall|x: RelayHash| #[trigger] has_key(kept@, x) <==> (key_in_prefix(rc, i + 1, x) && pins.contains(x)) by {
                        assert(key_in_prefix(rc, i + 1, x) <==> (key_in_prefix(rc, i as int, x) || x == h));
                    }
                }
            }
            i = i + 1;
        }
        proof {
            crate::assoc::lemma_key_in_prefix_all(rc);
            assert forall|x: RelayHash| has_key(kept@, x) implies (#[trigger] lookup(kept@, x))@.no_duplicates() by {
                assert(has_key(rc, x));
            }
            assert(key_set(kept@) =~= key_set(rc).intersect(pins));
        }
        self.receipts = kept;
        assert forall|c: CandidateHash| #[trigger] self.live_in_of(c) == s0.live_in_of(c) by {}
        assert forall|r: RelayHash| #[trigger] self.live_candidates_of(r) == s0.live_candidates_of(r) by {}
        assert(self.linked());
        assert(self.pinned());
        assert(receipts_wf(self.receipts@));
    }
}

} // verus!
