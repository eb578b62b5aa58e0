//! Changes of our own view.
use vstd::prelude::*;
use crate::assoc::{find_key, has_key, in_prefix, key_in_prefix, key_set, keys_unique, lemma_lookup_at, lookup, vec_contains};
use crate::ingress::{put_in_vault, vault_put};
use crate::gossip::{lemma_unsent_ignores_others, overlaps, pairs_for, send_vault_to_peer, sends_view, sends_view_of, unsent_to, views_intersect, ChunkSend};
use crate::state::{entry_wf, same_but_live_in, PerCandidate, ProtocolState};
use crate::types::{AvailabilityGossipMessage, CandidateHash, ErasureChunk, MessageModel, PeerId, RelayHash, ValidatorIndex};

verus! {

/// The heads of `a` that are not in `b`, each once, in the order of `a`.
pub fn heads_missing(a: &Vec<RelayHash>, b: &Vec<RelayHash>) -> (r: Vec<RelayHash>)
    ensures
        r@.no_duplicates(),
        forall|h: RelayHash| r@.contains(h) <==> (a@.contains(h) && !b@.contains(h)),
{
    let mut out: Vec<RelayHash> = Vec::new();
    let mut i: usize = 0;
    while i < a.len()
        invariant
            i <= a@.len(),
            out@.no_duplicates(),
            forall|h: RelayHash| out@.contains(h) <==> (crate::assoc::in_prefix(a@, i as int, h) && !b@.contains(h)),
        decreases a.len() - i,
    {
        let h = a[i];
        proof {
            crate::assoc::lemma_in_prefix_step(a@, i as int);
        }
        if !vec_contains(b, h) {
            crate::assoc::insert_value(&mut out, h);
        }
        i = i + 1;
    }
    proof {
        crate::assoc::lemma_in_prefix_all(a@);
    }
    out
}

/// The sends that spread the vault of `e` to the peers of `pv` whose view
/// shares a head with its `live_in`, in peer order.
pub open spec fn fanout_sends(pv: Seq<(PeerId, Vec<RelayHash>)>, e: PerCandidate) -> Seq<(PeerId, MessageModel)>
    decreases pv.len(),
{
    if pv.len() == 0 {
        Seq::empty()
    } else {
        let rest = fanout_sends(pv.drop_last(), e);
        let q = pv.last().0;
        if overlaps(pv.last().1@, e.live_in@) {
            rest + sends_view_of(unsent_to(e.message_vault@, e.sent_messages@, q), q)
        } else {
            rest
        }
    }
}

/// The `(peer, index)` pairs that `fanout_sends` records.
pub open spec fn fanout_pairs(pv: Seq<(PeerId, Vec<RelayHash>)>, e: PerCandidate) -> Seq<(PeerId, ValidatorIndex)>
    decreases pv.len(),
{
    if pv.len() == 0 {
        Seq::empty()
    } else {
        let rest = fanout_pairs(pv.drop_last(), e);
        let q = pv.last().0;
        if overlaps(pv.last().1@, e.live_in@) {
            rest + pairs_for(unsent_to(e.message_vault@, e.sent_messages@, q), q)
        } else {
            rest
        }
    }
}

/// The local chunk of a newly pinned candidate is wanted: the candidate is
/// known, holds no message yet, and our index is within its validators.
pub open spec fn wants_local_chunk(e: PerCandidate) -> bool {
    &&& e.message_vault@.len() == 0
    &&& e.validator_index.is_some()
    &&& e.validator_index.unwrap() < e.validators@.len()
}

/// Our position in `validators`: the first one whose key we hold.
pub fn our_validator_index(validators: &Vec<u64>, our_keys: &Vec<u64>) -> (r: Option<ValidatorIndex>)
    requires
        validators@.len() <= u32::MAX,
    ensures
        match r {
            Some(i) => i < validators@.len() && our_keys@.contains(validators@[i as int])
                && forall|j: int| 0 <= j < i ==> !our_keys@.contains(#[trigger] validators@[j]),
            None => forall|j: int| 0 <= j < validators@.len() ==> !our_keys@.contains(#[trigger] validators@[j]),
        },
{
    let mut i: usize = 0;
    while i < validators.len()
        invariant
            i <= validators@.len(),
            validators@.len() <= u32::MAX,
            forall|j: int| 0 <= j < i ==> !our_keys@.contains(#[trigger] validators@[j]),
        decreases validators.len() - i,
    {
        if vec_contains(our_keys, validators[i]) {
            return Some(i as ValidatorIndex);
        }
        i = i + 1;
    }
    None
}

impl ProtocolState {
    /// The recorded heads whose head is not in `new_view`, each once.
    pub fn stale_heads(&self, new_view: &Vec<RelayHash>) -> (r: Vec<RelayHash>)
        ensures
            r@.no_duplicates(),
            forall|h: RelayHash| #[trigger] r@.contains(h) <==> (has_key(self.per_relay_parent@, h) && !new_view@.contains(h)),
    {
        let mut out: Vec<RelayHash> = Vec::new();
        let mut i: usize = 0;
        while i < self.per_relay_parent.len()
            invariant
                i <= self.per_relay_parent@.len(),
                out@.no_duplicates(),
                forall|h: RelayHash| #[trigger] out@.contains(h) <==>
                    (key_in_prefix(self.per_relay_parent@, i as int, h) && !new_view@.contains(h)),
            decreases self.per_relay_parent.len() - i,
        {
            let h = self.per_relay_parent[i].0;
            proof {
                crate::assoc::lemma_key_in_prefix_step(self.per_relay_parent@, i as int);
            }
            if !vec_contains(new_view, h) {
                crate::assoc::insert_value(&mut out, h);
            }
            i = i + 1;
        }
        proof {
            crate::assoc::lemma_key_in_prefix_all(self.per_relay_parent@);
        }
        out
    }

    /// The heads of `new_view` that still need resolving: those without a
    /// record. A head whose queries failed in an earlier change has none, so
    /// it is resolved again.
    pub fn heads_to_resolve(&self, new_view: &Vec<RelayHash>) -> (r: Vec<RelayHash>)
        ensures
            r@.no_duplicates(),
            forall|h: RelayHash| #[trigger] r@.contains(h) <==> (new_view@.contains(h) && !has_key(self.per_relay_parent@, h)),
    {
        let mut out: Vec<RelayHash> = Vec::new();
        let mut i: usize = 0;
        while i < new_view.len()
            invariant
                i <= new_view@.len(),
                out@.no_duplicates(),
                forall|h: RelayHash| #[trigger] out@.contains(h) <==>
                    (crate::assoc::in_prefix(new_view@, i as int, h) && !has_key(self.per_relay_parent@, h)),
            decreases new_view.len() - i,
        {
            let h = new_view[i];
            proof {
                crate::assoc::lemma_in_prefix_step(new_view@, i as int);
            }
            if find_key(&self.per_relay_parent, h).is_none() {
                crate::assoc::insert_value(&mut out, h);
            }
            i = i + 1;
        }
        proof {
            crate::assoc::lemma_in_prefix_all(new_view@);
        }
        out
    }

    /// Ends a change of our view to `new_view`, once its new heads are
    /// recorded: every record whose head is not in `new_view` is dropped
    /// (candidates left without a head go with it), the view is replaced,
    /// and the receipts cache is pruned to the view and the recorded
    /// ancestors of its heads.
    pub fn finish_view_change(&mut self, new_view: Vec<RelayHash>)
        requires
            old(self).wf(),
            old(self).records_wf(),
        ensures
            final(self).wf(),
            final(self).records_wf(),
            final(self).view == new_view,
            final(self).peer_views == old(self).peer_views,
            final(self).records_in_view(),
            forall|r: RelayHash| #[trigger] has_key(final(self).per_relay_parent@, r) <==>
                (has_key(old(self).per_relay_parent@, r) && new_view@.contains(r)),
            forall|r: RelayHash| has_key(final(self).per_relay_parent@, r) ==>
                #[trigger] lookup(final(self).per_relay_parent@, r) == lookup(old(self).per_relay_parent@, r),
            forall|c: CandidateHash| #[trigger] has_key(final(self).per_candidate@, c) <==>
                (has_key(old(self).per_candidate@, c)
                    && exists|r: RelayHash| new_view@.contains(r) && #[trigger] old(self).live_in_of(c).contains(r)),
            forall|c: CandidateHash| has_key(final(self).per_candidate@, c) ==>
                same_but_live_in(#[trigger] lookup(final(self).per_candidate@, c), lookup(old(self).per_candidate@, c)),
            forall|c: CandidateHash, r: RelayHash| has_key(final(self).per_candidate@, c) ==>
                (#[trigger] final(self).live_in_of(c).contains(r) <==> (old(self).live_in_of(c).contains(r) && new_view@.contains(r))),
            key_set(final(self).receipts@) == key_set(old(self).receipts@).intersect(final(self).view_pins()),
            key_set(final(self).receipts@).subset_of(final(self).view_pins()),
            forall|h: RelayHash| #[trigger] has_key(final(self).receipts@, h) ==>
                lookup(final(self).receipts@, h)@ == lookup(old(self).receipts@, h)@,
            old(self).records_in_view() && old(self).view@.to_set() == new_view@.to_set()
                && key_set(old(self).receipts@).subset_of(old(self).view_pins()) ==> ({
                &&& final(self).per_relay_parent == old(self).per_relay_parent
                &&& final(self).per_candidate == old(self).per_candidate
                &&& key_set(final(self).receipts@) == key_set(old(self).receipts@)
            }),
    {
        let stale = self.stale_heads(&new_view);
        let ghost s0 = *self;
        proof {
            assert forall|c: CandidateHash| #[trigger] has_key(self.per_candidate@, c) implies
                exists|r: RelayHash| !in_prefix(stale@, 0, r) && #[trigger] s0.live_in_of(c).contains(r) by {
                let r = s0.live_in_of(c)[0];
                assert(s0.live_in_of(c).contains(r));
            }
        }
        let mut i: usize = 0;
        while i < stale.len()
            invariant
                i <= stale@.len(),
                s0.wf(),
                s0.records_wf(),
                self.wf(),
                self.records_wf(),
                self.view == s0.view,
                self.peer_views == s0.peer_views,
                self.receipts == s0.receipts,
                forall|h: RelayHash| #[trigger] stale@.contains(h) <==> (has_key(s0.per_relay_parent@, h) && !new_view@.contains(h)),
                stale@.len() == 0 ==> *self == s0,
                forall|r: RelayHash| #[trigger] has_key(self.per_relay_parent@, r) <==>
                    (has_key(s0.per_relay_parent@, r) && !in_prefix(stale@, i as int, r)),
                forall|r: RelayHash| has_key(self.per_relay_parent@, r) ==>
                    #[trigger] lookup(self.per_relay_parent@, r) == lookup(s0.per_relay_parent@, r),
                forall|c: CandidateHash| #[trigger] has_key(self.per_candidate@, c) <==>
                    (has_key(s0.per_candidate@, c)
                        && exists|r: RelayHash| !in_prefix(stale@, i as int, r) && #[trigger] s0.live_in_of(c).contains(r)),
                forall|c: CandidateHash| has_key(self.per_candidate@, c) ==>
                    same_but_live_in(#[trigger] lookup(self.per_candidate@, c), lookup(s0.per_candidate@, c)),
                forall|c: CandidateHash, r: RelayHash| has_key(self.per_candidate@, c) ==>
                    (#[trigger] self.live_in_of(c).contains(r) <==> (s0.live_in_of(c).contains(r) && !in_prefix(stale@, i as int, r))),
            decreases stale.len() - i,
        {
            let h = stale[i];
            let ghost s1 = *self;
            proof {
                crate::assoc::lemma_in_prefix_step(stale@, i as int);
            }
            self.remove_relay_parent(h);
            proof {
                let ii = i + 1;
                assert forall|c: CandidateHash| #[trigger] has_key(self.per_candidate@, c) <==>
                    (has_key(s0.per_candidate@, c)
                        && exists|r: RelayHash| !in_prefix(stale@, ii, r) && #[trigger] s0.live_in_of(c).contains(r)) by {
                    if has_key(self.per_candidate@, c) {
                        assert(s1.kept_without(c, h));
                        assert(has_key(s1.per_candidate@, c));
                        let r = choose|r: RelayHash| r != h && #[trigger] s1.live_in_of(c).contains(r);
                        assert(s1.live_in_of(c).contains(r) <==> (s0.live_in_of(c).contains(r) && !in_prefix(stale@, i as int, r)));
                        assert(!in_prefix(stale@, ii, r));
                    }
                    if has_key(s0.per_candidate@, c) && exists|r: RelayHash| !in_prefix(stale@, ii, r) && #[trigger] s0.live_in_of(c).contains(r) {
                        let r = choose|r: RelayHash| !in_prefix(stale@, ii, r) && #[trigger] s0.live_in_of(c).contains(r);
                        assert(!in_prefix(stale@, i as int, r) && r != h);
                        assert(has_key(s1.per_candidate@, c));
                        assert(s1.live_in_of(c).contains(r));
                        assert(s1.kept_without(c, h));
                    }
                }
                assert forall|c: CandidateHash, r: RelayHash| has_key(self.per_candidate@, c) implies
                    (#[trigger] self.live_in_of(c).contains(r) <==> (s0.live_in_of(c).contains(r) && !in_prefix(stale@, ii, r))) by {
                    assert(has_key(s1.per_candidate@, c));
                    assert(s1.live_in_of(c).contains(r) <==> (s0.live_in_of(c).contains(r) && !in_prefix(stale@, i as int, r)));
                }
                assert forall|c: CandidateHash| has_key(self.per_candidate@, c) implies
                    same_but_live_in(#[trigger] lookup(self.per_candidate@, c), lookup(s0.per_candidate@, c)) by {
                    assert(has_key(s1.per_candidate@, c));
                }
                assert forall|r: RelayHash| #[trigger] has_key(self.per_relay_parent@, r) <==>
                    (has_key(s0.per_relay_parent@, r) && !in_prefix(stale@, ii, r)) by {}
                assert forall|r: RelayHash| has_key(self.per_relay_parent@, r) implies
                    #[trigger] lookup(self.per_relay_parent@, r) == lookup(s0.per_relay_parent@, r) by {
                    assert(has_key(s1.per_relay_parent@, r));
                }
            }
            i = i + 1;
        }
        proof {
            crate::assoc::lemma_in_prefix_all(stale@);
            // a head in a live_in is recorded, so it is stale exactly when it left the view
            assert forall|c: CandidateHash, r: RelayHash| has_key(s0.per_candidate@, c) && #[trigger] s0.live_in_of(c).contains(r)
                implies (!in_prefix(stale@, i as int, r) <==> new_view@.contains(r)) by {
                assert(has_key(s0.per_relay_parent@, r));
            }
        }
        let ghost s1 = *self;
        proof {
            assert forall|c: CandidateHash| #[trigger] has_key(s1.per_candidate@, c) <==>
                (has_key(s0.per_candidate@, c)
                    && exists|r: RelayHash| new_view@.contains(r) && #[trigger] s0.live_in_of(c).contains(r)) by {
                if has_key(s1.per_candidate@, c) {
                    let r = choose|r: RelayHash| !in_prefix(stale@, i as int, r) && #[trigger] s0.live_in_of(c).contains(r);
                    assert(new_view@.contains(r));
                }
                if has_key(s0.per_candidate@, c) && exists|r: RelayHash| new_view@.contains(r) && #[trigger] s0.live_in_of(c).contains(r) {
                    let r = choose|r: RelayHash| new_view@.contains(r) && #[trigger] s0.live_in_of(c).contains(r);
                    assert(!in_prefix(stale@, i as int, r));
                }
            }
            if s0.records_in_view() && s0.view@.to_set() == new_view@.to_set() {
                assert forall|h: RelayHash| !(#[trigger] stale@.contains(h)) by {
                    if stale@.contains(h) {
                        assert(s0.view@.contains(h));
                        assert(s0.view@.to_set().contains(h));
                        assert(new_view@.to_set().contains(h));
                    }
                }
                if stale@.len() > 0 {
                    assert(stale@.contains(stale@[0]));
                }
            }
        }
        self.view = new_view;
        let ghost s2 = *self;
        proof {
            assert forall|c: CandidateHash| #[trigger] s2.live_in_of(c) == s1.live_in_of(c) by {}
            assert forall|r: RelayHash| #[trigger] s2.live_candidates_of(r) == s1.live_candidates_of(r) by {}
            assert forall|r: RelayHash| #[trigger] s2.ancestors_of(r) == s1.ancestors_of(r) by {}
            assert(s2.records_in_view());
        }
        self.clean_up_receipts_cache();
        proof {
            assert forall|r: RelayHash| #[trigger] self.ancestors_of(r) == s2.ancestors_of(r) by {}
            assert forall|h: RelayHash| self.view_pins().contains(h) <==> s2.view_pins().contains(h) by {
                if exists|r: RelayHash| s2.view@.contains(r) && has_key(s2.per_relay_parent@, r) && #[trigger] s2.ancestors_of(r).contains(h) {
                    let r = choose|r: RelayHash| s2.view@.contains(r) && has_key(s2.per_relay_parent@, r) && #[trigger] s2.ancestors_of(r).contains(h);
                    assert(self.ancestors_of(r).contains(h));
                }
                if exists|r: RelayHash| self.view@.contains(r) && has_key(self.per_relay_parent@, r) && #[trigger] self.ancestors_of(r).contains(h) {
                    let r = choose|r: RelayHash| self.view@.contains(r) && has_key(self.per_relay_parent@, r) && #[trigger] self.ancestors_of(r).contains(h);
                    assert(s2.ancestors_of(r).contains(h));
                }
            }
            assert(self.view_pins() =~= s2.view_pins());
            assert(key_set(self.receipts@) =~= key_set(s0.receipts@).intersect(self.view_pins()));
            assert forall|h: RelayHash| #[trigger] has_key(self.receipts@, h) implies
                lookup(self.receipts@, h)@ == lookup(s0.receipts@, h)@ by {}
            assert forall|r: RelayHash| #[trigger] has_key(self.per_relay_parent@, r) implies self.view@.contains(r) by {
                assert(has_key(s2.per_relay_parent@, r));
            }
            if s0.records_in_view() && s0.view@.to_set() == s2.view@.to_set() && key_set(s0.receipts@).subset_of(s0.view_pins()) {
                assert forall|h: RelayHash| s0.view_pins().contains(h) implies s2.view_pins().contains(h) by {
                    assert(s0.view@.contains(h) ==> s0.view@.to_set().contains(h));
                    assert(s0.view@.to_set().contains(h) ==> s2.view@.contains(h));
                    if !s0.view@.contains(h) {
                        let r = choose|r: RelayHash| s0.view@.contains(r) && has_key(s0.per_relay_parent@, r) && #[trigger] s0.ancestors_of(r).contains(h);
                        assert(s0.view@.to_set().contains(r));
                        assert(s2.view@.contains(r));
                        assert(s2.ancestors_of(r).contains(h));
                    }
                }
                assert(key_set(self.receipts@) =~= key_set(s0.receipts@));
            }
        }
    }

    /// Our chunk index for candidate `c`, when the availability store should
    /// be asked for our chunk of it.
    pub fn local_chunk_request(&self, c: CandidateHash) -> (r: Option<ValidatorIndex>)
        requires
            self.wf(),
        ensures
            match r {
                Some(v) => has_key(self.per_candidate@, c) && wants_local_chunk(lookup(self.per_candidate@, c))
                    && lookup(self.per_candidate@, c).validator_index == Some(v),
                None => !(has_key(self.per_candidate@, c) && wants_local_chunk(lookup(self.per_candidate@, c))),
            },
    {
        match find_key(&self.per_candidate, c) {
            None => None,
            Some(k) => {
                proof {
                    lemma_lookup_at(self.per_candidate@, k as int);
                }
                let e = &self.per_candidate[k].1;
                if e.message_vault.len() != 0 {
                    return None;
                }
                match e.validator_index {
                    Some(v) => if (v as usize) < e.validators.len() { Some(v) } else { None },
                    None => None,
                }
            },
        }
    }

    /// Puts our own chunk of candidate `c`, as the availability store gave
    /// it, in the candidate's vault. Nothing happens for an unknown candidate.
    pub fn note_local_chunk(&mut self, c: CandidateHash, chunk: ErasureChunk)
        requires
            old(self).wf(),
            old(self).records_wf(),
        ensures
            final(self).wf(),
            final(self).records_wf(),
            final(self).view == old(self).view,
            final(self).peer_views == old(self).peer_views,
            final(self).per_relay_parent == old(self).per_relay_parent,
            final(self).receipts == old(self).receipts,
            forall|x: CandidateHash| #[trigger] has_key(final(self).per_candidate@, x) <==> has_key(old(self).per_candidate@, x),
            forall|x: CandidateHash| x != c && has_key(old(self).per_candidate@, x) ==>
                #[trigger] lookup(final(self).per_candidate@, x) == lookup(old(self).per_candidate@, x),
            has_key(old(self).per_candidate@, c) ==> ({
                let e = lookup(final(self).per_candidate@, c);
                let e0 = lookup(old(self).per_candidate@, c);
                &&& e.descriptor == e0.descriptor
                &&& e.validators == e0.validators
                &&& e.validator_index == e0.validator_index
                &&& e.live_in == e0.live_in
                &&& e.received_messages == e0.received_messages
                &&& e.sent_messages == e0.sent_messages
                &&& e.message_vault@ == vault_put(e0.message_vault@, AvailabilityGossipMessage { candidate_hash: c, erasure_chunk: chunk })
            }),
            !has_key(old(self).per_candidate@, c) ==> *final(self) == *old(self),
    {
        let k = match find_key(&self.per_candidate, c) {
            None => return,
            Some(k) => k,
        };
        let ghost s0 = *self;
        let ghost pc0 = self.per_candidate@;
        proof {
            lemma_lookup_at(pc0, k as int);
            assert(entry_wf(pc0[k as int].1));
        }
        let (key, mut cand) = self.per_candidate.remove(k);
        put_in_vault(&mut cand.message_vault, AvailabilityGossipMessage { candidate_hash: c, erasure_chunk: chunk });
        self.per_candidate.insert(k, (key, cand));
        proof {
            assert(self.per_candidate@ =~= pc0.update(k as int, (pc0[k as int].0, self.per_candidate@[k as int].1)));
            self.lemma_entry_replaced(s0, k as int);
        }
    }

    /// Spreads the vault of candidate `c` to every peer whose view shares a
    /// head with the candidate's `live_in`, skipping what each peer was
    /// already sent, and records the sends.
    pub fn gossip_candidate(&mut self, c: CandidateHash) -> (out: Vec<ChunkSend>)
        requires
            old(self).wf(),
            old(self).records_wf(),
        ensures
            final(self).wf(),
            final(self).records_wf(),
            final(self).view == old(self).view,
            final(self).peer_views == old(self).peer_views,
            final(self).per_relay_parent == old(self).per_relay_parent,
            final(self).receipts == old(self).receipts,
            forall|x: CandidateHash| #[trigger] has_key(final(self).per_candidate@, x) <==> has_key(old(self).per_candidate@, x),
            forall|x: CandidateHash| x != c && has_key(old(self).per_candidate@, x) ==>
                #[trigger] lookup(final(self).per_candidate@, x) == lookup(old(self).per_candidate@, x),
            has_key(old(self).per_candidate@, c) ==> ({
                let e = lookup(final(self).per_candidate@, c);
                let e0 = lookup(old(self).per_candidate@, c);
                &&& e.descriptor == e0.descriptor
                &&& e.validators == e0.validators
                &&& e.validator_index == e0.validator_index
                &&& e.live_in == e0.live_in
                &&& e.received_messages == e0.received_messages
                &&& e.message_vault == e0.message_vault
                &&& e.sent_messages@ == e0.sent_messages@ + fanout_pairs(old(self).peer_views@, e0)
                &&& sends_view(out@) == fanout_sends(old(self).peer_views@, e0)
            }),
            !has_key(old(self).per_candidate@, c) ==> *final(self) == *old(self) && out@.len() == 0,
    {
        let mut out: Vec<ChunkSend> = Vec::new();
        let k = match find_key(&self.per_candidate, c) {
            None => return out,
            Some(k) => k,
        };
        let ghost s0 = *self;
        let ghost pc0 = self.per_candidate@;
        let ghost pv = self.peer_views@;
        proof {
            lemma_lookup_at(pc0, k as int);
            assert(entry_wf(pc0[k as int].1));
        }
        let ghost e0 = pc0[k as int].1;
        let (key, mut cand) = self.per_candidate.remove(k);
        let mut i: usize = 0;
        while i < self.peer_views.len()
            invariant
                i <= pv.len(),
                pv == self.peer_views@,
                keys_unique(pv),
                entry_wf(cand),
                cand.descriptor == e0.descriptor,
                cand.validators == e0.validators,
                cand.validator_index == e0.validator_index,
                cand.live_in == e0.live_in,
                cand.received_messages == e0.received_messages,
                cand.message_vault == e0.message_vault,
                cand.sent_messages@ == e0.sent_messages@ + fanout_pairs(pv.take(i as int), e0),
                sends_view(out@) == fanout_sends(pv.take(i as int), e0),
                forall|a: int| 0 <= a < fanout_pairs(pv.take(i as int), e0).len() ==>
                    exists|w: int| 0 <= w < i && pv[w].0 == (#[trigger] fanout_pairs(pv.take(i as int), e0)[a]).0,
            decreases pv.len() - i,
        {
            let q = self.peer_views[i].0;
            let ghost prev = fanout_pairs(pv.take(i as int), e0);
            assert(pv.take(i + 1).drop_last() =~= pv.take(i as int));
            if views_intersect(&self.peer_views[i].1, &cand.live_in) {
                proof {
                    assert forall|a: int| 0 <= a < prev.len() implies (#[trigger] prev[a]).0 != q by {
                        let w = choose|w: int| 0 <= w < i && pv[w].0 == (#[trigger] prev[a]).0;
                        assert(w != i);
                    }
                    lemma_unsent_ignores_others(e0.message_vault@, e0.sent_messages@, prev, q);
                    assert(e0.sent_messages@ + prev == cand.sent_messages@);
                }
                send_vault_to_peer(&mut cand, q, &mut out);
                proof {
                    let new_pairs = pairs_for(unsent_to(e0.message_vault@, e0.sent_messages@, q), q);
                    assert(cand.sent_messages@ =~= e0.sent_messages@ + fanout_pairs(pv.take(i + 1), e0));
                    let now = fanout_pairs(pv.take(i + 1), e0);
                    assert(now =~= prev + new_pairs);
                    assert forall|a: int| 0 <= a < now.len() implies
                        exists|w: int| 0 <= w < i + 1 && pv[w].0 == (#[trigger] now[a]).0 by {
                        if a < prev.len() {
                            assert(now[a] == prev[a]);
                            let w = choose|w: int| 0 <= w < i && pv[w].0 == (#[trigger] prev[a]).0;
                            assert(0 <= w < i + 1 && pv[w].0 == now[a].0);
                        } else {
                            assert(now[a] == new_pairs[a - prev.len()]);
                            assert(pv[i as int].0 == now[a].0);
                        }
                    }
                }
            } else {
                proof {
                    let now = fanout_pairs(pv.take(i + 1), e0);
                    assert(now == prev);
                    assert forall|a: int| 0 <= a < now.len() implies
                        exists|w: int| 0 <= w < i + 1 && pv[w].0 == (#[trigger] now[a]).0 by {
                        let w = choose|w: int| 0 <= w < i && pv[w].0 == (#[trigger] prev[a]).0;
                        assert(0 <= w < i + 1 && pv[w].0 == now[a].0);
                    }
                }
            }
            i = i + 1;
        }
        assert(pv.take(i as int) =~= pv);
        self.per_candidate.insert(k, (key, cand));
        proof {
            assert(self.per_candidate@ =~= pc0.update(k as int, (pc0[k as int].0, self.per_candidate@[k as int].1)));
            self.lemma_entry_replaced(s0, k as int);
        }
        out
    }
}

} // verus!
