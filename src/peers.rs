//! Peer connections and peer views.
use vstd::prelude::*;
use crate::assoc::{find_key, has_key, keys_unique, lemma_lookup_at, lemma_push_fresh, lemma_remove_at, lemma_update_at, lookup};
use crate::gossip::{overlaps, pairs_for, send_vault_to_peer, sends_view, sends_view_of, unsent_to, views_intersect, ChunkSend};
use crate::state::{entry_wf, lemma_same_links, same_links, PerCandidate, ProtocolState};
use crate::types::{CandidateHash, MessageModel, PeerId, RelayHash};

verus! {

/// `e` is `e0` after catching peer `p`, of view `view`, up: if the candidate
/// is live under a head of that view, every vault message not sent to `p`
/// yet is now recorded as sent.
pub open spec fn caught_up(e: PerCandidate, e0: PerCandidate, view: Seq<RelayHash>, p: PeerId) -> bool {
    &&& e.descriptor == e0.descriptor
    &&& e.validators == e0.validators
    &&& e.validator_index == e0.validator_index
    &&& e.message_vault == e0.message_vault
    &&& e.received_messages == e0.received_messages
    &&& e.live_in == e0.live_in
    &&& e.sent_messages@ == if overlaps(e0.live_in@, view) {
        e0.sent_messages@ + pairs_for(unsent_to(e0.message_vault@, e0.sent_messages@, p), p)
    } else {
        e0.sent_messages@
    }
}

/// The sends that catch peer `p` up on the candidates of `pc`, in order.
pub open spec fn catch_up_sends(pc: Seq<(CandidateHash, PerCandidate)>, view: Seq<RelayHash>, p: PeerId) -> Seq<(PeerId, MessageModel)>
    decreases pc.len(),
{
    if pc.len() == 0 {
        Seq::empty()
    } else {
        let rest = catch_up_sends(pc.drop_last(), view, p);
        let e = pc.last().1;
        if overlaps(e.live_in@, view) {
            rest + sends_view_of(unsent_to(e.message_vault@, e.sent_messages@, p), p)
        } else {
            rest
        }
    }
}

impl ProtocolState {
    /// The view of peer `p`; empty for a peer not connected.
    pub open spec fn peer_view_of(self, p: PeerId) -> Seq<RelayHash> {
        if has_key(self.peer_views@, p) {
            lookup(self.peer_views@, p)@
        } else {
            Seq::empty()
        }
    }

    fn set_peer_view(&mut self, p: PeerId, view: Vec<RelayHash>)
        requires
            old(self).wf(),
        ensures
            final(self).wf(),
            final(self).view == old(self).view,
            final(self).per_relay_parent == old(self).per_relay_parent,
            final(self).per_candidate == old(self).per_candidate,
            final(self).receipts == old(self).receipts,
            forall|q: PeerId| #[trigger] has_key(final(self).peer_views@, q) <==> (has_key(old(self).peer_views@, q) || q == p),
            lookup(final(self).peer_views@, p) == view,
            forall|q: PeerId| q != p && has_key(old(self).peer_views@, q) ==>
                #[trigger] lookup(final(self).peer_views@, q) == lookup(old(self).peer_views@, q),
    {
        let ghost s0 = *self;
        match find_key(&self.peer_views, p) {
            Some(k) => {
                proof {
                    lemma_update_at(self.peer_views@, k as int, view);
                }
                let ghost pv0 = self.peer_views@;
                self.peer_views.remove(k);
                self.peer_views.insert(k, (p, view));
                assert(self.peer_views@ =~= pv0.update(k as int, (p, view)));
            },
            None => {
                proof {
                    lemma_push_fresh(self.peer_views@, p, view);
                }
                self.peer_views.push((p, view));
            },
        }
        proof {
            lemma_same_links(s0, *self);
        }
    }

    /// A peer connected: its view starts empty.
    pub fn peer_connected(&mut self, p: PeerId)
        requires
            old(self).wf(),
        ensures
            final(self).wf(),
            final(self).view == old(self).view,
            final(self).per_relay_parent == old(self).per_relay_parent,
            final(self).per_candidate == old(self).per_candidate,
            final(self).receipts == old(self).receipts,
            has_key(final(self).peer_views@, p),
            final(self).peer_view_of(p).len() == 0,
            forall|q: PeerId| q != p ==> #[trigger] final(self).peer_view_of(q) == old(self).peer_view_of(q),
    {
        self.set_peer_view(p, Vec::new());
        proof {
            assert forall|q: PeerId| q != p implies #[trigger] self.peer_view_of(q) == old(self).peer_view_of(q) by {}
        }
    }

    /// A peer disconnected: its view is dropped. What it sent and was sent
    /// stays recorded, so a peer that comes back is not sent a chunk twice.
    pub fn peer_disconnected(&mut self, p: PeerId)
        requires
            old(self).wf(),
        ensures
            final(self).wf(),
            final(self).view == old(self).view,
            final(self).per_relay_parent == old(self).per_relay_parent,
            final(self).per_candidate == old(self).per_candidate,
            final(self).receipts == old(self).receipts,
            !has_key(final(self).peer_views@, p),
            forall|q: PeerId| q != p ==> (#[trigger] has_key(final(self).peer_views@, q) <==> has_key(old(self).peer_views@, q)),
            forall|q: PeerId| q != p ==> #[trigger] final(self).peer_view_of(q) == old(self).peer_view_of(q),
    {
        let ghost s0 = *self;
        if let Some(k) = find_key(&self.peer_views, p) {
            proof {
                lemma_remove_at(self.peer_views@, k as int);
            }
            self.peer_views.remove(k);
            proof {
                lemma_same_links(s0, *self);
            }
        }
        proof {
            assert forall|q: PeerId| q != p implies #[trigger] self.peer_view_of(q) == s0.peer_view_of(q) by {}
        }
    }

    /// A peer changed its view: it is recorded, and the peer is sent every
    /// chunk message we hold, not sent to it yet, of each candidate live
    /// under a head of its new view.
    ///
    /// What was sent is judged message by message, not candidate by
    /// candidate: a candidate of which the peer already got some chunks still
    /// has its other chunks sent, and no chunk is ever sent to a peer twice.
    pub fn peer_view_change(&mut self, p: PeerId, view: Vec<RelayHash>) -> (out: Vec<ChunkSend>)
        requires
            old(self).wf(),
            old(self).records_wf(),
        ensures
            final(self).wf(),
            final(self).records_wf(),
            final(self).view == old(self).view,
            final(self).per_relay_parent == old(self).per_relay_parent,
            final(self).receipts == old(self).receipts,
            has_key(final(self).peer_views@, p),
            final(self).peer_view_of(p) == view@,
            forall|q: PeerId| q != p ==> #[trigger] final(self).peer_view_of(q) == old(self).peer_view_of(q),
            forall|c: CandidateHash| #[trigger] has_key(final(self).per_candidate@, c) <==> has_key(old(self).per_candidate@, c),
            forall|c: CandidateHash| has_key(old(self).per_candidate@, c) ==>
                caught_up(#[trigger] lookup(final(self).per_candidate@, c), lookup(old(self).per_candidate@, c), view@, p),
            sends_view(out@) == catch_up_sends(old(self).per_candidate@, view@, p),
    {
        let ghost view_model = view@;
        let ghost s_start = *self;
        let mut probe: Vec<RelayHash> = Vec::new();
        let mut w: usize = 0;
        while w < view.len()
            invariant
                w <= view@.len(),
                probe@ == view@.take(w as int),
            decreases view.len() - w,
        {
            probe.push(view[w]);
            w = w + 1;
            assert(probe@ =~= view@.take(w as int));
        }
        assert(view@.take(w as int) =~= view@);
        self.set_peer_view(p, view);
        let ghost s0 = *self;
        let ghost pc0 = self.per_candidate@;
        let mut out: Vec<ChunkSend> = Vec::new();
        let mut k: usize = 0;
        while k < self.per_candidate.len()
            invariant
                k <= pc0.len(),
                probe@ == view_model,
                s0.wf(),
                s_start.records_wf(),
                pc0 == s0.per_candidate@,
                pc0 == s_start.per_candidate@,
                self.view == s0.view,
                self.peer_views == s0.peer_views,
                self.per_relay_parent == s0.per_relay_parent,
                self.receipts == s0.receipts,
                self.per_candidate@.len() == pc0.len(),
                forall|w: int| 0 <= w < pc0.len() ==> (#[trigger] self.per_candidate@[w]).0 == pc0[w].0,
                forall|w: int| 0 <= w < k ==> caught_up((#[trigger] self.per_candidate@[w]).1, pc0[w].1, view_model, p)
                    && entry_wf(self.per_candidate@[w].1),
                forall|w: int| k <= w < pc0.len() ==> #[trigger] self.per_candidate@[w] == pc0[w],
                sends_view(out@) == catch_up_sends(pc0.take(k as int), view_model, p),
            decreases pc0.len() - k,
        {
            let ghost pc1 = self.per_candidate@;
            proof {
                lemma_lookup_at(pc0, k as int);
                assert(entry_wf(pc0[k as int].1));
                assert(pc0.take(k + 1).drop_last() =~= pc0.take(k as int));
            }
            let (key, mut cand) = self.per_candidate.remove(k);
            if views_intersect(&cand.live_in, &probe) {
                send_vault_to_peer(&mut cand, p, &mut out);
            }
            self.per_candidate.insert(k, (key, cand));
            assert(self.per_candidate@ =~= pc1.update(k as int, (key, cand)));
            k = k + 1;
        }
        proof {
            assert(pc0.take(k as int) =~= pc0);
            let s1 = *self;
            assert forall|c: CandidateHash| #[trigger] has_key(s1.per_candidate@, c) <==> has_key(pc0, c) by {
                if has_key(s1.per_candidate@, c) {
                    let w = choose|w: int| 0 <= w < s1.per_candidate@.len() && s1.per_candidate@[w].0 == c;
                    assert(pc0[w].0 == c);
                }
                if has_key(pc0, c) {
                    let w = choose|w: int| 0 <= w < pc0.len() && pc0[w].0 == c;
                    assert(s1.per_candidate@[w].0 == c);
                }
            }
            assert(keys_unique(s1.per_candidate@)) by {
                assert forall|a: int, b: int| 0 <= a < s1.per_candidate@.len() && 0 <= b < s1.per_candidate@.len()
                    && s1.per_candidate@[a].0 == s1.per_candidate@[b].0 implies a == b by {
                    assert(pc0[a].0 == pc0[b].0);
                }
            }
            assert forall|c: CandidateHash| has_key(pc0, c) implies
                caught_up(#[trigger] lookup(s1.per_candidate@, c), lookup(pc0, c), view_model, p)
                && s1.live_in_of(c) == s0.live_in_of(c)
                && entry_wf(lookup(s1.per_candidate@, c)) by {
                let w = choose|w: int| 0 <= w < pc0.len() && pc0[w].0 == c;
                lemma_lookup_at(pc0, w);
                lemma_lookup_at(s1.per_candidate@, w);
                assert(caught_up(s1.per_candidate@[w].1, pc0[w].1, view_model, p));
            }
            assert(same_links(s0, s1));
            lemma_same_links(s0, s1);
            assert forall|q: PeerId| q != p implies #[trigger] s1.peer_view_of(q) == s_start.peer_view_of(q) by {}
        }
        out
    }
}

} // verus!
