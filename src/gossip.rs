//! Sending chunk messages to peers, each `(peer, chunk index)` pair of a
//! candidate at most once.
use vstd::prelude::*;
use crate::state::{entry_wf, PerCandidate};
use crate::types::{AvailabilityGossipMessage, ErasureChunk, MessageModel, PeerId, RelayHash, ValidatorIndex};

verus! {

/// A chunk message to send to one peer.
pub struct ChunkSend {
    pub peer: PeerId,
    pub message: AvailabilityGossipMessage,
}

/// What a list of sends says, peer and message value.
pub open spec fn sends_view(out: Seq<ChunkSend>) -> Seq<(PeerId, MessageModel)> {
    out.map_values(|s: ChunkSend| (s.peer, s.message@))
}

/// The messages of `vault` whose index was not sent to `p` yet, in vault order.
pub open spec fn unsent_to(
    vault: Seq<AvailabilityGossipMessage>,
    sent: Seq<(PeerId, ValidatorIndex)>,
    p: PeerId,
) -> Seq<AvailabilityGossipMessage>
    decreases vault.len(),
{
    if vault.len() == 0 {
        Seq::empty()
    } else {
        let rest = unsent_to(vault.drop_last(), sent, p);
        if sent.contains((p, vault.last().erasure_chunk.index)) {
            rest
        } else {
            rest.push(vault.last())
        }
    }
}

/// The `(peer, index)` pairs that sending `msgs` to `p` records.
pub open spec fn pairs_for(msgs: Seq<AvailabilityGossipMessage>, p: PeerId) -> Seq<(PeerId, ValidatorIndex)> {
    msgs.map_values(|m: AvailabilityGossipMessage| (p, m.erasure_chunk.index))
}

/// Pairs of other peers do not change what is unsent to `q`.
pub proof fn lemma_unsent_ignores_others(
    vault: Seq<AvailabilityGossipMessage>,
    sent: Seq<(PeerId, ValidatorIndex)>,
    extra: Seq<(PeerId, ValidatorIndex)>,
    q: PeerId,
)
    requires
        forall|k: int| 0 <= k < extra.len() ==> (#[trigger] extra[k]).0 != q,
    ensures
        unsent_to(vault, sent + extra, q) == unsent_to(vault, sent, q),
    decreases vault.len(),
{
    if vault.len() > 0 {
        lemma_unsent_ignores_others(vault.drop_last(), sent, extra, q);
        let x = (q, vault.last().erasure_chunk.index);
        assert((sent + extra).contains(x) <==> sent.contains(x)) by {
            if (sent + extra).contains(x) {
                let w = choose|w: int| 0 <= w < (sent + extra).len() && (sent + extra)[w] == x;
                if w >= sent.len() {
                    assert(extra[w - sent.len()] == x);
                } else {
                    assert(sent[w] == x);
                }
            }
            if sent.contains(x) {
                let w = choose|w: int| 0 <= w < sent.len() && sent[w] == x;
                assert((sent + extra)[w] == x);
            }
        }
    }
}

/// Two heads lists share a head.
pub open spec fn overlaps(a: Seq<RelayHash>, b: Seq<RelayHash>) -> bool {
    exists|r: RelayHash| a.contains(r) && b.contains(r)
}

/// Whether the lists share a head.
pub fn views_intersect(a: &Vec<RelayHash>, b: &Vec<RelayHash>) -> (r: bool)
    ensures
        r == overlaps(a@, b@),
{
    let mut i: usize = 0;
    while i < a.len()
        invariant
            i <= a@.len(),
            forall|j: int| 0 <= j < i ==> !b@.contains(#[trigger] a@[j]),
        decreases a.len() - i,
    {
        if crate::assoc::vec_contains(b, a[i]) {
            assert(a@.contains(a@[i as int]));
            return true;
        }
        i = i + 1;
    }
    assert forall|r: RelayHash| !(a@.contains(r) && b@.contains(r)) by {
        if a@.contains(r) {
            let j = choose|j: int| 0 <= j < a@.len() && a@[j] == r;
            assert(!b@.contains(a@[j]));
        }
    }
    false
}

/// Whether the pair `(p, idx)` is recorded.
pub fn pair_recorded(v: &Vec<(PeerId, ValidatorIndex)>, p: PeerId, idx: ValidatorIndex) -> (r: bool)
    ensures
        r == v@.contains((p, idx)),
{
    let mut i: usize = 0;
    while i < v.len()
        invariant
            i <= v@.len(),
            forall|j: int| 0 <= j < i ==> v@[j] != (p, idx),
        decreases v.len() - i,
    {
        if v[i].0 == p && v[i].1 == idx {
            assert(v@[i as int] == (p, idx));
            return true;
        }
        i = i + 1;
    }
    false
}

/// A copy of a byte string.
pub fn copy_bytes(v: &Vec<u8>) -> (r: Vec<u8>)
    ensures
        r@ == v@,
{
    let mut out: Vec<u8> = Vec::new();
    let mut i: usize = 0;
    while i < v.len()
        invariant
            i <= v@.len(),
            out@ == v@.take(i as int),
        decreases v.len() - i,
    {
        out.push(v[i]);
        i = i + 1;
        assert(out@ =~= v@.take(i as int));
    }
    assert(v@.take(i as int) =~= v@);
    out
}

/// A copy of a chunk message.
pub fn copy_message(m: &AvailabilityGossipMessage) -> (r: AvailabilityGossipMessage)
    ensures
        r@ == m@,
        r.erasure_chunk.index == m.erasure_chunk.index,
        r.candidate_hash == m.candidate_hash,
{
    let mut proof: Vec<Vec<u8>> = Vec::new();
    let mut i: usize = 0;
    while i < m.erasure_chunk.proof.len()
        invariant
            i <= m.erasure_chunk.proof@.len(),
            proof@.len() == i,
            forall|j: int| 0 <= j < i ==> (#[trigger] proof@[j])@ == m.erasure_chunk.proof@[j]@,
        decreases m.erasure_chunk.proof.len() - i,
    {
        proof.push(copy_bytes(&m.erasure_chunk.proof[i]));
        i = i + 1;
    }
    let r = AvailabilityGossipMessage {
        candidate_hash: m.candidate_hash,
        erasure_chunk: ErasureChunk {
            index: m.erasure_chunk.index,
            chunk: copy_bytes(&m.erasure_chunk.chunk),
            proof,
        },
    };
    assert(r@.erasure_chunk.proof =~= m@.erasure_chunk.proof);
    r
}

/// Sends to `p` every message of the candidate's vault not sent to it yet,
/// and records each of those sends.
pub fn send_vault_to_peer(cand: &mut PerCandidate, p: PeerId, out: &mut Vec<ChunkSend>)
    requires
        entry_wf(*old(cand)),
    ensures
        entry_wf(*final(cand)),
        final(cand).descriptor == old(cand).descriptor,
        final(cand).validators == old(cand).validators,
        final(cand).validator_index == old(cand).validator_index,
        final(cand).message_vault == old(cand).message_vault,
        final(cand).received_messages == old(cand).received_messages,
        final(cand).live_in == old(cand).live_in,
        final(cand).sent_messages@ == old(cand).sent_messages@
            + pairs_for(unsent_to(old(cand).message_vault@, old(cand).sent_messages@, p), p),
        sends_view(final(out)@) == sends_view(old(out)@)
            + sends_view_of(unsent_to(old(cand).message_vault@, old(cand).sent_messages@, p), p),
{
    let ghost vault = cand.message_vault@;
    let ghost sent0 = cand.sent_messages@;
    let ghost out0 = out@;
    let mut i: usize = 0;
    while i < cand.message_vault.len()
        invariant
            i <= vault.len(),
            cand.message_vault@ == vault,
            entry_wf(*cand),
            cand.descriptor == old(cand).descriptor,
            cand.validators == old(cand).validators,
            cand.validator_index == old(cand).validator_index,
            cand.message_vault == old(cand).message_vault,
            cand.received_messages == old(cand).received_messages,
            cand.live_in == old(cand).live_in,
            sent0 == old(cand).sent_messages@,
            out0 == old(out)@,
            cand.sent_messages@ == sent0 + pairs_for(unsent_to(vault.take(i as int), sent0, p), p),
            sends_view(out@) == sends_view(out0) + sends_view_of(unsent_to(vault.take(i as int), sent0, p), p),
            forall|q: int| 0 <= q < (unsent_to(vault.take(i as int), sent0, p)).len() ==>
                exists|w: int| 0 <= w < i && vault[w] == #[trigger] unsent_to(vault.take(i as int), sent0, p)[q],
        decreases vault.len() - i,
    {
        let ghost before = unsent_to(vault.take(i as int), sent0, p);
        assert(vault.take(i + 1).drop_last() =~= vault.take(i as int));
        let idx = cand.message_vault[i].erasure_chunk.index;
        // a pair recorded during this call has the index of an earlier vault entry
        let already = pair_recorded(&cand.sent_messages, p, idx);
        proof {
            assert(already == sent0.contains((p, idx))) by {
                if sent0.contains((p, idx)) {
                    let w = choose|w: int| 0 <= w < sent0.len() && sent0[w] == (p, idx);
                    assert(cand.sent_messages@[w] == (p, idx));
                }
                if cand.sent_messages@.contains((p, idx)) && !sent0.contains((p, idx)) {
                    let w = choose|w: int| 0 <= w < cand.sent_messages@.len() && cand.sent_messages@[w] == (p, idx);
                    if w < sent0.len() {
                        assert(sent0[w] == (p, idx));
                    } else {
                        let q = w - sent0.len();
                        assert(cand.sent_messages@[w] == pairs_for(before, p)[q]);
                        assert(pairs_for(before, p)[q] == (p, before[q].erasure_chunk.index));
                        let w2 = choose|w2: int| 0 <= w2 < i && vault[w2] == #[trigger] before[q];
                        assert(cand.message_vault@[w2].erasure_chunk.index == cand.message_vault@[i as int].erasure_chunk.index);
                    }
                }
            }
        }
        if !already {
            let m = copy_message(&cand.message_vault[i]);
            let ghost sent_before = cand.sent_messages@;
            let ghost out_before = out@;
            cand.sent_messages.push((p, idx));
            out.push(ChunkSend { peer: p, message: m });
            assert(sends_view(out@) =~= sends_view(out_before).push((p, vault[i as int]@)));
            proof {
                assert(unsent_to(vault.take(i + 1), sent0, p) == before.push(vault[i as int]));
                assert(pairs_for(before.push(vault[i as int]), p) =~= pairs_for(before, p).push((p, idx)));
                assert(cand.sent_messages@ =~= sent0 + pairs_for(unsent_to(vault.take(i + 1), sent0, p), p));
                assert(sends_view_of(before.push(vault[i as int]), p) =~= sends_view_of(before, p).push((p, vault[i as int]@)));
                assert(sends_view(out@) =~= sends_view(out0) + sends_view_of(unsent_to(vault.take(i + 1), sent0, p), p));
                assert(!sent_before.contains((p, idx)));
                assert(cand.sent_messages@.no_duplicates()) by {
                    assert forall|a: int, b: int| 0 <= a < cand.sent_messages@.len() && 0 <= b < cand.sent_messages@.len() && a != b
                        implies cand.sent_messages@[a] != cand.sent_messages@[b] by {
                        if a == sent_before.len() {
                            assert(sent_before[b] == cand.sent_messages@[b]);
                        } else if b == sent_before.len() {
                            assert(sent_before[a] == cand.sent_messages@[a]);
                        }
                    }
                }
                let after = unsent_to(vault.take(i + 1), sent0, p);
                assert forall|q: int| 0 <= q < after.len() implies exists|w: int| 0 <= w < i + 1 && vault[w] == #[trigger] after[q] by {
                    if q < before.len() {
                        assert(after[q] == before[q]);
                        let w = choose|w: int| 0 <= w < i && vault[w] == before[q];
                        assert(0 <= w < i + 1 && vault[w] == after[q]);
                    } else {
                        assert(vault[i as int] == after[q]);
                    }
                }
            }
        } else {
            proof {
                assert(unsent_to(vault.take(i + 1), sent0, p) == before);
                let after = unsent_to(vault.take(i + 1), sent0, p);
                assert forall|q: int| 0 <= q < after.len() implies exists|w: int| 0 <= w < i + 1 && vault[w] == #[trigger] after[q] by {
                    let w = choose|w: int| 0 <= w < i && vault[w] == before[q];
                    assert(0 <= w < i + 1 && vault[w] == after[q]);
                }
            }
        }
        i = i + 1;
    }
    assert(vault.take(i as int) =~= vault);
}

/// What sending `msgs` to `p` says.
pub open spec fn sends_view_of(msgs: Seq<AvailabilityGossipMessage>, p: PeerId) -> Seq<(PeerId, MessageModel)> {
    msgs.map_values(|m: AvailabilityGossipMessage| (p, m@))
}

} // verus!
