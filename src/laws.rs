//! Laws that hold across the operations of the protocol.
use vstd::prelude::*;
use crate::gossip::{pairs_for, unsent_to};
use crate::types::{AvailabilityGossipMessage, PeerId, ValidatorIndex};

verus! {

/// A message is sent to a peer only once: what `unsent_to` picks for `p` was
/// not sent to `p` before, and recording it keeps the record of sends free
/// of duplicates, given a vault with one message per chunk index.
pub proof fn lemma_no_chunk_sent_twice(
    vault: Seq<AvailabilityGossipMessage>,
    sent: Seq<(PeerId, ValidatorIndex)>,
    p: PeerId,
)
    requires
        sent.no_duplicates(),
        forall|i: int, j: int| 0 <= i < vault.len() && 0 <= j < vault.len()
            && (#[trigger] vault[i]).erasure_chunk.index == (#[trigger] vault[j]).erasure_chunk.index ==> i == j,
    ensures
        forall|k: int| 0 <= k < pairs_for(unsent_to(vault, sent, p), p).len() ==>
            !sent.contains(#[trigger] pairs_for(unsent_to(vault, sent, p), p)[k]),
        (sent + pairs_for(unsent_to(vault, sent, p), p)).no_duplicates(),
    decreases vault.len(),
{
    if vault.len() > 0 {
        let v0 = vault.drop_last();
        lemma_no_chunk_sent_twice(v0, sent, p);
        let rest = unsent_to(v0, sent, p);
        lemma_unsent_from(v0, sent, p);
        let x = (p, vault.last().erasure_chunk.index);
        if !sent.contains(x) {
            let all = pairs_for(rest.push(vault.last()), p);
            assert(all =~= pairs_for(rest, p).push(x));
            assert forall|k: int| 0 <= k < pairs_for(rest, p).len() implies pairs_for(rest, p)[k] != x by {
                let w = choose|w: int| 0 <= w < v0.len() && v0[w] == rest[k];
                assert(vault[w] == v0[w]);
                assert(vault[vault.len() - 1] == vault.last());
            }
            let base = sent + pairs_for(rest, p);
            assert(!base.contains(x)) by {
                if base.contains(x) {
                    let w = choose|w: int| 0 <= w < base.len() && base[w] == x;
                    if w < sent.len() {
                        assert(sent[w] == x);
                    } else {
                        assert(pairs_for(rest, p)[w - sent.len()] == x);
                    }
                }
            }
            assert(sent + all =~= base.push(x));
            assert forall|a: int, b: int| 0 <= a < base.len() + 1 && 0 <= b < base.len() + 1 && a != b
                implies base.push(x)[a] != base.push(x)[b] by {
                if a == base.len() {
                    assert(base[b] == base.push(x)[b]);
                } else if b == base.len() {
                    assert(base[a] == base.push(x)[a]);
                }
            }
        }
    }
}

/// Each message `unsent_to` picks is an entry of the vault.
pub proof fn lemma_unsent_from(vault: Seq<AvailabilityGossipMessage>, sent: Seq<(PeerId, ValidatorIndex)>, p: PeerId)
    ensures
        forall|k: int| 0 <= k < unsent_to(vault, sent, p).len() ==>
            exists|w: int| 0 <= w < vault.len() && vault[w] == #[trigger] unsent_to(vault, sent, p)[k],
    decreases vault.len(),
{
    if vault.len() > 0 {
        let v0 = vault.drop_last();
        lemma_unsent_from(v0, sent, p);
        let rest = unsent_to(v0, sent, p);
        assert forall|k: int| 0 <= k < unsent_to(vault, sent, p).len() implies
            exists|w: int| 0 <= w < vault.len() && vault[w] == #[trigger] unsent_to(vault, sent, p)[k] by {
            if k < rest.len() {
                let w = choose|w: int| 0 <= w < v0.len() && v0[w] == #[trigger] rest[k];
                assert(vault[w] == v0[w]);
            } else {
                assert(vault[vault.len() - 1] == unsent_to(vault, sent, p)[k]);
            }
        }
    }
}

} // verus!
