use vstd::prelude::*;

verus! {

/// Hash of a relay-chain block.
pub type RelayHash = u64;

/// Hash of a candidate receipt.
pub type CandidateHash = u64;

/// Identifier of a parachain.
pub type ParaId = u32;

/// Identifier of a connected peer.
pub type PeerId = u64;

/// Position of a validator in the session's validator set.
pub type ValidatorIndex = u32;

/// Index of a session.
pub type SessionIndex = u32;

/// Public key of a validator.
pub type ValidatorId = u64;

/// Number of in-session ancestors of a head that are considered.
pub const K: usize = 3;

/// Reward for the first valid copy of a chunk.
pub const BENEFIT_VALID_MESSAGE_FIRST: i32 = 15;

/// Reward for a valid chunk that was already known.
pub const BENEFIT_VALID_MESSAGE: i32 = 10;

/// Cost of sending the same chunk twice.
pub const COST_PEER_DUPLICATE_MESSAGE: i32 = -100;

/// Cost of a chunk for a candidate that is not live.
pub const COST_NOT_A_LIVE_CANDIDATE: i32 = -51;

/// Cost of a chunk for a candidate outside the peer's view.
pub const COST_PEER_MESSAGE_NOT_IN_VIEW: i32 = -52;

/// Cost of a chunk index beyond the validator set.
pub const COST_WRONG_VALIDATOR_INDEX: i32 = -53;

/// Cost of a chunk whose Merkle proof does not verify.
pub const COST_MERKLE_PROOF_INVALID: i32 = -1000;

/// Metadata of a candidate that the gossip logic reads.
#[derive(Clone, Copy, Debug, PartialEq, Eq)]
pub struct CandidateDescriptor {
    pub para_id: ParaId,
    pub relay_parent: RelayHash,
    pub pov_hash: u64,
    pub erasure_root: u64,
}

/// One erasure chunk with its Merkle branch.
#[derive(Clone, Debug, PartialEq, Eq)]
pub struct ErasureChunk {
    pub index: ValidatorIndex,
    pub chunk: Vec<u8>,
    pub proof: Vec<Vec<u8>>,
}

/// A chunk of a candidate, as sent over the wire.
#[derive(Clone, Debug, PartialEq, Eq)]
pub struct AvailabilityGossipMessage {
    pub candidate_hash: CandidateHash,
    pub erasure_chunk: ErasureChunk,
}

/// Mathematical value of an erasure chunk.
pub struct ChunkModel {
    pub index: ValidatorIndex,
    pub chunk: Seq<u8>,
    pub proof: Seq<Seq<u8>>,
}

impl View for ErasureChunk {
    type V = ChunkModel;

    open spec fn view(&self) -> ChunkModel {
        ChunkModel {
            index: self.index,
            chunk: self.chunk@,
            proof: self.proof@.map_values(|p: Vec<u8>| p@),
        }
    }
}

/// Mathematical value of a gossip message.
pub struct MessageModel {
    pub candidate_hash: CandidateHash,
    pub erasure_chunk: ChunkModel,
}

impl View for AvailabilityGossipMessage {
    type V = MessageModel;

    open spec fn view(&self) -> MessageModel {
        MessageModel { candidate_hash: self.candidate_hash, erasure_chunk: self.erasure_chunk@ }
    }
}

/// Byte strings are equal exactly when their contents are.
pub fn bytes_equal(a: &Vec<u8>, b: &Vec<u8>) -> (r: bool)
    ensures
        r == (a@ == b@),
{
    if a.len() != b.len() {
        return false;
    }
    let mut i: usize = 0;
    while i < a.len()
        invariant
            a.len() == b.len(),
            i <= a.len(),
            forall|j: int| 0 <= j < i ==> a@[j] == b@[j],
        decreases a.len() - i,
    {
        if a[i] != b[i] {
            return false;
        }
        i = i + 1;
    }
    assert(a@ =~= b@);
    true
}

/// Compares two chunks by value.
pub fn chunks_equal(a: &ErasureChunk, b: &ErasureChunk) -> (r: bool)
    ensures
        r == (a@ == b@),
{
    if a.index != b.index || !bytes_equal(&a.chunk, &b.chunk) || a.proof.len() != b.proof.len() {
        assert(a@.index != b@.index || a@.chunk != b@.chunk || a@.proof.len() != b@.proof.len());
        return false;
    }
    let mut i: usize = 0;
    while i < a.proof.len()
        invariant
            a.proof.len() == b.proof.len(),
            i <= a.proof.len(),
            forall|j: int| 0 <= j < i ==> a.proof@[j]@ == b.proof@[j]@,
        decreases a.proof.len() - i,
    {
        if !bytes_equal(&a.proof[i], &b.proof[i]) {
            assert(a@.proof[i as int] != b@.proof[i as int]);
            return false;
        }
        i = i + 1;
    }
    assert(a@.proof =~= b@.proof);
    true
}

/// Compares two gossip messages by value.
pub fn messages_equal(a: &AvailabilityGossipMessage, b: &AvailabilityGossipMessage) -> (r: bool)
    ensures
        r == (a@ == b@),
{
    a.candidate_hash == b.candidate_hash && chunks_equal(&a.erasure_chunk, &b.erasure_chunk)
}

} // verus!
