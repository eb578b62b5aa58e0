//! Candidates pending availability under a set of relay heads, with a cache of
//! the answers already obtained for each head.
use vstd::prelude::*;
use crate::assoc::{
    find_key, has_key, in_prefix, insert_value, key_in_prefix, keys_unique, lemma_lookup_at, lemma_push_fresh,
    lemma_update_at, lookup, vec_contains,
};
use crate::types::{CandidateDescriptor, CandidateHash, ParaId, RelayHash};

verus! {

/// State of an availability core, as far as this logic reads it.
#[derive(Clone, Copy, Debug, PartialEq, Eq)]
pub enum CoreState {
    Occupied(ParaId),
    Scheduled(ParaId),
    Free,
}

/// How a live candidate was learnt in one resolution.
#[derive(Clone, Copy, Debug, PartialEq, Eq)]
pub enum FetchedLiveCandidate {
    /// Already known before this resolution, or met earlier in it.
    Cached,
    /// Discovered here, with its descriptor.
    Fresh(CandidateDescriptor),
}

/// Cache of the candidates found under each head ever queried.
pub type ReceiptsCache = Vec<(RelayHash, Vec<CandidateHash>)>;

/// Paras of the occupied cores, in core order.
pub open spec fn occupied_paras_of(cores: Seq<CoreState>) -> Seq<ParaId>
    decreases cores.len(),
{
    if cores.len() == 0 {
        Seq::empty()
    } else {
        let rest = occupied_paras_of(cores.drop_last());
        match cores.last() {
            CoreState::Occupied(p) => rest.push(p),
            _ => rest,
        }
    }
}

/// The paras whose cores are occupied; only those can have a candidate
/// pending availability.
pub fn occupied_paras(cores: &Vec<CoreState>) -> (r: Vec<ParaId>)
    ensures
        r@ == occupied_paras_of(cores@),
{
    let mut out: Vec<ParaId> = Vec::new();
    let mut i: usize = 0;
    while i < cores.len()
        invariant
            i <= cores@.len(),
            out@ == occupied_paras_of(cores@.take(i as int)),
        decreases cores.len() - i,
    {
        assert(cores@.take(i + 1).drop_last() =~= cores@.take(i as int));
        match cores[i] {
            CoreState::Occupied(p) => out.push(p),
            _ => {},
        }
        i = i + 1;
    }
    assert(cores@.take(i as int) =~= cores@);
    out
}

/// The candidates found under head `i`: the cached set if the head was
/// queried before, else the fresh answer with its descriptors.
pub open spec fn found_at(
    heads: Seq<RelayHash>,
    receipts: Seq<(RelayHash, Vec<CandidateHash>)>,
    answers: Seq<Vec<(CandidateHash, CandidateDescriptor)>>,
    i: int,
) -> Seq<(CandidateHash, Option<CandidateDescriptor>)> {
    if has_key(receipts, heads[i]) {
        lookup(receipts, heads[i])@.map_values(|c: CandidateHash| (c, None))
    } else {
        answers[i]@.map_values(|e: (CandidateHash, CandidateDescriptor)| (e.0, Some(e.1)))
    }
}

/// Everything found under the first `n` heads, in order.
pub open spec fn found_upto(
    heads: Seq<RelayHash>,
    receipts: Seq<(RelayHash, Vec<CandidateHash>)>,
    answers: Seq<Vec<(CandidateHash, CandidateDescriptor)>>,
    n: int,
) -> Seq<(CandidateHash, Option<CandidateDescriptor>)>
    decreases n,
{
    if n <= 0 {
        Seq::empty()
    } else {
        found_upto(heads, receipts, answers, n - 1) + found_at(heads, receipts, answers, n - 1)
    }
}

/// The tag of a finding.
pub open spec fn fetched_of(d: Option<CandidateDescriptor>) -> FetchedLiveCandidate {
    match d {
        Some(desc) => FetchedLiveCandidate::Fresh(desc),
        None => FetchedLiveCandidate::Cached,
    }
}

/// Entry `j` is the first finding of its candidate.
pub open spec fn is_first<D>(s: Seq<(CandidateHash, D)>, j: int) -> bool {
    0 <= j < s.len() && forall|i: int| 0 <= i < j ==> s[i].0 != s[j].0
}

/// Candidate `c` was found under a cached head.
pub open spec fn found_cached(s: Seq<(CandidateHash, Option<CandidateDescriptor>)>, c: CandidateHash) -> bool {
    exists|j: int| 0 <= j < s.len() && #[trigger] s[j] == (c, None::<CandidateDescriptor>)
}

/// Every candidate that the cache lists under some head.
pub open spec fn seen_in(rc: Seq<(RelayHash, Vec<CandidateHash>)>) -> Set<CandidateHash> {
    Set::new(|c: CandidateHash| exists|h: RelayHash| has_key(rc, h) && #[trigger] lookup(rc, h)@.contains(c))
}

/// `r` holds each candidate of `s` once: `Cached` when a cached head of `s`
/// lists it or it is in `seen`, otherwise tagged by its first finding.
pub open spec fn tags_findings(
    s: Seq<(CandidateHash, Option<CandidateDescriptor>)>,
    seen: Set<CandidateHash>,
    r: Seq<(CandidateHash, FetchedLiveCandidate)>,
) -> bool {
    &&& keys_unique(r)
    &&& forall|c: CandidateHash| #[trigger] has_key(r, c) <==> key_in_prefix(s, s.len() as int, c)
    &&& forall|c: CandidateHash| #[trigger] has_key(r, c) && (found_cached(s, c) || seen.contains(c)) ==>
        lookup(r, c) == FetchedLiveCandidate::Cached
    &&& forall|j: int| #[trigger] is_first(s, j) && !found_cached(s, s[j].0) && !seen.contains(s[j].0) ==>
        lookup(r, s[j].0) == fetched_of(s[j].1)
}

/// Every candidate the cache lists, possibly more than once.
pub fn cached_candidates(receipts: &ReceiptsCache) -> (r: Vec<CandidateHash>)
    requires
        keys_unique(receipts@),
    ensures
        forall|c: CandidateHash| #[trigger] r@.contains(c) <==> seen_in(receipts@).contains(c),
{
    let ghost rc = receipts@;
    let mut out: Vec<CandidateHash> = Vec::new();
    let mut i: usize = 0;
    while i < receipts.len()
        invariant
            i <= rc.len(),
            rc == receipts@,
            keys_unique(rc),
            forall|c: CandidateHash| #[trigger] out@.contains(c) <==> exists|w: int| 0 <= w < i && (#[trigger] rc[w]).1@.contains(c),
        decreases rc.len() - i,
    {
        let list = &receipts[i].1;
        let ghost base = out@;
        let mut j: usize = 0;
        while j < list.len()
            invariant
                j <= list@.len(),
                out@ == base + list@.take(j as int),
            decreases list.len() - j,
        {
            out.push(list[j]);
            j = j + 1;
            assert(out@ =~= base + list@.take(j as int));
        }
        assert(list@.take(j as int) =~= list@);
        assert forall|c: CandidateHash| #[trigger] out@.contains(c) <==> exists|w: int| 0 <= w < i + 1 && (#[trigger] rc[w]).1@.contains(c) by {
            if out@.contains(c) {
                let k = choose|k: int| 0 <= k < out@.len() && out@[k] == c;
                if k < base.len() {
                    assert(base[k] == c);
                    assert(base.contains(c));
                    let w = choose|w: int| 0 <= w < i && (#[trigger] rc[w]).1@.contains(c);
                    assert(0 <= w < i + 1 && rc[w].1@.contains(c));
                } else {
                    assert(list@[k - base.len()] == c);
                    assert(rc[i as int].1@.contains(c));
                }
            }
            if exists|w: int| 0 <= w < i + 1 && (#[trigger] rc[w]).1@.contains(c) {
                let w = choose|w: int| 0 <= w < i + 1 && (#[trigger] rc[w]).1@.contains(c);
                if w < i {
                    assert(base.contains(c));
                    let k = choose|k: int| 0 <= k < base.len() && base[k] == c;
                    assert(out@[k] == c);
                } else {
                    let k = choose|k: int| 0 <= k < list@.len() && list@[k] == c;
                    assert(out@[base.len() + k] == c);
                }
            }
        }
        i = i + 1;
    }
    assert forall|c: CandidateHash| #[trigger] out@.contains(c) <==> seen_in(rc).contains(c) by {
        if out@.contains(c) {
            let w = choose|w: int| 0 <= w < i && (#[trigger] rc[w]).1@.contains(c);
            lemma_lookup_at(rc, w);
            assert(has_key(rc, rc[w].0) && lookup(rc, rc[w].0)@.contains(c));
        }
        if seen_in(rc).contains(c) {
            let h = choose|h: RelayHash| has_key(rc, h) && #[trigger] lookup(rc, h)@.contains(c);
            let w = choose|w: int| 0 <= w < rc.len() && rc[w].0 == h;
            lemma_lookup_at(rc, w);
            assert(rc[w].1@.contains(c));
        }
    }
    out
}

/// Tags each candidate found: `Cached` if a cached head lists it or it is
/// among `known`, else by its first finding.
#[verifier::spinoff_prover]
pub fn tag_findings(
    found: &Vec<(CandidateHash, Option<CandidateDescriptor>)>,
    known: &Vec<CandidateHash>,
) -> (r: Vec<(CandidateHash, FetchedLiveCandidate)>)
    ensures
        tags_findings(found@, known@.to_set(), r@),
{
    let ghost seen = known@.to_set();
    let mut out: Vec<(CandidateHash, FetchedLiveCandidate)> = Vec::new();
    let mut i: usize = 0;
    while i < found.len()
        invariant
            i <= found@.len(),
            seen == known@.to_set(),
            tags_findings(found@.take(i as int), seen, out@),
        decreases found.len() - i,
    {
        let (c, d) = found[i];
        let ghost s = found@.take(i as int);
        let ghost s1 = found@.take(i + 1);
        let ghost prev = out@;
        assert(s1 =~= s.push((c, d)));
        proof {
            assert forall|y: CandidateHash| #[trigger] found_cached(s1, y) <==> (found_cached(s, y) || (y == c && d.is_none())) by {
                if found_cached(s1, y) {
                    let j = choose|j: int| 0 <= j < s1.len() && #[trigger] s1[j] == (y, None::<CandidateDescriptor>);
                    if j < s.len() {
                        assert(s[j] == s1[j]);
                    }
                }
                if found_cached(s, y) {
                    let j = choose|j: int| 0 <= j < s.len() && #[trigger] s[j] == (y, None::<CandidateDescriptor>);
                    assert(s1[j] == s[j]);
                }
                if y == c && d.is_none() {
                    assert(s1[s.len() as int] == (y, None::<CandidateDescriptor>));
                }
            }
            assert forall|j: int| 0 <= j < s.len() implies (#[trigger] is_first(s1, j) <==> is_first(s, j)) by {
                assert forall|w: int| 0 <= w < j implies s1[w] == s[w] by {}
                assert(s1[j] == s[j]);
            }
            assert forall|y: CandidateHash| #[trigger] key_in_prefix(s1, s1.len() as int, y) <==>
                (key_in_prefix(s, s.len() as int, y) || y == c) by {
                if key_in_prefix(s1, s1.len() as int, y) {
                    let j = choose|j: int| 0 <= j < s1.len() && s1[j].0 == y;
                    if j < s.len() {
                        assert(s[j].0 == y);
                    }
                }
                if key_in_prefix(s, s.len() as int, y) {
                    let j = choose|j: int| 0 <= j < s.len() && s[j].0 == y;
                    assert(s1[j].0 == y);
                }
                if y == c {
                    assert(s1[s.len() as int].0 == y);
                }
            }
        }
        match find_key(&out, c) {
            Some(k) => {
                proof {
                    lemma_lookup_at(prev, k as int);
                    assert(has_key(prev, c));
                    assert(key_in_prefix(s, s.len() as int, c));
                    assert(!is_first(s1, s.len() as int)) by {
                        let j = choose|j: int| 0 <= j < s.len() && s[j].0 == c;
                        assert(s1[j].0 == s1[s.len() as int].0);
                    }
                }
                if d.is_none() {
                    proof {
                        lemma_update_at(prev, k as int, FetchedLiveCandidate::Cached);
                    }
                    out.remove(k);
                    out.insert(k, (c, FetchedLiveCandidate::Cached));
                    proof {
                        assert(out@ =~= prev.update(k as int, (prev[k as int].0, FetchedLiveCandidate::Cached)));
                        assert forall|j: int| #[trigger] is_first(s1, j) && !found_cached(s1, s1[j].0) && !seen.contains(s1[j].0) implies
                            lookup(out@, s1[j].0) == fetched_of(s1[j].1) by {
                            assert(j < s.len());
                            assert(is_first(s, j));
                            assert(s1[j] == s[j]);
                        }
                    }
                } else {
                    proof {
                        assert forall|j: int| #[trigger] is_first(s1, j) && !found_cached(s1, s1[j].0) && !seen.contains(s1[j].0) implies
                            lookup(out@, s1[j].0) == fetched_of(s1[j].1) by {
                            assert(j < s.len());
                            assert(is_first(s, j));
                            assert(s1[j] == s[j]);
                        }
                    }
                }
            },
            None => {
                let f = match d {
                    Some(desc) => if vec_contains(known, c) {
                        FetchedLiveCandidate::Cached
                    } else {
                        FetchedLiveCandidate::Fresh(desc)
                    },
                    None => FetchedLiveCandidate::Cached,
                };
                proof {
                    lemma_push_fresh(prev, c, f);
                    assert(!key_in_prefix(s, s.len() as int, c));
                    assert forall|y: CandidateHash| found_cached(s, y) implies y != c by {
                        let j = choose|j: int| 0 <= j < s.len() && #[trigger] s[j] == (y, None::<CandidateDescriptor>);
                        assert(s[j].0 == y);
                    }
                }
                out.push((c, f));
                proof {
                    assert forall|j: int| #[trigger] is_first(s1, j) && !found_cached(s1, s1[j].0) && !seen.contains(s1[j].0) implies
                        lookup(out@, s1[j].0) == fetched_of(s1[j].1) by {
                        if j < s.len() {
                            assert(is_first(s, j));
                            assert(s1[j] == s[j]);
                            assert(has_key(prev, s[j].0));
                        }
                    }
                    assert forall|y: CandidateHash| #[trigger] has_key(out@, y) && (found_cached(s1, y) || seen.contains(y)) implies
                        lookup(out@, y) == FetchedLiveCandidate::Cached by {
                        if y != c {
                            assert(has_key(prev, y));
                            if found_cached(s1, y) {
                                let j = choose|j: int| 0 <= j < s.len() && #[trigger] s[j] == (y, None::<CandidateDescriptor>);
                                assert(s[j].0 == y);
                            }
                        }
                    }
                }
            },
        }
        assert(keys_unique(out@));
        assert(has_key(prev, c) ==> key_in_prefix(s, s.len() as int, c));
        assert forall|x: CandidateHash| #[trigger] has_key(out@, x) <==> key_in_prefix(s1, s1.len() as int, x) by {
            assert(key_in_prefix(s1, s1.len() as int, x) <==> (key_in_prefix(s, s.len() as int, x) || x == c));
            assert(has_key(prev, x) <==> key_in_prefix(s, s.len() as int, x));
            assert(has_key(out@, x) <==> (has_key(prev, x) || x == c));
        }
        assert forall|x: CandidateHash| #[trigger] has_key(out@, x) && (found_cached(s1, x) || seen.contains(x)) implies
            lookup(out@, x) == FetchedLiveCandidate::Cached by {
            if x != c {
                assert(has_key(prev, x));
            }
        }
        assert(forall|j: int| #[trigger] is_first(s1, j) && !found_cached(s1, s1[j].0) && !seen.contains(s1[j].0) ==>
            lookup(out@, s1[j].0) == fetched_of(s1[j].1));
        i = i + 1;
    }
    assert(found@.take(i as int) =~= found@);
    out
}

/// The cache is keyed uniquely and each cached set is free of duplicates.
pub open spec fn receipts_wf(r: Seq<(RelayHash, Vec<CandidateHash>)>) -> bool {
    &&& keys_unique(r)
    &&& forall|h: RelayHash| has_key(r, h) ==> (#[trigger] lookup(r, h))@.no_duplicates()
}

/// How the cache changes when `heads` are resolved: each head not cached
/// before now caches the candidates of its answer, and nothing else changes.
pub open spec fn receipts_updated(
    old: Seq<(RelayHash, Vec<CandidateHash>)>,
    new: Seq<(RelayHash, Vec<CandidateHash>)>,
    heads: Seq<RelayHash>,
    answers: Seq<Vec<(CandidateHash, CandidateDescriptor)>>,
) -> bool {
    &&& receipts_wf(new)
    &&& forall|h: RelayHash| has_key(new, h) <==> (has_key(old, h) || heads.contains(h))
    &&& forall|h: RelayHash| has_key(old, h) ==> lookup(new, h) == lookup(old, h)
    &&& forall|i: int, c: CandidateHash| 0 <= i < heads.len() && !has_key(old, heads[i]) ==>
            (lookup(new, heads[i])@.contains(c) <==> (exists|j: int| 0 <= j < answers[i]@.len() && answers[i]@[j].0 == c))
}

/// Everything found under `heads`, in order: cached heads give their cached
/// candidates, the others the candidates of their answer, which the cache
/// then keeps. `answers[i]` is what the runtime reported pending under
/// `heads[i]`; it is read only when that head is not cached.
#[verifier::spinoff_prover]
pub fn gather_pending(
    heads: &Vec<RelayHash>,
    receipts: &mut ReceiptsCache,
    answers: &Vec<Vec<(CandidateHash, CandidateDescriptor)>>,
) -> (r: Vec<(CandidateHash, Option<CandidateDescriptor>)>)
    requires
        heads@.no_duplicates(),
        answers@.len() == heads@.len(),
        receipts_wf(old(receipts)@),
    ensures
        r@ == found_upto(heads@, old(receipts)@, answers@, heads@.len() as int),
        receipts_updated(old(receipts)@, final(receipts)@, heads@, answers@),
{
    let ghost old_r = receipts@;
    let mut out: Vec<(CandidateHash, Option<CandidateDescriptor>)> = Vec::new();
    let mut i: usize = 0;
    while i < heads.len()
        invariant
            i <= heads@.len(),
            heads@.no_duplicates(),
            answers@.len() == heads@.len(),
            old_r == old(receipts)@,
            receipts_wf(old_r),
            out@ == found_upto(heads@, old_r, answers@, i as int),
            receipts_wf(receipts@),
            forall|h: RelayHash| has_key(receipts@, h) <==> (has_key(old_r, h) || in_prefix(heads@, i as int, h)),
            forall|h: RelayHash| has_key(old_r, h) ==> lookup(receipts@, h) == lookup(old_r, h),
            forall|j: int, c: CandidateHash| 0 <= j < i && !has_key(old_r, heads@[j]) ==>
                (lookup(receipts@, heads@[j])@.contains(c) <==> (exists|w: int| 0 <= w < answers@[j]@.len() && answers@[j]@[w].0 == c)),
        decreases heads.len() - i,
    {
        let h = heads[i];
        let ghost base = out@;
        let ghost cur = receipts@;
        assert(forall|x: RelayHash| has_key(cur, x) <==> (has_key(old_r, x) || in_prefix(heads@, i as int, x)));
        assert(!in_prefix(heads@, i as int, h)) by {
            if in_prefix(heads@, i as int, h) {
                let w = choose|w: int| 0 <= w < i && heads@[w] == h;
                assert(heads@[w] == heads@[i as int]);
            }
        }
        match find_key(receipts, h) {
            Some(k) => {
                proof {
                    lemma_lookup_at(receipts@, k as int);
                }
                let list: &Vec<CandidateHash> = &receipts[k].1;
                let mut j: usize = 0;
                while j < list.len()
                    invariant
                        j <= list@.len(),
                        out@ == base + list@.map_values(|c: CandidateHash| (c, None::<CandidateDescriptor>)).take(j as int),
                    decreases list.len() - j,
                {
                    out.push((list[j], None));
                    j = j + 1;
                    assert(out@ =~= base + list@.map_values(|c: CandidateHash| (c, None::<CandidateDescriptor>)).take(j as int));
                }
                assert(list@.map_values(|c: CandidateHash| (c, None::<CandidateDescriptor>)).take(j as int)
                    =~= list@.map_values(|c: CandidateHash| (c, None::<CandidateDescriptor>)));
                assert(has_key(old_r, h));
                assert forall|x: RelayHash| has_key(receipts@, x) <==> (has_key(old_r, x) || in_prefix(heads@, i + 1, x)) by {
                    assert(has_key(cur, x) <==> (has_key(old_r, x) || in_prefix(heads@, i as int, x)));
                    if has_key(receipts@, x) && !has_key(old_r, x) {
                        let w = choose|w: int| 0 <= w < i && heads@[w] == x;
                        assert(0 <= w < i + 1 && heads@[w] == x);
                    }
                    if in_prefix(heads@, i + 1, x) {
                        let w = choose|w: int| 0 <= w < i + 1 && heads@[w] == x;
                        if w < i {
                            assert(in_prefix(heads@, i as int, x));
                        }
                    }
                }
            },
            None => {
                assert(!has_key(old_r, h));
                let ans = &answers[i];
                let mut set: Vec<CandidateHash> = Vec::new();
                let mut j: usize = 0;
                while j < ans.len()
                    invariant
                        j <= ans@.len(),
                        set@.no_duplicates(),
                        forall|c: CandidateHash| set@.contains(c) <==> (exists|w: int| 0 <= w < j && ans@[w].0 == c),
                        out@ == base + ans@.map_values(|e: (CandidateHash, CandidateDescriptor)| (e.0, Some(e.1))).take(j as int),
                    decreases ans.len() - j,
                {
                    let (c, d) = ans[j];
                    insert_value(&mut set, c);
                    out.push((c, Some(d)));
                    j = j + 1;
                    assert(out@ =~= base + ans@.map_values(|e: (CandidateHash, CandidateDescriptor)| (e.0, Some(e.1))).take(j as int));
                    assert forall|x: CandidateHash| set@.contains(x) <==> (exists|w: int| 0 <= w < j && ans@[w].0 == x) by {
                        if set@.contains(x) && x != c {
                            let w = choose|w: int| 0 <= w < j - 1 && ans@[w].0 == x;
                            assert(0 <= w < j && ans@[w].0 == x);
                        }
                        if x == c {
                            assert(ans@[j - 1].0 == x);
                        }
                    }
                }
                assert(ans@.map_values(|e: (CandidateHash, CandidateDescriptor)| (e.0, Some(e.1))).take(j as int)
                    =~= ans@.map_values(|e: (CandidateHash, CandidateDescriptor)| (e.0, Some(e.1))));
                proof {
                    lemma_push_fresh(receipts@, h, set);
                }
                receipts.push((h, set));
                assert forall|x: RelayHash| has_key(receipts@, x) <==> (has_key(old_r, x) || in_prefix(heads@, i + 1, x)) by {
                    assert(has_key(cur, x) <==> (has_key(old_r, x) || in_prefix(heads@, i as int, x)));
                    if has_key(receipts@, x) && !has_key(old_r, x) && x != h {
                        assert(has_key(cur, x));
                        let w = choose|w: int| 0 <= w < i && heads@[w] == x;
                        assert(0 <= w < i + 1 && heads@[w] == x);
                    }
                    if x == h {
                        assert(heads@[i as int] == x);
                    }
                    if in_prefix(heads@, i + 1, x) {
                        let w = choose|w: int| 0 <= w < i + 1 && heads@[w] == x;
                        if w < i {
                            assert(in_prefix(heads@, i as int, x));
                        }
                    }
                }
                assert forall|x: RelayHash| has_key(receipts@, x) implies (#[trigger] lookup(receipts@, x))@.no_duplicates() by {
                    if x != h {
                        assert(has_key(cur, x));
                    }
                }
                assert forall|j: int, c: CandidateHash| 0 <= j < i + 1 && !has_key(old_r, heads@[j]) implies
                    (lookup(receipts@, heads@[j])@.contains(c) <==> (exists|w: int| 0 <= w < answers@[j]@.len() && answers@[j]@[w].0 == c)) by {
                    if j < i {
                        assert(has_key(cur, heads@[j]));
                    }
                }
            },
        }
        let ghost before_i = i as int;
        assert(forall|x: RelayHash| #[trigger] has_key(receipts@, x) <==> (has_key(old_r, x) || in_prefix(heads@, before_i + 1, x)));
        i = i + 1;
        assert(i as int == before_i + 1);
        assert forall|x: RelayHash| #[trigger] has_key(receipts@, x) <==> (has_key(old_r, x) || in_prefix(heads@, i as int, x)) by {
            assert(has_key(receipts@, x) <==> (has_key(old_r, x) || in_prefix(heads@, before_i + 1, x)));
        }
    }
    assert forall|x: RelayHash| heads@.contains(x) <==> in_prefix(heads@, i as int, x) by {
        if heads@.contains(x) {
            let w = choose|w: int| 0 <= w < heads@.len() && heads@[w] == x;
            assert(0 <= w < i && heads@[w] == x);
        }
    }
    out
}

/// The candidates pending availability under `heads`, each tagged `Cached`
/// when the cache already listed it under any head, and otherwise `Fresh`
/// with the descriptor of its first runtime answer. The cache is filled for every head
/// that was not in it.
pub fn query_pending_availability_at(
    heads: &Vec<RelayHash>,
    receipts: &mut ReceiptsCache,
    answers: &Vec<Vec<(CandidateHash, CandidateDescriptor)>>,
) -> (r: Vec<(CandidateHash, FetchedLiveCandidate)>)
    requires
        heads@.no_duplicates(),
        answers@.len() == heads@.len(),
        receipts_wf(old(receipts)@),
    ensures
        tags_findings(found_upto(heads@, old(receipts)@, answers@, heads@.len() as int), seen_in(old(receipts)@), r@),
        receipts_updated(old(receipts)@, final(receipts)@, heads@, answers@),
{
    let known = cached_candidates(receipts);
    assert(known@.to_set() =~= seen_in(old(receipts)@));
    let found = gather_pending(heads, receipts, answers);
    tag_findings(&found, &known)
}

/// Whether the runtime must be asked about head `h`: it is not cached.
pub fn needs_runtime_query(receipts: &ReceiptsCache, h: RelayHash) -> (r: bool)
    ensures
        r == !has_key(receipts@, h),
{
    find_key(receipts, h).is_none()
}

} // verus!
