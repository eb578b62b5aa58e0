//! Ancestors of a relay head that belong to the head's session.
//!
//! The chain is asked for `k + 1` ancestors, nearest first. The session of
//! ancestor `i` is learnt by asking for the session of the child of ancestor
//! `i + 1`, so the furthest ancestor returned by the chain (for instance the
//! genesis block) is never kept: its session cannot be learnt that way.
use vstd::prelude::*;
use crate::types::{RelayHash, SessionIndex};

verus! {

/// How many leading ancestors may be kept at most: `k`, and one fewer than the
/// chain returned, and no more than the sessions learnt so far.
pub open spec fn ancestry_bound(n_ancestors: int, n_sessions: int, k: int) -> int {
    let by_chain = if n_ancestors == 0 { 0 } else { n_ancestors - 1 };
    let a = if by_chain < k { by_chain } else { k };
    if n_sessions < a { n_sessions } else { a }
}

/// `n` leading ancestors are all in session `desired`, and `n` stops at the
/// bound or at the first ancestor of another session.
pub open spec fn is_session_run(sessions: Seq<SessionIndex>, desired: SessionIndex, bound: int, n: int) -> bool {
    &&& 0 <= n <= bound
    &&& forall|i: int| 0 <= i < n ==> sessions[i] == desired
    &&& (n == bound || sessions[n] != desired)
}

fn min_usize(a: usize, b: usize) -> (r: usize)
    ensures
        r == if a < b { a } else { b },
{
    if a < b { a } else { b }
}

/// The longest run of leading ancestors in session `head_session`, of at most
/// `k` elements.
///
/// `parent_sessions[i]` is the session of the child of `ancestors[i + 1]`,
/// which is the session of `ancestors[i]`. A list shorter than
/// `ancestors.len() - 1` stands for a query that failed: the ancestor whose
/// session is missing ends the run.
pub fn ancestors_in_same_session(
    ancestors: &Vec<RelayHash>,
    head_session: SessionIndex,
    parent_sessions: &Vec<SessionIndex>,
    k: usize,
) -> (r: Vec<RelayHash>)
    ensures
        r@ == ancestors@.take(r@.len() as int),
        is_session_run(
            parent_sessions@,
            head_session,
            ancestry_bound(ancestors@.len() as int, parent_sessions@.len() as int, k as int),
            r@.len() as int,
        ),
{
    let by_chain: usize = if ancestors.len() == 0 { 0 } else { ancestors.len() - 1 };
    let bound = min_usize(parent_sessions.len(), min_usize(by_chain, k));
    let mut out: Vec<RelayHash> = Vec::new();
    let mut i: usize = 0;
    while i < bound && parent_sessions[i] == head_session
        invariant
            bound == ancestry_bound(ancestors@.len() as int, parent_sessions@.len() as int, k as int),
            bound <= parent_sessions@.len(),
            bound < ancestors@.len() || bound == 0,
            i <= bound,
            out@.len() == i,
            out@ == ancestors@.take(i as int),
            forall|j: int| 0 <= j < i ==> parent_sessions@[j] == head_session,
        decreases bound - i,
    {
        out.push(ancestors[i]);
        i = i + 1;
        assert(out@ =~= ancestors@.take(i as int));
    }
    out
}

/// The next ancestor whose child's session must be asked for, given the
/// sessions learnt so far; `None` once the run of
/// `ancestors_in_same_session` is settled.
pub fn next_session_query(
    ancestors: &Vec<RelayHash>,
    head_session: SessionIndex,
    parent_sessions: &Vec<SessionIndex>,
    k: usize,
) -> (r: Option<RelayHash>)
    ensures
        ({
            let n = parent_sessions@.len() as int;
            let open = n < ancestors@.len() - 1 && n < k
                && forall|i: int| 0 <= i < n ==> parent_sessions@[i] == head_session;
            match r {
                Some(h) => open && h == ancestors@[n + 1],
                None => !open,
            }
        }),
{
    let n = parent_sessions.len();
    if ancestors.len() == 0 || n >= ancestors.len() - 1 || n >= k {
        return None;
    }
    let mut i: usize = 0;
    while i < n
        invariant
            n == parent_sessions@.len(),
            i <= n,
            forall|j: int| 0 <= j < i ==> parent_sessions@[j] == head_session,
        decreases n - i,
    {
        if parent_sessions[i] != head_session {
            return None;
        }
        i = i + 1;
    }
    Some(ancestors[n + 1])
}

} // verus!
