use vstd::prelude::*;

verus! {

/// Whether the association list holds key `k`.
pub open spec fn has_key<V>(s: Seq<(u64, V)>, k: u64) -> bool {
    exists|i: int| 0 <= i < s.len() && s[i].0 == k
}

/// `x` is among the first `n` elements of `s`.
pub open spec fn in_prefix(s: Seq<u64>, n: int, x: u64) -> bool {
    exists|w: int| 0 <= w < n && s[w] == x
}

/// Key `x` is among the keys of the first `n` entries of `s`.
pub open spec fn key_in_prefix<V>(s: Seq<(u64, V)>, n: int, x: u64) -> bool {
    exists|w: int| 0 <= w < n && s[w].0 == x
}

/// Extending a prefix by one element adds that element.
pub proof fn lemma_in_prefix_step(s: Seq<u64>, i: int)
    requires
        0 <= i < s.len(),
    ensures
        forall|x: u64| #[trigger] in_prefix(s, i + 1, x) <==> (in_prefix(s, i, x) || x == s[i]),
{
    assert forall|x: u64| #[trigger] in_prefix(s, i + 1, x) <==> (in_prefix(s, i, x) || x == s[i]) by {
        if in_prefix(s, i + 1, x) {
            let w = choose|w: int| 0 <= w < i + 1 && s[w] == x;
            if w < i {
                assert(in_prefix(s, i, x));
            }
        }
        if in_prefix(s, i, x) {
            let w = choose|w: int| 0 <= w < i && s[w] == x;
            assert(0 <= w < i + 1 && s[w] == x);
        }
    }
}

/// The whole sequence is its longest prefix.
pub proof fn lemma_in_prefix_all(s: Seq<u64>)
    ensures
        forall|x: u64| #[trigger] in_prefix(s, s.len() as int, x) <==> s.contains(x),
{
    assert forall|x: u64| #[trigger] in_prefix(s, s.len() as int, x) <==> s.contains(x) by {
        if s.contains(x) {
            let w = choose|w: int| 0 <= w < s.len() && s[w] == x;
            assert(0 <= w < s.len() && s[w] == x);
        }
    }
}

/// Extending a prefix of entries by one entry adds that entry's key.
pub proof fn lemma_key_in_prefix_step<V>(s: Seq<(u64, V)>, i: int)
    requires
        0 <= i < s.len(),
    ensures
        forall|x: u64| #[trigger] key_in_prefix(s, i + 1, x) <==> (key_in_prefix(s, i, x) || x == s[i].0),
{
    assert forall|x: u64| #[trigger] key_in_prefix(s, i + 1, x) <==> (key_in_prefix(s, i, x) || x == s[i].0) by {
        if key_in_prefix(s, i + 1, x) {
            let w = choose|w: int| 0 <= w < i + 1 && s[w].0 == x;
            if w < i {
                assert(key_in_prefix(s, i, x));
            }
        }
        if key_in_prefix(s, i, x) {
            let w = choose|w: int| 0 <= w < i && s[w].0 == x;
            assert(0 <= w < i + 1 && s[w].0 == x);
        }
    }
}

/// The keys of all entries are the keys of the list.
pub proof fn lemma_key_in_prefix_all<V>(s: Seq<(u64, V)>)
    ensures
        forall|x: u64| #[trigger] key_in_prefix(s, s.len() as int, x) <==> has_key(s, x),
{
    assert forall|x: u64| #[trigger] key_in_prefix(s, s.len() as int, x) <==> has_key(s, x) by {
        if has_key(s, x) {
            let w = choose|w: int| 0 <= w < s.len() && s[w].0 == x;
            assert(0 <= w < s.len() && s[w].0 == x);
        }
    }
}

/// Each key stands at most once in the association list.
pub open spec fn keys_unique<V>(s: Seq<(u64, V)>) -> bool {
    forall|i: int, j: int| 0 <= i < s.len() && 0 <= j < s.len() && s[i].0 == s[j].0 ==> i == j
}

/// The set of keys of an association list.
pub open spec fn key_set<V>(s: Seq<(u64, V)>) -> Set<u64> {
    Set::new(|k: u64| has_key(s, k))
}

/// The value stored under `k` (meaningful when `has_key(s, k)`).
pub open spec fn lookup<V>(s: Seq<(u64, V)>, k: u64) -> V {
    s[choose|i: int| 0 <= i < s.len() && s[i].0 == k].1
}

/// In a list with unique keys the value under the key of entry `i` is that entry's value.
pub proof fn lemma_lookup_at<V>(s: Seq<(u64, V)>, i: int)
    requires
        keys_unique(s),
        0 <= i < s.len(),
    ensures
        has_key(s, s[i].0),
        lookup(s, s[i].0) == s[i].1,
{
    let k = s[i].0;
    assert(s[i].0 == k);
    let j = choose|j: int| 0 <= j < s.len() && s[j].0 == k;
    assert(i == j);
}

/// Appending an entry under a new key keeps the other entries and adds that one.
pub proof fn lemma_push_fresh<V>(s: Seq<(u64, V)>, k: u64, v: V)
    requires
        keys_unique(s),
        !has_key(s, k),
    ensures
        keys_unique(s.push((k, v))),
        forall|x: u64| has_key(s.push((k, v)), x) <==> (has_key(s, x) || x == k),
        lookup(s.push((k, v)), k) == v,
        forall|x: u64| has_key(s, x) ==> lookup(s.push((k, v)), x) == lookup(s, x),
{
    let t = s.push((k, v));
    assert forall|i: int, j: int| 0 <= i < t.len() && 0 <= j < t.len() && t[i].0 == t[j].0 implies i == j by {
        if i < s.len() && j == s.len() {
            assert(s[i].0 == k);
        } else if j < s.len() && i == s.len() {
            assert(s[j].0 == k);
        }
    }
    assert forall|x: u64| has_key(t, x) implies (has_key(s, x) || x == k) by {
        let i = choose|i: int| 0 <= i < t.len() && t[i].0 == x;
        if i < s.len() {
            assert(s[i].0 == x);
        }
    }
    assert forall|x: u64| (has_key(s, x) || x == k) implies has_key(t, x) by {
        if has_key(s, x) {
            let i = choose|i: int| 0 <= i < s.len() && s[i].0 == x;
            assert(t[i].0 == x);
        } else {
            assert(t[s.len() as int].0 == x);
        }
    }
    lemma_lookup_at(t, s.len() as int);
    assert forall|x: u64| has_key(s, x) implies lookup(t, x) == lookup(s, x) by {
        let i = choose|i: int| 0 <= i < s.len() && s[i].0 == x;
        lemma_lookup_at(s, i);
        lemma_lookup_at(t, i);
    }
}

/// Removing entry `i` drops its key and keeps every other entry.
pub proof fn lemma_remove_at<V>(s: Seq<(u64, V)>, i: int)
    requires
        keys_unique(s),
        0 <= i < s.len(),
    ensures
        keys_unique(s.remove(i)),
        forall|x: u64| has_key(s.remove(i), x) <==> (has_key(s, x) && x != s[i].0),
        forall|x: u64| has_key(s, x) && x != s[i].0 ==> lookup(s.remove(i), x) == lookup(s, x),
{
    let t = s.remove(i);
    assert forall|a: int, b: int| 0 <= a < t.len() && 0 <= b < t.len() && t[a].0 == t[b].0 implies a == b by {
        let a1 = if a < i { a } else { a + 1 };
        let b1 = if b < i { b } else { b + 1 };
        assert(t[a] == s[a1]);
        assert(t[b] == s[b1]);
    }
    assert forall|x: u64| has_key(t, x) implies (has_key(s, x) && x != s[i].0) by {
        let a = choose|a: int| 0 <= a < t.len() && t[a].0 == x;
        let a1 = if a < i { a } else { a + 1 };
        assert(t[a] == s[a1]);
    }
    assert forall|x: u64| has_key(s, x) && x != s[i].0 implies has_key(t, x) && lookup(t, x) == lookup(s, x) by {
        let a1 = choose|a: int| 0 <= a < s.len() && s[a].0 == x;
        let a = if a1 < i { a1 } else { a1 - 1 };
        assert(t[a] == s[a1]);
        lemma_lookup_at(s, a1);
        lemma_lookup_at(t, a);
    }
}

/// Replacing the value of entry `i` keeps the keys and changes only that value.
pub proof fn lemma_update_at<V>(s: Seq<(u64, V)>, i: int, v: V)
    requires
        keys_unique(s),
        0 <= i < s.len(),
    ensures
        keys_unique(s.update(i, (s[i].0, v))),
        forall|x: u64| has_key(s.update(i, (s[i].0, v)), x) <==> has_key(s, x),
        lookup(s.update(i, (s[i].0, v)), s[i].0) == v,
        forall|x: u64| has_key(s, x) && x != s[i].0 ==> lookup(s.update(i, (s[i].0, v)), x) == lookup(s, x),
{
    let t = s.update(i, (s[i].0, v));
    assert forall|a: int, b: int| 0 <= a < t.len() && 0 <= b < t.len() && t[a].0 == t[b].0 implies a == b by {
        assert(t[a].0 == s[a].0);
        assert(t[b].0 == s[b].0);
    }
    assert forall|x: u64| has_key(t, x) <==> has_key(s, x) by {
        if has_key(t, x) {
            let a = choose|a: int| 0 <= a < t.len() && t[a].0 == x;
            assert(s[a].0 == x);
        }
        if has_key(s, x) {
            let a = choose|a: int| 0 <= a < s.len() && s[a].0 == x;
            assert(t[a].0 == x);
        }
    }
    lemma_lookup_at(t, i);
    assert forall|x: u64| has_key(s, x) && x != s[i].0 implies lookup(t, x) == lookup(s, x) by {
        let a = choose|a: int| 0 <= a < s.len() && s[a].0 == x;
        lemma_lookup_at(s, a);
        lemma_lookup_at(t, a);
    }
}

/// Position of key `k` in the list, if it is there.
pub fn find_key<V>(v: &Vec<(u64, V)>, k: u64) -> (r: Option<usize>)
    ensures
        match r {
            Some(i) => i < v@.len() && v@[i as int].0 == k,
            None => !has_key(v@, k),
        },
{
    let mut i: usize = 0;
    while i < v.len()
        invariant
            i <= v@.len(),
            forall|j: int| 0 <= j < i ==> v@[j].0 != k,
        decreases v.len() - i,
    {
        if v[i].0 == k {
            return Some(i);
        }
        i = i + 1;
    }
    None
}

/// A copy of a list of identifiers.
pub fn copy_ids(v: &Vec<u64>) -> (r: Vec<u64>)
    ensures
        r@ == v@,
{
    let mut out: Vec<u64> = Vec::new();
    let mut i: usize = 0;
    while i < v.len()
        invariant
            i <= v@.len(),
            out@ == v@.take(i as int),
        decreases v.len() - i,
    {
        out.push(v[i]);
        i = i + 1;
        assert(out@ =~= v@.take(i as int));
    }
    assert(v@.take(i as int) =~= v@);
    out
}

/// Whether `x` is in `v`.
pub fn vec_contains(v: &Vec<u64>, x: u64) -> (r: bool)
    ensures
        r == v@.contains(x),
{
    let mut i: usize = 0;
    while i < v.len()
        invariant
            i <= v@.len(),
            forall|j: int| 0 <= j < i ==> v@[j] != x,
        decreases v.len() - i,
    {
        if v[i] == x {
            return true;
        }
        i = i + 1;
    }
    false
}

/// Adds `x` to a duplicate-free list unless it is already there.
pub fn insert_value(v: &mut Vec<u64>, x: u64)
    requires
        old(v)@.no_duplicates(),
    ensures
        final(v)@.no_duplicates(),
        final(v)@.to_set() == old(v)@.to_set().insert(x),
        forall|y: u64| final(v)@.contains(y) <==> (old(v)@.contains(y) || y == x),
{
    if !vec_contains(v, x) {
        v.push(x);
        assert(forall|y: u64| v@.contains(y) <==> (old(v)@.contains(y) || y == x)) by {
            assert forall|y: u64| v@.contains(y) implies (old(v)@.contains(y) || y == x) by {
                let j = choose|j: int| 0 <= j < v@.len() && v@[j] == y;
                if j < old(v)@.len() {
                    assert(old(v)@[j] == y);
                }
            }
            assert forall|y: u64| old(v)@.contains(y) implies v@.contains(y) by {
                let j = choose|j: int| 0 <= j < old(v)@.len() && old(v)@[j] == y;
                assert(v@[j] == y);
            }
            assert(v@[old(v)@.len() as int] == x);
        }
    }
    assert(v@.to_set() =~= old(v)@.to_set().insert(x));
}

/// Removes `x` from a duplicate-free list.
pub fn remove_value(v: &mut Vec<u64>, x: u64)
    requires
        old(v)@.no_duplicates(),
    ensures
        final(v)@.no_duplicates(),
        final(v)@.to_set() == old(v)@.to_set().remove(x),
        forall|y: u64| final(v)@.contains(y) <==> (old(v)@.contains(y) && y != x),
        final(v)@.len() == 0 <==> (forall|y: u64| old(v)@.contains(y) ==> y == x),
{
    let mut out: Vec<u64> = Vec::new();
    let mut i: usize = 0;
    while i < v.len()
        invariant
            i <= v@.len(),
            v@ == old(v)@,
            old(v)@.no_duplicates(),
            out@.no_duplicates(),
            forall|y: u64| out@.contains(y) <==> (exists|j: int| 0 <= j < i && v@[j] == y && y != x),
        decreases v.len() - i,
    {
        let y = v[i];
        let ghost before = out@;
        if y != x {
            assert(!out@.contains(y)) by {
                if out@.contains(y) {
                    let j = choose|j: int| 0 <= j < i && v@[j] == y && y != x;
                    assert(v@[j] == v@[i as int]);
                }
            }
            out.push(y);
        }
        assert forall|z: u64| out@.contains(z) <==> (exists|j: int| 0 <= j < i + 1 && v@[j] == z && z != x) by {
            if out@.contains(z) {
                let k = choose|k: int| 0 <= k < out@.len() && out@[k] == z;
                if k < before.len() {
                    assert(before[k] == z);
                    assert(before.contains(z));
                } else {
                    assert(v@[i as int] == z);
                }
            } else {
                if exists|j: int| 0 <= j < i + 1 && v@[j] == z && z != x {
                    let j = choose|j: int| 0 <= j < i + 1 && v@[j] == z && z != x;
                    if j < i {
                        assert(before.contains(z));
                        let k = choose|k: int| 0 <= k < before.len() && before[k] == z;
                        assert(out@[k] == z);
                    } else {
                        assert(out@[out@.len() - 1] == z);
                    }
                }
            }
        }
        i = i + 1;
    }
    assert forall|y: u64| out@.contains(y) <==> (old(v)@.contains(y) && y != x) by {
        if old(v)@.contains(y) && y != x {
            let j = choose|j: int| 0 <= j < v@.len() && v@[j] == y;
            assert(exists|j: int| 0 <= j < i && v@[j] == y && y != x);
        }
    }
    *v = out;
    assert(v@.to_set() =~= old(v)@.to_set().remove(x));
    proof {
        if v@.len() != 0 {
            assert(v@.contains(v@[0]));
        } else {
            assert forall|y: u64| old(v)@.contains(y) implies y == x by {
                if y != x {
                    assert(!v@.contains(y));
                }
            }
        }
    }
}

} // verus!
