use vstd::prelude::*;

use crate::skiplist::SkipList;

verus! {

/// Upsert law: on a list without key `k`, a first `insert(k, v1)` returns
/// `None`; a second `insert(k, v2)` returns `Some(v1)`; afterwards `k` is
/// bound to `v2` (so a subsequent `get(k)` yields it), and the element
/// count is unchanged by the second call.
///
/// The hypotheses are exactly what `insert` ensures of the two calls, so
/// the law holds of every pair of runs of the executable code.
pub proof fn lemma_upsert<V>(
    s0: SkipList<V>,
    s1: SkipList<V>,
    s2: SkipList<V>,
    k: u64,
    v1: V,
    v2: V,
    p1: Option<V>,
    p2: Option<V>,
)
    requires
        !s0@.contains_key(k),
        SkipList::insert_post(s0, s1, k, v1, p1),
        SkipList::insert_post(s1, s2, k, v2, p2),
    ensures
        p1 is None,
        p2 == Some(v1),
        s2@.contains_key(k),
        s2@[k] == v2,
        s2.len_spec() == s1.len_spec(),
        s1.len_spec() == s0.len_spec() + 1,
{
}

/// Lookup law: after `insert(k, v)`, the map binds `k` to `v` — the most
/// recently inserted value — and every other key is bound exactly as
/// before, so a key never inserted stays absent and a key previously
/// inserted keeps its latest value.
pub proof fn lemma_lookup_after_insert<V>(
    s0: SkipList<V>,
    s1: SkipList<V>,
    k: u64,
    v: V,
    p: Option<V>,
    other: u64,
)
    requires
        SkipList::insert_post(s0, s1, k, v, p),
        other != k,
    ensures
        s1@.contains_key(k),
        s1@[k] == v,
        s1@.contains_key(other) == s0@.contains_key(other),
        s0@.contains_key(other) ==> s1@[other] == s0@[other],
{
}

} // verus!
