use vstd::prelude::*;

verus! {

/// One node of the skip list: either the head sentinel (no key, no value)
/// or a stored entry (key and value both present).
///
/// `fwd` holds one forward link per level the node participates in; its
/// length is exactly the node's assigned level.  A link is the index of
/// the successor node at that level inside the list's node arena, or
/// `None` at the end of a level's chain.
pub struct Node<V> {
    pub key: Option<u64>,
    pub val: Option<V>,
    pub fwd: Vec<Option<usize>>,
}

impl<V> Node<V> {
    /// Builds the head sentinel with `max_levels` empty forward slots.
    pub fn head(max_levels: usize) -> (n: Node<V>)
        ensures
            n.key is None,
            n.val is None,
            n.fwd@.len() == max_levels,
            forall|l: int| 0 <= l < max_levels ==> n.fwd@[l] is None,
    {
        Node { key: None, val: None, fwd: Self::empty_links(max_levels) }
    }

    /// Builds an entry node holding `key` and `val`, assigned to `level`
    /// levels (so with exactly `level` empty forward slots).
    pub fn entry(key: u64, val: V, level: usize) -> (n: Node<V>)
        requires
            level >= 1,
        ensures
            n.key == Some(key),
            n.val == Some(val),
            n.fwd@.len() == level,
            forall|l: int| 0 <= l < level ==> n.fwd@[l] is None,
    {
        Node { key: Some(key), val: Some(val), fwd: Self::empty_links(level) }
    }

    fn empty_links(count: usize) -> (links: Vec<Option<usize>>)
        ensures
            links@.len() == count,
            forall|l: int| 0 <= l < count ==> links@[l] is None,
    {
        let mut links: Vec<Option<usize>> = Vec::new();
        let mut i: usize = 0;
        while i < count
            invariant
                i <= count,
                links@.len() == i,
                forall|l: int| 0 <= l < i ==> links@[l] is None,
            decreases count - i,
        {
            links.push(None);
            i = i + 1;
        }
        links
    }
}

} // verus!
