use vstd::prelude::*;
use vstd::pervasive::cloned;

use crate::node::Node;
use crate::probability::Probability;
use crate::rng::random_ratio;

verus! {

/// The ceiling of the base-2 logarithm of `n`, and 0 for `n <= 1`.
spec fn log2_ceil(n: int) -> int
    decreases n,
{
    if n <= 1 {
        0
    } else {
        1 + log2_ceil((n + 1) / 2)
    }
}

proof fn lemma_log2_ceil_nonneg(n: int)
    ensures
        log2_ceil(n) >= 0,
    decreases n,
{
    if n >= 2 {
        lemma_log2_ceil_nonneg((n + 1) / 2);
    }
}

proof fn lemma_log2_ceil_le(n: int)
    requires
        n >= 1,
    ensures
        log2_ceil(n) <= n - 1,
    decreases n,
{
    if n >= 2 {
        lemma_log2_ceil_le((n + 1) / 2);
    }
}

/// An ordered map from `u64` keys to values of type `V`, implemented as a
/// probabilistic skip list.
///
/// Nodes live in an arena (`nodes`); `nodes[0]` is the head sentinel and
/// every other element is an entry.  A node's forward link at level `l` is
/// the arena index of its successor on the level-`l` chain.  Level 0 links
/// every entry in strictly ascending key order and is the ground truth of
/// the map; each higher level links a shrinking subset of the entries,
/// chosen at insertion time by repeated draws of the level-generation
/// probability `p`.
///
/// The ghost field `chains` carries, per level, the sequence of entry
/// indices in chain order; the well-formedness invariant ties it to the
/// forward links.
pub struct SkipList<V> {
    nodes: Vec<Node<V>>,
    max: usize,
    len: usize,
    p: Probability,
    chains: Ghost<Seq<Seq<int>>>,
}

impl<V> SkipList<V> {
    // ----- the mathematical model -----

    spec fn node_count(self) -> int {
        self.nodes@.len() as int
    }

    /// The assigned level of node `i`: the number of its forward slots.
    spec fn lvl(self, i: int) -> int {
        self.nodes@[i].fwd@.len() as int
    }

    spec fn key_at(self, i: int) -> u64 {
        self.nodes@[i].key->Some_0
    }

    spec fn val_at(self, i: int) -> V {
        self.nodes@[i].val->Some_0
    }

    /// The forward link of node `i` at level `l`.
    spec fn link(self, i: int, l: int) -> Option<usize> {
        self.nodes@[i].fwd@[l]
    }

    /// The entry indices on the level-`l` chain, in chain order.
    spec fn chain(self, l: int) -> Seq<int> {
        self.chains@[l]
    }

    /// Node `i` is a well-formed entry: key and value present, level
    /// between 1 and the current level count.
    spec fn entry_ok(self, i: int) -> bool {
        &&& self.nodes@[i].key is Some
        &&& self.nodes@[i].val is Some
        &&& 1 <= self.lvl(i) <= self.max
    }

    /// The level-`l` chain is internally consistent: all members are
    /// entries of level above `l`, keys strictly ascend along it, and the
    /// forward links at level `l` thread exactly this sequence, starting
    /// from the head and ending in `None`.
    spec fn chain_ok(self, l: int) -> bool {
        let c = self.chain(l);
        &&& forall|m: int| 0 <= m < c.len() ==> 1 <= #[trigger] c[m] < self.node_count()
        &&& forall|m: int| 0 <= m < c.len() ==> l < self.lvl(#[trigger] c[m])
        &&& forall|m1: int, m2: int|
            0 <= m1 < m2 < c.len() ==> self.key_at(#[trigger] c[m1]) < self.key_at(#[trigger] c[m2])
        &&& self.link(0, l) == (if c.len() == 0 {
            None
        } else {
            Some(c[0] as usize)
        })
        &&& forall|m: int| 0 <= m < c.len() - 1 ==> #[trigger] self.link(c[m], l) == Some(c[m + 1] as usize)
        &&& c.len() > 0 ==> self.link(c[c.len() - 1], l) is None
    }

    /// Every entry assigned a level above `l` appears on the level-`l`
    /// chain, except possibly node `x` (used mid-splice).
    spec fn chain_complete_except(self, l: int, x: int) -> bool {
        forall|i: int|
            1 <= i < self.node_count() && l < self.lvl(i) && i != x ==> #[trigger] self.chain(
                l,
            ).contains(i)
    }

    /// Every entry assigned a level above `l` appears on the level-`l` chain.
    spec fn chain_complete(self, l: int) -> bool {
        forall|i: int|
            1 <= i < self.node_count() && l < self.lvl(i) ==> #[trigger] self.chain(l).contains(i)
    }

    /// The structural invariant of the skip list.
    pub closed spec fn wf(self) -> bool {
        &&& 1 <= self.node_count()
        &&& 1 <= self.max
        &&& self.nodes@[0].key is None
        &&& self.nodes@[0].val is None
        &&& self.lvl(0) == self.max
        &&& self.len == self.node_count() - 1
        &&& self.chain(0).len() == self.len
        &&& self.chains@.len() == self.max
        &&& self.p.wf()
        &&& forall|i: int| 1 <= i < self.node_count() ==> #[trigger] self.entry_ok(i)
        &&& forall|l: int| 0 <= l < self.max ==> #[trigger] self.chain_ok(l)
        &&& forall|l: int| 0 <= l < self.max ==> #[trigger] self.chain_complete(l)
    }

    /// Some position of the level-0 chain holds key `k`.
    spec fn has_key(self, k: u64) -> bool {
        exists|m: int| 0 <= m < self.chain(0).len() && self.key_at(#[trigger] self.chain(0)[m]) == k
    }

    /// A position of the level-0 chain holding key `k`.
    spec fn key_pos(self, k: u64) -> int {
        choose|m: int| 0 <= m < self.chain(0).len() && self.key_at(#[trigger] self.chain(0)[m]) == k
    }

    /// The number of stored entries.
    pub closed spec fn len_spec(self) -> nat {
        self.len as nat
    }

    /// The current level count (the `max` the head was grown to).
    pub closed spec fn levels_spec(self) -> nat {
        self.max as nat
    }

    // ----- constructors -----

    /// Creates an empty skip list with `initial_max` starting levels and
    /// level-generation probability `p`.  At least one level is required;
    /// the level count grows on its own as entries accumulate.
    pub fn with_params(initial_max: usize, p: Probability) -> (r: SkipList<V>)
        requires
            initial_max >= 1,
            p.wf(),
        ensures
            r.wf(),
            r@ == Map::<u64, V>::empty(),
            r.len_spec() == 0,
            r.levels_spec() == initial_max,
    {
        let head: Node<V> = Node::head(initial_max);
        let mut nodes: Vec<Node<V>> = Vec::new();
        nodes.push(head);
        let r = SkipList {
            nodes,
            max: initial_max,
            len: 0,
            p,
            chains: Ghost(Seq::new(initial_max as nat, |l: int| Seq::<int>::empty())),
        };
        proof {
            assert forall|l: int| 0 <= l < r.max implies #[trigger] r.chain_ok(l) by {
                assert(r.chain(l).len() == 0);
            }
            assert(r@ =~= Map::<u64, V>::empty());
        }
        r
    }

    /// Creates an empty skip list with the default parameters: 4 starting
    /// levels and probability 1/2.
    pub fn new() -> (r: SkipList<V>)
        ensures
            r.wf(),
            r@ == Map::<u64, V>::empty(),
            r.len_spec() == 0,
            r.levels_spec() == 4,
    {
        Self::with_params(4, Probability::half())
    }

    // ----- O(1) reads -----

    /// The number of stored entries: one per distinct key ever inserted.
    pub fn len(&self) -> (r: usize)
        requires
            self.wf(),
        ensures
            r == self.len_spec(),
            r == self@.dom().len(),
    {
        proof {
            self.lemma_len_is_dom_card();
        }
        self.len
    }

    /// Whether the skip list holds no entries.
    pub fn is_empty(&self) -> (r: bool)
        requires
            self.wf(),
        ensures
            r == (self.len_spec() == 0),
            r == (self@ =~= Map::<u64, V>::empty()),
    {
        proof {
            self.lemma_len_is_dom_card();
            if self.len == 0 {
                assert(self@ =~= Map::<u64, V>::empty());
            } else {
                assert(self.has_key(self.key_at(self.chain(0)[0]))) by {
                    assert(self.key_at(self.chain(0)[0]) == self.key_at(self.chain(0)[0]));
                }
                assert(self@.dom().contains(self.key_at(self.chain(0)[0])));
                assert(!(self@ =~= Map::<u64, V>::empty()));
            }
        }
        self.len == 0
    }

    /// The current level count.
    pub fn levels(&self) -> (r: usize)
        ensures
            r == self.levels_spec(),
    {
        self.max
    }

    // ----- search -----

    /// Node `i` stands at position `m` of the level-`l` chain; the head
    /// sentinel counts as position -1.
    spec fn at_pos(self, l: int, i: int, m: int) -> bool {
        if m == -1 {
            i == 0
        } else {
            &&& 0 <= m < self.chain(l).len()
            &&& self.chain(l)[m] == i
        }
    }

    /// Node `i` (the head, or an entry) lies strictly before key `k`.
    spec fn below(self, i: int, k: u64) -> bool {
        i == 0 || self.key_at(i) < k
    }

    /// Position `m` is tight for key `k` on the level-`l` chain: the next
    /// position, if any, already carries a key at or past `k`.
    spec fn pred_tight(self, l: int, m: int, k: u64) -> bool {
        m + 1 < self.chain(l).len() ==> self.key_at(self.chain(l)[m + 1]) >= k
    }

    /// Walks the level-`level` chain from `start` (at chain position
    /// `spos`) and stops at the tightest predecessor of `key`: the last
    /// node of the level whose key is strictly below `key`.
    fn find_pred(&self, level: usize, start: usize, key: u64, Ghost(spos): Ghost<int>) -> (r: (
        usize,
        Ghost<int>,
    ))
        requires
            self.wf(),
            level < self.levels_spec(),
            self.at_pos(level as int, start as int, spos),
            self.below(start as int, key),
        ensures
            self.at_pos(level as int, r.0 as int, r.1@),
            self.below(r.0 as int, key),
            self.pred_tight(level as int, r.1@, key),
    {
        let ghost l = level as int;
        let ghost c = self.chain(l);
        let mut curr: usize = start;
        let ghost mut cpos: int = spos;
        loop
            invariant
                self.wf(),
                l == level as int,
                c == self.chain(l),
                level < self.max,
                self.at_pos(l, curr as int, cpos),
                self.below(curr as int, key),
            decreases c.len() - cpos,
        {
            proof {
                assert(self.chain_ok(l));
                if curr != 0 {
                    assert(self.entry_ok(c[cpos]));
                }
                assert(curr < self.nodes@.len());
                assert(level < self.lvl(curr as int));
            }
            let nxt = self.nodes[curr].fwd[level];
            match nxt {
                None => {
                    return (curr, Ghost(cpos));
                },
                Some(j) => {
                    proof {
                        // The link out of `curr` is pinned by the chain:
                        // it leads to position `cpos + 1`.
                        if cpos == -1 {
                            assert(self.link(0, l) == (if c.len() == 0 {
                                None::<usize>
                            } else {
                                Some(c[0] as usize)
                            }));
                        } else {
                            assert(self.link(c[cpos], l) == (if cpos < c.len() - 1 {
                                Some(c[cpos + 1] as usize)
                            } else {
                                None::<usize>
                            }));
                        }
                        assert(cpos + 1 < c.len());
                        assert(j as int == c[cpos + 1]);
                        assert(self.entry_ok(c[cpos + 1]));
                    }
                    let jk = match self.nodes[j].key {
                        Some(kk) => kk,
                        None => {
                            proof {
                                assert(false);
                            }
                            0
                        },
                    };
                    if jk < key {
                        curr = j;
                        proof {
                            cpos = cpos + 1;
                        }
                    } else {
                        return (curr, Ghost(cpos));
                    }
                },
            }
        }
    }

    /// Descends from the top level down to level 0 and returns the
    /// tightest level-0 predecessor of `key`, with its chain position.
    fn descend(&self, key: u64) -> (r: (usize, Ghost<int>))
        requires
            self.wf(),
        ensures
            self.at_pos(0, r.0 as int, r.1@),
            self.below(r.0 as int, key),
            self.pred_tight(0, r.1@, key),
    {
        let mut curr: usize = 0;
        let ghost mut cpos: int = -1;
        let mut level: usize = self.max;
        while level > 0
            invariant
                self.wf(),
                level <= self.max,
                level == self.max ==> curr == 0 && cpos == -1,
                level < self.max ==> self.at_pos(level as int, curr as int, cpos)
                    && self.pred_tight(level as int, cpos, key),
                self.below(curr as int, key),
            decreases level,
        {
            proof {
                if level < self.max && curr != 0 {
                    assert(self.chain_ok(level as int));
                    assert(self.entry_ok(self.chain(level as int)[cpos]));
                }
            }
            level = level - 1;
            proof {
                // Re-position `curr` on the next chain down: an entry on a
                // higher chain has level above `level`, so completeness
                // puts it on this one too.
                if curr == 0 {
                    cpos = -1;
                } else {
                    assert(self.chain_complete(level as int));
                    assert(self.chain(level as int).contains(curr as int));
                    cpos = choose|m: int|
                        0 <= m < self.chain(level as int).len() && self.chain(level as int)[m]
                            == curr as int;
                }
            }
            let found = self.find_pred(level, curr, key, Ghost(cpos));
            curr = found.0;
            proof {
                cpos = found.1@;
            }
        }
        (curr, Ghost(cpos))
    }

    // ----- lookup -----

    /// Retrieves (a clone of) the value stored under `key`, or `None`
    /// when the key is absent.  No mutation, no growth.
    pub fn get(&self, key: &u64) -> (r: Option<V>) where V: Clone
        requires
            self.wf(),
        ensures
            r is Some <==> self@.contains_key(*key),
            r matches Some(v) ==> cloned::<V>(self@[*key], v),
    {
        let found = self.descend(*key);
        let curr = found.0;
        let ghost cpos = found.1@;
        proof {
            assert(self.chain_ok(0));
            if curr != 0 {
                assert(self.entry_ok(self.chain(0)[cpos]));
            }
        }
        let nxt = self.nodes[curr].fwd[0];
        proof {
            let c = self.chain(0);
            if cpos == -1 {
                assert(self.link(0, 0) == (if c.len() == 0 {
                    None::<usize>
                } else {
                    Some(c[0] as usize)
                }));
            } else {
                assert(self.link(c[cpos], 0) == (if cpos < c.len() - 1 {
                    Some(c[cpos + 1] as usize)
                } else {
                    None::<usize>
                }));
            }
        }
        match nxt {
            None => {
                proof {
                    self.lemma_absent(cpos, *key);
                }
                None
            },
            Some(j) => {
                proof {
                    assert(j as int == self.chain(0)[cpos + 1]);
                    assert(self.entry_ok(j as int));
                }
                let jk = match self.nodes[j].key {
                    Some(kk) => kk,
                    None => {
                        proof {
                            assert(false);
                        }
                        0
                    },
                };
                if jk == *key {
                    proof {
                        self.lemma_key_at_pos(cpos + 1, *key);
                    }
                    match &self.nodes[j].val {
                        Some(v) => Some(v.clone()),
                        None => {
                            proof {
                                assert(false);
                            }
                            None
                        },
                    }
                } else {
                    proof {
                        self.lemma_absent(cpos, *key);
                    }
                    None
                }
            },
        }
    }

    /// Walks the full level-0 chain and returns the stored keys in chain
    /// order: strictly ascending, no duplicates, one per entry — exactly
    /// the keys of the map.
    pub fn keys(&self) -> (r: Vec<u64>)
        requires
            self.wf(),
        ensures
            r@.len() == self.len_spec(),
            forall|m1: int, m2: int| 0 <= m1 < m2 < r@.len() ==> r@[m1] < r@[m2],
            forall|k: u64| r@.contains(k) <==> self@.contains_key(k),
    {
        let ghost c = self.chain(0);
        let mut out: Vec<u64> = Vec::new();
        proof {
            assert(self.chain_ok(0));
        }
        let mut curr: Option<usize> = self.nodes[0].fwd[0];
        let ghost mut m: int = 0;
        while curr.is_some()
            invariant
                self.wf(),
                c == self.chain(0),
                0 <= m <= c.len(),
                curr == (if m < c.len() {
                    Some(c[m] as usize)
                } else {
                    None::<usize>
                }),
                out@.len() == m,
                forall|m2: int| 0 <= m2 < m ==> out@[m2] == self.key_at(#[trigger] c[m2]),
            decreases c.len() - m,
        {
            let j = curr.unwrap();
            proof {
                assert(self.chain_ok(0));
                assert(self.entry_ok(c[m]));
            }
            let jk = match self.nodes[j].key {
                Some(kk) => kk,
                None => {
                    proof {
                        assert(false);
                    }
                    0
                },
            };
            out.push(jk);
            curr = self.nodes[j].fwd[0];
            proof {
                assert(self.link(c[m], 0) == (if m < c.len() - 1 {
                    Some(c[m + 1] as usize)
                } else {
                    None::<usize>
                }));
                m = m + 1;
            }
        }
        proof {
            assert(m == c.len());
            assert forall|m1: int, m2: int| 0 <= m1 < m2 < out@.len() implies out@[m1]
                < out@[m2] by {
                assert(self.key_at(c[m1]) < self.key_at(c[m2]));
            }
            assert forall|k: u64| out@.contains(k) implies self@.contains_key(k) by {
                let m2 = choose|m2: int| 0 <= m2 < out@.len() && out@[m2] == k;
                assert(self.key_at(c[m2]) == k);
                assert(self.has_key(k));
            }
            assert forall|k: u64| self@.contains_key(k) implies out@.contains(k) by {
                assert(self.has_key(k));
                let m2 = self.key_pos(k);
                assert(0 <= m2 < c.len() && self.key_at(c[m2]) == k);
                assert(out@[m2] == k);
            }
        }
        out
    }

    /// Whether an entry is stored under `key`; derived from `get`.
    pub fn contains_key(&self, key: &u64) -> (r: bool) where V: Clone
        requires
            self.wf(),
        ensures
            r == self@.contains_key(*key),
    {
        self.get(key).is_some()
    }

    // ----- insertion -----

    /// Splices a fresh entry `(key, value)` into the list: draws a level,
    /// pushes a fully-built node into the arena, and rewires the chains
    /// below that level right after the recorded predecessors.
    fn splice(&mut self, key: u64, value: V, update: &Vec<usize>, Ghost(upos): Ghost<Seq<int>>)
        requires
            old(self).wf(),
            !old(self)@.contains_key(key),
            update@.len() == old(self).levels_spec(),
            upos.len() == old(self).levels_spec(),
            forall|l: int| #![trigger update@[l]]
                0 <= l < old(self).levels_spec() ==> old(self).at_pos(
                    l,
                    update@[l] as int,
                    upos[l],
                ),
            forall|l: int| #![trigger update@[l]]
                0 <= l < old(self).levels_spec() ==> old(self).below(update@[l] as int, key),
            forall|l: int| #![trigger upos[l]]
                0 <= l < old(self).levels_spec() ==> old(self).pred_tight(l, upos[l], key),
        ensures
            final(self).wf(),
            final(self)@ == old(self)@.insert(key, value),
            final(self).len_spec() == old(self).len_spec() + 1,
            final(self).levels_spec() == old(self).levels_spec(),
    {
        let ghost pre = *self;
        let ghost v0 = value;
        proof {
            self.lemma_no_entry_has_key(key);
        }
        let new_level = self.random_level();
        let nw = self.nodes.len();
        self.nodes.push(Node::entry(key, value, new_level));
        proof {
            assert(self.len == nw - 1);
        }
        self.len = self.len + 1;
        proof {
            assert forall|l: int| 0 <= l < self.max implies #[trigger] self.chain_ok(l) by {
                assert(pre.chain_ok(l));
                assert(self.chain(l) == pre.chain(l));
                assert forall|m: int| 0 <= m < self.chain(l).len() - 1 implies #[trigger] self.link(
                    self.chain(l)[m],
                    l,
                ) == Some(self.chain(l)[m + 1] as usize) by {
                    assert(pre.link(pre.chain(l)[m], l) == Some(pre.chain(l)[m + 1] as usize));
                }
            }
            assert forall|l: int| 0 <= l < self.max implies #[trigger] self.chain_complete_except(
                l,
                nw as int,
            ) by {
                assert(pre.chain_complete(l));
                assert forall|i: int|
                    1 <= i < self.node_count() && l < self.lvl(i) && i != nw as int implies #[trigger] self.chain(
                    l,
                ).contains(i) by {
                    assert(pre.chain(l).contains(i));
                }
            }
            assert(self.mid_splice(pre, key, v0, nw as int, new_level as int, 0, upos));
        }
        let mut lev: usize = 0;
        while lev < new_level
            invariant
                pre.wf(),
                !pre@.contains_key(key),
                forall|i: int| 1 <= i < pre.node_count() ==> pre.key_at(i) != key,
                update@.len() == pre.levels_spec(),
                upos.len() == pre.levels_spec(),
                forall|l: int| #![trigger update@[l]]
                    0 <= l < pre.levels_spec() ==> pre.at_pos(l, update@[l] as int, upos[l]),
                forall|l: int| #![trigger update@[l]]
                    0 <= l < pre.levels_spec() ==> pre.below(update@[l] as int, key),
                forall|l: int| #![trigger upos[l]]
                    0 <= l < pre.levels_spec() ==> pre.pred_tight(l, upos[l], key),
                1 <= new_level,
                new_level <= pre.levels_spec(),
                nw as int == pre.node_count(),
                lev <= new_level,
                self.mid_splice(pre, key, v0, nw as int, new_level as int, lev as int, upos),
            decreases new_level - lev,
        {
            let ghost s0 = *self;
            let ghost l = lev as int;
            let ghost c = pre.chain(l);
            let ghost p = upos[l];
            let u = update[lev];
            proof {
                assert(pre.at_pos(l, update@[l] as int, upos[l]));
                assert(pre.below(update@[l] as int, key));
                assert(pre.pred_tight(l, upos[l], key));
                assert(pre.chain_ok(l));
                assert(s0.chain(l) == c);
                assert(s0.chain_ok(l));
                if p >= 0 {
                    assert(c[p] == u as int);
                    assert(1 <= u as int && (u as int) < nw as int);
                } else {
                    assert(u == 0);
                }
                assert((u as int) < self.node_count());
                assert(l < self.lvl(u as int));
                assert(l < self.lvl(nw as int));
            }
            let nxt = self.nodes[u].fwd[lev];
            proof {
                if p == -1 {
                    assert(s0.link(0, l) == (if c.len() == 0 {
                        None::<usize>
                    } else {
                        Some(c[0] as usize)
                    }));
                } else {
                    assert(s0.link(c[p], l) == (if p < c.len() - 1 {
                        Some(c[p + 1] as usize)
                    } else {
                        None::<usize>
                    }));
                }
                assert(nxt == (if p + 1 < c.len() {
                    Some(c[p + 1] as usize)
                } else {
                    None::<usize>
                }));
            }
            self.nodes[nw].fwd[lev] = nxt;
            self.nodes[u].fwd[lev] = Some(nw);
            self.chains = Ghost(
                self.chains@.update(
                    lev as int,
                    self.chains@[lev as int].insert(upos[lev as int] + 1, nw as int),
                ),
            );
            proof {
                let n = nw as int;
                let cc = c.insert(p + 1, n);
                c.insert_ensures(p + 1, n);
                assert(u as int != n);
                assert(self.chain(l) == cc);
                assert forall|l2: int|
                    0 <= l2 < self.chains@.len() && l2 != l implies #[trigger] self.chain(l2)
                    == s0.chain(l2) by {}
                assert forall|i: int|
                    0 <= i < self.node_count() implies #[trigger] self.nodes@[i].key
                    == s0.nodes@[i].key && self.nodes@[i].val == s0.nodes@[i].val && self.lvl(i)
                    == s0.lvl(i) by {
                    if i == n {
                        assert(self.nodes@[n].fwd@ == s0.nodes@[n].fwd@.update(l, nxt));
                    } else if i == u as int {
                        assert(self.nodes@[i].fwd@ == s0.nodes@[i].fwd@.update(l, Some(nw)));
                    }
                }
                assert forall|i: int, l2: int|
                    #![trigger self.link(i, l2)]
                    0 <= i < self.node_count() && 0 <= l2 < self.lvl(i) && l2 != l implies self.link(
                    i,
                    l2,
                ) == s0.link(i, l2) by {
                    if i == n {
                        assert(self.nodes@[n].fwd@ == s0.nodes@[n].fwd@.update(l, nxt));
                    } else if i == u as int {
                        assert(self.nodes@[i].fwd@ == s0.nodes@[i].fwd@.update(l, Some(nw)));
                    }
                }
                // members of the level-`l` chain other than the predecessor
                // are distinct from it, so their links were not touched
                assert forall|m: int| 0 <= m < c.len() && m != p implies c[m] != u as int by {
                    if p >= 0 {
                        if m < p {
                            assert(s0.key_at(c[m]) < s0.key_at(c[p]));
                        } else {
                            assert(s0.key_at(c[p]) < s0.key_at(c[m]));
                        }
                    } else {
                        assert(1 <= c[m]);
                    }
                }
                assert forall|m: int| 0 <= m < c.len() && m != p implies c[m] != n by {
                    assert(1 <= c[m] < n);
                }
                assert forall|m: int|
                    0 <= m < c.len() - 1 && m != p implies #[trigger] self.link(c[m], l) == Some(
                    c[m + 1] as usize,
                ) by {
                    assert(self.nodes@[c[m]] == s0.nodes@[c[m]]);
                    assert(s0.link(c[m], l) == Some(c[m + 1] as usize));
                }
                assert(self.link(0, l) == (if p == -1 {
                    Some(n as usize)
                } else {
                    Some(c[0] as usize)
                })) by {
                    if p >= 0 {
                        assert(c[0] != u as int || 0 == p);
                        if p == 0 {
                        } else {
                            assert(c[0] != u as int);
                        }
                        assert(self.nodes@[0] == s0.nodes@[0]);
                        assert(s0.link(0, l) == Some(c[0] as usize));
                    }
                }
                assert(c.len() > 0 && p != c.len() - 1 ==> self.link(c[c.len() - 1], l) is None) by {
                    if c.len() > 0 && p != c.len() - 1 {
                        assert(c[c.len() - 1] != u as int && c[c.len() - 1] != n);
                        assert(self.nodes@[c[c.len() - 1]] == s0.nodes@[c[c.len() - 1]]);
                        assert(s0.link(c[c.len() - 1], l) is None);
                    }
                }
                // key facts carry over from the pre state
                assert forall|m: int| 0 <= m < c.len() implies 1 <= #[trigger] c[m] < n by {
                    assert(pre.chain_ok(l));
                }
                assert forall|m1: int, m2: int|
                    0 <= m1 < m2 < c.len() implies self.key_at(#[trigger] c[m1]) < self.key_at(
                    #[trigger] c[m2],
                ) by {
                    assert(pre.key_at(c[m1]) < pre.key_at(c[m2]));
                }
                assert forall|m: int| 0 <= m < c.len() implies self.key_at(#[trigger] c[m])
                    != key by {
                    assert(pre.key_at(c[m]) != key);
                }
                assert(p >= 0 ==> self.key_at(c[p]) < key);
                assert(p + 1 < c.len() ==> self.key_at(c[p + 1]) >= key);
                assert(self.link(n, l) == nxt);
                self.lemma_spliced_chain_ok(c, p, n, l, key);
                assert(s0.chain_complete_except(l, n));
                assert forall|i: int|
                    1 <= i < self.node_count() && l < self.lvl(i) implies #[trigger] self.chain(
                    l,
                ).contains(i) by {
                    if i == n {
                        assert(cc[p + 1] == n);
                    } else {
                        assert(s0.chain(l).contains(i));
                        let m = choose|m: int| 0 <= m < c.len() && c[m] == i;
                        if m < p + 1 {
                            assert(cc[m] == i);
                        } else {
                            assert(cc[m + 1] == i);
                        }
                    }
                }
                assert(self.chain_complete(l));
                // the other levels are untouched
                assert forall|l2: int|
                    0 <= l2 < self.max && l2 != l implies #[trigger] self.chain_ok(l2) by {
                    assert(s0.chain_ok(l2));
                    assert(self.chain(l2) == s0.chain(l2));
                    assert forall|m: int|
                        0 <= m < self.chain(l2).len() - 1 implies #[trigger] self.link(
                        self.chain(l2)[m],
                        l2,
                    ) == Some(self.chain(l2)[m + 1] as usize) by {
                        assert(s0.link(s0.chain(l2)[m], l2) == Some(s0.chain(l2)[m + 1] as usize));
                    }
                    assert(self.link(0, l2) == s0.link(0, l2));
                    if self.chain(l2).len() > 0 {
                        assert(self.link(self.chain(l2)[self.chain(l2).len() - 1], l2) == s0.link(
                            s0.chain(l2)[s0.chain(l2).len() - 1],
                            l2,
                        ));
                    }
                }
                assert forall|l2: int|
                    0 <= l2 < l implies #[trigger] self.chain_complete(l2) by {
                    assert(s0.chain_complete(l2));
                    assert forall|i: int|
                        1 <= i < self.node_count() && l2 < self.lvl(i) implies #[trigger] self.chain(
                        l2,
                    ).contains(i) by {
                        assert(s0.chain(l2).contains(i));
                    }
                }
                assert forall|l2: int|
                    l < l2 < self.max implies #[trigger] self.chain_complete_except(l2, n) by {
                    assert(s0.chain_complete_except(l2, n));
                    assert forall|i: int|
                        1 <= i < self.node_count() && l2 < self.lvl(i) && i != n implies #[trigger] self.chain(
                        l2,
                    ).contains(i) by {
                        assert(s0.chain(l2).contains(i));
                    }
                }
                assert forall|l2: int|
                    0 <= l2 < l implies #[trigger] self.chain(l2) == pre.chain(l2).insert(
                    upos[l2] + 1,
                    n,
                ) by {
                    assert(s0.chain(l2) == pre.chain(l2).insert(upos[l2] + 1, n));
                }
                assert forall|l2: int|
                    l + 1 <= l2 < self.max implies #[trigger] self.chain(l2) == pre.chain(l2) by {
                    assert(s0.chain(l2) == pre.chain(l2));
                }
                assert(self.mid_splice(pre, key, v0, n, new_level as int, l + 1, upos));
            }
            lev = lev + 1;
        }
        proof {
            let n = nw as int;
            assert forall|i: int| 1 <= i < self.node_count() implies #[trigger] self.entry_ok(
                i,
            ) by {
                if i < n {
                    assert(pre.entry_ok(i));
                }
            }
            // the done-levels and pending-levels conjuncts of `mid_splice`
            // each cover their range
            assert forall|l: int| 0 <= l < self.max implies #[trigger] self.chain_ok(l) by {
                if l < new_level as int {
                    assert(self.chain_ok(l));
                } else {
                    assert(self.chain_ok(l));
                }
            }
            assert forall|l: int| 0 <= l < self.max implies #[trigger] self.chain_complete(l) by {
                if l < new_level as int {
                    assert(self.chain_complete(l));
                } else {
                    assert(self.chain_complete_except(l, n));
                    assert forall|i: int|
                        1 <= i < self.node_count() && l < self.lvl(i) implies #[trigger] self.chain(
                        l,
                    ).contains(i) by {
                        if i == n {
                            assert(self.lvl(i) == new_level as int);
                        }
                    }
                }
            }
            assert(pre.at_pos(0, update@[0] as int, upos[0]));
            assert(self.chain(0) == pre.chain(0).insert(upos[0] + 1, n));
            pre.chain(0).insert_ensures(upos[0] + 1, n);
            assert(self.wf());
            Self::lemma_view_insert_new(pre, *self, n, upos[0], key, v0);
        }
    }

    /// Everything `insert` promises, packaged as one predicate relating
    /// the list before the call, the list after it, and the returned
    /// previous value.
    pub open spec fn insert_post(
        pre: SkipList<V>,
        post: SkipList<V>,
        key: u64,
        value: V,
        prev: Option<V>,
    ) -> bool {
        &&& post.wf()
        &&& post@ == pre@.insert(key, value)
        &&& prev == (if pre@.contains_key(key) {
            Some(pre@[key])
        } else {
            None::<V>
        })
        &&& (if pre@.contains_key(key) {
            post.len_spec() == pre.len_spec()
        } else {
            post.len_spec() == pre.len_spec() + 1
        })
        &&& post.levels_spec() >= pre.levels_spec()
    }

    /// Upserts `(key, value)`.  If the key already exists its value is
    /// replaced in place — identity, level and links of the node are
    /// untouched — and the prior value is returned.  On a new key the
    /// entry is spliced in, the count grows by one, `None` is returned,
    /// and the level count may take a growth step.  The level count never
    /// decreases.
    pub fn insert(&mut self, key: u64, value: V) -> (prev: Option<V>)
        requires
            old(self).wf(),
        ensures
            final(self).wf(),
            final(self)@ == old(self)@.insert(key, value),
            prev == (if old(self)@.contains_key(key) {
                Some(old(self)@[key])
            } else {
                None::<V>
            }),
            old(self)@.contains_key(key) ==> final(self).len_spec() == old(self).len_spec(),
            !old(self)@.contains_key(key) ==> final(self).len_spec() == old(self).len_spec() + 1,
            final(self).levels_spec() >= old(self).levels_spec(),
            Self::insert_post(*old(self), *final(self), key, value, prev),
    {
        let ghost pre = *self;
        let ghost v0 = value;
        // search phase: record the predecessor at every level
        let mut update: Vec<usize> = Vec::new();
        let mut i: usize = 0;
        while i < self.max
            invariant
                *self == pre,
                pre.wf(),
                i <= self.max,
                update@.len() == i,
            decreases self.max - i,
        {
            update.push(0);
            i = i + 1;
        }
        let ghost mut upos: Seq<int> = Seq::new(pre.levels_spec(), |l: int| -1);
        let mut curr: usize = 0;
        let ghost mut cpos: int = -1;
        let mut level: usize = self.max;
        while level > 0
            invariant
                *self == pre,
                pre.wf(),
                level <= self.max,
                update@.len() == self.levels_spec(),
                upos.len() == self.levels_spec(),
                level == self.max ==> curr == 0 && cpos == -1,
                level < self.max ==> self.at_pos(level as int, curr as int, cpos)
                    && self.pred_tight(level as int, cpos, key),
                self.below(curr as int, key),
                forall|l2: int| #![trigger update@[l2]]
                    level <= l2 < self.levels_spec() ==> self.at_pos(
                        l2,
                        update@[l2] as int,
                        upos[l2],
                    ),
                forall|l2: int| #![trigger update@[l2]]
                    level <= l2 < self.levels_spec() ==> self.below(update@[l2] as int, key),
                forall|l2: int| #![trigger upos[l2]]
                    level <= l2 < self.levels_spec() ==> self.pred_tight(l2, upos[l2], key),
            decreases level,
        {
            proof {
                if level < self.max && curr != 0 {
                    assert(self.chain_ok(level as int));
                    assert(self.entry_ok(self.chain(level as int)[cpos]));
                }
            }
            level = level - 1;
            proof {
                if curr == 0 {
                    cpos = -1;
                } else {
                    assert(self.chain_complete(level as int));
                    assert(self.chain(level as int).contains(curr as int));
                    cpos = choose|m: int|
                        0 <= m < self.chain(level as int).len() && self.chain(level as int)[m]
                            == curr as int;
                }
            }
            let found = self.find_pred(level, curr, key, Ghost(cpos));
            curr = found.0;
            proof {
                cpos = found.1@;
            }
            update[level] = curr;
            proof {
                upos = upos.update(level as int, cpos);
            }
        }
        // exact-match check at level 0
        proof {
            assert(self.chain_ok(0));
            if curr != 0 {
                assert(self.entry_ok(self.chain(0)[cpos]));
            }
        }
        let nxt = self.nodes[curr].fwd[0];
        proof {
            let c = self.chain(0);
            if cpos == -1 {
                assert(self.link(0, 0) == (if c.len() == 0 {
                    None::<usize>
                } else {
                    Some(c[0] as usize)
                }));
            } else {
                assert(self.link(c[cpos], 0) == (if cpos < c.len() - 1 {
                    Some(c[cpos + 1] as usize)
                } else {
                    None::<usize>
                }));
            }
        }
        match nxt {
            Some(j) => {
                proof {
                    assert(j as int == self.chain(0)[cpos + 1]);
                    assert(self.entry_ok(j as int));
                }
                let jk = match self.nodes[j].key {
                    Some(kk) => kk,
                    None => {
                        proof {
                            assert(false);
                        }
                        0
                    },
                };
                if jk == key {
                    // update in place: links, level and identity untouched
                    proof {
                        self.lemma_key_at_pos(cpos + 1, key);
                    }
                    let prev = self.nodes[j].val.take();
                    self.nodes[j].val = Some(value);
                    proof {
                        assert forall|i2: int|
                            1 <= i2 < self.node_count() implies #[trigger] self.entry_ok(i2) by {
                            assert(pre.entry_ok(i2));
                        }
                        assert forall|l: int| 0 <= l < self.max implies #[trigger] self.chain_ok(
                            l,
                        ) by {
                            assert(pre.chain_ok(l));
                            assert(self.chain(l) == pre.chain(l));
                            assert forall|m: int|
                                0 <= m < self.chain(l).len() - 1 implies #[trigger] self.link(
                                self.chain(l)[m],
                                l,
                            ) == Some(self.chain(l)[m + 1] as usize) by {
                                assert(pre.link(pre.chain(l)[m], l) == Some(
                                    pre.chain(l)[m + 1] as usize,
                                ));
                            }
                        }
                        assert forall|l: int|
                            0 <= l < self.max implies #[trigger] self.chain_complete(l) by {
                            assert(pre.chain_complete(l));
                            assert forall|i2: int|
                                1 <= i2 < self.node_count() && l < self.lvl(i2) implies #[trigger] self.chain(
                                l,
                            ).contains(i2) by {
                                assert(pre.chain(l).contains(i2));
                            }
                        }
                        assert(self.wf());
                        Self::lemma_view_value_update(pre, *self, j as int, key, v0);
                    }
                    return prev;
                }
            },
            None => {},
        }
        proof {
            self.lemma_absent(cpos, key);
        }
        self.splice(key, value, &update, Ghost(upos));
        self.resize();
        None
    }

    // ----- level generation and growth -----

    /// The level count that fits `len` entries: `ceil(log2(len)) + 2`,
    /// and 1 for an empty list.
    spec fn optimal_levels_spec(len: int) -> int {
        if len <= 0 {
            1
        } else {
            log2_ceil(len) + 2
        }
    }

    /// Computes the optimal level count for the current entry count.
    fn optimal_levels(&self) -> (r: usize)
        requires
            self.wf(),
        ensures
            r as int == Self::optimal_levels_spec(self.len_spec() as int),
            r >= 1,
    {
        let count = self.nodes.len();
        if self.len == 0 {
            return 1;
        }
        proof {
            lemma_log2_ceil_le(self.len as int);
            lemma_log2_ceil_nonneg(self.len as int);
        }
        let mut m: usize = 0;
        let mut x: usize = self.len;
        while x > 1
            invariant
                1 <= x <= self.len,
                self.len < usize::MAX,
                m + log2_ceil(x as int) == log2_ceil(self.len as int),
                log2_ceil(self.len as int) <= self.len - 1,
            decreases x,
        {
            proof {
                lemma_log2_ceil_nonneg(((x as int) + 1) / 2);
                assert((x as int + 1) / 2 == (x as int - 1) / 2 + 1);
            }
            x = (x - 1) / 2 + 1;
            m = m + 1;
        }
        m + 2
    }

    /// Draws the level for a new entry: starting from 1, each successful
    /// draw of the level-generation probability raises the candidate by
    /// one, stopping at a failed draw or at the current level count.
    fn random_level(&self) -> (lvl: usize)
        requires
            self.wf(),
        ensures
            1 <= lvl <= self.levels_spec(),
    {
        proof {
            self.p.lemma_wf_bounds();
        }
        let mut lvl: usize = 1;
        while lvl < self.max && random_ratio(self.p.numerator(), self.p.denominator())
            invariant
                self.wf(),
                0 < self.p.num_spec() < self.p.den_spec(),
                1 <= lvl <= self.max,
            decreases self.max - lvl,
        {
            lvl = lvl + 1;
        }
        lvl
    }

    /// Grows the head's forward-link array up to `new_max` levels by
    /// appending empty slots.  Existing entries are untouched: they simply
    /// do not participate in the new levels.
    fn grow(&mut self, new_max: usize)
        requires
            old(self).wf(),
            new_max >= old(self).levels_spec(),
        ensures
            final(self).wf(),
            final(self)@ == old(self)@,
            final(self).len_spec() == old(self).len_spec(),
            final(self).levels_spec() == new_max,
    {
        let ghost pre = *self;
        while self.nodes[0].fwd.len() < new_max
            invariant
                pre.wf(),
                new_max >= pre.levels_spec(),
                self.nodes@.len() == pre.nodes@.len(),
                forall|i: int| 1 <= i < pre.node_count() ==> self.nodes@[i] == pre.nodes@[i],
                self.nodes@[0].key == pre.nodes@[0].key,
                self.nodes@[0].val == pre.nodes@[0].val,
                pre.levels_spec() <= self.nodes@[0].fwd@.len() <= new_max,
                forall|l: int|
                    0 <= l < pre.levels_spec() ==> self.nodes@[0].fwd@[l] == pre.nodes@[0].fwd@[l],
                forall|l: int|
                    pre.levels_spec() <= l < self.nodes@[0].fwd@.len() ==> self.nodes@[0].fwd@[l]
                        is None,
                self.max == pre.max,
                self.len == pre.len,
                self.p == pre.p,
                self.chains == pre.chains,
            decreases new_max - self.nodes@[0].fwd@.len(),
        {
            self.nodes[0].fwd.push(None);
        }
        self.max = new_max;
        self.chains = Ghost(
            pre.chains@ + Seq::new((new_max - pre.levels_spec()) as nat, |l: int| Seq::<int>::empty()),
        );
        proof {
            assert forall|l: int| 0 <= l < self.max implies #[trigger] self.chain_ok(l) by {
                if l < pre.max {
                    assert(pre.chain_ok(l));
                    assert(self.chain(l) == pre.chain(l));
                    assert forall|m: int| 0 <= m < self.chain(l).len() - 1 implies #[trigger] self
                        .link(self.chain(l)[m], l) == Some(self.chain(l)[m + 1] as usize) by {
                        assert(pre.link(pre.chain(l)[m], l) == Some(pre.chain(l)[m + 1] as usize));
                    }
                } else {
                    assert(self.chain(l).len() == 0);
                    assert(self.link(0, l) is None);
                }
            }
            assert forall|l: int| 0 <= l < self.max implies #[trigger] self.chain_complete(l) by {
                if l < pre.max {
                    assert(pre.chain_complete(l));
                    assert forall|i: int|
                        1 <= i < self.node_count() && l < self.lvl(i) implies #[trigger] self.chain(
                        l,
                    ).contains(i) by {
                        assert(pre.chain(l).contains(i));
                    }
                } else {
                    assert forall|i: int|
                        1 <= i < self.node_count() && l < self.lvl(i) implies #[trigger] self.chain(
                        l,
                    ).contains(i) by {
                        assert(pre.entry_ok(i));
                        assert(false);
                    }
                }
            }
            assert forall|i: int| 1 <= i < self.node_count() implies #[trigger] self.entry_ok(
                i,
            ) by {
                assert(pre.entry_ok(i));
            }
            assert(self.wf());
            Self::lemma_view_preserved(pre, *self);
        }
    }

    /// Recomputes the optimal level count and grows the head if the
    /// structure has outgrown its current levels.  Never shrinks.
    fn resize(&mut self)
        requires
            old(self).wf(),
        ensures
            final(self).wf(),
            final(self)@ == old(self)@,
            final(self).len_spec() == old(self).len_spec(),
            final(self).levels_spec() >= old(self).levels_spec(),
    {
        let optimal = self.optimal_levels();
        if optimal > self.max {
            self.grow(optimal);
        }
    }

    // ----- internal lemmas -----

    /// Two lists with the same level-0 chain, the same keys and the same
    /// values denote the same map.
    proof fn lemma_view_preserved(pre: Self, post: Self)
        requires
            pre.wf(),
            post.wf(),
            post.chain(0) == pre.chain(0),
            post.node_count() == pre.node_count(),
            forall|i: int|
                0 <= i < pre.node_count() ==> post.nodes@[i].key == pre.nodes@[i].key
                    && post.nodes@[i].val == pre.nodes@[i].val,
        ensures
            post@ == pre@,
    {
        assert(pre.chain_ok(0));
        assert(post.chain_ok(0));
        assert forall|k: u64| pre@.dom().contains(k) implies post@.dom().contains(k) by {
            assert(pre.has_key(k));
            let m = pre.key_pos(k);
            assert(0 <= m < pre.chain(0).len() && pre.key_at(pre.chain(0)[m]) == k);
            assert(post.key_at(post.chain(0)[m]) == k);
            assert(post.has_key(k));
        }
        assert forall|k: u64| post@.dom().contains(k) implies pre@.dom().contains(k) by {
            assert(post.has_key(k));
            let m = post.key_pos(k);
            assert(0 <= m < post.chain(0).len() && post.key_at(post.chain(0)[m]) == k);
            assert(pre.key_at(pre.chain(0)[m]) == k);
            assert(pre.has_key(k));
        }
        assert forall|k: u64| pre@.dom().contains(k) implies post@[k] == pre@[k] by {
            assert(pre.has_key(k));
            let m = pre.key_pos(k);
            assert(0 <= m < pre.chain(0).len() && pre.key_at(pre.chain(0)[m]) == k);
            pre.lemma_key_at_pos(m, k);
            assert(post.key_at(post.chain(0)[m]) == k);
            post.lemma_key_at_pos(m, k);
            assert(post.val_at(post.chain(0)[m]) == pre.val_at(pre.chain(0)[m]));
        }
        assert(post@ =~= pre@);
    }

    /// Mid-splice shape of the list: the fresh entry `n` (at level `nlvl`,
    /// carrying `(key, value)`) has been pushed and already linked into
    /// the chains below `lev`; the chains from `lev` up still look exactly
    /// as before the push.
    spec fn mid_splice(
        self,
        pre: Self,
        key: u64,
        value: V,
        n: int,
        nlvl: int,
        lev: int,
        upos: Seq<int>,
    ) -> bool {
        &&& self.node_count() == n + 1
        &&& n == pre.node_count()
        &&& self.max == pre.max
        &&& self.len == pre.len + 1
        &&& self.p == pre.p
        &&& self.chains@.len() == pre.chains@.len()
        &&& self.nodes@[n].key == Some(key)
        &&& self.nodes@[n].val == Some(value)
        &&& self.lvl(n) == nlvl
        &&& forall|i: int| 0 <= i < n ==> self.nodes@[i].key == pre.nodes@[i].key
        &&& forall|i: int| 0 <= i < n ==> self.nodes@[i].val == pre.nodes@[i].val
        &&& forall|i: int| 0 <= i < n ==> self.lvl(i) == pre.lvl(i)
        &&& forall|l: int|
            0 <= l < lev ==> #[trigger] self.chain(l) == pre.chain(l).insert(upos[l] + 1, n)
        &&& forall|l: int| 0 <= l < lev ==> #[trigger] self.chain_ok(l)
        &&& forall|l: int| 0 <= l < lev ==> #[trigger] self.chain_complete(l)
        &&& forall|l: int| lev <= l < self.max ==> #[trigger] self.chain(l) == pre.chain(l)
        &&& forall|l: int| lev <= l < self.max ==> #[trigger] self.chain_ok(l)
        &&& forall|l: int| lev <= l < self.max ==> #[trigger] self.chain_complete_except(l, n)
    }

    /// After rewiring exactly two links of the level-`l` chain `c` — the
    /// predecessor at position `p` now points to the fresh entry `n`, and
    /// `n` points to the predecessor's old successor — the chain is again
    /// consistent, with `n` standing at position `p + 1`.
    #[verifier::rlimit(50)]
    proof fn lemma_spliced_chain_ok(self, c: Seq<int>, p: int, n: int, l: int, key: u64)
        requires
            0 <= l < self.chains@.len(),
            self.chain(l) == c.insert(p + 1, n),
            -1 <= p < c.len(),
            1 <= n < self.node_count(),
            l < self.lvl(n),
            self.key_at(n) == key,
            forall|m: int| 0 <= m < c.len() ==> 1 <= #[trigger] c[m] < n,
            forall|m: int| 0 <= m < c.len() ==> l < self.lvl(#[trigger] c[m]),
            forall|m1: int, m2: int|
                0 <= m1 < m2 < c.len() ==> self.key_at(#[trigger] c[m1]) < self.key_at(
                    #[trigger] c[m2],
                ),
            forall|m: int| 0 <= m < c.len() ==> self.key_at(#[trigger] c[m]) != key,
            p >= 0 ==> self.key_at(c[p]) < key,
            p + 1 < c.len() ==> self.key_at(c[p + 1]) >= key,
            self.link(0, l) == (if p == -1 {
                Some(n as usize)
            } else {
                Some(c[0] as usize)
            }),
            p >= 0 ==> self.link(c[p], l) == Some(n as usize),
            self.link(n, l) == (if p + 1 < c.len() {
                Some(c[p + 1] as usize)
            } else {
                None::<usize>
            }),
            forall|m: int|
                0 <= m < c.len() - 1 && m != p ==> #[trigger] self.link(c[m], l) == Some(
                    c[m + 1] as usize,
                ),
            c.len() > 0 && p != c.len() - 1 ==> self.link(c[c.len() - 1], l) is None,
        ensures
            self.chain_ok(l),
    {
        let cc = c.insert(p + 1, n);
        c.insert_ensures(p + 1, n);
        assert(cc.len() == c.len() + 1);
        assert forall|m: int| 0 <= m < cc.len() implies 1 <= #[trigger] cc[m]
            < self.node_count() by {
            if m < p + 1 {
                assert(cc[m] == c[m]);
            } else if m > p + 1 {
                assert(cc[m] == c[m - 1]);
            }
        }
        assert forall|m: int| 0 <= m < cc.len() implies l < self.lvl(#[trigger] cc[m]) by {
            if m < p + 1 {
                assert(cc[m] == c[m]);
            } else if m > p + 1 {
                assert(cc[m] == c[m - 1]);
            }
        }
        assert forall|m: int| 0 <= m <= p implies self.key_at(c[m]) < key by {
            if m < p {
                assert(self.key_at(c[m]) < self.key_at(c[p]));
            }
        }
        assert forall|m: int| p + 1 <= m < c.len() implies self.key_at(c[m]) > key by {
            if m > p + 1 {
                assert(self.key_at(c[p + 1]) < self.key_at(c[m]));
            }
        }
        assert forall|m1: int, m2: int| 0 <= m1 < m2 < cc.len() implies self.key_at(
            #[trigger] cc[m1],
        ) < self.key_at(#[trigger] cc[m2]) by {
            if m1 < p + 1 {
                assert(cc[m1] == c[m1]);
            } else if m1 > p + 1 {
                assert(cc[m1] == c[m1 - 1]);
            }
            if m2 < p + 1 {
                assert(cc[m2] == c[m2]);
            } else if m2 > p + 1 {
                assert(cc[m2] == c[m2 - 1]);
            }
        }
        assert(self.link(0, l) == (if cc.len() == 0 {
            None::<usize>
        } else {
            Some(cc[0] as usize)
        })) by {
            if p == -1 {
                assert(cc[0] == n);
            } else {
                assert(cc[0] == c[0]);
            }
        }
        assert forall|m: int| 0 <= m < cc.len() - 1 implies #[trigger] self.link(cc[m], l) == Some(
            cc[m + 1] as usize,
        ) by {
            if m < p {
                assert(cc[m] == c[m]);
                assert(cc[m + 1] == c[m + 1]);
                assert(self.link(c[m], l) == Some(c[m + 1] as usize));
            } else if m == p {
                assert(cc[m] == c[p]);
                assert(cc[m + 1] == n);
            } else if m == p + 1 {
                assert(cc[m] == n);
                assert(p + 1 < c.len());
                assert(cc[m + 1] == c[p + 1]);
            } else {
                assert(cc[m] == c[m - 1]);
                assert(cc[m + 1] == c[m]);
                assert(self.link(c[m - 1], l) == Some(c[m] as usize));
            }
        }
        assert(cc.len() > 0 ==> self.link(cc[cc.len() - 1], l) is None) by {
            if p + 1 == c.len() {
                assert(cc[cc.len() - 1] == n);
            } else {
                assert(cc[cc.len() - 1] == c[c.len() - 1]);
            }
        }
    }

    /// On a well-formed list, a key that the map does not contain is
    /// carried by no entry at all.
    proof fn lemma_no_entry_has_key(self, k: u64)
        requires
            self.wf(),
            !self@.contains_key(k),
        ensures
            forall|i: int| 1 <= i < self.node_count() ==> self.key_at(i) != k,
    {
        assert(self.chain_ok(0));
        assert(self.chain_complete(0));
        assert forall|i: int| 1 <= i < self.node_count() implies self.key_at(i) != k by {
            assert(self.entry_ok(i));
            assert(self.chain(0).contains(i));
            let m = choose|m: int| 0 <= m < self.chain(0).len() && self.chain(0)[m] == i;
            if self.key_at(i) == k {
                self.lemma_key_at_pos(m, k);
            }
        }
    }

    /// Replacing the value of the entry `j` (which carries key `k`) turns
    /// the map into the map with `k` re-bound to the new value.
    proof fn lemma_view_value_update(pre: Self, post: Self, j: int, k: u64, v: V)
        requires
            pre.wf(),
            post.wf(),
            post.chain(0) == pre.chain(0),
            post.node_count() == pre.node_count(),
            forall|i: int|
                0 <= i < pre.node_count() ==> post.nodes@[i].key == pre.nodes@[i].key,
            forall|i: int|
                0 <= i < pre.node_count() && i != j ==> post.nodes@[i].val == pre.nodes@[i].val,
            1 <= j < pre.node_count(),
            post.val_at(j) == v,
            pre.key_at(j) == k,
        ensures
            post@ == pre@.insert(k, v),
    {
        assert(pre.chain_ok(0));
        assert(post.chain_ok(0));
        assert(pre.chain_complete(0));
        assert(pre.entry_ok(j));
        assert(pre.chain(0).contains(j));
        let mj = choose|m: int| 0 <= m < pre.chain(0).len() && pre.chain(0)[m] == j;
        assert(pre.key_at(pre.chain(0)[mj]) == k);
        assert(pre.has_key(k));
        assert forall|k2: u64| pre@.dom().contains(k2) implies post@.dom().contains(k2) by {
            assert(pre.has_key(k2));
            let m = pre.key_pos(k2);
            assert(0 <= m < pre.chain(0).len() && pre.key_at(pre.chain(0)[m]) == k2);
            assert(post.key_at(post.chain(0)[m]) == k2);
            assert(post.has_key(k2));
        }
        assert forall|k2: u64| post@.dom().contains(k2) implies pre@.dom().contains(k2) by {
            assert(post.has_key(k2));
            let m = post.key_pos(k2);
            assert(0 <= m < post.chain(0).len() && post.key_at(post.chain(0)[m]) == k2);
            assert(pre.key_at(pre.chain(0)[m]) == k2);
            assert(pre.has_key(k2));
        }
        assert forall|k2: u64| post@.dom().contains(k2) implies post@[k2] == (if k2 == k {
            v
        } else {
            pre@[k2]
        }) by {
            assert(post.has_key(k2));
            let m = post.key_pos(k2);
            assert(0 <= m < post.chain(0).len() && post.key_at(post.chain(0)[m]) == k2);
            post.lemma_key_at_pos(m, k2);
            assert(pre.key_at(pre.chain(0)[m]) == k2);
            pre.lemma_key_at_pos(m, k2);
            if k2 == k {
                if m != mj {
                    assert(pre.key_at(pre.chain(0)[m]) != pre.key_at(pre.chain(0)[mj]));
                }
                assert(pre.chain(0)[m] == j);
                assert(post@[k2] == post.val_at(j));
            } else {
                assert(pre.chain(0)[m] != j);
                assert(post.val_at(post.chain(0)[m]) == pre.val_at(pre.chain(0)[m]));
            }
        }
        assert(post@ =~= pre@.insert(k, v));
    }

    /// Splicing a fresh entry `n` carrying `(k, v)` into the level-0 chain
    /// right after position `p0` turns the map into the map with `k` bound
    /// to `v`, all other keys untouched.
    proof fn lemma_view_insert_new(pre: Self, post: Self, n: int, p0: int, k: u64, v: V)
        requires
            pre.wf(),
            post.wf(),
            post.chain(0) == pre.chain(0).insert(p0 + 1, n),
            -1 <= p0 < pre.chain(0).len(),
            post.node_count() == pre.node_count() + 1,
            n == pre.node_count(),
            forall|i: int|
                0 <= i < pre.node_count() ==> post.nodes@[i].key == pre.nodes@[i].key,
            forall|i: int|
                0 <= i < pre.node_count() ==> post.nodes@[i].val == pre.nodes@[i].val,
            post.nodes@[n].key == Some(k),
            post.nodes@[n].val == Some(v),
            forall|i: int| 1 <= i < pre.node_count() ==> pre.key_at(i) != k,
        ensures
            post@ == pre@.insert(k, v),
    {
        let c = pre.chain(0);
        let cc = post.chain(0);
        c.insert_ensures(p0 + 1, n);
        assert(pre.chain_ok(0));
        assert(post.chain_ok(0));
        assert(cc[p0 + 1] == n);
        assert(post.key_at(n) == k);
        assert(post.has_key(k));
        assert forall|k2: u64| pre@.dom().contains(k2) implies post@.dom().contains(k2) by {
            assert(pre.has_key(k2));
            let m = pre.key_pos(k2);
            assert(0 <= m < c.len() && pre.key_at(c[m]) == k2);
            if m < p0 + 1 {
                assert(cc[m] == c[m]);
                assert(post.key_at(cc[m]) == k2);
            } else {
                assert(cc[m + 1] == c[m]);
                assert(post.key_at(cc[m + 1]) == k2);
            }
            assert(post.has_key(k2));
        }
        assert forall|k2: u64| post@.dom().contains(k2) && k2 != k implies pre@.dom().contains(
            k2,
        ) by {
            assert(post.has_key(k2));
            let m = post.key_pos(k2);
            assert(0 <= m < cc.len() && post.key_at(cc[m]) == k2);
            assert(m != p0 + 1);
            if m < p0 + 1 {
                assert(cc[m] == c[m]);
                assert(pre.key_at(c[m]) == k2);
            } else {
                assert(cc[m] == c[m - 1]);
                assert(pre.key_at(c[m - 1]) == k2);
            }
            assert(pre.has_key(k2));
        }
        assert forall|k2: u64| post@.dom().contains(k2) implies post@[k2] == (if k2 == k {
            v
        } else {
            pre@[k2]
        }) by {
            assert(post.has_key(k2));
            let m = post.key_pos(k2);
            assert(0 <= m < cc.len() && post.key_at(cc[m]) == k2);
            post.lemma_key_at_pos(m, k2);
            if k2 == k {
                if m != p0 + 1 {
                    if m < p0 + 1 {
                        assert(cc[m] == c[m]);
                        assert(pre.key_at(c[m]) != k);
                    } else {
                        assert(cc[m] == c[m - 1]);
                        assert(pre.key_at(c[m - 1]) != k);
                    }
                    assert(false);
                }
                assert(post@[k2] == post.val_at(n));
            } else {
                assert(m != p0 + 1);
                if m < p0 + 1 {
                    assert(cc[m] == c[m]);
                    pre.lemma_key_at_pos(m, k2);
                    assert(post.val_at(cc[m]) == pre.val_at(c[m]));
                } else {
                    assert(cc[m] == c[m - 1]);
                    pre.lemma_key_at_pos(m - 1, k2);
                    assert(post.val_at(cc[m]) == pre.val_at(c[m - 1]));
                }
            }
        }
        assert(post@ =~= pre@.insert(k, v));
    }

    /// If position `m` of the level-0 chain carries key `k`, then `k` is
    /// in the map, `m` is the only such position, and the map's value for
    /// `k` is the one stored there.
    proof fn lemma_key_at_pos(self, m: int, k: u64)
        requires
            self.wf(),
            0 <= m < self.chain(0).len(),
            self.key_at(self.chain(0)[m]) == k,
        ensures
            self@.contains_key(k),
            self.key_pos(k) == m,
            self@[k] == self.val_at(self.chain(0)[m]),
    {
        assert(self.chain_ok(0));
        let c = self.chain(0);
        assert(self.has_key(k));
        let m2 = self.key_pos(k);
        assert(0 <= m2 < c.len() && self.key_at(c[m2]) == k);
        if m2 < m {
            assert(self.key_at(c[m2]) < self.key_at(c[m]));
        } else if m2 > m {
            assert(self.key_at(c[m]) < self.key_at(c[m2]));
        }
    }

    /// If the chain position `m` is a tight level-0 predecessor for `k`
    /// and its successor's key (if any) is strictly past `k`, then `k` is
    /// absent from the map.
    proof fn lemma_absent(self, m: int, k: u64)
        requires
            self.wf(),
            -1 <= m < self.chain(0).len(),
            m >= 0 ==> self.key_at(self.chain(0)[m]) < k,
            m + 1 < self.chain(0).len() ==> self.key_at(self.chain(0)[m + 1]) != k,
            m + 1 < self.chain(0).len() ==> self.key_at(self.chain(0)[m + 1]) >= k,
        ensures
            !self@.contains_key(k),
    {
        assert(self.chain_ok(0));
        let c = self.chain(0);
        if self.has_key(k) {
            let m2 = self.key_pos(k);
            assert(0 <= m2 < c.len() && self.key_at(c[m2]) == k);
            if m2 <= m {
                if m2 < m {
                    assert(self.key_at(c[m2]) < self.key_at(c[m]));
                }
                assert(false);
            } else {
                if m2 > m + 1 {
                    assert(self.key_at(c[m + 1]) < self.key_at(c[m2]));
                }
                assert(false);
            }
        }
    }

    // ----- counting lemmas -----

    /// On a well-formed list the level-0 chain keys are distinct, so the
    /// entry count equals the cardinality of the map's domain.
    proof fn lemma_len_is_dom_card(self)
        requires
            self.wf(),
        ensures
            self@.dom().len() == self.len_spec(),
    {
        assert(self.chain_ok(0));
        let c = self.chain(0);
        let ks = Seq::new(c.len(), |m: int| self.key_at(c[m]));
        assert(ks.no_duplicates()) by {
            assert forall|m1: int, m2: int|
                0 <= m1 < ks.len() && 0 <= m2 < ks.len() && m1 != m2 implies ks[m1] != ks[m2] by {
                if m1 < m2 {
                    assert(self.key_at(c[m1]) < self.key_at(c[m2]));
                } else {
                    assert(self.key_at(c[m2]) < self.key_at(c[m1]));
                }
            }
        }
        assert(self@.dom() =~= ks.to_set()) by {
            assert forall|k: u64| self@.dom().contains(k) implies ks.to_set().contains(k) by {
                let m = choose|m: int| 0 <= m < c.len() && self.key_at(#[trigger] c[m]) == k;
                assert(ks[m] == k);
            }
            assert forall|k: u64| ks.to_set().contains(k) implies self@.dom().contains(k) by {
                let m = choose|m: int| 0 <= m < ks.len() && ks[m] == k;
                assert(self.key_at(c[m]) == k);
            }
        }
        ks.unique_seq_to_set();
    }
}

impl<V> View for SkipList<V> {
    type V = Map<u64, V>;

    /// The skip list abstractly is the finite map holding, for each key on
    /// the level-0 chain, the value stored in that entry.
    closed spec fn view(&self) -> Map<u64, V> {
        Map::new(
            |k: u64| self.has_key(k),
            |k: u64| self.val_at(self.chain(0)[self.key_pos(k)]),
        )
    }
}

impl<V> Default for SkipList<V> {
    /// Same as `SkipList::new`.
    fn default() -> (r: Self)
        ensures
            r.wf(),
            r@ == Map::<u64, V>::empty(),
            r.len_spec() == 0,
            r.levels_spec() == 4,
    {
        Self::new()
    }
}

} // verus!
