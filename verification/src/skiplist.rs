//! The ordered-set core: a skip list whose nodes live in an arena and refer
//! to their per-level neighbours by stable index.
//!
//! Level 0 threads every element in non-decreasing key order between the two
//! conceptual sentinels. The sentinels are not nodes: two arrays, one link
//! per level, stand for the head's successors and the tail's predecessors.
//! The invariant proved here pins the structure to that single base level:
//! every tower has height one, so the container is a verified ordered list
//! in skip-list clothing rather than a probabilistically balanced one.

use crate::order::{
    keys_of, lemma_filter_all, lemma_filter_keeps_sorted, lemma_filter_no_dup, lemma_filter_subset,
    lemma_num_le_split, lemma_num_le_unique, num_le, sorted, KeyOrd,
};
use vstd::pervasive::unreached;
use vstd::prelude::*;

verus! {

/// A per-level reference: one of the two conceptual sentinels, or a real
/// node named by its arena index.
#[derive(Clone, Copy, PartialEq, Eq, Structural)]
pub enum Link {
    /// The sentinel below every element.
    Head,
    /// The sentinel above every element.
    Tail,
    /// The real node in this arena slot.
    At(usize),
}

/// One element's storage: its value and, for every level of its tower, the
/// links to its predecessor and successor on that level.
pub struct Node<T> {
    value: Option<T>,
    prev: Vec<Link>,
    next: Vec<Link>,
}

impl<T> Node<T> {
    /// The stored value, absent once the node has been unlinked.
    pub closed spec fn spec_value(&self) -> Option<T> {
        self.value
    }

    /// The node's predecessor links, one per level of its tower.
    pub closed spec fn spec_prev(&self) -> Seq<Link> {
        self.prev@
    }

    /// The node's successor links, one per level of its tower.
    pub closed spec fn spec_next(&self) -> Seq<Link> {
        self.next@
    }

    /// The direct (level 0) predecessor, if it is a real node.
    pub fn pre(&self) -> (r: Option<usize>)
        requires
            self.spec_prev().len() >= 1,
        ensures
            r == (match self.spec_prev()[0] {
                Link::At(i) => Some(i),
                _ => None::<usize>,
            }),
    {
        match self.prev[0] {
            Link::At(i) => Some(i),
            _ => None,
        }
    }

    /// The direct (level 0) successor, if it is a real node.
    pub fn suc(&self) -> (r: Option<usize>)
        requires
            self.spec_next().len() >= 1,
        ensures
            r == (match self.spec_next()[0] {
                Link::At(i) => Some(i),
                _ => None::<usize>,
            }),
    {
        match self.next[0] {
            Link::At(i) => Some(i),
            _ => None,
        }
    }

    /// The value stored in the node.
    pub fn val(&self) -> (r: &T)
        requires
            self.spec_value() is Some,
        ensures
            *r == self.spec_value()->0,
    {
        match &self.value {
            Some(v) => v,
            None => unreached(),
        }
    }
}

/// The ordered-set core. `@` is the sequence of stored elements in
/// non-decreasing key order; duplicates are permitted.
pub struct SkipList<T: KeyOrd> {
    nodes: Vec<Node<T>>,
    head_next: Vec<Link>,
    tail_prev: Vec<Link>,
    order: Ghost<Seq<usize>>,
}

impl<T: KeyOrd> View for SkipList<T> {
    type V = Seq<T>;

    closed spec fn view(&self) -> Seq<T> {
        self.order@.map_values(|i: usize| self.nodes@[i as int].value->0)
    }
}

impl<T: KeyOrd> SkipList<T> {
    /// The arena indices of the stored elements, in key order.
    spec fn ord(self) -> Seq<usize> {
        self.order@
    }

    spec fn nd(self, i: usize) -> Node<T> {
        self.nodes@[i as int]
    }

    spec fn val_at(self, i: usize) -> T {
        self.nd(i).value->0
    }

    spec fn key_at(self, i: usize) -> int {
        self.val_at(i).key_spec()
    }

    spec fn tower(self, i: usize) -> int {
        self.nd(i).next@.len() as int
    }

    /// The number of levels currently in use; at least one, even when the
    /// list is empty.
    pub closed spec fn height(self) -> int {
        self.head_next@.len() as int
    }

    /// The towers of the stored elements, in the same order as `@`.
    pub closed spec fn towers(self) -> Seq<int> {
        self.order@.map_values(|i: usize| self.tower(i))
    }

    /// Whether the arena slot `idx` holds a current element of the list.
    pub closed spec fn has_node(self, idx: usize) -> bool {
        self.ord().contains(idx)
    }

    /// The position in `@` of the element in arena slot `idx`.
    pub closed spec fn pos_of(self, idx: usize) -> int {
        self.ord().index_of(idx)
    }

    /// The indices threaded on level `l`: the elements whose tower reaches
    /// past `l`, in key order.
    spec fn chain(self, l: int) -> Seq<usize> {
        self.ord().filter(|i: usize| self.tower(i) > l)
    }

    /// The level-`l` links thread exactly the indices `c`, in that order,
    /// bracketed by the sentinels.
    spec fn links_ok(self, l: int, c: Seq<usize>) -> bool {
        &&& self.head_next@[l] == (if c.len() == 0 {
            Link::Tail
        } else {
            Link::At(c[0])
        })
        &&& self.tail_prev@[l] == (if c.len() == 0 {
            Link::Head
        } else {
            Link::At(c[c.len() - 1])
        })
        &&& (forall|j: int|
            0 <= j < c.len() ==> self.nd(#[trigger] c[j]).next@[l] == (if j == c.len() - 1 {
                Link::Tail
            } else {
                Link::At(c[j + 1])
            }))
        &&& (forall|j: int|
            0 <= j < c.len() ==> self.nd(#[trigger] c[j]).prev@[l] == (if j == 0 {
                Link::Head
            } else {
                Link::At(c[j - 1])
            }))
    }

    /// The slot `i` holds a live, well-shaped node.
    spec fn node_ok(self, i: usize) -> bool {
        &&& (i as int) < self.nodes@.len()
        &&& self.nd(i).value is Some
        &&& self.nd(i).prev@.len() == self.nd(i).next@.len()
        &&& 1 <= self.tower(i) <= self.height()
    }

    /// The structural invariant: every mutation re-establishes it.
    pub closed spec fn wf(self) -> bool {
        &&& self.height() == 1
        &&& self.tail_prev@.len() == self.head_next@.len()
        &&& self.ord().no_duplicates()
        &&& (forall|j: int| 0 <= j < self.ord().len() ==> self.node_ok(#[trigger] self.ord()[j]))
        &&& sorted(keys_of(self@))
        &&& (forall|l: int| 0 <= l < self.height() ==> self.links_ok(l, #[trigger] self.chain(l)))
        &&& (self.height() > 1 ==> self.chain(self.height() - 1).len() > 0)
    }

    /// In a well-formed list, level 0 threads every element.
    proof fn lemma_chain_zero(self)
        requires
            forall|j: int| 0 <= j < self.ord().len() ==> self.node_ok(#[trigger] self.ord()[j]),
        ensures
            self.chain(0) == self.ord(),
    {
        lemma_filter_all(self.ord(), |i: usize| self.tower(i) > 0);
    }

    /// What membership in a level's chain carries: liveness, tower reach,
    /// key order, distinctness.
    proof fn lemma_chain_facts(self, l: int)
        requires
            self.ord().no_duplicates(),
            forall|j: int| 0 <= j < self.ord().len() ==> self.node_ok(#[trigger] self.ord()[j]),
            sorted(keys_of(self@)),
        ensures
            forall|j: int|
                0 <= j < self.chain(l).len() ==> self.ord().contains(#[trigger] self.chain(l)[j]),
            forall|j: int| 0 <= j < self.chain(l).len() ==> self.node_ok(#[trigger] self.chain(l)[j]),
            forall|j: int| 0 <= j < self.chain(l).len() ==> self.tower(#[trigger] self.chain(l)[j]) > l,
            forall|j1: int, j2: int|
                0 <= j1 <= j2 < self.chain(l).len() ==> self.key_at(self.chain(l)[j1]) <= self.key_at(
                    self.chain(l)[j2],
                ),
            self.chain(l).no_duplicates(),
    {
        let pred = |i: usize| self.tower(i) > l;
        let c = self.chain(l);
        lemma_filter_subset(self.ord(), pred);
        lemma_filter_no_dup(self.ord(), pred);
        self.ord().filter_lemma(pred);
        assert forall|j: int| 0 <= j < c.len() implies self.node_ok(#[trigger] c[j]) by {
            let w = choose|w: int| 0 <= w < self.ord().len() && self.ord()[w] == c[j];
            assert(self.node_ok(self.ord()[w]));
        }
        assert forall|j1: int, j2: int|
            0 <= j1 <= j2 < self.ord().len() implies self.key_at(self.ord()[j1]) <= self.key_at(
            self.ord()[j2],
        ) by {
            assert(keys_of(self@)[j1] == self.key_at(self.ord()[j1]));
            assert(keys_of(self@)[j2] == self.key_at(self.ord()[j2]));
        }
        lemma_filter_keeps_sorted(self.ord(), pred, |i: usize| self.key_at(i));
    }

    /// Creates an empty list: one level, head linked straight to tail.
    pub fn new() -> (r: SkipList<T>)
        ensures
            r.wf(),
            r@ == Seq::<T>::empty(),
            r.height() == 1,
    {
        let mut head_next: Vec<Link> = Vec::new();
        let mut tail_prev: Vec<Link> = Vec::new();
        head_next.push(Link::Tail);
        tail_prev.push(Link::Head);
        let r = SkipList { nodes: Vec::<Node<T>>::new(), head_next, tail_prev, order: Ghost(Seq::empty()) };
        proof {
            reveal(Seq::filter);
            assert(r.chain(0) =~= Seq::<usize>::empty());
            assert(r@ =~= Seq::<T>::empty());
            assert(keys_of(r@) =~= Seq::<int>::empty());
        }
        r
    }

    /// What the search records for one level: `p` splits the level's chain
    /// into the elements with key at most `k` and those above it, and `link`
    /// names the last element of the first part (the head sentinel if it is
    /// empty) — the point the search descended from.
    spec fn hist_ok(self, l: int, link: Link, p: int, k: int) -> bool {
        let c = self.chain(l);
        &&& 0 <= p <= c.len()
        &&& (forall|j: int| 0 <= j < p ==> self.key_at(#[trigger] c[j]) <= k)
        &&& (forall|j: int| p <= j < c.len() ==> self.key_at(#[trigger] c[j]) > k)
        &&& link == (if p == 0 {
            Link::Head
        } else {
            Link::At(c[p - 1])
        })
    }

    /// Searches for the largest element with key at most the target's,
    /// recording at every level the node the search descended from: the
    /// predecessor of the target on that level. Level `l`'s record is at
    /// index `l`; the ghost result carries the corresponding positions.
    #[verifier::rlimit(50)]
    fn search_history(&self, target: &T) -> (r: (Vec<Link>, Ghost<Seq<int>>))
        requires
            self.wf(),
        ensures
            r.0@.len() == self.height(),
            r.1@.len() == self.height(),
            forall|l: int|
                0 <= l < self.height() ==> self.hist_ok(l, r.0@[l], r.1@[l], target.key_spec()),
    {
        let ghost k = target.key_spec();
        let height: usize = self.head_next.len();
        let mut history: Vec<Link> = vec![Link::Head; height];
        let ghost mut pos: Seq<int> = Seq::new(height as nat, |l: int| 0int);
        let mut cur: Link = Link::Head;
        let mut lvl: usize = height;
        let ghost mut j: int = -1;
        while lvl > 0
            invariant
                self.wf(),
                k == target.key_spec(),
                lvl <= height,
                height == self.height(),
                history@.len() == height as int,
                pos.len() == height as int,
                (lvl > 0 ==> {
                    let c = self.chain(lvl - 1);
                    &&& -1 <= j < c.len()
                    &&& (j == -1 ==> cur == Link::Head)
                    &&& (j >= 0 ==> cur == Link::At(c[j]) && self.key_at(c[j]) <= k)
                }),
                forall|l: int| lvl <= l < height ==> self.hist_ok(l, history@[l], pos[l], k),
            decreases lvl, (if lvl > 0 {
                self.chain(lvl - 1).len() - j
            } else {
                0int
            }),
        {
            let l: usize = lvl - 1;
            proof {
                self.lemma_chain_facts(l as int);
            }
            let ghost c = self.chain(l as int);
            let next_link: Link = match cur {
                Link::Head => self.head_next[l],
                Link::At(i) => {
                    proof {
                        assert(c[j] == i);
                        assert(self.node_ok(i));
                        assert(self.tower(i) > l);
                    }
                    self.nodes[i].next[l]
                },
                Link::Tail => unreached(),
            };
            proof {
                assert(self.links_ok(l as int, c));
                if j == -1 {
                    if c.len() == 0 {
                        assert(next_link == Link::Tail);
                    } else {
                        assert(next_link == Link::At(c[0]));
                    }
                } else {
                    assert(c[j] == c[j]);
                    if j == c.len() - 1 {
                        assert(next_link == Link::Tail);
                    } else {
                        assert(next_link == Link::At(c[j + 1]));
                    }
                }
                if next_link is At {
                    assert(j + 1 < c.len() && c[j + 1] == next_link->At_0);
                    assert(self.node_ok(c[j + 1]));
                }
            }
            let descend: bool = match next_link {
                Link::Tail => true,
                Link::At(n) => {
                    let nv: &T = match &self.nodes[n].value {
                        Some(v) => v,
                        None => unreached(),
                    };
                    !nv.key_le(target)
                },
                Link::Head => unreached(),
            };
            if descend {
                history[l] = cur;
                proof {
                    pos = pos.update(l as int, j + 1);
                    assert forall|jj: int| 0 <= jj < j + 1 implies self.key_at(#[trigger] c[jj])
                        <= k by {
                        assert(self.key_at(c[jj]) <= self.key_at(c[j]));
                    }
                    if next_link is Tail {
                        assert(j + 1 == c.len());
                    } else {
                        let n = next_link->At_0;
                        assert(c[j + 1] == n);
                        assert(self.key_at(n) > k);
                        assert forall|jj: int| j + 1 <= jj < c.len() implies self.key_at(
                            #[trigger] c[jj],
                        ) > k by {
                            assert(self.key_at(c[j + 1]) <= self.key_at(c[jj]));
                        }
                    }
                    assert(self.hist_ok(l as int, cur, j + 1, k));
                }
                lvl = l;
                proof {
                    if lvl > 0 {
                        let cc = self.chain(lvl - 1);
                        if j >= 0 {
                            let x = c[j];
                            let w = choose|w: int|
                                0 <= w < self.ord().len() && self.ord()[w] == x;
                            self.ord().lemma_filter_contains(
                                |i: usize| self.tower(i) > lvl - 1,
                                w,
                            );
                            assert(cc.contains(x));
                            j = choose|jj: int| 0 <= jj < cc.len() && cc[jj] == x;
                        }
                    }
                }
            } else {
                let n: usize = match next_link {
                    Link::At(n) => n,
                    _ => unreached(),
                };
                cur = Link::At(n);
                proof {
                    j = j + 1;
                }
            }
        }
        (history, Ghost(pos))
    }

    /// An element's arena slot recovers its position in `@`.
    proof fn lemma_pos_of(self, j: int)
        requires
            self.ord().no_duplicates(),
            0 <= j < self.ord().len(),
        ensures
            self.has_node(self.ord()[j]),
            self.pos_of(self.ord()[j]) == j,
    {
        let i = self.ord()[j];
        assert(self.ord().contains(i));
        let q = self.pos_of(i);
        assert(self.ord()[q] == i);
        if q != j {
            assert(false);
        }
    }

    /// The level-0 record of the search is the split point of the whole key
    /// sequence: `num_le` many keys are at most the target's.
    proof fn lemma_hist_zero(self, link: Link, p: int, k: int)
        requires
            self.wf(),
            self.hist_ok(0, link, p, k),
        ensures
            p == num_le(keys_of(self@), k),
            0 <= p <= self@.len(),
            forall|j: int| 0 <= j < p ==> keys_of(self@)[j] <= k,
            forall|j: int| p <= j < self@.len() ==> keys_of(self@)[j] > k,
            p >= 1 ==> link == Link::At(self.ord()[p - 1]) && self.node_ok(self.ord()[p - 1]),
            p == 0 ==> link == Link::Head,
    {
        self.lemma_chain_zero();
        let ks = keys_of(self@);
        let c = self.chain(0);
        assert forall|j: int| 0 <= j < p implies ks[j] <= k by {
            assert(self.key_at(c[j]) <= k);
        }
        assert forall|j: int| p <= j < ks.len() implies ks[j] > k by {
            assert(self.key_at(c[j]) > k);
        }
        lemma_num_le_unique(ks, k, p);
    }

    /// Looks the value up and hands back read access to the stored element
    /// whose key equals the given one, if any is stored.
    pub fn find<'a>(&'a self, val: &T) -> (r: Option<&'a T>)
        requires
            self.wf(),
        ensures
            ({
                let k = val.key_spec();
                let ks = keys_of(self@);
                let p = num_le(ks, k);
                &&& (r is Some) == (exists|j: int| 0 <= j < ks.len() && ks[j] == k)
                &&& (r matches Some(v) ==> 0 < p <= self@.len() && ks[p - 1] == k && *v == self@[p
                    - 1])
                &&& (r is None ==> forall|j: int| 0 <= j < ks.len() ==> ks[j] != k)
            }),
    {
        let ghost k = val.key_spec();
        let ghost ks = keys_of(self@);
        let (history, pos) = self.search_history(val);
        let first: Link = history[0];
        proof {
            self.lemma_hist_zero(first, pos@[0], k);
        }
        let ghost p = pos@[0];
        match first {
            Link::Head => {
                proof {
                    assert(p == 0);
                    assert forall|j: int| 0 <= j < ks.len() implies ks[j] != k by {
                        assert(ks[j] > k);
                    }
                }
                None
            },
            Link::At(i) => {
                let v: &T = match &self.nodes[i].value {
                    Some(v) => v,
                    None => unreached(),
                };
                proof {
                    assert(i == self.ord()[p - 1]);
                    assert(*v == self@[p - 1]);
                    assert(ks[p - 1] == self.key_at(i));
                }
                if val.key_le(v) {
                    Some(v)
                } else {
                    proof {
                        assert(ks[p - 1] < k);
                        assert forall|j: int| 0 <= j < ks.len() implies ks[j] != k by {
                            if j < p {
                                assert(ks[j] <= ks[p - 1]);
                            } else {
                                assert(ks[j] > k);
                            }
                        }
                    }
                    None
                }
            },
            Link::Tail => unreached(),
        }
    }

    /// Like `find`, but hands back the arena slot of the matching node, for
    /// read-only navigation through `node`, `pre` and `suc`.
    pub fn find_node(&self, val: &T) -> (r: Option<usize>)
        requires
            self.wf(),
        ensures
            ({
                let k = val.key_spec();
                let ks = keys_of(self@);
                let p = num_le(ks, k);
                &&& (r is Some) == (exists|j: int| 0 <= j < ks.len() && ks[j] == k)
                &&& (r matches Some(i) ==> 0 < p <= self@.len() && ks[p - 1] == k && self.has_node(
                    i,
                ) && self.pos_of(i) == p - 1)
                &&& (r is None ==> forall|j: int| 0 <= j < ks.len() ==> ks[j] != k)
            }),
    {
        let ghost k = val.key_spec();
        let ghost ks = keys_of(self@);
        let (history, pos) = self.search_history(val);
        let first: Link = history[0];
        proof {
            self.lemma_hist_zero(first, pos@[0], k);
        }
        let ghost p = pos@[0];
        match first {
            Link::Head => {
                proof {
                    assert forall|j: int| 0 <= j < ks.len() implies ks[j] != k by {
                        assert(ks[j] > k);
                    }
                }
                None
            },
            Link::At(i) => {
                let v: &T = match &self.nodes[i].value {
                    Some(v) => v,
                    None => unreached(),
                };
                proof {
                    assert(i == self.ord()[p - 1]);
                    assert(ks[p - 1] == self.key_at(i));
                    self.lemma_pos_of(p - 1);
                }
                if val.key_le(v) {
                    Some(i)
                } else {
                    proof {
                        assert(ks[p - 1] < k);
                        assert forall|j: int| 0 <= j < ks.len() implies ks[j] != k by {
                            if j < p {
                                assert(ks[j] <= ks[p - 1]);
                            } else {
                                assert(ks[j] > k);
                            }
                        }
                    }
                    None
                }
            },
            Link::Tail => unreached(),
        }
    }

    /// Everything that holds of the two states around the level-0
    /// rewires of an insertion.
    spec fn splice_pre(
        s0: Self,
        s2: Self,
        n: usize,
        q: int,
        k: int,
        plink: Link,
        slink: Link,
        val: T,
    ) -> bool {
        &&& (s0.wf())
        &&& (0 <= q <= s0.ord().len())
        &&& (forall|w: int| 0 <= w < q ==> s0.key_at(#[trigger] s0.ord()[w]) <= k)
        &&& (forall|w: int| q <= w < s0.ord().len() ==> s0.key_at(#[trigger] s0.ord()[w]) > k)
        &&& (val.key_spec() == k)
        &&& (plink == (if q == 0 {
                Link::Head
            } else {
                Link::At(s0.ord()[q - 1])
            }))
        &&& (slink == (if q == s0.ord().len() {
                Link::Tail
            } else {
                Link::At(s0.ord()[q])
            }))
        &&& (n as int == s0.nodes@.len())
        &&& (s2.nodes@.len() == s0.nodes@.len() + 1)
        &&& (s2.ord() == s0.ord().insert(q, n))
        &&& (s2.nd(n).value == Some(val))
        &&& (s2.nd(n).prev@ == seq![plink])
        &&& (s2.nd(n).next@ == seq![slink])
        &&& (forall|z: usize|
                z < n ==> (#[trigger] s2.nd(z)).value == s0.nd(z).value && s2.nd(z).prev@.len()
                    == s0.nd(z).prev@.len() && s2.nd(z).next@.len() == s0.nd(z).next@.len())
        &&& (forall|z: usize|
                z < n && !(q >= 1 && z == s0.ord()[q - 1]) ==> (#[trigger] s2.nd(z)).next@[0]
                    == s0.nd(z).next@[0])
        &&& (forall|z: usize|
                z < n && !(q < s0.ord().len() && z == s0.ord()[q]) ==> (#[trigger] s2.nd(
                    z,
                )).prev@[0] == s0.nd(z).prev@[0])
        &&& (q >= 1 ==> s2.nd(s0.ord()[q - 1]).next@[0] == Link::At(n))
        &&& (q < s0.ord().len() ==> s2.nd(s0.ord()[q]).prev@[0] == Link::At(n))
        &&& (s2.head_next@ == (if q == 0 {
                s0.head_next@.update(0, Link::At(n))
            } else {
                s0.head_next@
            }))
        &&& (s2.tail_prev@ == (if q == s0.ord().len() {
                s0.tail_prev@.update(0, Link::At(n))
            } else {
                s0.tail_prev@
            }))
    }

    /// The successor links after the splice thread the new order.
    #[verifier::rlimit(100)]
    proof fn lemma_splice_next(
        s0: Self,
        s2: Self,
        n: usize,
        q: int,
        k: int,
        plink: Link,
        slink: Link,
        val: T,
    )
        requires
            Self::splice_pre(s0, s2, n, q, k, plink, slink, val),
        ensures
            ({
                let o2 = s2.ord();
                forall|j: int|
                    0 <= j < o2.len() ==> s2.nd(#[trigger] o2[j]).next@[0] == (if j == o2.len()
                        - 1 {
                        Link::Tail
                    } else {
                        Link::At(o2[j + 1])
                    })
            }),
    {
        let o0 = s0.ord();
        let o2 = s2.ord();
        s0.lemma_chain_zero();
        o0.insert_ensures(q, n);
        assert(s0.links_ok(0, o0));
        assert forall|w: int| 0 <= w < o0.len() implies #[trigger] o0[w] < n && s0.node_ok(
            o0[w],
        ) by {}
        assert forall|j: int| 0 <= j < o2.len() implies s2.nd(#[trigger] o2[j]).next@[0] == (if j
            == o2.len() - 1 {
            Link::Tail
        } else {
            Link::At(o2[j + 1])
        }) by {
            if j < q - 1 {
                assert(o2[j] == o0[j] && o2[j + 1] == o0[j + 1]);
                assert(s0.nd(o0[j]).next@[0] == Link::At(o0[j + 1]));
            } else if j == q - 1 {
                assert(o2[j] == o0[j] && o2[j + 1] == n);
            } else if j == q {
                assert(o2[j] == n);
                if j < o2.len() - 1 {
                    assert(o2[j + 1] == o0[q]);
                }
            } else {
                assert(o2[j] == o0[j - 1]);
                assert(s0.nd(o0[j - 1]).next@[0] == (if j - 1 == o0.len() - 1 {
                    Link::Tail
                } else {
                    Link::At(o0[j])
                }));
                if j < o2.len() - 1 {
                    assert(o2[j + 1] == o0[j]);
                }
            }
        }
    }

    /// The predecessor links after the splice thread the new order.
    #[verifier::rlimit(100)]
    proof fn lemma_splice_prev(
        s0: Self,
        s2: Self,
        n: usize,
        q: int,
        k: int,
        plink: Link,
        slink: Link,
        val: T,
    )
        requires
            Self::splice_pre(s0, s2, n, q, k, plink, slink, val),
        ensures
            ({
                let o2 = s2.ord();
                forall|j: int|
                    0 <= j < o2.len() ==> s2.nd(#[trigger] o2[j]).prev@[0] == (if j == 0 {
                        Link::Head
                    } else {
                        Link::At(o2[j - 1])
                    })
            }),
    {
        let o0 = s0.ord();
        let o2 = s2.ord();
        s0.lemma_chain_zero();
        o0.insert_ensures(q, n);
        assert(s0.links_ok(0, o0));
        assert forall|w: int| 0 <= w < o0.len() implies #[trigger] o0[w] < n && s0.node_ok(
            o0[w],
        ) by {}
        assert forall|j: int| 0 <= j < o2.len() implies s2.nd(#[trigger] o2[j]).prev@[0] == (if j
            == 0 {
            Link::Head
        } else {
            Link::At(o2[j - 1])
        }) by {
            if j < q {
                assert(o2[j] == o0[j]);
                assert(s0.nd(o0[j]).prev@[0] == (if j == 0 {
                    Link::Head
                } else {
                    Link::At(o0[j - 1])
                }));
                if j > 0 {
                    assert(o2[j - 1] == o0[j - 1]);
                }
            } else if j == q {
                assert(o2[j] == n);
                if q > 0 {
                    assert(o2[j - 1] == o0[q - 1]);
                }
            } else if j == q + 1 {
                assert(o2[j] == o0[j - 1] && o2[j - 1] == n);
            } else {
                assert(o2[j] == o0[j - 1] && o2[j - 1] == o0[j - 2]);
                assert(s0.nd(o0[j - 1]).prev@[0] == Link::At(o0[j - 2]));
            }
        }
    }

    /// The contents-level half: after the splice the order is duplicate
    /// free, well shaped, sorted, and carries the new element at `q`.
    #[verifier::rlimit(100)]
    proof fn lemma_splice_shape(
        s0: Self,
        s2: Self,
        n: usize,
        q: int,
        k: int,
        plink: Link,
        slink: Link,
        val: T,
    )
        requires
            Self::splice_pre(s0, s2, n, q, k, plink, slink, val),
        ensures
            s2.ord().no_duplicates(),
            forall|j: int| 0 <= j < s2.ord().len() ==> s2.node_ok(#[trigger] s2.ord()[j]),
            s2@ == s0@.insert(q, val),
            s2.towers() == s0.towers().insert(q, 1),
            sorted(keys_of(s2@)),
            q == num_le(keys_of(s0@), k),
    {
        let o0 = s0.ord();
        let o2 = s2.ord();
        s0.lemma_chain_zero();
        o0.insert_ensures(q, n);
        assert(s0.links_ok(0, o0));
        assert forall|w: int| 0 <= w < o0.len() implies #[trigger] o0[w] < n && s0.node_ok(
            o0[w],
        ) by {}
        assert forall|i1: int, i2: int|
            0 <= i1 < o2.len() && 0 <= i2 < o2.len() && i1 != i2 implies o2[i1] != o2[i2] by {
            if o2[i1] == n && i2 != q {
                assert(i1 == q);
            }
        }
        assert(o2.no_duplicates());
        assert forall|j: int| 0 <= j < o2.len() implies s2.node_ok(#[trigger] o2[j]) by {
            if j == q {
                assert(o2[j] == n);
            } else if j < q {
                assert(o2[j] == o0[j]);
            } else {
                assert(o2[j] == o0[j - 1]);
            }
        }
        assert(s2@ =~= s0@.insert(q, val));
        assert(s2.towers() =~= s0.towers().insert(q, 1));
        assert forall|w: int| 0 <= w < q implies keys_of(s0@)[w] <= k by {
            assert(s0.key_at(o0[w]) <= k);
        }
        assert forall|w: int| q <= w < o0.len() implies keys_of(s0@)[w] > k by {
            assert(s0.key_at(o0[w]) > k);
        }
        lemma_num_le_unique(keys_of(s0@), k, q);
        assert forall|j1: int, j2: int|
            0 <= j1 <= j2 < o2.len() implies keys_of(s2@)[j1] <= keys_of(s2@)[j2] by {
            if j1 < q {
                assert(keys_of(s2@)[j1] == keys_of(s0@)[j1]);
            } else if j1 == q {
                assert(keys_of(s2@)[j1] == k);
            } else {
                assert(keys_of(s2@)[j1] == keys_of(s0@)[j1 - 1]);
            }
            if j2 < q {
                assert(keys_of(s2@)[j2] == keys_of(s0@)[j2]);
            } else if j2 == q {
                assert(keys_of(s2@)[j2] == k);
            } else {
                assert(keys_of(s2@)[j2] == keys_of(s0@)[j2 - 1]);
            }
        }
        assert(sorted(keys_of(s2@)));
    }

    /// After the level-0 rewires of an insertion, the list is well formed
    /// again and its contents have the new element at the split point.
    #[verifier::rlimit(100)]
    proof fn lemma_level0_splice(
        s0: Self,
        s2: Self,
        n: usize,
        q: int,
        k: int,
        plink: Link,
        slink: Link,
        val: T,
    )
        requires
            Self::splice_pre(s0, s2, n, q, k, plink, slink, val),
        ensures
            s2.wf(),
            s2@ == s0@.insert(q, val),
            s2.towers() == s0.towers().insert(q, 1),
            s2.height() == s0.height(),
            q == num_le(keys_of(s0@), k),
    {
        let o0 = s0.ord();
        let o2 = s2.ord();
        s0.lemma_chain_zero();
        o0.insert_ensures(q, n);
        Self::lemma_splice_shape(s0, s2, n, q, k, plink, slink, val);
        s2.lemma_chain_zero();
        Self::lemma_splice_next(s0, s2, n, q, k, plink, slink, val);
        Self::lemma_splice_prev(s0, s2, n, q, k, plink, slink, val);
        assert(s2.head_next@[0] == Link::At(o2[0]));
        if q == o0.len() {
            assert(s2.tail_prev@[0] == Link::At(n));
        } else {
            assert(s2.tail_prev@[0] == Link::At(o0[o0.len() - 1]));
        }
        assert(s2.links_ok(0, s2.chain(0)));
    }

    /// Inserts the value as a fresh single-level node just after every
    /// element whose key is at most its own.
    /// Inserts the value and returns the fresh node's arena slot. The new
    /// element stands at position `num_le(keys, key)`: just after every
    /// element whose key is at most its own, so its level-0 predecessor is
    /// the last previously stored element with an equal key, if any exists.
    pub fn insert_ret_node(&mut self, val: T) -> (idx: usize)
        requires
            old(self).wf(),
        ensures
            final(self).wf(),
            ({
                let p = num_le(keys_of(old(self)@), val.key_spec());
                &&& final(self)@ == old(self)@.insert(p, val)
                &&& final(self).towers() == old(self).towers().insert(p, 1)
                &&& final(self).height() == old(self).height()
                &&& final(self).has_node(idx)
                &&& final(self).pos_of(idx) == p
            }),
    {
        let ghost s0 = *self;
        let ghost k = val.key_spec();
        let (history, pos) = self.search_history(&val);
        let plink: Link = history[0];
        let ghost q = pos@[0];
        proof {
            s0.lemma_chain_zero();
            s0.lemma_hist_zero(plink, q, k);
        }
        let slink: Link = match plink {
            Link::Head => self.head_next[0],
            Link::At(x) => self.nodes[x].next[0],
            Link::Tail => unreached(),
        };
        proof {
            assert(s0.links_ok(0, s0.ord()));
            if q >= 1 {
                assert(s0.node_ok(s0.ord()[q - 1]));
            }
            assert(slink == (if q == s0.ord().len() {
                Link::Tail
            } else {
                Link::At(s0.ord()[q])
            }));
            if q < s0.ord().len() {
                assert(s0.node_ok(s0.ord()[q]));
            }
        }
        let n: usize = self.nodes.len();
        let mut prev_links: Vec<Link> = Vec::new();
        let mut next_links: Vec<Link> = Vec::new();
        prev_links.push(plink);
        next_links.push(slink);
        self.nodes.push(Node { value: Some(val), prev: prev_links, next: next_links });
        match plink {
            Link::Head => {
                self.head_next[0] = Link::At(n);
            },
            Link::At(x) => {
                self.nodes[x].next[0] = Link::At(n);
            },
            Link::Tail => unreached(),
        }
        match slink {
            Link::Tail => {
                self.tail_prev[0] = Link::At(n);
            },
            Link::At(y) => {
                self.nodes[y].prev[0] = Link::At(n);
            },
            Link::Head => unreached(),
        }
        self.order = Ghost(s0.ord().insert(q, n));
        proof {
            Self::lemma_level0_splice(s0, *self, n, q, k, plink, slink, val);
            self.lemma_pos_of(q);
        }
        n
    }

    /// Inserts the value, duplicates permitted: the new element lands just
    /// after every element whose key is at most its own.
    pub fn insert(&mut self, val: T)
        requires
            old(self).wf(),
        ensures
            final(self).wf(),
            final(self)@ == old(self)@.insert(
                num_le(keys_of(old(self)@), val.key_spec()),
                val,
            ),
            final(self).towers() == old(self).towers().insert(
                num_le(keys_of(old(self)@), val.key_spec()),
                1,
            ),
            final(self).height() == old(self).height(),
    {
        let _idx: usize = self.insert_ret_node(val);
    }

    /// Everything that holds of the two states around the level-0
    /// rewires of a removal.
    spec fn unlink_pre(s0: Self, s2: Self, idx: usize, q: int, plink: Link, slink: Link) -> bool {
        &&& (s0.wf())
        &&& (0 <= q < s0.ord().len())
        &&& (idx == s0.ord()[q])
        &&& (plink == (if q == 0 {
                Link::Head
            } else {
                Link::At(s0.ord()[q - 1])
            }))
        &&& (slink == (if q == s0.ord().len() - 1 {
                Link::Tail
            } else {
                Link::At(s0.ord()[q + 1])
            }))
        &&& (s2.nodes@.len() == s0.nodes@.len())
        &&& (s2.ord() == s0.ord().remove(q))
        &&& (forall|z: usize|
                (z as int) < s0.nodes@.len() && z != idx ==> (#[trigger] s2.nd(z)).value == s0.nd(
                    z,
                ).value && s2.nd(z).prev@.len() == s0.nd(z).prev@.len() && s2.nd(z).next@.len()
                    == s0.nd(z).next@.len())
        &&& (forall|z: usize|
                (z as int) < s0.nodes@.len() && z != idx && !(q >= 1 && z == s0.ord()[q - 1]) ==> (
                #[trigger] s2.nd(z)).next@[0] == s0.nd(z).next@[0])
        &&& (forall|z: usize|
                (z as int) < s0.nodes@.len() && z != idx && !(q < s0.ord().len() - 1 && z
                    == s0.ord()[q + 1]) ==> (#[trigger] s2.nd(z)).prev@[0] == s0.nd(z).prev@[0])
        &&& (q >= 1 ==> s2.nd(s0.ord()[q - 1]).next@[0] == slink)
        &&& (q < s0.ord().len() - 1 ==> s2.nd(s0.ord()[q + 1]).prev@[0] == plink)
        &&& (s2.head_next@ == (if q == 0 {
                s0.head_next@.update(0, slink)
            } else {
                s0.head_next@
            }))
        &&& (s2.tail_prev@ == (if q == s0.ord().len() - 1 {
                s0.tail_prev@.update(0, plink)
            } else {
                s0.tail_prev@
            }))
    }

    /// The successor links after the unlink thread the shortened order.
    #[verifier::rlimit(100)]
    proof fn lemma_unlink_next(s0: Self, s2: Self, idx: usize, q: int, plink: Link, slink: Link)
        requires
            Self::unlink_pre(s0, s2, idx, q, plink, slink),
        ensures
            ({
                let o2 = s2.ord();
                forall|j: int|
                    0 <= j < o2.len() ==> s2.nd(#[trigger] o2[j]).next@[0] == (if j == o2.len()
                        - 1 {
                        Link::Tail
                    } else {
                        Link::At(o2[j + 1])
                    })
            }),
    {
        let o0 = s0.ord();
        let o2 = s2.ord();
        s0.lemma_chain_zero();
        assert(s0.links_ok(0, o0));
        assert forall|w: int| 0 <= w < o0.len() implies #[trigger] o0[w]
            < s0.nodes@.len() && s0.node_ok(o0[w]) by {}
        assert forall|j: int| 0 <= j < o2.len() implies s2.nd(#[trigger] o2[j]).next@[0] == (if j
            == o2.len() - 1 {
            Link::Tail
        } else {
            Link::At(o2[j + 1])
        }) by {
            if j < q - 1 {
                assert(o2[j] == o0[j] && o2[j + 1] == o0[j + 1]);
                assert(s0.nd(o0[j]).next@[0] == Link::At(o0[j + 1]));
            } else if j == q - 1 {
                assert(o2[j] == o0[j]);
                if j < o2.len() - 1 {
                    assert(o2[j + 1] == o0[j + 2]);
                }
            } else {
                assert(o2[j] == o0[j + 1]);
                assert(s0.nd(o0[j + 1]).next@[0] == (if j + 1 == o0.len() - 1 {
                    Link::Tail
                } else {
                    Link::At(o0[j + 2])
                }));
                if j < o2.len() - 1 {
                    assert(o2[j + 1] == o0[j + 2]);
                }
            }
        }
    }

    /// The predecessor links after the unlink thread the shortened order.
    #[verifier::rlimit(100)]
    proof fn lemma_unlink_prev(s0: Self, s2: Self, idx: usize, q: int, plink: Link, slink: Link)
        requires
            Self::unlink_pre(s0, s2, idx, q, plink, slink),
        ensures
            ({
                let o2 = s2.ord();
                forall|j: int|
                    0 <= j < o2.len() ==> s2.nd(#[trigger] o2[j]).prev@[0] == (if j == 0 {
                        Link::Head
                    } else {
                        Link::At(o2[j - 1])
                    })
            }),
    {
        let o0 = s0.ord();
        let o2 = s2.ord();
        s0.lemma_chain_zero();
        assert(s0.links_ok(0, o0));
        assert forall|w: int| 0 <= w < o0.len() implies #[trigger] o0[w]
            < s0.nodes@.len() && s0.node_ok(o0[w]) by {}
        assert forall|j: int| 0 <= j < o2.len() implies s2.nd(#[trigger] o2[j]).prev@[0] == (if j
            == 0 {
            Link::Head
        } else {
            Link::At(o2[j - 1])
        }) by {
            if j < q - 1 || (j < q && j == 0) {
                assert(o2[j] == o0[j]);
                assert(s0.nd(o0[j]).prev@[0] == (if j == 0 {
                    Link::Head
                } else {
                    Link::At(o0[j - 1])
                }));
            } else if j == q - 1 {
                assert(o2[j] == o0[j]);
                assert(s0.nd(o0[j]).prev@[0] == (if j == 0 {
                    Link::Head
                } else {
                    Link::At(o0[j - 1])
                }));
                if j > 0 {
                    assert(o2[j - 1] == o0[j - 1]);
                }
            } else if j == q {
                assert(o2[j] == o0[j + 1]);
                if j > 0 {
                    assert(o2[j - 1] == o0[j - 1]);
                }
            } else {
                assert(o2[j] == o0[j + 1] && o2[j - 1] == o0[j]);
                assert(s0.nd(o0[j + 1]).prev@[0] == Link::At(o0[j]));
            }
        }
    }

    /// After the level-0 rewires of a removal, the list is well formed
    /// again and the element is gone from its position.
    #[verifier::rlimit(100)]
    proof fn lemma_level0_unlink(s0: Self, s2: Self, idx: usize, q: int, plink: Link, slink: Link)
        requires
            Self::unlink_pre(s0, s2, idx, q, plink, slink),
        ensures
            s2.wf(),
            s2@ == s0@.remove(q),
            s2.towers() == s0.towers().remove(q),
            s2.height() == s0.height(),
    {
        let o0 = s0.ord();
        let o2 = s2.ord();
        s0.lemma_chain_zero();
        assert(s0.links_ok(0, o0));
        assert forall|w: int| 0 <= w < o0.len() implies #[trigger] o0[w]
            < s0.nodes@.len() && s0.node_ok(o0[w]) by {}
        assert forall|i1: int, i2: int|
            0 <= i1 < o2.len() && 0 <= i2 < o2.len() && i1 != i2 implies o2[i1] != o2[i2] by {
            let w1 = if i1 < q {
                i1
            } else {
                i1 + 1
            };
            let w2 = if i2 < q {
                i2
            } else {
                i2 + 1
            };
            assert(o2[i1] == o0[w1] && o2[i2] == o0[w2]);
        }
        assert forall|j: int| 0 <= j < o2.len() implies s2.node_ok(#[trigger] o2[j]) && o2[j]
            != idx by {
            let w = if j < q {
                j
            } else {
                j + 1
            };
            assert(o2[j] == o0[w]);
            assert(s0.node_ok(o0[w]));
        }
        assert(s2@ =~= s0@.remove(q));
        assert(s2.towers() =~= s0.towers().remove(q));
        assert forall|j1: int, j2: int|
            0 <= j1 <= j2 < o2.len() implies keys_of(s2@)[j1] <= keys_of(s2@)[j2] by {
            let w1 = if j1 < q {
                j1
            } else {
                j1 + 1
            };
            let w2 = if j2 < q {
                j2
            } else {
                j2 + 1
            };
            assert(keys_of(s2@)[j1] == keys_of(s0@)[w1]);
            assert(keys_of(s2@)[j2] == keys_of(s0@)[w2]);
        }
        assert(sorted(keys_of(s2@)));
        s2.lemma_chain_zero();
        Self::lemma_unlink_next(s0, s2, idx, q, plink, slink);
        Self::lemma_unlink_prev(s0, s2, idx, q, plink, slink);
        if o2.len() == 0 {
            assert(s2.head_next@[0] == Link::Tail);
            assert(s2.tail_prev@[0] == Link::Head);
        } else {
            assert(s2.head_next@[0] == Link::At(o2[0]));
            assert(s2.tail_prev@[0] == Link::At(o2[o2.len() - 1]));
        }
        assert(s2.links_ok(0, s2.chain(0)));
    }

    /// Unlinks the node in slot `idx` and hands its value back.
    fn unlink_extract(&mut self, idx: usize) -> (v: T)
        requires
            old(self).wf(),
            old(self).has_node(idx),
        ensures
            final(self).wf(),
            v == old(self)@[old(self).pos_of(idx)],
            final(self)@ == old(self)@.remove(old(self).pos_of(idx)),
            final(self).towers() == old(self).towers().remove(old(self).pos_of(idx)),
            final(self).height() == old(self).height(),
    {
        let ghost s0 = *self;
        let ghost q = s0.pos_of(idx);
        proof {
            assert(s0.ord()[q] == idx);
            assert(s0.node_ok(idx));
            s0.lemma_chain_zero();
            assert(s0.links_ok(0, s0.ord()));
        }
        let plink: Link = self.nodes[idx].prev[0];
        let slink: Link = self.nodes[idx].next[0];
        proof {
            if q >= 1 {
                assert(s0.node_ok(s0.ord()[q - 1]));
            }
            if q < s0.ord().len() - 1 {
                assert(s0.node_ok(s0.ord()[q + 1]));
            }
        }
        match plink {
            Link::Head => {
                self.head_next[0] = slink;
            },
            Link::At(x) => {
                self.nodes[x].next[0] = slink;
            },
            Link::Tail => unreached(),
        }
        match slink {
            Link::Tail => {
                self.tail_prev[0] = plink;
            },
            Link::At(y) => {
                self.nodes[y].prev[0] = plink;
            },
            Link::Head => unreached(),
        }
        let vopt: Option<T> = self.nodes[idx].value.take();
        self.order = Ghost(s0.ord().remove(q));
        proof {
            Self::lemma_level0_unlink(s0, *self, idx, q, plink, slink);
        }
        match vopt {
            Some(v) => v,
            None => unreached(),
        }
    }

    /// Removes the node in slot `idx` from the list, releasing its value.
    pub fn remove(&mut self, idx: usize)
        requires
            old(self).wf(),
            old(self).has_node(idx),
        ensures
            final(self).wf(),
            final(self)@ == old(self)@.remove(old(self).pos_of(idx)),
            final(self).towers() == old(self).towers().remove(old(self).pos_of(idx)),
            final(self).height() == old(self).height(),
    {
        let _v: T = self.unlink_extract(idx);
    }

    /// Deletes one element whose key equals the given value's — the last
    /// such in order — and returns it; reports absence untouched.
    pub fn delete(&mut self, val: &T) -> (r: Option<T>)
        requires
            old(self).wf(),
        ensures
            final(self).wf(),
            final(self).height() == old(self).height(),
            final(self).height() >= 1,
            ({
                let k = val.key_spec();
                let ks = keys_of(old(self)@);
                let p = num_le(ks, k);
                &&& (r is Some) == (exists|j: int| 0 <= j < ks.len() && ks[j] == k)
                &&& (r matches Some(v) ==> 0 < p <= ks.len() && ks[p - 1] == k && v == old(
                    self,
                )@[p - 1] && final(self)@ == old(self)@.remove(p - 1) && final(self).towers()
                    == old(self).towers().remove(p - 1))
                &&& (r is None ==> *final(self) == *old(self))
            }),
    {
        match self.find_node(val) {
            None => None,
            Some(i) => Some(self.unlink_extract(i)),
        }
    }

    /// Inserts the value, then removes the equal-keyed element that was
    /// already stored, if any, and returns it: at most one element per key
    /// remains when every insertion goes through here.
    pub fn insert_or_replace(&mut self, val: T) -> (r: Option<T>)
        requires
            old(self).wf(),
        ensures
            final(self).wf(),
            ({
                let k = val.key_spec();
                let ks = keys_of(old(self)@);
                let p = num_le(ks, k);
                &&& (r is Some) == (exists|j: int| 0 <= j < ks.len() && ks[j] == k)
                &&& (r matches Some(v) ==> 0 < p <= ks.len() && ks[p - 1] == k && v == old(
                    self,
                )@[p - 1] && final(self)@ == old(self)@.update(p - 1, val))
                &&& (r is None ==> final(self)@ == old(self)@.insert(p, val))
            }),
    {
        let ghost s0 = *self;
        let ghost k = val.key_spec();
        let ghost ks = keys_of(s0@);
        let ghost p = num_le(ks, k);
        let idx: usize = self.insert_ret_node(val);
        let ghost m = *self;
        proof {
            lemma_num_le_split(ks, k);
            m.lemma_chain_zero();
            assert(m.links_ok(0, m.ord()));
            assert(m.ord()[p] == idx);
            assert(m.nd(idx).prev@[0] == (if p == 0 {
                Link::Head
            } else {
                Link::At(m.ord()[p - 1])
            }));
        }
        let pl: Link = self.nodes[idx].prev[0];
        match pl {
            Link::Head => {
                proof {
                    assert forall|j: int| 0 <= j < ks.len() implies ks[j] != k by {
                        assert(ks[j] > k);
                    }
                }
                None
            },
            Link::At(x) => {
                proof {
                    assert(x == m.ord()[p - 1]);
                    assert(m.node_ok(x));
                    assert(m@[p - 1] == s0@[p - 1]);
                    assert(ks[p - 1] == m.key_at(x));
                }
                let xv: &T = match &self.nodes[x].value {
                    Some(v) => v,
                    None => unreached(),
                };
                let nv: &T = match &self.nodes[idx].value {
                    Some(v) => v,
                    None => unreached(),
                };
                proof {
                    assert(m@[p] == m.val_at(idx));
                    assert((*nv).key_spec() == k);
                }
                if nv.key_le(xv) {
                    proof {
                        assert(ks[p - 1] == k);
                        m.lemma_pos_of(p - 1);
                    }
                    let v: T = self.unlink_extract(x);
                    proof {
                        assert(self@ == m@.remove(p - 1));
                        assert(self@ =~= s0@.update(p - 1, val));
                    }
                    Some(v)
                } else {
                    proof {
                        assert(ks[p - 1] < k);
                        assert forall|j: int| 0 <= j < ks.len() implies ks[j] != k by {
                            if j < p {
                                assert(ks[j] <= ks[p - 1]);
                            } else {
                                assert(ks[j] > k);
                            }
                        }
                    }
                    None
                }
            },
            Link::Tail => unreached(),
        }
    }

    /// Two states whose level-`l` links agree on the indices of `c` thread
    /// `c` in the one exactly when they do in the other.
    proof fn lemma_links_same(s1: Self, s2: Self, l: int, c: Seq<usize>)
        requires
            s1.links_ok(l, c),
            0 <= l < s1.head_next@.len(),
            l < s1.tail_prev@.len(),
            l < s2.head_next@.len(),
            l < s2.tail_prev@.len(),
            s2.head_next@[l] == s1.head_next@[l],
            s2.tail_prev@[l] == s1.tail_prev@[l],
            forall|j: int|
                0 <= j < c.len() ==> s2.nd(#[trigger] c[j]).next@[l] == s1.nd(c[j]).next@[l]
                    && s2.nd(c[j]).prev@[l] == s1.nd(c[j]).prev@[l],
        ensures
            s2.links_ok(l, c),
    {
    }

    /// The arena slot holding the element at position `j` of `@`.
    pub closed spec fn slot_at(self, j: int) -> usize {
        self.ord()[j]
    }

    /// The node stored in slot `idx`, as `node` returns it.
    pub closed spec fn node_spec(self, idx: usize) -> Node<T> {
        self.nd(idx)
    }

    /// The ordering invariant: the stored sequence is sorted by key.
    pub proof fn lemma_view_sorted(self)
        requires
            self.wf(),
        ensures
            sorted(keys_of(self@)),
    {
    }

    /// Each element's slot, position and value correspond.
    pub proof fn lemma_slot_at(self, j: int)
        requires
            self.wf(),
            0 <= j < self@.len(),
        ensures
            self.has_node(self.slot_at(j)),
            self.pos_of(self.slot_at(j)) == j,
            self.node_spec(self.slot_at(j)).spec_value() == Some(self@[j]),
    {
        self.lemma_pos_of(j);
        assert(self.node_ok(self.ord()[j]));
        assert(self@[j] == self.val_at(self.ord()[j]));
    }

    /// The level-0 links walk `@` in order: the successor link of the
    /// element at position `j` names the element at position `j + 1` (the
    /// tail sentinel at the end), and the predecessor link mirrors it
    /// downward to the head sentinel.
    pub proof fn lemma_adjacent(self, j: int)
        requires
            self.wf(),
            0 <= j < self@.len(),
        ensures
            self.node_spec(self.slot_at(j)).spec_next()[0] == (if j == self@.len() - 1 {
                Link::Tail
            } else {
                Link::At(self.slot_at(j + 1))
            }),
            self.node_spec(self.slot_at(j)).spec_prev()[0] == (if j == 0 {
                Link::Head
            } else {
                Link::At(self.slot_at(j - 1))
            }),
    {
        self.lemma_chain_zero();
        assert(self.links_ok(0, self.ord()));
        assert(self.chain(0)[j] == self.ord()[j]);
    }

    /// The slot of the first (least-keyed) element, where an ascending
    /// walk along successor links starts.
    pub fn front(&self) -> (r: Option<usize>)
        requires
            self.wf(),
        ensures
            (r is Some) == (self@.len() > 0),
            (r matches Some(i) ==> self.has_node(i) && self.pos_of(i) == 0),
    {
        proof {
            self.lemma_chain_zero();
            assert(self.links_ok(0, self.ord()));
        }
        match self.head_next[0] {
            Link::At(i) => {
                proof {
                    assert(i == self.ord()[0]);
                    self.lemma_pos_of(0);
                }
                Some(i)
            },
            Link::Tail => None,
            Link::Head => unreached(),
        }
    }

    /// Read access to the node in arena slot `idx`.
    pub fn node(&self, idx: usize) -> (r: &Node<T>)
        requires
            self.wf(),
            self.has_node(idx),
        ensures
            *r == self.node_spec(idx),
            r.spec_value() is Some,
            r.spec_value()->0 == self@[self.pos_of(idx)],
            r.spec_prev().len() >= 1,
            r.spec_next().len() >= 1,
    {
        proof {
            let j = self.pos_of(idx);
            assert(self.ord()[j] == idx);
            assert(self.node_ok(idx));
            assert(self@[j] == self.val_at(idx));
        }
        &self.nodes[idx]
    }
}

} // verus!
