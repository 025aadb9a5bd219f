//! The order the container works with: elements compare through an integer
//! key, and sequences of keys are described by their sorted split points.

use vstd::prelude::*;

verus! {

/// A total order given by an integer key. The skip list compares elements
/// solely through this key, so two elements whose keys agree are the same
/// element as far as the container is concerned.
pub trait KeyOrd: Sized {
    /// The mathematical key this element orders by.
    spec fn key_spec(&self) -> int;

    /// Decides whether `self`'s key is at most `other`'s.
    fn key_le(&self, other: &Self) -> (r: bool)
        ensures
            r == (self.key_spec() <= other.key_spec()),
    ;
}

impl KeyOrd for i64 {
    open spec fn key_spec(&self) -> int {
        *self as int
    }

    fn key_le(&self, other: &Self) -> (r: bool) {
        *self <= *other
    }
}

impl KeyOrd for u64 {
    open spec fn key_spec(&self) -> int {
        *self as int
    }

    fn key_le(&self, other: &Self) -> (r: bool) {
        *self <= *other
    }
}

impl KeyOrd for usize {
    open spec fn key_spec(&self) -> int {
        *self as int
    }

    fn key_le(&self, other: &Self) -> (r: bool) {
        *self <= *other
    }
}

impl KeyOrd for isize {
    open spec fn key_spec(&self) -> int {
        *self as int
    }

    fn key_le(&self, other: &Self) -> (r: bool) {
        *self <= *other
    }
}

impl KeyOrd for i32 {
    open spec fn key_spec(&self) -> int {
        *self as int
    }

    fn key_le(&self, other: &Self) -> (r: bool) {
        *self <= *other
    }
}

impl KeyOrd for u32 {
    open spec fn key_spec(&self) -> int {
        *self as int
    }

    fn key_le(&self, other: &Self) -> (r: bool) {
        *self <= *other
    }
}

impl KeyOrd for i16 {
    open spec fn key_spec(&self) -> int {
        *self as int
    }

    fn key_le(&self, other: &Self) -> (r: bool) {
        *self <= *other
    }
}

impl KeyOrd for u16 {
    open spec fn key_spec(&self) -> int {
        *self as int
    }

    fn key_le(&self, other: &Self) -> (r: bool) {
        *self <= *other
    }
}

impl KeyOrd for i8 {
    open spec fn key_spec(&self) -> int {
        *self as int
    }

    fn key_le(&self, other: &Self) -> (r: bool) {
        *self <= *other
    }
}

impl KeyOrd for u8 {
    open spec fn key_spec(&self) -> int {
        *self as int
    }

    fn key_le(&self, other: &Self) -> (r: bool) {
        *self <= *other
    }
}

/// The keys of a sequence of elements, in the same order.
pub open spec fn keys_of<T: KeyOrd>(s: Seq<T>) -> Seq<int> {
    s.map_values(|t: T| t.key_spec())
}

/// A sequence of keys is sorted when it is non-decreasing.
pub open spec fn sorted(ks: Seq<int>) -> bool {
    forall|j1: int, j2: int| 0 <= j1 <= j2 < ks.len() ==> ks[j1] <= ks[j2]
}

/// How many keys of `ks` are at most `k`. On a sorted sequence this is the
/// position where an element with key `k` is spliced in, just after every
/// equal key already present.
pub open spec fn num_le(ks: Seq<int>, k: int) -> int
    decreases ks.len(),
{
    if ks.len() == 0 {
        0
    } else {
        (if ks[0] <= k {
            1int
        } else {
            0int
        }) + num_le(ks.drop_first(), k)
    }
}

pub proof fn lemma_num_le_bounds(ks: Seq<int>, k: int)
    ensures
        0 <= num_le(ks, k) <= ks.len(),
    decreases ks.len(),
{
    if ks.len() > 0 {
        lemma_num_le_bounds(ks.drop_first(), k);
    }
}

/// On a sorted sequence, the keys at most `k` are exactly the first
/// `num_le(ks, k)` ones.
pub proof fn lemma_num_le_split(ks: Seq<int>, k: int)
    requires
        sorted(ks),
    ensures
        0 <= num_le(ks, k) <= ks.len(),
        forall|j: int| 0 <= j < num_le(ks, k) ==> ks[j] <= k,
        forall|j: int| num_le(ks, k) <= j < ks.len() ==> ks[j] > k,
    decreases ks.len(),
{
    lemma_num_le_bounds(ks, k);
    if ks.len() > 0 {
        let rest = ks.drop_first();
        assert forall|j1: int, j2: int| 0 <= j1 <= j2 < rest.len() implies rest[j1] <= rest[j2] by {
            assert(rest[j1] == ks[j1 + 1]);
            assert(rest[j2] == ks[j2 + 1]);
        }
        lemma_num_le_split(rest, k);
        let p = num_le(ks, k);
        if ks[0] <= k {
            assert forall|j: int| 0 <= j < p implies ks[j] <= k by {
                if j > 0 {
                    assert(ks[j] == rest[j - 1]);
                }
            }
            assert forall|j: int| p <= j < ks.len() implies ks[j] > k by {
                assert(ks[j] == rest[j - 1]);
            }
        } else {
            if num_le(rest, k) > 0 {
                assert(rest[0] <= k);
                assert(ks[0] <= ks[1]);
                assert(false);
            }
            assert forall|j: int| p <= j < ks.len() implies ks[j] > k by {
                assert(ks[0] <= ks[j]);
            }
        }
    }
}

/// The split point is unique: a position with the prefix/suffix property is
/// `num_le`.
pub proof fn lemma_num_le_unique(ks: Seq<int>, k: int, p: int)
    requires
        sorted(ks),
        0 <= p <= ks.len(),
        forall|j: int| 0 <= j < p ==> ks[j] <= k,
        forall|j: int| p <= j < ks.len() ==> ks[j] > k,
    ensures
        p == num_le(ks, k),
{
    lemma_num_le_split(ks, k);
    let q = num_le(ks, k);
    if p < q {
        assert(ks[p] <= k);
        assert(ks[p] > k);
    }
    if q < p {
        assert(ks[q] <= k);
        assert(ks[q] > k);
    }
}

/// Inserting an element whose key is absent, at its split point, and then
/// removing the element that a delete of the same key picks — the last one
/// with key at most it — restores the stored sequence exactly.
pub proof fn lemma_insert_delete_inverse<T: KeyOrd>(s: Seq<T>, val: T)
    requires
        sorted(keys_of(s)),
        forall|j: int| 0 <= j < s.len() ==> keys_of(s)[j] != val.key_spec(),
    ensures
        ({
            let k = val.key_spec();
            let p = num_le(keys_of(s), k);
            let s1 = s.insert(p, val);
            let p1 = num_le(keys_of(s1), k);
            &&& 0 < p1 <= s1.len()
            &&& keys_of(s1)[p1 - 1] == k
            &&& s1[p1 - 1] == val
            &&& s1.remove(p1 - 1) == s
        }),
{
    let k = val.key_spec();
    let ks = keys_of(s);
    let p = num_le(ks, k);
    lemma_num_le_split(ks, k);
    let s1 = s.insert(p, val);
    s.insert_ensures(p, val);
    let ks1 = keys_of(s1);
    assert forall|j: int| 0 <= j < p + 1 implies ks1[j] <= k by {
        if j < p {
            assert(s1[j] == s[j]);
            assert(ks[j] <= k);
        } else {
            assert(s1[j] == val);
        }
    }
    assert forall|j: int| p + 1 <= j < ks1.len() implies ks1[j] > k by {
        assert(s1[j] == s[j - 1]);
        assert(ks[j - 1] > k);
    }
    assert forall|j1: int, j2: int| 0 <= j1 <= j2 < ks1.len() implies ks1[j1] <= ks1[j2] by {
        if j1 <= p {
            assert(ks1[j1] <= k);
        } else {
            assert(ks1[j1] == ks[j1 - 1]);
        }
        if j2 <= p {
            if j1 < p {
                assert(ks1[j1] == ks[j1]);
                assert(ks[j1] != k);
            }
            assert(ks1[j2] >= if j2 < p {
                ks1[j2]
            } else {
                k
            });
        }
        if j1 < p && j2 < p {
            assert(ks1[j1] == ks[j1] && ks1[j2] == ks[j2]);
        } else if j1 < p && j2 == p {
            assert(ks1[j1] == ks[j1] && ks1[j2] == k);
        } else if j1 <= p && j2 > p {
            assert(ks1[j2] == ks[j2 - 1] && ks1[j2] > k);
        } else if j1 == p && j2 == p {
        } else if j1 > p {
            assert(ks1[j1] == ks[j1 - 1] && ks1[j2] == ks[j2 - 1]);
        }
    }
    lemma_num_le_unique(ks1, k, p + 1);
    assert(s1.remove(p) =~= s);
}

/// Every element of a filtered sequence occurs in the sequence it came from.
pub proof fn lemma_filter_subset<A>(s: Seq<A>, pred: spec_fn(A) -> bool)
    ensures
        forall|j: int| 0 <= j < s.filter(pred).len() ==> s.contains(#[trigger] s.filter(pred)[j]),
    decreases s.len(),
{
    reveal(Seq::filter);
    if s.len() > 0 {
        lemma_filter_subset(s.drop_last(), pred);
        assert forall|j: int| 0 <= j < s.filter(pred).len() implies s.contains(
            #[trigger] s.filter(pred)[j],
        ) by {
            let f = s.filter(pred);
            let fd = s.drop_last().filter(pred);
            if j < fd.len() {
                assert(s.drop_last().contains(fd[j]));
                let w = choose|w: int| 0 <= w < s.drop_last().len() && s.drop_last()[w] == fd[j];
                assert(s[w] == fd[j]);
            } else {
                assert(f[j] == s.last());
                assert(s[s.len() - 1] == s.last());
            }
        }
    }
}

/// A predicate that holds everywhere filters a sequence to itself.
pub proof fn lemma_filter_all<A>(s: Seq<A>, pred: spec_fn(A) -> bool)
    requires
        forall|j: int| 0 <= j < s.len() ==> pred(#[trigger] s[j]),
    ensures
        s.filter(pred) == s,
    decreases s.len(),
{
    reveal(Seq::filter);
    if s.len() > 0 {
        assert forall|j: int| 0 <= j < s.drop_last().len() implies pred(
            #[trigger] s.drop_last()[j],
        ) by {
            assert(s.drop_last()[j] == s[j]);
        }
        lemma_filter_all(s.drop_last(), pred);
        assert(pred(s[s.len() - 1]));
        assert(s.filter(pred) =~= s);
    } else {
        assert(s.filter(pred) =~= s);
    }
}

/// Filtering keeps a sequence free of duplicates.
pub proof fn lemma_filter_no_dup<A>(s: Seq<A>, pred: spec_fn(A) -> bool)
    requires
        s.no_duplicates(),
    ensures
        s.filter(pred).no_duplicates(),
    decreases s.len(),
{
    reveal(Seq::filter);
    if s.len() > 0 {
        let d = s.drop_last();
        assert forall|i: int, j: int| 0 <= i < d.len() && 0 <= j < d.len() && i != j implies d[i]
            != d[j] by {
            assert(d[i] == s[i]);
            assert(d[j] == s[j]);
        }
        lemma_filter_no_dup(d, pred);
        lemma_filter_subset(d, pred);
        if pred(s.last()) {
            let f = s.filter(pred);
            let fd = d.filter(pred);
            assert forall|i: int, j: int|
                0 <= i < f.len() && 0 <= j < f.len() && i != j implies f[i] != f[j] by {
                if i < fd.len() && j < fd.len() {
                    assert(f[i] == fd[i]);
                    assert(f[j] == fd[j]);
                } else {
                    let a = if i < fd.len() {
                        i
                    } else {
                        j
                    };
                    assert(f[a] == fd[a]);
                    assert(d.contains(fd[a]));
                    let w = choose|w: int| 0 <= w < d.len() && d[w] == fd[a];
                    assert(s[w] == fd[a]);
                    assert(s[w] != s.last());
                }
            }
        }
    }
}

/// Filtering a sequence whose images under `f` are non-decreasing keeps them
/// non-decreasing.
pub proof fn lemma_filter_keeps_sorted<A>(s: Seq<A>, pred: spec_fn(A) -> bool, f: spec_fn(A) -> int)
    requires
        forall|j1: int, j2: int| 0 <= j1 <= j2 < s.len() ==> f(s[j1]) <= f(s[j2]),
    ensures
        forall|j1: int, j2: int|
            0 <= j1 <= j2 < s.filter(pred).len() ==> f(s.filter(pred)[j1]) <= f(
                s.filter(pred)[j2],
            ),
    decreases s.len(),
{
    reveal(Seq::filter);
    if s.len() > 0 {
        let d = s.drop_last();
        assert forall|j1: int, j2: int| 0 <= j1 <= j2 < d.len() implies f(d[j1]) <= f(d[j2]) by {
            assert(d[j1] == s[j1]);
            assert(d[j2] == s[j2]);
        }
        lemma_filter_keeps_sorted(d, pred, f);
        lemma_filter_subset(d, pred);
        let fd = d.filter(pred);
        let fs = s.filter(pred);
        if pred(s.last()) {
            assert forall|j1: int, j2: int| 0 <= j1 <= j2 < fs.len() implies f(fs[j1]) <= f(
                fs[j2],
            ) by {
                if j2 < fd.len() {
                    assert(fs[j1] == fd[j1]);
                    assert(fs[j2] == fd[j2]);
                } else if j1 < fd.len() {
                    assert(fs[j1] == fd[j1]);
                    assert(d.contains(fd[j1]));
                    let w = choose|w: int| 0 <= w < d.len() && d[w] == fd[j1];
                    assert(s[w] == fd[j1]);
                    assert(f(s[w]) <= f(s[s.len() - 1]));
                }
            }
        }
    }
}

} // verus!
