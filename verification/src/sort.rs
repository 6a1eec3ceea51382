//! Stable sorting.

use crate::order;
use vstd::prelude::*;

verus! {

/// A key to sort by: a total preorder.
pub trait SortKey: Sized {
    /// Whether this key does not come behind the other.
    spec fn at_most(&self, other: &Self) -> bool;

    proof fn lemma_total(a: &Self, b: &Self)
        ensures
            a.at_most(b) || b.at_most(a),
    ;

    proof fn lemma_transitive(a: &Self, b: &Self, c: &Self)
        requires
            a.at_most(b),
            b.at_most(c),
        ensures
            a.at_most(c),
    ;

    /// Whether this key does not come behind the other.
    fn is_at_most(&self, other: &Self) -> (r: bool)
        ensures
            r == self.at_most(other),
    ;
}

/// Whether position `i` comes in front of position `j` in a stable order: by
/// key, and by position where the keys tie.
pub open spec fn comes_before<K: SortKey>(keys: Seq<K>, i: int, j: int) -> bool {
    if keys[i].at_most(&keys[j]) && keys[j].at_most(&keys[i]) {
        i < j
    } else {
        keys[i].at_most(&keys[j])
    }
}

/// Whether `r` holds each position from `lo` up to `hi` once, in stable order.
pub open spec fn is_order_of<K: SortKey>(keys: Seq<K>, lo: int, hi: int, r: Seq<usize>) -> bool {
    &&& r.len() == hi - lo
    &&& forall|k: int| 0 <= k < r.len() ==> lo <= #[trigger] r[k] < hi
    &&& forall|x: usize| lo <= x < hi ==> #[trigger] r.contains(x)
    &&& forall|a: int, b: int|
        0 <= a < b < r.len() ==> comes_before(keys, #[trigger] r[a] as int, #[trigger] r[b] as int)
}

/// Whether `r` holds each position of `keys` once, in stable order.
pub open spec fn is_stable_order<K: SortKey>(keys: Seq<K>, r: Seq<usize>) -> bool {
    is_order_of(keys, 0, keys.len() as int, r)
}

proof fn lemma_comes_before_transitive<K: SortKey>(keys: Seq<K>, i: int, j: int, k: int)
    requires
        comes_before(keys, i, j),
        comes_before(keys, j, k),
    ensures
        comes_before(keys, i, k),
{
    let a = &keys[i];
    let b = &keys[j];
    let c = &keys[k];
    K::lemma_transitive(a, b, c);
    if c.at_most(a) {
        K::lemma_transitive(c, a, b);
        K::lemma_transitive(b, c, a);
    }
}

fn merge<K: SortKey>(
    keys: &Vec<K>,
    left: &Vec<usize>,
    right: &Vec<usize>,
    Ghost(lo): Ghost<int>,
    Ghost(mid): Ghost<int>,
    Ghost(hi): Ghost<int>,
) -> (r: Vec<usize>)
    requires
        0 <= lo <= mid <= hi <= keys@.len(),
        is_order_of(keys@, lo, mid, left@),
        is_order_of(keys@, mid, hi, right@),
    ensures
        is_order_of(keys@, lo, hi, r@),
{
    let mut r: Vec<usize> = Vec::new();
    let mut i: usize = 0;
    let mut j: usize = 0;
    while i < left.len() || j < right.len()
        invariant
            0 <= lo <= mid <= hi <= keys@.len(),
            is_order_of(keys@, lo, mid, left@),
            is_order_of(keys@, mid, hi, right@),
            i <= left@.len(),
            j <= right@.len(),
            r@.len() == i + j,
            forall|k: int| 0 <= k < r@.len() ==> lo <= #[trigger] r@[k] < hi,
            forall|k: int| 0 <= k < i ==> r@.contains(#[trigger] left@[k]),
            forall|k: int| 0 <= k < j ==> r@.contains(#[trigger] right@[k]),
            forall|a: int, b: int|
                0 <= a < b < r@.len() ==> comes_before(
                    keys@,
                    #[trigger] r@[a] as int,
                    #[trigger] r@[b] as int,
                ),
            forall|a: int, b: int|
                0 <= a < r@.len() && i <= b < left@.len() ==> comes_before(
                    keys@,
                    #[trigger] r@[a] as int,
                    #[trigger] left@[b] as int,
                ),
            forall|a: int, b: int|
                0 <= a < r@.len() && j <= b < right@.len() ==> comes_before(
                    keys@,
                    #[trigger] r@[a] as int,
                    #[trigger] right@[b] as int,
                ),
        decreases left@.len() - i + right@.len() - j,
    {
        let take_left: bool = if i < left.len() && j < right.len() {
            assert(lo <= left@[i as int] < mid <= right@[j as int] < hi);
            keys[left[i]].is_at_most(&keys[right[j]])
        } else {
            i < left.len()
        };
        let ghost before = r@;
        if take_left {
            let x: usize = left[i];
            proof {
                if j < right@.len() {
                    let y = right@[j as int];
                    assert(comes_before(keys@, x as int, y as int));
                    assert forall|b: int| j <= b < right@.len() implies comes_before(
                        keys@,
                        x as int,
                        #[trigger] right@[b] as int,
                    ) by {
                        if b > j {
                            lemma_comes_before_transitive(
                                keys@,
                                x as int,
                                y as int,
                                right@[b] as int,
                            );
                        }
                    }
                }
            }
            r.push(x);
            i = i + 1;
            assert(r@[r@.len() - 1] == x);
        } else {
            let y: usize = right[j];
            proof {
                if i < left@.len() {
                    let x = left@[i as int];
                    K::lemma_total(&keys@[x as int], &keys@[y as int]);
                    assert(comes_before(keys@, y as int, x as int));
                    assert forall|b: int| i <= b < left@.len() implies comes_before(
                        keys@,
                        y as int,
                        #[trigger] left@[b] as int,
                    ) by {
                        if b > i {
                            lemma_comes_before_transitive(
                                keys@,
                                y as int,
                                x as int,
                                left@[b] as int,
                            );
                        }
                    }
                }
            }
            r.push(y);
            j = j + 1;
            assert(r@[r@.len() - 1] == y);
        }
        proof {
            assert forall|v: usize| before.contains(v) implies r@.contains(v) by {
                let k = choose|k: int| 0 <= k < before.len() && before[k] == v;
                assert(r@[k] == v);
            }
        }
    }
    proof {
        assert forall|x: usize| lo <= x < hi implies #[trigger] r@.contains(x) by {
            if x < mid {
                assert(left@.contains(x));
                let k = choose|k: int| 0 <= k < left@.len() && left@[k] == x;
                assert(r@.contains(left@[k]));
            } else {
                assert(right@.contains(x));
                let k = choose|k: int| 0 <= k < right@.len() && right@[k] == x;
                assert(r@.contains(right@[k]));
            }
        }
    }
    r
}

fn order_range<K: SortKey>(keys: &Vec<K>, lo: usize, hi: usize) -> (r: Vec<usize>)
    requires
        lo <= hi <= keys@.len(),
    ensures
        is_order_of(keys@, lo as int, hi as int, r@),
    decreases hi - lo,
{
    if hi - lo == 0 {
        return Vec::new();
    }
    if hi - lo == 1 {
        let mut r: Vec<usize> = Vec::new();
        r.push(lo);
        assert(r@[0] == lo);
        return r;
    }
    let mid: usize = lo + (hi - lo) / 2;
    let left = order_range(keys, lo, mid);
    let right = order_range(keys, mid, hi);
    merge(keys, &left, &right, Ghost(lo as int), Ghost(mid as int), Ghost(hi as int))
}

/// The positions of `keys` in stable order.
pub fn stable_order<K: SortKey>(keys: &Vec<K>) -> (r: Vec<usize>)
    ensures
        is_stable_order(keys@, r@),
{
    order_range(keys, 0, keys.len())
}

/// A depth in a tree, deepest first.
#[derive(Clone, Copy, Debug, PartialEq, Eq, Structural)]
pub struct DeepestFirst(pub usize);

impl SortKey for DeepestFirst {
    open spec fn at_most(&self, other: &Self) -> bool {
        self.0 >= other.0
    }

    proof fn lemma_total(a: &Self, b: &Self) {
    }

    proof fn lemma_transitive(a: &Self, b: &Self, c: &Self) {
    }

    fn is_at_most(&self, other: &Self) -> (r: bool) {
        self.0 >= other.0
    }
}

/// A depth in a tree, shallowest first.
#[derive(Clone, Copy, Debug, PartialEq, Eq, Structural)]
pub struct ShallowestFirst(pub usize);

impl SortKey for ShallowestFirst {
    open spec fn at_most(&self, other: &Self) -> bool {
        self.0 <= other.0
    }

    proof fn lemma_total(a: &Self, b: &Self) {
    }

    proof fn lemma_transitive(a: &Self, b: &Self, c: &Self) {
    }

    fn is_at_most(&self, other: &Self) -> (r: bool) {
        self.0 <= other.0
    }
}

} // verus!
