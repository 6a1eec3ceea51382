//! Maps and sets with paths as keys.
//!
//! The keys are kept in the order of paths, so that walking a map is walking a
//! tree in the order in which snapshots store it.

use crate::model::entry::{Entry, EntryModel};
use crate::model::path::RelativePath;
use crate::order;
use crate::order::Rank;
use vstd::prelude::*;

verus! {

/// The paths in a list.
pub open spec fn path_views(v: Seq<RelativePath>) -> Seq<Seq<Seq<u8>>> {
    v.map_values(|p: RelativePath| p@)
}

/// Whether paths stand in their order, each one once.
pub open spec fn is_sorted(keys: Seq<Seq<Seq<u8>>>) -> bool {
    forall|i: int, j: int|
        0 <= i < j < keys.len() ==> order::path_lt(#[trigger] keys[i], #[trigger] keys[j])
}

/// The map from each key to the value at the same position.
pub open spec fn map_of<V>(keys: Seq<Seq<Seq<u8>>>, values: Seq<V>) -> Map<Seq<Seq<u8>>, V> {
    Map::new(
        |k: Seq<Seq<u8>>| keys.contains(k),
        |k: Seq<Seq<u8>>| values[keys.index_of(k)],
    )
}

/// A map from paths to values.
#[derive(Debug)]
pub struct PathMap<T> {
    keys: Vec<RelativePath>,
    values: Vec<T>,
}

/// A set of paths.
pub type PathSet = PathMap<()>;

/// A map from paths to entries.
pub type EntryMap = PathMap<Entry>;

/// The values in a list.
pub open spec fn value_views<T: View>(v: Seq<T>) -> Seq<T::V> {
    v.map_values(|t: T| t@)
}

impl<T: View> View for PathMap<T> {
    type V = Map<Seq<Seq<u8>>, T::V>;

    closed spec fn view(&self) -> Map<Seq<Seq<u8>>, T::V> {
        map_of(path_views(self.keys@), value_views(self.values@))
    }
}

proof fn lemma_sorted_distinct(keys: Seq<Seq<Seq<u8>>>, i: int, j: int)
    requires
        is_sorted(keys),
        0 <= i < keys.len(),
        0 <= j < keys.len(),
        keys[i] == keys[j],
    ensures
        i == j,
{
    order::lemma_path_lt_irreflexive(keys[i]);
}

pub proof fn lemma_index_of(keys: Seq<Seq<Seq<u8>>>, i: int)
    requires
        is_sorted(keys),
        0 <= i < keys.len(),
    ensures
        keys.contains(keys[i]),
        keys.index_of(keys[i]) == i,
{
    let k = keys.index_of(keys[i]);
    assert(keys[i] == keys[i]);
    assert(0 <= k < keys.len() && keys[k] == keys[i]);
    lemma_sorted_distinct(keys, i, k);
}

impl<T: View> PathMap<T> {
    /// The keys in order.
    pub closed spec fn key_list(&self) -> Seq<Seq<Seq<u8>>> {
        path_views(self.keys@)
    }

    /// The values in the order of their keys.
    pub closed spec fn value_list(&self) -> Seq<T::V> {
        value_views(self.values@)
    }

    /// The keys are sorted and each has a value.
    pub open spec fn wf(&self) -> bool {
        &&& is_sorted(self.key_list())
        &&& self.key_list().len() == self.value_list().len()
        &&& self@ == map_of(self.key_list(), self.value_list())
    }

    /// An empty map.
    pub fn new() -> (r: Self)
        ensures
            r.wf(),
            r@ == Map::<Seq<Seq<u8>>, T::V>::empty(),
            r.key_list().len() == 0,
    {
        let r = PathMap { keys: Vec::new(), values: Vec::new() };
        assert(r@ =~= Map::<Seq<Seq<u8>>, T::V>::empty());
        r
    }

    /// How many keys there are.
    pub fn len(&self) -> (r: usize)
        requires
            self.wf(),
        ensures
            r == self.key_list().len(),
    {
        self.keys.len()
    }

    /// The key at a position in the order of keys.
    pub fn key_at(&self, i: usize) -> (r: &RelativePath)
        requires
            self.wf(),
            i < self.key_list().len(),
        ensures
            r@ == self.key_list()[i as int],
    {
        &self.keys[i]
    }

    /// The value at a position in the order of keys.
    pub fn value_at(&self, i: usize) -> (r: &T)
        requires
            self.wf(),
            i < self.key_list().len(),
        ensures
            r@ == self.value_list()[i as int],
    {
        &self.values[i]
    }

    /// Where a key is, or where it would have to be.
    fn find(&self, path: &RelativePath) -> (r: (usize, bool))
        requires
            self.wf(),
        ensures
            r.0 <= self.key_list().len(),
            r.1 ==> r.0 < self.key_list().len() && self.key_list()[r.0 as int] == path@,
            forall|i: int| 0 <= i < r.0 ==> order::path_lt(#[trigger] self.key_list()[i], path@),
            forall|i: int|
                r.0 <= i < self.key_list().len() && !(r.1 && i == r.0) ==> order::path_lt(
                    path@,
                    #[trigger] self.key_list()[i],
                ),
    {
        let ghost keys = self.key_list();
        let mut lo: usize = 0;
        let mut hi: usize = self.keys.len();
        while lo < hi
            invariant
                keys == self.key_list(),
                is_sorted(keys),
                lo <= hi <= keys.len() == self.keys@.len(),
                forall|i: int| 0 <= i < lo ==> order::path_lt(#[trigger] keys[i], path@),
                forall|i: int| hi <= i < keys.len() ==> order::path_lt(path@, #[trigger] keys[i]),
            decreases hi - lo,
        {
            let mid: usize = lo + (hi - lo) / 2;
            let ghost at = keys[mid as int];
            match self.keys[mid].rank(path) {
                Rank::Less => {
                    assert forall|i: int| 0 <= i < mid + 1 implies order::path_lt(
                        #[trigger] keys[i],
                        path@,
                    ) by {
                        if i < mid {
                            order::lemma_path_lt_transitive(keys[i], at, path@);
                        }
                    }
                    lo = mid + 1;
                },
                Rank::Greater => {
                    assert forall|i: int| mid <= i < keys.len() implies order::path_lt(
                        path@,
                        #[trigger] keys[i],
                    ) by {
                        if i > mid {
                            order::lemma_path_lt_transitive(path@, at, keys[i]);
                        }
                    }
                    hi = mid;
                },
                Rank::Equal => {
                    return (mid, true);
                },
            }
        }
        (lo, false)
    }

    /// The value of a key.
    pub fn get(&self, path: &RelativePath) -> (r: Option<&T>)
        requires
            self.wf(),
        ensures
            match r {
                Some(v) => self@.dom().contains(path@) && v@ == self@[path@],
                None => !self@.dom().contains(path@),
            },
    {
        let (at, found) = self.find(path);
        let ghost keys = self.key_list();
        if found {
            proof {
                lemma_index_of(keys, at as int);
            }
            Some(&self.values[at])
        } else {
            proof {
                lemma_absent(keys, path@, at as int);
            }
            None
        }
    }

    /// Whether there is a value for a key.
    pub fn contains(&self, path: &RelativePath) -> (r: bool)
        requires
            self.wf(),
        ensures
            r == self@.dom().contains(path@),
    {
        self.get(path).is_some()
    }

    /// Sets the value of a key.
    pub fn insert(&mut self, path: RelativePath, value: T)
        requires
            old(self).wf(),
        ensures
            final(self).wf(),
            final(self)@ == old(self)@.insert(path@, value@),
    {
        let ghost keys = self.key_list();
        let ghost values = self.value_list();
        let ghost k = path@;
        let ghost v = value@;
        let (at, found) = self.find(&path);
        let ghost pos = at as int;
        if found {
            self.values[at] = value;
            proof {
                assert(self.key_list() =~= keys);
                assert(self.value_list() =~= values.update(pos, v));
                lemma_index_of(keys, pos);
                assert forall|q: Seq<Seq<u8>>| keys.contains(q) && q != k implies keys.index_of(q)
                    != pos by {
                    assert(keys[keys.index_of(q)] == q);
                }
                assert(self@ =~= old(self)@.insert(k, v));
            }
        } else {
            self.keys.insert(at, path);
            self.values.insert(at, value);
            proof {
                assert(self.key_list() =~= keys.insert(pos, k));
                assert(self.value_list() =~= values.insert(pos, v));
                lemma_absent(keys, k, pos);
                lemma_insert(keys, values, pos, k, v);
                assert(self@ =~= old(self)@.insert(k, v));
            }
        }
    }

    /// Removes a key and its value.
    pub fn remove(&mut self, path: &RelativePath)
        requires
            old(self).wf(),
        ensures
            final(self).wf(),
            final(self)@ == old(self)@.remove(path@),
    {
        let ghost keys = self.key_list();
        let ghost values = self.value_list();
        let (at, found) = self.find(path);
        let ghost pos = at as int;
        if found {
            let _ = self.keys.remove(at);
            let _ = self.values.remove(at);
            proof {
                assert(self.key_list() =~= keys.remove(pos));
                assert(self.value_list() =~= values.remove(pos));
                lemma_remove(keys, values, pos);
                assert(self@ =~= old(self)@.remove(path@));
            }
        } else {
            proof {
                lemma_absent(keys, path@, pos);
                assert(self@ =~= old(self)@.remove(path@));
            }
        }
    }
}

proof fn lemma_absent(keys: Seq<Seq<Seq<u8>>>, k: Seq<Seq<u8>>, pos: int)
    requires
        0 <= pos <= keys.len(),
        forall|i: int| 0 <= i < pos ==> order::path_lt(#[trigger] keys[i], k),
        forall|i: int| pos <= i < keys.len() ==> order::path_lt(k, #[trigger] keys[i]),
    ensures
        !keys.contains(k),
{
    order::lemma_path_lt_irreflexive(k);
    if keys.contains(k) {
        let i = choose|i: int| 0 <= i < keys.len() && keys[i] == k;
        if i < pos {
            assert(order::path_lt(keys[i], k));
        } else {
            assert(order::path_lt(k, keys[i]));
        }
    }
}

proof fn lemma_insert<V>(
    keys: Seq<Seq<Seq<u8>>>,
    values: Seq<V>,
    pos: int,
    k: Seq<Seq<u8>>,
    v: V,
)
    requires
        is_sorted(keys),
        keys.len() == values.len(),
        0 <= pos <= keys.len(),
        !keys.contains(k),
        forall|i: int| 0 <= i < pos ==> order::path_lt(#[trigger] keys[i], k),
        forall|i: int| pos <= i < keys.len() ==> order::path_lt(k, #[trigger] keys[i]),
    ensures
        is_sorted(keys.insert(pos, k)),
        map_of(keys.insert(pos, k), values.insert(pos, v)) == map_of(keys, values).insert(k, v),
{
    let keys2 = keys.insert(pos, k);
    let values2 = values.insert(pos, v);
    assert forall|i: int, j: int| 0 <= i < j < keys2.len() implies order::path_lt(
        #[trigger] keys2[i],
        #[trigger] keys2[j],
    ) by {
        let a = if i < pos {
            i
        } else {
            i - 1
        };
        let b = if j < pos {
            j
        } else {
            j - 1
        };
        if i == pos {
            assert(keys2[j] == keys[b]);
        } else if j == pos {
            assert(keys2[i] == keys[a]);
        } else {
            assert(keys2[i] == keys[a] && keys2[j] == keys[b]);
        }
    }
    let m = map_of(keys, values);
    let m2 = map_of(keys2, values2);
    assert forall|q: Seq<Seq<u8>>| m2.dom().contains(q) <==> #[trigger] m.insert(k, v).dom().contains(
        q,
    ) by {
        if keys2.contains(q) {
            let i = choose|i: int| 0 <= i < keys2.len() && keys2[i] == q;
            if i < pos {
                assert(keys[i] == q);
            } else if i > pos {
                assert(keys[i - 1] == q);
            }
        }
        if keys.contains(q) {
            let i = choose|i: int| 0 <= i < keys.len() && keys[i] == q;
            if i < pos {
                assert(keys2[i] == q);
            } else {
                assert(keys2[i + 1] == q);
            }
        }
        if q == k {
            assert(keys2[pos] == q);
        }
    }
    assert forall|q: Seq<Seq<u8>>| #[trigger] m2.dom().contains(q) implies m2[q] == m.insert(
        k,
        v,
    )[q] by {
        let i = keys2.index_of(q);
        assert(keys2[i] == q && 0 <= i < keys2.len());
        if q == k {
            lemma_sorted_distinct(keys2, i, pos);
        } else {
            let a = if i < pos {
                i
            } else {
                i - 1
            };
            assert(keys[a] == q);
            lemma_index_of(keys, a);
            assert(values2[i] == values[a]);
        }
    }
    assert(m2 =~= m.insert(k, v));
}

proof fn lemma_remove<V>(keys: Seq<Seq<Seq<u8>>>, values: Seq<V>, pos: int)
    requires
        is_sorted(keys),
        keys.len() == values.len(),
        0 <= pos < keys.len(),
    ensures
        is_sorted(keys.remove(pos)),
        map_of(keys.remove(pos), values.remove(pos)) == map_of(keys, values).remove(keys[pos]),
{
    let keys2 = keys.remove(pos);
    let values2 = values.remove(pos);
    assert forall|i: int, j: int| 0 <= i < j < keys2.len() implies order::path_lt(
        #[trigger] keys2[i],
        #[trigger] keys2[j],
    ) by {
        let a = if i < pos {
            i
        } else {
            i + 1
        };
        let b = if j < pos {
            j
        } else {
            j + 1
        };
        assert(keys2[i] == keys[a] && keys2[j] == keys[b]);
    }
    let m = map_of(keys, values);
    let m2 = map_of(keys2, values2);
    let k = keys[pos];
    assert forall|q: Seq<Seq<u8>>| m2.dom().contains(q) <==> #[trigger] m.remove(k).dom().contains(
        q,
    ) by {
        if keys2.contains(q) {
            let i = choose|i: int| 0 <= i < keys2.len() && keys2[i] == q;
            let a = if i < pos {
                i
            } else {
                i + 1
            };
            assert(keys[a] == q);
            if q == k {
                lemma_sorted_distinct(keys, a, pos);
            }
        }
        if keys.contains(q) && q != k {
            let i = choose|i: int| 0 <= i < keys.len() && keys[i] == q;
            if i < pos {
                assert(keys2[i] == q);
            } else {
                assert(keys2[i - 1] == q);
            }
        }
    }
    assert forall|q: Seq<Seq<u8>>| #[trigger] m2.dom().contains(q) implies m2[q] == m.remove(k)[q] by {
        let i = keys2.index_of(q);
        assert(keys2[i] == q && 0 <= i < keys2.len());
        let a = if i < pos {
            i
        } else {
            i + 1
        };
        assert(keys[a] == q);
        lemma_index_of(keys, a);
        assert(values2[i] == values[a]);
        assert(m.remove(k).dom().contains(q));
    }
    assert(m2 =~= m.remove(k));
}

/// The map of entries by their paths, of two entries with the same path the
/// later one.
pub open spec fn entries_by_path(entries: Seq<EntryModel>) -> Map<Seq<Seq<u8>>, EntryModel>
    decreases entries.len(),
{
    if entries.len() == 0 {
        Map::empty()
    } else {
        entries_by_path(entries.drop_last()).insert(entries.last().path, entries.last())
    }
}

} // verus!
