//! How paths are read, written and ordered.

use crate::model::path;
use crate::order;
use vstd::prelude::*;

verus! {

/// Whether two sequences are the same in front of position `k`, and differ there.
pub open spec fn differ_first_at<T>(a: Seq<T>, b: Seq<T>, k: int) -> bool {
    &&& 0 <= k < a.len()
    &&& k < b.len()
    &&& forall|i: int| 0 <= i < k ==> a[i] == b[i]
    &&& a[k] != b[k]
}

/// Whether one sequence is longer than another and starts with it.
pub open spec fn goes_on<T>(a: Seq<T>, b: Seq<T>) -> bool {
    &&& a.len() < b.len()
    &&& forall|i: int| 0 <= i < a.len() ==> a[i] == b[i]
}

/// The first byte in which they differ decides the order of byte strings; where
/// there is none, the shorter one comes first.
pub proof fn law_the_first_other_byte_decides(a: Seq<u8>, b: Seq<u8>, k: int)
    ensures
        differ_first_at(a, b, k) ==> (order::bytes_lt(a, b) <==> a[k] < b[k]),
        goes_on(a, b) ==> order::bytes_lt(a, b),
        goes_on(b, a) ==> !order::bytes_lt(a, b),
        !order::bytes_lt(a, a),
{
    order::lemma_bytes_lt_irreflexive(a);
    if differ_first_at(a, b, k) {
        assert(a.take(k) =~= b.take(k));
        order::lemma_bytes_lt_skip(a, b, k);
    }
    if goes_on(a, b) {
        let n = a.len() as int;
        assert(a.take(n) =~= b.take(n));
        order::lemma_bytes_lt_skip(a, b, n);
    }
    if goes_on(b, a) {
        let n = b.len() as int;
        assert(a.take(n) =~= b.take(n));
        order::lemma_bytes_lt_skip(a, b, n);
    }
}

/// The first component in which they differ decides the order of paths; where
/// there is none, the shorter one comes first, so that a directory comes in front
/// of what lies in it.
pub proof fn law_the_first_other_component_decides(a: Seq<Seq<u8>>, b: Seq<Seq<u8>>, k: int)
    ensures
        differ_first_at(a, b, k) ==> (order::path_lt(a, b) <==> order::bytes_lt(a[k], b[k])),
        goes_on(a, b) ==> order::path_lt(a, b),
        goes_on(b, a) ==> !order::path_lt(a, b),
        !order::path_lt(a, a),
        path::is_under(a, b) ==> order::path_lt(a, b),
{
    order::lemma_path_lt_irreflexive(a);
    if differ_first_at(a, b, k) {
        assert(a.take(k) =~= b.take(k));
        order::lemma_path_lt_skip(a, b, k);
    }
    law_what_lies_in_a_directory_goes_on(a, b);
    if goes_on(a, b) {
        let n = a.len() as int;
        assert(a.take(n) =~= b.take(n));
        order::lemma_path_lt_skip(a, b, n);
    }
    if goes_on(b, a) {
        let n = b.len() as int;
        assert(a.take(n) =~= b.take(n));
        order::lemma_path_lt_skip(a, b, n);
    }
}

/// What lies underneath a directory are the paths that start with its own and go
/// on.
pub proof fn law_what_lies_in_a_directory_goes_on(dir: Seq<Seq<u8>>, child: Seq<Seq<u8>>)
    ensures
        path::is_under(dir, child) <==> goes_on(dir, child),
{
    if path::is_under(dir, child) {
        assert forall|i: int| 0 <= i < dir.len() implies dir[i] == child[i] by {
            assert(child.take(dir.len() as int)[i] == child[i]);
        }
    }
    if goes_on(dir, child) {
        assert(child.take(dir.len() as int) =~= dir);
    }
}

/// Whether bytes can stand between two slashes.
pub open spec fn is_part(c: Seq<u8>) -> bool {
    c.len() > 0 && forall|i: int| 0 <= i < c.len() ==> #[trigger] c[i] != 0x2f
}

/// A name is a part that is neither `.` nor `..`.
pub proof fn law_a_name_is_a_part_of_its_own(c: Seq<u8>)
    ensures
        path::is_name(c) <==> is_part(c) && c != seq![0x2eu8] && c != seq![0x2eu8, 0x2eu8],
{
    if path::is_name(c) {
        assert forall|i: int| 0 <= i < c.len() implies #[trigger] c[i] != 0x2f by {
            if c[i] == 0x2f {
                assert(c.contains(path::SLASH));
            }
        }
    }
}

/// How a path is split. No bytes have no component, and a part is one component.
/// A part behind a slash is one component more, but for `.`, which adds none, and
/// neither does a slash at the end. A slash in front is a component of its own.
pub proof fn law_a_path_is_split_at_its_slashes(p: Seq<u8>, c: Seq<u8>)
    requires
        is_part(c),
    ensures
        path::components_of(Seq::empty()) == Seq::<Seq<u8>>::empty(),
        path::components_of(c) == seq![c],
        p.len() > 0 ==> path::components_of(p.push(0x2f)) == path::components_of(p),
        p.len() > 0 ==> path::components_of(p.push(0x2f) + c) == if c == seq![0x2eu8] {
            path::components_of(p)
        } else {
            path::components_of(p).push(c)
        },
        path::components_of(seq![0x2fu8]) == seq![seq![0x2fu8]],
        path::components_of(seq![0x2fu8] + c) == if c == seq![0x2eu8] {
            seq![seq![0x2fu8]]
        } else {
            seq![seq![0x2fu8], c]
        },
{
    let none = Seq::<(int, int)>::empty();
    let n = c.len() as int;
    assert(path::components_of(Seq::empty()) =~= Seq::<Seq<u8>>::empty());
    path::lemma_part_end_is(c, 0, n);
    assert(c[0] != 0x2f);
    assert(path::spans_from(c, n) =~= none);
    assert(path::spans(c) =~= seq![(0int, n)]);
    assert(c.subrange(0, n) =~= c);
    assert(path::components_of(c) =~= seq![c]);
    let root = seq![0x2fu8];
    assert(path::spans_from(root, 1) =~= none);
    assert(path::spans(root) =~= seq![(0int, 1int)]);
    assert(root.subrange(0, 1) =~= root);
    assert(path::components_of(root) =~= seq![root]);
    lemma_part_at_the_end(root, c);
    let q = root + c;
    assert(q.subrange(0, 1) =~= root);
    if c == seq![0x2eu8] {
        assert(path::spans(q) =~= seq![(0int, 1int)]);
        assert(path::components_of(q) =~= seq![root]);
    } else {
        assert(path::spans(q) =~= seq![(0int, 1int), (1int, 1 + n)]);
        assert(path::components_of(q) =~= seq![root, c]);
    }
    if p.len() > 0 {
        lemma_behind_a_slash(p, c);
    }
}

proof fn lemma_part_at_the_end(pre: Seq<u8>, c: Seq<u8>)
    requires
        pre.len() > 0,
        is_part(c),
    ensures
        path::spans_from(pre + c, pre.len() as int) == if c == seq![0x2eu8] {
            Seq::<(int, int)>::empty()
        } else {
            seq![(pre.len() as int, (pre.len() + c.len()) as int)]
        },
        (pre + c).subrange(pre.len() as int, (pre.len() + c.len()) as int) == c,
{
    let q = pre + c;
    let from = pre.len() as int;
    let end = q.len() as int;
    assert forall|i: int| from <= i < end implies q[i] != path::SLASH by {
        assert(q[i] == c[i - from]);
    }
    path::lemma_part_end_is(q, from, end);
    assert(q.subrange(from, end) =~= c);
    assert(path::spans_from(q, end) =~= Seq::<(int, int)>::empty());
    assert(path::spans_from(q, from) =~= if c == seq![0x2eu8] {
        Seq::<(int, int)>::empty()
    } else {
        seq![(from, end)]
    });
}

proof fn lemma_behind_a_slash(p: Seq<u8>, c: Seq<u8>)
    requires
        p.len() > 0,
        is_part(c),
    ensures
        path::components_of(p.push(0x2f)) == path::components_of(p),
        path::components_of(p.push(0x2f) + c) == if c == seq![0x2eu8] {
            path::components_of(p)
        } else {
            path::components_of(p).push(c)
        },
{
    let pre = p.push(0x2f);
    let q = pre + c;
    let all = path::components_of(p);
    let first: int = if p[0] == path::SLASH {
        1
    } else {
        0
    };
    assert(pre[0] == p[0] && q[0] == p[0]);
    path::lemma_spans_from_texts(p, first);
    path::lemma_spans_from_push_slash(p, first);
    assert(path::spans(pre) == path::spans(p));
    assert forall|i: int| 0 <= i < all.len() implies path::components_of(pre)[i] == all[i] by {
        let s = path::spans(p)[i];
        assert(pre.subrange(s.0, s.1) =~= p.subrange(s.0, s.1));
    }
    assert(path::components_of(pre) =~= all);
    path::lemma_spans_from_append(pre, c, first);
    lemma_part_at_the_end(pre, c);
    let tail = path::spans_from(q, pre.len() as int);
    assert(path::spans(q) =~= path::spans(p) + tail);
    assert forall|i: int| 0 <= i < all.len() implies path::components_of(q)[i] == all[i] by {
        let s = path::spans(p)[i];
        assert(path::spans(q)[i] == s);
        assert(q.subrange(s.0, s.1) =~= p.subrange(s.0, s.1));
    }
    if c == seq![0x2eu8] {
        assert(path::components_of(q) =~= all);
    } else {
        assert(path::spans(q)[all.len() as int] == tail[0]);
        assert(path::components_of(q) =~= all.push(c));
    }
}

/// A path is taken as relative unless a slash stands in front or one of its parts
/// is `..`. Its components are its parts without any `.`.
pub proof fn law_a_relative_path_stays_below_its_root(p: Seq<u8>, c: Seq<u8>)
    requires
        is_part(c),
    ensures
        path::is_relative(Seq::empty()),
        path::normal_components(Seq::empty()) == Seq::<Seq<u8>>::empty(),
        path::is_relative(c) <==> c != seq![0x2eu8, 0x2eu8],
        path::normal_components(c) == if c == seq![0x2eu8] {
            Seq::empty()
        } else {
            seq![c]
        },
        p.len() > 0 && p[0] == 0x2f ==> !path::is_relative(p),
        p.len() > 0 ==> {
            let q = p.push(0x2f) + c;
            &&& path::is_relative(p.push(0x2f)) <==> path::is_relative(p)
            &&& path::normal_components(p.push(0x2f)) == path::normal_components(p)
            &&& path::is_relative(q) <==> path::is_relative(p) && c != seq![0x2eu8, 0x2eu8]
            &&& path::normal_components(q) == if c == seq![0x2eu8] {
                path::normal_components(p)
            } else {
                path::normal_components(p).push(c)
            }
        },
{
    law_a_path_is_split_at_its_slashes(p, c);
    let none = Seq::<u8>::empty();
    assert(path::components_of(none).len() == 0);
    let one = path::components_of(c);
    assert(one == seq![c]);
    assert(one[0] == c);
    assert(c != seq![0x2fu8]) by {
        assert(c[0] != 0x2f);
    }
    if path::is_relative(c) {
        assert(path::components_of(c)[0] != seq![path::DOT, path::DOT]);
    }
    assert(path::normal_components(c) =~= if c == seq![0x2eu8] {
        Seq::empty()
    } else {
        seq![c]
    });
    if p.len() > 0 {
        let q = p.push(0x2f) + c;
        let all = path::components_of(p);
        if p[0] == 0x2f {
            assert(path::spans(p)[0] == (0int, 1int));
            assert(all[0] =~= seq![path::SLASH]);
        }
        lemma_some_component(p);
        if c != seq![0x2eu8] {
            let more = path::components_of(q);
            assert(more == all.push(c));
            assert(more[all.len() as int] == c);
            assert forall|i: int| 0 <= i < all.len() implies more[i] == all[i] by {}
            assert(more.drop_first() =~= all.drop_first().push(c));
            if path::is_relative(q) {
                assert forall|i: int| 0 <= i < all.len() implies #[trigger] all[i] != seq![
                    path::SLASH,
                ] && all[i] != seq![path::DOT, path::DOT] by {
                    assert(path::components_of(q)[i] == all[i]);
                }
                assert(path::components_of(q)[all.len() as int] == c);
            }
        }
    }
}

/// A path that is not empty has a component.
proof fn lemma_some_component(p: Seq<u8>)
    requires
        p.len() > 0,
    ensures
        path::components_of(p).len() > 0,
{
    if p[0] != path::SLASH {
        path::lemma_part_end_bounds(p, 1);
    }
}

/// Positions counted from further in front.
spec fn moved(spans: Seq<(int, int)>, by: int) -> Seq<(int, int)> {
    spans.map_values(|s: (int, int)| (s.0 + by, s.1 + by))
}

/// The components in a part of a path, which ends where a component may end, are
/// the components of the path there.
proof fn lemma_spans_in_part(full: Seq<u8>, a: int, e: int, i: int)
    requires
        0 <= a <= e <= full.len(),
        0 <= i <= e - a,
        e == full.len() || full[e] == path::SLASH,
        i == 0 && 0 < a < e ==> full[a] != path::SLASH && full.subrange(
            a,
            path::part_end(full, a),
        ) != seq![path::DOT],
    ensures
        path::spans_from(full, a + i) == moved(path::spans_from(full.subrange(a, e), i), a)
            + path::spans_from(full, e),
    decreases e - a - i,
{
    let q = full.subrange(a, e);
    let tail = path::spans_from(full, e);
    if i == e - a {
        assert(path::spans_from(q, i) =~= Seq::<(int, int)>::empty());
        assert(moved(path::spans_from(q, i), a) + tail =~= tail);
    } else if full[a + i] == path::SLASH {
        lemma_spans_in_part(full, a, e, i + 1);
    } else {
        let end = path::part_end(full, a + i);
        path::lemma_part_end_bounds(full, a + i + 1);
        path::lemma_part_end_no_slash(full, a + i);
        assert(end <= e) by {
            if end > e {
                assert(full[e] != path::SLASH);
            }
        }
        assert forall|x: int| i <= x < end - a implies q[x] != path::SLASH by {
            assert(q[x] == full[a + x]);
        }
        path::lemma_part_end_is(q, i, end - a);
        assert(q.subrange(i, end - a) =~= full.subrange(a + i, end));
        lemma_spans_in_part(full, a, e, end - a);
        assert(path::spans_from(full, a + i) =~= moved(path::spans_from(q, i), a) + tail);
    }
}

/// Behind a component come the components behind it.
proof fn lemma_spans_behind(p: Seq<u8>, from: int, k: int)
    requires
        0 <= from <= p.len(),
        0 <= k < path::spans_from(p, from).len(),
    ensures
        ({
            let all = path::spans_from(p, from);
            let s = all[k];
            &&& from <= s.0 < s.1 <= p.len()
            &&& p[s.0] != path::SLASH
            &&& s.1 == path::part_end(p, s.0)
            &&& s.1 == p.len() || p[s.1] == path::SLASH
            &&& path::spans_from(p, s.0) == all.skip(k)
            &&& path::spans_from(p, s.1) == all.skip(k + 1)
        }),
    decreases p.len() - from,
{
    let all = path::spans_from(p, from);
    if p[from] == path::SLASH {
        lemma_spans_behind(p, from + 1, k);
    } else {
        let end = path::part_end(p, from);
        path::lemma_part_end_bounds(p, from + 1);
        path::lemma_part_end_no_slash(p, from);
        let rest = path::spans_from(p, end);
        if from > 0 && p.subrange(from, end) == seq![path::DOT] {
            lemma_spans_behind(p, end, k);
        } else {
            assert(all == seq![(from, end)] + rest);
            assert(all.skip(1) =~= rest);
            if k == 0 {
                assert(all.skip(0) =~= all);
            } else {
                lemma_spans_behind(p, end, k - 1);
                assert(all[k] == rest[k - 1]);
                assert(all.skip(k) =~= rest.skip(k - 1));
                assert(all.skip(k + 1) =~= rest.skip(k));
            }
        }
    }
}

/// Components stand one behind the other.
proof fn lemma_spans_in_order(p: Seq<u8>, from: int, i: int, j: int)
    requires
        0 <= from <= p.len(),
        0 <= i <= j < path::spans_from(p, from).len(),
    ensures
        ({
            let all = path::spans_from(p, from);
            all[i].0 <= all[j].0 && all[i].1 <= all[j].1 <= p.len()
        }),
{
    let all = path::spans_from(p, from);
    lemma_spans_behind(p, from, i);
    lemma_spans_behind(p, from, j);
    if i < j {
        let rest = path::spans_from(p, all[i].1);
        path::lemma_spans_from_texts(p, all[i].1);
        assert(rest[j - i - 1] == all[j]);
    }
}

/// What stands behind the first components of a path has the other components, in
/// their order. Behind one or more they are names of what lies there, unless one
/// leads up.
pub proof fn law_what_stands_behind_has_the_other_components(full: Seq<u8>, k: int)
    requires
        0 <= k <= path::components_of(full).len(),
    ensures
        path::components_of(path::behind(full, k)) == path::components_of(full).skip(k),
        k > 0 ==> path::normal_components(path::behind(full, k)) == path::components_of(full).skip(
            k,
        ),
        k > 0 ==> (path::is_relative(path::behind(full, k)) <==> forall|i: int|
            k <= i < path::components_of(full).len() ==> #[trigger] path::components_of(full)[i]
                != seq![0x2eu8, 0x2eu8]),
{
    let all = path::spans(full);
    let parts = path::components_of(full);
    let q = path::behind(full, k);
    if k < all.len() {
        let slash = full.len() > 0 && full[0] == path::SLASH;
        let first: int = if slash {
            1
        } else {
            0
        };
        let rest = path::spans_from(full, first);
        let n = all.len() as int;
        if rest.len() > 0 {
            lemma_spans_behind(full, first, rest.len() - 1);
            path::lemma_spans_from_texts(full, first);
            assert(all.last() == rest.last());
            assert(rest.skip(rest.len() as int) =~= Seq::<(int, int)>::empty());
        }
        assert forall|i: int| k <= i < n implies all[k].0 <= (#[trigger] all[i]).0 <= all[i].1
            <= all[n - 1].1 <= full.len() by {
            if slash && i == 0 {
                assert(all[0] == (0int, 1int));
                if rest.len() > 0 {
                    lemma_spans_in_order(full, 1, 0, rest.len() - 1);
                    lemma_spans_behind(full, 1, rest.len() - 1);
                }
            } else {
                let less: int = if slash {
                    1
                } else {
                    0
                };
                assert(all[i] == rest[i - less]);
                lemma_spans_behind(full, first, i - less);
                lemma_spans_in_order(full, first, i - less, rest.len() - 1);
                if k >= less {
                    assert(all[k] == rest[k - less]);
                    lemma_spans_in_order(full, first, k - less, i - less);
                }
            }
        }
        let a = all[k].0;
        let e = all.last().1;
        assert(q == full.subrange(a, e));
        if slash && k == 0 {
            if rest.len() == 0 {
                assert(all =~= seq![(0int, 1int)]);
                assert(q =~= seq![path::SLASH]);
                assert(path::spans_from(q, 1) =~= Seq::<(int, int)>::empty());
                assert(path::spans(q) =~= seq![(0int, 1int)]);
            } else {
                assert(q[0] == path::SLASH);
                lemma_spans_in_part(full, 0, e, 1);
                let inner = path::spans_from(q, 1);
                assert(moved(inner, 0) =~= inner);
                assert(inner + Seq::<(int, int)>::empty() =~= inner);
                assert(path::spans(q) =~= all);
            }
            assert(all.skip(0) =~= all);
            assert(moved(path::spans(q), 0) =~= path::spans(q));
        } else {
            let at = if slash {
                k - 1
            } else {
                k
            };
            assert(all[k] == rest[at]);
            lemma_spans_behind(full, first, at);
            assert(q[0] == full[a]);
            lemma_spans_in_part(full, a, e, 0);
            let inner = path::spans_from(q, 0);
            assert(moved(inner, a) + Seq::<(int, int)>::empty() =~= moved(inner, a));
            assert(path::spans(q) == inner);
            assert(rest.skip(at) =~= all.skip(k));
        }
        assert(moved(path::spans(q), a) == all.skip(k));
        lemma_moved_components(full, a, e, all.skip(k));
        assert(path::components_of(q) =~= parts.skip(k));
        if k > 0 {
            assert forall|i: int| 0 <= i < parts.skip(k).len() implies #[trigger] parts.skip(k)[i]
                != seq![path::DOT] && parts.skip(k)[i] != seq![path::SLASH] by {
                let s = all[k + i];
                let at = if slash {
                    k + i - 1
                } else {
                    k + i
                };
                assert(s == rest[at]);
                lemma_spans_behind(full, first, at);
                assert(at > 0 || slash);
                assert(full.subrange(s.0, s.1)[0] == full[s.0]);
                assert(parts.skip(k)[i] == full.subrange(s.0, s.1));
            }
            assert(parts.skip(k)[0] != seq![path::DOT]);
            lemma_relative_behind(q, parts, k);
        }
    } else {
        assert(q =~= Seq::<u8>::empty());
        assert(path::components_of(q) =~= Seq::<Seq<u8>>::empty());
        assert(parts.skip(k) =~= Seq::<Seq<u8>>::empty());
    }
}

proof fn lemma_moved_components(full: Seq<u8>, a: int, e: int, there: Seq<(int, int)>)
    requires
        0 <= a <= e <= full.len(),
        moved(path::spans(full.subrange(a, e)), a) == there,
        forall|i: int|
            0 <= i < there.len() ==> a <= (#[trigger] there[i]).0 <= there[i].1 <= e,
    ensures
        path::components_of(full.subrange(a, e)) == there.map_values(
            |s: (int, int)| full.subrange(s.0, s.1),
        ),
{
    let q = full.subrange(a, e);
    let own = path::spans(q);
    assert forall|i: int| 0 <= i < own.len() implies q.subrange(own[i].0, own[i].1)
        == full.subrange(there[i].0, there[i].1) by {
        assert(there[i] == (own[i].0 + a, own[i].1 + a));
        assert(q.subrange(own[i].0, own[i].1) =~= full.subrange(there[i].0, there[i].1));
    }
    assert(path::components_of(q) =~= there.map_values(
        |s: (int, int)| full.subrange(s.0, s.1),
    ));
}

proof fn lemma_relative_behind(q: Seq<u8>, parts: Seq<Seq<u8>>, k: int)
    requires
        0 <= k <= parts.len(),
        path::components_of(q) == parts.skip(k),
        forall|i: int|
            0 <= i < parts.skip(k).len() ==> #[trigger] parts.skip(k)[i] != seq![path::SLASH],
    ensures
        path::is_relative(q) <==> forall|i: int|
            k <= i < parts.len() ==> #[trigger] parts[i] != seq![0x2eu8, 0x2eu8],
{
    let own = path::components_of(q);
    if path::is_relative(q) {
        assert forall|i: int| k <= i < parts.len() implies #[trigger] parts[i] != seq![
            0x2eu8,
            0x2eu8,
        ] by {
            assert(own[i - k] == parts[i]);
        }
    }
    if forall|i: int| k <= i < parts.len() ==> #[trigger] parts[i] != seq![0x2eu8, 0x2eu8] {
        assert forall|i: int| 0 <= i < own.len() implies #[trigger] own[i] != seq![path::SLASH]
            && own[i] != seq![path::DOT, path::DOT] by {
            assert(own[i] == parts[i + k]);
        }
    }
}

/// Names are written one behind the other, with a slash between each two, behind a
/// root that ends in a slash or gets one, unless it is empty.
pub proof fn law_names_are_written_with_slashes_between(
    root: Seq<u8>,
    cs: Seq<Seq<u8>>,
    c: Seq<u8>,
)
    ensures
        path::joined(Seq::empty()) == Seq::<u8>::empty(),
        path::joined(seq![c]) == c,
        cs.len() > 0 ==> path::joined(cs.push(c)) == path::joined(cs) + seq![0x2fu8] + c,
        path::as_prefix(Seq::empty()) == Seq::<u8>::empty(),
        path::as_prefix(root.push(0x2f)) == root.push(0x2f),
        root.len() > 0 && root.last() != 0x2f ==> path::as_prefix(root) == root.push(0x2f),
    decreases cs.len(),
{
    assert(root.push(0x2f).last() == 0x2f);
    if cs.len() == 1 {
        let both = cs.push(c);
        assert(both.drop_first() =~= seq![c]);
        assert(path::joined(seq![c]) == c);
        assert(both[0] == cs[0]);
        assert(path::joined(both) =~= path::joined(cs) + seq![0x2fu8] + c);
    } else if cs.len() > 1 {
        law_names_are_written_with_slashes_between(root, cs.drop_first(), c);
        let both = cs.push(c);
        assert(both.drop_first() =~= cs.drop_first().push(c));
        assert(both[0] == cs[0]);
        assert(path::joined(both) =~= path::joined(cs) + seq![0x2fu8] + c);
    }
}

} // verus!
