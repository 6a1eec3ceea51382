//! Paths relative to the root of a synchronized tree.
//!
//! A path is a byte string. Its components are what lies between the slashes,
//! as the operating system reads them: repeated slashes count once, a trailing
//! slash does not count, and `.` counts only as the very first component of a
//! path that is not absolute. The leading slash of an absolute path is a
//! component of its own.

use crate::bytes;
use crate::error::GappedError;
use crate::order;
use crate::order::Rank;
use vstd::prelude::*;

verus! {

/// `/`
pub const SLASH: u8 = 0x2f;

/// `.`
pub const DOT: u8 = 0x2e;

/// Where the component that starts at `from` ends: at the next slash or at the
/// end of the path.
pub open spec fn part_end(path: Seq<u8>, from: int) -> int
    decreases path.len() - from,
{
    if from >= path.len() || path[from] == SLASH {
        from
    } else {
        part_end(path, from + 1)
    }
}

/// Start and end of each component of `path` from position `from` on.
pub open spec fn spans_from(path: Seq<u8>, from: int) -> Seq<(int, int)>
    decreases path.len() - from,
{
    if from < 0 || from >= path.len() {
        Seq::empty()
    } else if path[from] == SLASH {
        spans_from(path, from + 1)
    } else {
        let end = part_end(path, from);
        if end <= from || end > path.len() {
            Seq::empty()
        } else if from > 0 && path.subrange(from, end) == seq![DOT] {
            spans_from(path, end)
        } else {
            seq![(from, end)] + spans_from(path, end)
        }
    }
}

/// Start and end of each component of `path`.
pub open spec fn spans(path: Seq<u8>) -> Seq<(int, int)> {
    if path.len() > 0 && path[0] == SLASH {
        seq![(0int, 1int)] + spans_from(path, 1)
    } else {
        spans_from(path, 0)
    }
}

/// The components of `path`, as written.
pub open spec fn components_of(path: Seq<u8>) -> Seq<Seq<u8>> {
    spans(path).map_values(|s: (int, int)| path.subrange(s.0, s.1))
}

/// What is left of `path` behind its first `k` components, without slashes and
/// dots at either end.
pub open spec fn behind(path: Seq<u8>, k: int) -> Seq<u8> {
    let all = spans(path);
    if 0 <= k < all.len() {
        path.subrange(all[k].0, all.last().1)
    } else {
        Seq::empty()
    }
}

/// Whether a path can be taken as relative to a root and does not leave it.
pub open spec fn is_relative(path: Seq<u8>) -> bool {
    forall|i: int|
        0 <= i < components_of(path).len() ==> #[trigger] components_of(path)[i] != seq![SLASH]
            && components_of(path)[i] != seq![DOT, DOT]
}

/// The components of `path` without a leading `.`.
pub open spec fn normal_components(path: Seq<u8>) -> Seq<Seq<u8>> {
    let all = components_of(path);
    if all.len() > 0 && all[0] == seq![DOT] {
        all.drop_first()
    } else {
        all
    }
}

/// What a component of a relative path looks like.
pub open spec fn is_name(c: Seq<u8>) -> bool {
    &&& c.len() > 0
    &&& !c.contains(SLASH)
    &&& c != seq![DOT]
    &&& c != seq![DOT, DOT]
}

/// The components of a normalized relative path.
pub open spec fn are_names(cs: Seq<Seq<u8>>) -> bool {
    forall|i: int| 0 <= i < cs.len() ==> is_name(#[trigger] cs[i])
}

/// Components with a slash between each two.
pub open spec fn joined(cs: Seq<Seq<u8>>) -> Seq<u8>
    decreases cs.len(),
{
    if cs.len() == 0 {
        Seq::empty()
    } else if cs.len() == 1 {
        cs[0]
    } else {
        cs[0] + seq![SLASH] + joined(cs.drop_first())
    }
}

/// `root` with a slash behind it, if it is not empty and has none.
pub open spec fn as_prefix(root: Seq<u8>) -> Seq<u8> {
    if root.len() > 0 && root.last() != SLASH {
        root.push(SLASH)
    } else {
        root
    }
}

/// Whether the path `child` lies strictly underneath the path `dir`.
pub open spec fn is_under(dir: Seq<Seq<u8>>, child: Seq<Seq<u8>>) -> bool {
    dir.len() < child.len() && child.take(dir.len() as int) == dir
}

/// A normalized path relative to the root of a tree. The root itself is the
/// path without components.
#[derive(Debug, PartialEq, Eq, PartialOrd, Ord, Hash)]
pub struct RelativePath {
    components: Vec<Vec<u8>>,
}

impl View for RelativePath {
    type V = Seq<Seq<u8>>;

    closed spec fn view(&self) -> Seq<Seq<u8>> {
        order::views(self.components@)
    }
}

fn find_part_end(path: &[u8], from: usize) -> (end: usize)
    requires
        from <= path@.len(),
    ensures
        end == part_end(path@, from as int),
        from <= end <= path@.len(),
{
    let mut end: usize = from;
    while end < path.len() && path[end] != SLASH
        invariant
            from <= end <= path@.len(),
            part_end(path@, from as int) == part_end(path@, end as int),
        decreases path@.len() - end,
    {
        end = end + 1;
    }
    end
}

/// Start and end of each component of a path, as machine integers.
pub open spec fn span_values(v: Seq<(usize, usize)>) -> Seq<(int, int)> {
    v.map_values(|s: (usize, usize)| (s.0 as int, s.1 as int))
}

fn find_spans(path: &[u8]) -> (r: Vec<(usize, usize)>)
    ensures
        span_values(r@) == spans(path@),
        forall|i: int| 0 <= i < r@.len() ==> (#[trigger] r@[i]).0 < r@[i].1 <= path@.len(),
        forall|i: int, j: int| 0 <= i <= j < r@.len() ==> (#[trigger] r@[i]).0 <= (#[trigger] r@[j]).0,
{
    let mut r: Vec<(usize, usize)> = Vec::new();
    let mut at: usize = 0;
    if path.len() > 0 && path[0] == SLASH {
        r.push((0, 1));
        at = 1;
    }
    assert(span_values(r@) + spans_from(path@, at as int) =~= spans(path@));
    while at < path.len()
        invariant
            at <= path@.len(),
            span_values(r@) + spans_from(path@, at as int) == spans(path@),
            forall|i: int|
                0 <= i < r@.len() ==> (#[trigger] r@[i]).0 < r@[i].1 <= path@.len() && r@[i].0 <= at,
            forall|i: int, j: int|
                0 <= i <= j < r@.len() ==> (#[trigger] r@[i]).0 <= (#[trigger] r@[j]).0,
        decreases path@.len() - at,
    {
        if path[at] == SLASH {
            at = at + 1;
        } else {
            let end = find_part_end(path, at);
            assert(part_end(path@, at as int) > at) by {
                assert(part_end(path@, at as int) == part_end(path@, at + 1));
                lemma_part_end_bounds(path@, at + 1);
            }
            let is_dot = end == at + 1 && path[at] == DOT;
            assert(is_dot == (path@.subrange(at as int, end as int) == seq![DOT])) by {
                if path@.subrange(at as int, end as int) == seq![DOT] {
                    assert(path@.subrange(at as int, end as int).len() == 1);
                    assert(path@.subrange(at as int, end as int)[0] == path@[at as int]);
                }
                if is_dot {
                    assert(path@.subrange(at as int, end as int) =~= seq![DOT]);
                }
            }
            if at > 0 && is_dot {
                at = end;
            } else {
                assert(span_values(r@.push((at, end))) =~= span_values(r@).push(
                    (at as int, end as int),
                ));
                assert(span_values(r@) + (seq![(at as int, end as int)] + spans_from(
                    path@,
                    end as int,
                )) =~= span_values(r@).push((at as int, end as int)) + spans_from(
                    path@,
                    end as int,
                ));
                r.push((at, end));
                at = end;
            }
        }
    }
    assert(span_values(r@) + Seq::<(int, int)>::empty() =~= span_values(r@));
    r
}

pub(crate) proof fn lemma_part_end_bounds(path: Seq<u8>, from: int)
    requires
        0 <= from <= path.len(),
    ensures
        from <= part_end(path, from) <= path.len(),
    decreases path.len() - from,
{
    if from < path.len() && path[from] != SLASH {
        lemma_part_end_bounds(path, from + 1);
    }
}

/// The components of `path` between the positions in `at`.
fn cut(path: &[u8], at: &Vec<(usize, usize)>, first: usize) -> (r: Vec<Vec<u8>>)
    requires
        first <= at@.len(),
        span_values(at@) == spans(path@),
        forall|i: int| 0 <= i < at@.len() ==> (#[trigger] at@[i]).0 < at@[i].1 <= path@.len(),
    ensures
        order::views(r@) == components_of(path@).skip(first as int),
{
    let mut r: Vec<Vec<u8>> = Vec::new();
    let mut i: usize = first;
    while i < at.len()
        invariant
            first <= i <= at@.len(),
            r@.len() == i - first,
            forall|k: int|
                0 <= k < r@.len() ==> (#[trigger] r@[k])@ == path@.subrange(
                    at@[first + k].0 as int,
                    at@[first + k].1 as int,
                ),
            forall|i: int| 0 <= i < at@.len() ==> (#[trigger] at@[i]).0 < at@[i].1 <= path@.len(),
        decreases at@.len() - i,
    {
        let span = at[i];
        r.push(bytes::copy_range(path, span.0, span.1));
        i = i + 1;
    }
    proof {
        let all = components_of(path@);
        assert(all.len() == at@.len());
        assert forall|k: int| 0 <= k < r@.len() implies order::views(r@)[k] == all.skip(
            first as int,
        )[k] by {
            assert(span_values(at@)[first + k] == spans(path@)[first + k]);
            assert(r@[k]@ == path@.subrange(at@[first + k].0 as int, at@[first + k].1 as int));
        }
        assert(order::views(r@) =~= all.skip(first as int));
    }
    r
}

impl RelativePath {
    /// Whether every component is a proper name. Every path made here is.
    pub open spec fn wf(&self) -> bool {
        are_names(self@)
    }

    /// Makes a normalized path from a path that is already relative.
    pub fn new(path: &[u8]) -> (r: Result<Self, GappedError>)
        ensures
            r is Ok <==> is_relative(path@),
            r matches Ok(p) ==> p@ == normal_components(path@) && p.wf(),
            r matches Err(e) ==> (e matches GappedError::InvalidPath(b) && b@ == path@),
    {
        let at = find_spans(path);
        let ghost all = components_of(path@);
        let mut i: usize = 0;
        while i < at.len()
            invariant
                i <= at@.len(),
                all == components_of(path@),
                span_values(at@) == spans(path@),
                forall|k: int|
                    0 <= k < at@.len() ==> (#[trigger] at@[k]).0 < at@[k].1 <= path@.len(),
                forall|k: int|
                    0 <= k < i ==> #[trigger] all[k] != seq![SLASH] && all[k] != seq![DOT, DOT],
            decreases at@.len() - i,
        {
            let span = at[i];
            let ghost text = path@.subrange(span.0 as int, span.1 as int);
            assert(all[i as int] == text) by {
                assert(span_values(at@)[i as int] == (span.0 as int, span.1 as int));
            }
            let is_slash = span.1 - span.0 == 1 && path[span.0] == SLASH;
            let is_up = span.1 - span.0 == 2 && path[span.0] == DOT && path[span.0 + 1] == DOT;
            proof {
                assert(text[0] == path@[span.0 as int]);
                if text == seq![SLASH] {
                    assert(text.len() == 1);
                }
                if text == seq![DOT, DOT] {
                    assert(text.len() == seq![DOT, DOT].len());
                    assert(text[1] == path@[span.0 + 1]);
                }
                if is_slash {
                    assert(text =~= seq![SLASH]);
                }
                if is_up {
                    assert(text[1] == path@[span.0 + 1]);
                    assert(text =~= seq![DOT, DOT]);
                }
            }
            if is_slash || is_up {
                return Err(GappedError::InvalidPath(bytes::copy_range(path, 0, path.len())));
            }
            i = i + 1;
        }
        let mut first: usize = 0;
        if at.len() > 0 {
            let span = at[0];
            let ghost text = path@.subrange(span.0 as int, span.1 as int);
            assert(all[0] == text) by {
                assert(span_values(at@)[0] == (span.0 as int, span.1 as int));
            }
            proof {
                assert(text[0] == path@[span.0 as int]);
                if text == seq![DOT] {
                    assert(text.len() == 1);
                }
                if text.len() == 1 && text[0] == DOT {
                    assert(text =~= seq![DOT]);
                }
            }
            if span.1 - span.0 == 1 && path[span.0] == DOT {
                first = 1;
            }
        }
        let components = cut(path, &at, first);
        proof {
            assert(all.skip(0) =~= all);
            if all.len() > 0 {
                assert(all.skip(1) =~= all.drop_first());
            }
            lemma_normal_components_are_names(path@);
        }
        Ok(RelativePath { components })
    }

    /// Makes a path from a full path by taking off the root in front of it.
    pub fn from_full_path(full_path: &[u8], root: &[u8]) -> (r: Result<Self, GappedError>)
        ensures
            r is Ok <==> components_of(root@).is_prefix_of(components_of(full_path@))
                && is_relative(behind(full_path@, components_of(root@).len() as int)),
            r matches Ok(p) ==> p.wf() && p@ == normal_components(
                behind(full_path@, components_of(root@).len() as int),
            ),
            r matches Err(e) ==> (e matches GappedError::InvalidPath(b) && b@ == (
            if components_of(root@).is_prefix_of(components_of(full_path@)) {
                behind(full_path@, components_of(root@).len() as int)
            } else {
                full_path@
            })),
    {
        let at = find_spans(full_path);
        let root_at = find_spans(root);
        let full_parts = cut(full_path, &at, 0);
        let root_parts = cut(root, &root_at, 0);
        let ghost full_all = components_of(full_path@);
        let ghost root_all = components_of(root@);
        proof {
            assert(full_all.skip(0) =~= full_all);
            assert(root_all.skip(0) =~= root_all);
        }
        if root_parts.len() > full_parts.len() {
            return Err(
                GappedError::InvalidPath(bytes::copy_range(full_path, 0, full_path.len())),
            );
        }
        let mut i: usize = 0;
        while i < root_parts.len()
            invariant
                i <= root_parts@.len() <= full_parts@.len(),
                full_all == order::views(full_parts@),
                root_all == order::views(root_parts@),
                full_all == components_of(full_path@),
                root_all == components_of(root@),
                forall|k: int| 0 <= k < i ==> root_all[k] == full_all[k],
            decreases root_parts@.len() - i,
        {
            if !bytes::bytes_equal(root_parts[i].as_slice(), full_parts[i].as_slice()) {
                assert(root_all[i as int] != full_all[i as int]);
                return Err(
                    GappedError::InvalidPath(bytes::copy_range(full_path, 0, full_path.len())),
                );
            }
            assert(root_all[i as int] == full_all[i as int]);
            i = i + 1;
        }
        assert(root_all.is_prefix_of(full_all)) by {
            assert(root_all =~= full_all.subrange(0, root_all.len() as int));
        }
        let rest: Vec<u8> = if i < at.len() {
            let last = at[at.len() - 1];
            proof {
                assert(span_values(at@)[i as int] == spans(full_path@)[i as int]);
                assert(span_values(at@).last() == spans(full_path@).last());
            }
            bytes::copy_range(full_path, at[i].0, last.1)
        } else {
            Vec::new()
        };
        assert(rest@ =~= behind(full_path@, root_all.len() as int));
        RelativePath::new(rest.as_slice())
    }

    /// The path of the root itself.
    pub fn root() -> (r: Self)
        ensures
            r@ == Seq::<Seq<u8>>::empty(),
            r.wf(),
    {
        let r = RelativePath { components: Vec::new() };
        assert(r@ =~= Seq::<Seq<u8>>::empty());
        r
    }

    /// The path as one byte string, with a slash between each two components.
    pub fn to_bytes(&self) -> (r: Vec<u8>)
        ensures
            r@ == joined(self@),
    {
        let mut r: Vec<u8> = Vec::new();
        let ghost cs = self@;
        let mut i: usize = 0;
        assert(cs.skip(0) =~= cs);
        while i < self.components.len()
            invariant
                i <= self.components@.len(),
                cs == self@,
                cs.len() == self.components@.len(),
                forall|k: int| 0 <= k < cs.len() ==> cs[k] == (#[trigger] self.components@[k])@,
                i == 0 ==> r@.len() == 0,
                joined(cs) == if i == 0 || i == cs.len() {
                    r@ + joined(cs.skip(i as int))
                } else {
                    r@ + seq![SLASH] + joined(cs.skip(i as int))
                },
            decreases self.components@.len() - i,
        {
            let ghost before = r@;
            let ghost tail = cs.skip(i as int);
            if i > 0 {
                r.push(SLASH);
            }
            r.extend_from_slice(self.components[i].as_slice());
            proof {
                let c = self.components@[i as int]@;
                assert(tail[0] == c);
                assert(tail.drop_first() =~= cs.skip(i + 1));
                if i > 0 {
                    assert(r@ =~= before + seq![SLASH] + c);
                } else {
                    assert(r@ =~= before + c);
                }
                if tail.len() == 1 {
                    assert(cs.skip(i + 1) =~= Seq::<Seq<u8>>::empty());
                    assert(r@ + Seq::<u8>::empty() =~= r@);
                    if i > 0 {
                        assert(before + seq![SLASH] + joined(tail) =~= r@);
                    }
                } else {
                    if i > 0 {
                        assert(before + seq![SLASH] + joined(tail) =~= r@ + seq![SLASH] + joined(
                            cs.skip(i + 1),
                        ));
                    } else {
                        assert(before + joined(tail) =~= r@ + seq![SLASH] + joined(
                            cs.skip(i + 1),
                        ));
                    }
                }
            }
            i = i + 1;
        }
        proof {
            assert(cs.skip(i as int) =~= Seq::<Seq<u8>>::empty());
            assert(r@ + Seq::<u8>::empty() =~= r@);
        }
        r
    }

    /// The full path below `root`.
    pub fn to_full_path(&self, root: &[u8]) -> (r: Vec<u8>)
        ensures
            r@ == as_prefix(root@) + joined(self@),
    {
        let mut r = bytes::copy_range(root, 0, root.len());
        assert(r@ =~= root@);
        if root.len() > 0 && root[root.len() - 1] != SLASH {
            r.push(SLASH);
        }
        let tail = self.to_bytes();
        r.extend_from_slice(tail.as_slice());
        assert(r@ =~= as_prefix(root@) + joined(self@));
        r
    }

    /// The number of components.
    pub fn depth(&self) -> (n: usize)
        ensures
            n == self@.len(),
    {
        self.components.len()
    }

    /// The path without its last component, or `None` for the root.
    pub fn parent(&self) -> (r: Option<RelativePath>)
        ensures
            r is None <==> self@.len() == 0,
            r matches Some(p) ==> p@ == self@.drop_last() && (self.wf() ==> p.wf()),
    {
        if self.components.len() == 0 {
            None
        } else {
            let mut p = self.clone();
            let _ = p.components.pop();
            assert(p@ =~= self@.drop_last());
            Some(p)
        }
    }

    /// The last component; empty for the root.
    pub fn name(&self) -> (r: &[u8])
        ensures
            r@ == if self@.len() == 0 {
                Seq::empty()
            } else {
                self@.last()
            },
    {
        let n: usize = self.components.len();
        if n == 0 {
            let r: &[u8] = &[];
            assert(r@ =~= Seq::empty());
            r
        } else {
            assert(self@.last() == self.components@[n - 1]@);
            self.components[n - 1].as_slice()
        }
    }

    /// Whether `child` is strictly underneath this path.
    pub fn contains(&self, child: &RelativePath) -> (r: bool)
        ensures
            r == is_under(self@, child@),
    {
        if self.components.len() >= child.components.len() {
            return false;
        }
        let mut i: usize = 0;
        while i < self.components.len()
            invariant
                i <= self.components@.len() < child.components@.len(),
                forall|k: int| 0 <= k < i ==> self@[k] == child@[k],
            decreases self.components@.len() - i,
        {
            if !bytes::bytes_equal(self.components[i].as_slice(), child.components[i].as_slice()) {
                assert(self@[i as int] != child@.take(self@.len() as int)[i as int]);
                return false;
            }
            i = i + 1;
        }
        assert(child@.take(self@.len() as int) =~= self@);
        true
    }

    /// How this path compares to another in the order of paths.
    pub fn rank(&self, other: &RelativePath) -> (r: Rank)
        ensures
            r == Rank::Less <==> order::path_lt(self@, other@),
            r == Rank::Equal <==> self@ == other@,
            r == Rank::Greater <==> order::path_lt(other@, self@),
    {
        order::rank_paths(&self.components, &other.components)
    }

    /// Whether two paths are the same.
    pub fn same(&self, other: &RelativePath) -> (r: bool)
        ensures
            r == (self@ == other@),
    {
        matches!(self.rank(other), Rank::Equal)
    }
}

impl Clone for RelativePath {
    fn clone(&self) -> (r: Self)
        ensures
            r@ == self@,
    {
        let mut components: Vec<Vec<u8>> = Vec::new();
        let mut i: usize = 0;
        while i < self.components.len()
            invariant
                i <= self.components@.len(),
                components@.len() == i,
                forall|k: int| 0 <= k < i ==> (#[trigger] components@[k])@ == self.components@[k]@,
            decreases self.components@.len() - i,
        {
            components.push(self.components[i].clone());
            i = i + 1;
        }
        let r = RelativePath { components };
        assert(r@ =~= self@);
        r
    }
}

/// The components of a relative path, but for a leading dot, are names.
proof fn lemma_normal_components_are_names(path: Seq<u8>)
    requires
        is_relative(path),
    ensures
        are_names(normal_components(path)),
{
    let all = components_of(path);
    let cs = normal_components(path);
    if path.len() > 0 && path[0] == SLASH {
        assert(spans(path)[0] == (0int, 1int));
        assert(all[0] =~= seq![SLASH]);
    }
    lemma_spans_from_texts(path, 0);
    assert forall|i: int| 0 <= i < cs.len() implies is_name(#[trigger] cs[i]) by {
        let k = if cs.len() < all.len() {
            i + 1
        } else {
            i
        };
        assert(cs[i] == all[k]);
        let s = spans(path)[k];
        assert(all[k] == path.subrange(s.0, s.1));
    }
}

pub(crate) proof fn lemma_part_end_no_slash(path: Seq<u8>, from: int)
    requires
        0 <= from <= path.len(),
    ensures
        forall|i: int| from <= i < part_end(path, from) ==> path[i] != SLASH,
        part_end(path, from) == path.len() || path[part_end(path, from)] == SLASH,
    decreases path.len() - from,
{
    if from < path.len() && path[from] != SLASH {
        lemma_part_end_no_slash(path, from + 1);
    }
}

/// A component found from a position on is not empty, holds no slash, lies
/// behind that position, and is a lone dot only at the start of the path.
pub(crate) proof fn lemma_spans_from_texts(path: Seq<u8>, from: int)
    requires
        0 <= from <= path.len(),
    ensures
        forall|i: int|
            #![trigger spans_from(path, from)[i]]
            0 <= i < spans_from(path, from).len() ==> {
                let s = spans_from(path, from)[i];
                &&& from <= s.0 < s.1 <= path.len()
                &&& !path.subrange(s.0, s.1).contains(SLASH)
                &&& (path.subrange(s.0, s.1) == seq![DOT] ==> s.0 == 0)
                &&& (i > 0 ==> s.0 > 0)
            },
    decreases path.len() - from,
{
    if from < path.len() {
        if path[from] == SLASH {
            lemma_spans_from_texts(path, from + 1);
            assert(spans_from(path, from) == spans_from(path, from + 1));
        } else {
            let end = part_end(path, from);
            lemma_part_end_bounds(path, from + 1);
            lemma_part_end_no_slash(path, from);
            lemma_spans_from_texts(path, end);
            let text = path.subrange(from, end);
            assert(!text.contains(SLASH));
            let tail = spans_from(path, end);
            if !(from > 0 && text == seq![DOT]) {
                let all = spans_from(path, from);
                assert(all == seq![(from, end)] + tail);
                assert forall|i: int| #![trigger all[i]] 0 <= i < all.len() implies {
                    let s = all[i];
                    &&& from <= s.0 < s.1 <= path.len()
                    &&& !path.subrange(s.0, s.1).contains(SLASH)
                    &&& (path.subrange(s.0, s.1) == seq![DOT] ==> s.0 == 0)
                    &&& (i > 0 ==> s.0 > 0)
                } by {
                    if i > 0 {
                        assert(all[i] == tail[i - 1]);
                    }
                }
            } else {
                assert(spans_from(path, from) == tail);
            }
        }
    }
}

pub(crate) proof fn lemma_part_end_is(path: Seq<u8>, from: int, end: int)
    requires
        0 <= from <= end <= path.len(),
        forall|i: int| from <= i < end ==> path[i] != SLASH,
        end == path.len() || path[end] == SLASH,
    ensures
        part_end(path, from) == end,
    decreases end - from,
{
    if from < end {
        lemma_part_end_is(path, from + 1, end);
    }
}

/// What stands behind a slash does not matter to the components in front.
pub(crate) proof fn lemma_spans_from_append(pre: Seq<u8>, tail: Seq<u8>, from: int)
    requires
        0 <= from <= pre.len(),
        pre.len() == 0 || pre.last() == SLASH,
    ensures
        spans_from(pre + tail, from) == spans_from(pre, from) + spans_from(
            pre + tail,
            pre.len() as int,
        ),
    decreases pre.len() - from,
{
    let q = pre + tail;
    if from == pre.len() {
        assert(spans_from(pre, from) =~= Seq::<(int, int)>::empty());
        assert(Seq::<(int, int)>::empty() + spans_from(q, from) =~= spans_from(q, from));
    } else if pre[from] == SLASH {
        lemma_spans_from_append(pre, tail, from + 1);
    } else {
        let end = part_end(pre, from);
        lemma_part_end_bounds(pre, from + 1);
        lemma_part_end_no_slash(pre, from);
        lemma_part_end_is(q, from, end);
        lemma_spans_from_append(pre, tail, end);
        assert(q.subrange(from, end) =~= pre.subrange(from, end));
        assert(spans_from(q, from) =~= spans_from(pre, from) + spans_from(q, pre.len() as int));
    }
}

/// A slash at the end adds no component.
pub(crate) proof fn lemma_spans_from_push_slash(path: Seq<u8>, from: int)
    requires
        0 <= from <= path.len(),
    ensures
        spans_from(path.push(SLASH), from) == spans_from(path, from),
    decreases path.len() - from,
{
    let q = path.push(SLASH);
    if from == path.len() {
        assert(spans_from(q, from + 1) =~= Seq::<(int, int)>::empty());
        assert(spans_from(path, from) =~= Seq::<(int, int)>::empty());
    } else if path[from] == SLASH {
        lemma_spans_from_push_slash(path, from + 1);
    } else {
        let end = part_end(path, from);
        lemma_part_end_bounds(path, from + 1);
        lemma_part_end_no_slash(path, from);
        lemma_part_end_is(q, from, end);
        lemma_spans_from_push_slash(path, end);
        assert(q.subrange(from, end) =~= path.subrange(from, end));
    }
}

/// Joined names are found again where they were put.
proof fn lemma_spans_of_joined(pre: Seq<u8>, cs: Seq<Seq<u8>>)
    requires
        are_names(cs),
    ensures
        ({
            let q = pre + joined(cs);
            let found = spans_from(q, pre.len() as int);
            &&& found.len() == cs.len()
            &&& forall|i: int|
                0 <= i < cs.len() ==> q.subrange((#[trigger] found[i]).0, found[i].1) == cs[i]
            &&& cs.len() > 0 ==> found[0].0 == pre.len() && found.last().1 == q.len()
        }),
    decreases cs.len(),
{
    let q = pre + joined(cs);
    let from = pre.len() as int;
    if cs.len() > 0 {
        let c = cs[0];
        assert(is_name(c));
        let end = from + c.len();
        assert(q.subrange(from, end) =~= c);
        assert forall|i: int| from <= i < end implies q[i] != SLASH by {
            assert(q[i] == c[i - from]);
            assert(c.contains(c[i - from]));
        }
        lemma_part_end_is(q, from, end);
        let found = spans_from(q, from);
        assert(found == seq![(from, end)] + spans_from(q, end));
        if cs.len() == 1 {
            assert(spans_from(q, end) =~= Seq::<(int, int)>::empty());
            assert(found =~= seq![(from, end)]);
        } else {
            let rest = cs.drop_first();
            let pre2 = pre + c + seq![SLASH];
            assert(q =~= pre2 + joined(rest));
            assert(forall|i: int| 0 <= i < rest.len() ==> rest[i] == cs[i + 1]);
            lemma_spans_of_joined(pre2, rest);
            assert(q[end] == SLASH);
            let tail = spans_from(q, end + 1);
            assert(spans_from(q, end) == tail);
            assert forall|i: int| 0 <= i < cs.len() implies q.subrange(
                (#[trigger] found[i]).0,
                found[i].1,
            ) == cs[i] by {
                if i > 0 {
                    assert(found[i] == tail[i - 1]);
                    assert(rest[i - 1] == cs[i]);
                }
            }
            assert(found.last() == tail.last());
        }
    }
}

/// Splitting joined names gives back the names.
pub proof fn law_split_of_joined(cs: Seq<Seq<u8>>)
    requires
        are_names(cs),
    ensures
        components_of(joined(cs)) == cs,
        is_relative(joined(cs)),
        normal_components(joined(cs)) == cs,
{
    let q = joined(cs);
    assert(Seq::<u8>::empty() + q =~= q);
    lemma_spans_of_joined(Seq::empty(), cs);
    if cs.len() > 0 {
        let c = cs[0];
        assert(is_name(c));
        assert(q[0] == c[0]);
        assert(c.contains(c[0]));
    }
    assert(components_of(q) =~= cs);
    assert forall|i: int| 0 <= i < cs.len() implies #[trigger] components_of(q)[i] != seq![SLASH]
        && components_of(q)[i] != seq![DOT, DOT] by {
        assert(is_name(cs[i]));
        assert(seq![SLASH].contains(seq![SLASH][0]));
    }
    if cs.len() > 0 {
        assert(is_name(cs[0]));
    }
}

/// Taking the root off a full path gives back the path that was joined to the
/// root, whatever the root.
pub proof fn law_strip_of_full_path(root: Seq<u8>, cs: Seq<Seq<u8>>)
    requires
        are_names(cs),
    ensures
        ({
            let full = as_prefix(root) + joined(cs);
            let k = components_of(root).len() as int;
            &&& components_of(root).is_prefix_of(components_of(full))
            &&& behind(full, k) == joined(cs)
            &&& is_relative(behind(full, k))
            &&& normal_components(behind(full, k)) == cs
        }),
{
    let pre = as_prefix(root);
    let tail = joined(cs);
    let full = pre + tail;
    let k = components_of(root).len() as int;
    law_split_of_joined(cs);
    lemma_spans_of_joined(pre, cs);
    let found = spans_from(full, pre.len() as int);
    if root.len() == 0 {
        assert(full =~= tail);
        if cs.len() > 0 {
            assert(is_name(cs[0]));
            assert(tail[0] == cs[0][0]);
            assert(cs[0].contains(cs[0][0]));
        }
        assert(spans(full) =~= spans(root) + found);
    } else {
        assert(pre[0] == root[0] && full[0] == root[0]);
        let first: int = if root[0] == SLASH {
            1
        } else {
            0
        };
        lemma_spans_from_append(pre, tail, first);
        if root.last() != SLASH {
            lemma_spans_from_push_slash(root, first);
        }
        assert(spans_from(pre, first) == spans_from(root, first));
        assert(spans(full) =~= spans(root) + found);
    }
    lemma_spans_from_texts(root, if root.len() > 0 && root[0] == SLASH { 1 } else { 0 });
    assert forall|i: int| 0 <= i < k implies #[trigger] components_of(full)[i] == components_of(
        root,
    )[i] by {
        let s = spans(root)[i];
        assert(spans(full)[i] == s);
        assert(full.subrange(s.0, s.1) =~= root.subrange(s.0, s.1));
    }
    assert(components_of(root) =~= components_of(full).subrange(0, k));
    if cs.len() > 0 {
        assert(spans(full)[k] == found[0]);
        assert(spans(full).last() == found.last());
        assert(behind(full, k) =~= tail);
    } else {
        assert(behind(full, k) =~= tail);
    }
}

/// A path lies strictly underneath its parent, one level deeper.
pub proof fn law_parent_contains(path: Seq<Seq<u8>>)
    requires
        path.len() > 0,
    ensures
        is_under(path.drop_last(), path),
        path.drop_last().len() + 1 == path.len(),
{
    assert(path.take(path.len() - 1) =~= path.drop_last());
}

/// Lying strictly underneath is irreflexive and transitive, and everything but
/// the root lies underneath the root.
pub proof fn law_contains_is_a_strict_order(a: Seq<Seq<u8>>, b: Seq<Seq<u8>>, c: Seq<Seq<u8>>)
    ensures
        !is_under(a, a),
        is_under(a, b) && is_under(b, c) ==> is_under(a, c),
        is_under(Seq::empty(), a) <==> a.len() > 0,
{
    if is_under(a, b) && is_under(b, c) {
        assert(c.take(a.len() as int) =~= b.take(a.len() as int));
    }
    assert(a.take(0) =~= Seq::<Seq<u8>>::empty());
}

} // verus!
