//! Content hashes of files and hashes over the children of directories.

use crate::bytes;
use crate::format::checksum;
use crate::model::entry;
use crate::model::entry::{Entry, EntryKind, EntryModel};
use crate::model::path;
use crate::model::path_map::PathMap;
use crate::order;
use crate::order::Rank;
use crate::sort;
use crate::sort::{DeepestFirst, SortKey};
use vstd::prelude::*;
use xxhash_rust::xxh3::Xxh3;

verus! {

/// Computes the XXH3-128 hash of a file from its content, piece by piece.
pub struct FileHasher {
    hasher: Xxh3,
}

impl FileHasher {
    /// Everything hashed so far.
    pub closed spec fn content(&self) -> Seq<u8> {
        checksum::xxh3_input(self.hasher)
    }

    /// Starts with nothing.
    pub fn new() -> (r: Self)
        ensures
            r.content() == Seq::<u8>::empty(),
    {
        FileHasher { hasher: Xxh3::new() }
    }

    /// Adds the next piece of the content.
    pub fn update(&mut self, piece: &[u8])
        ensures
            final(self).content() == old(self).content() + piece@,
    {
        self.hasher.update(piece);
    }

    /// The hash of everything added.
    pub fn finish(&self) -> (r: [u8; 16])
        ensures
            r@ == checksum::digest(self.content()),
    {
        checksum::stored_digest(&self.hasher)
    }
}

/// Sixteen zero bytes.
pub open spec fn no_hash() -> Seq<u8> {
    Seq::new(16, |i: int| 0u8)
}

/// What stands for the content of an entry in the hash of its directory: the
/// hash of a file, the hash over the children of a directory, the hash of the
/// target of a symbolic link, and zeros where there is none.
pub open spec fn content_hash(e: EntryModel) -> Seq<u8> {
    match e.kind {
        EntryKind::File => match e.hash {
            Some(h) => h,
            None => no_hash(),
        },
        EntryKind::Directory => match e.dir_hash {
            Some(h) => h,
            None => no_hash(),
        },
        EntryKind::Symlink => match e.symlink_target {
            Some(t) => checksum::digest(t),
            None => no_hash(),
        },
    }
}

/// The name of an entry in its directory; empty for the root.
pub open spec fn name_of(e: EntryModel) -> Seq<u8> {
    if e.path.len() == 0 {
        Seq::empty()
    } else {
        e.path.last()
    }
}

/// What an entry adds to the hash of its directory.
pub open spec fn child_record(e: EntryModel) -> Seq<u8> {
    name_of(e) + seq![0u8, e.kind.number()] + content_hash(e) + bytes::le_bytes(
        e.metadata.permissions as nat,
        4,
    ) + bytes::le_bytes(e.metadata.uid as nat, 4) + bytes::le_bytes(e.metadata.gid as nat, 4)
        + bytes::le_bytes(e.metadata.mtime_sec as u64 as nat, 8) + bytes::le_bytes(
        e.metadata.mtime_nsec as nat,
        4,
    ) + bytes::le_bytes(
        if e.kind == EntryKind::File {
            e.metadata.size as nat
        } else {
            0
        },
        8,
    )
}

/// What some entries add to the hash of their directory, in order.
pub open spec fn child_records(es: Seq<EntryModel>, children: Seq<usize>) -> Seq<u8>
    decreases children.len(),
{
    if children.len() == 0 {
        Seq::empty()
    } else {
        child_records(es, children.drop_last()) + child_record(es[children.last() as int])
    }
}

/// Whether entry `j` lies directly in the directory with the path of entry `i`.
pub open spec fn is_child(es: Seq<EntryModel>, i: int, j: int) -> bool {
    es[j].path.len() > 0 && es[j].path.drop_last() == es[i].path
}

/// Whether entry `i` is a directory, and the first one with its path.
pub open spec fn is_first_dir(es: Seq<EntryModel>, i: int) -> bool {
    &&& es[i].kind == EntryKind::Directory
    &&& forall|j: int|
        0 <= j < i && (#[trigger] es[j]).kind == EntryKind::Directory ==> es[j].path != es[i].path
}

/// Whether entry `a` comes in front of entry `b` among the children of a
/// directory: by name, and by position where the names tie.
pub open spec fn name_before(es: Seq<EntryModel>, a: int, b: int) -> bool {
    order::bytes_lt(name_of(es[a]), name_of(es[b])) || (name_of(es[a]) == name_of(es[b]) && a < b)
}

/// Whether `children` are the children of directory `i`, in the order of their
/// names. Of several directories with the same path the first has them all.
pub open spec fn are_children(es: Seq<EntryModel>, i: int, children: Seq<usize>) -> bool {
    &&& forall|k: int|
        0 <= k < children.len() ==> (#[trigger] children[k]) < es.len() && is_child(
            es,
            i,
            children[k] as int,
        )
    &&& forall|a: int, b: int|
        0 <= a < b < children.len() ==> name_before(
            es,
            #[trigger] children[a] as int,
            #[trigger] children[b] as int,
        )
    &&& if is_first_dir(es, i) {
        forall|j: usize| j < es.len() && is_child(es, i, j as int) ==> #[trigger] children.contains(j)
    } else {
        children.len() == 0
    }
}

/// Whether `h` is the hash over the children of directory `i`.
pub open spec fn is_dir_hash(es: Seq<EntryModel>, i: int, h: Option<Seq<u8>>) -> bool {
    exists|children: Seq<usize>|
        are_children(es, i, children) && h == Some(
            checksum::digest(#[trigger] child_records(es, children)),
        )
}

/// Whether the directories of `es` hold the hashes over their children, as they
/// are in `es`.
pub open spec fn dirs_are_hashed(es: Seq<EntryModel>) -> bool {
    forall|i: int|
        0 <= i < es.len() && (#[trigger] es[i]).kind == EntryKind::Directory ==> is_dir_hash(
            es,
            i,
            es[i].dir_hash,
        )
}

/// An entry with another hash over its children.
pub open spec fn with_dir_hash(e: EntryModel, h: Option<Seq<u8>>) -> EntryModel {
    EntryModel { dir_hash: h, ..e }
}

/// Whether two lists of entries differ at most in the hashes of directories.
pub open spec fn same_but_dir_hashes(a: Seq<EntryModel>, b: Seq<EntryModel>) -> bool {
    &&& a.len() == b.len()
    &&& forall|i: int|
        0 <= i < a.len() ==> with_dir_hash(#[trigger] a[i], None) == with_dir_hash(b[i], None)
    &&& forall|i: int|
        0 <= i < a.len() && (#[trigger] a[i]).kind != EntryKind::Directory ==> a[i] == b[i]
}

fn push_bytes(out: &mut Vec<u8>, data: &[u8])
    ensures
        final(out)@ == old(out)@ + data@,
{
    out.extend_from_slice(data);
    assert(out@ =~= old(out)@ + data@);
}

fn zeros() -> (r: [u8; 16])
    ensures
        r@ == no_hash(),
{
    let r: [u8; 16] = [0, 0, 0, 0, 0, 0, 0, 0, 0, 0, 0, 0, 0, 0, 0, 0];
    assert(r@ =~= no_hash());
    r
}

fn content_hash_of(e: &Entry) -> (r: [u8; 16])
    ensures
        r@ == content_hash(e@),
{
    match e.kind {
        EntryKind::File => match e.hash {
            Some(h) => h,
            None => zeros(),
        },
        EntryKind::Directory => match e.dir_hash {
            Some(h) => h,
            None => zeros(),
        },
        EntryKind::Symlink => match &e.symlink_target {
            Some(target) => {
                let mut h = FileHasher::new();
                h.update(target.as_slice());
                assert(h.content() =~= target@);
                h.finish()
            },
            None => zeros(),
        },
    }
}

fn child_record_of(e: &Entry) -> (r: Vec<u8>)
    ensures
        r@ == child_record(e@),
{
    let mut r: Vec<u8> = Vec::new();
    push_bytes(&mut r, e.path.name());
    push_bytes(&mut r, &[0u8, e.kind.code()]);
    assert(r@ =~= name_of(e@) + seq![0u8, e@.kind.number()]);
    push_bytes(&mut r, content_hash_of(e).as_slice());
    bytes::push_le(&mut r, e.metadata.permissions as u128, 4);
    bytes::push_le(&mut r, e.metadata.uid as u128, 4);
    bytes::push_le(&mut r, e.metadata.gid as u128, 4);
    bytes::push_le(&mut r, e.metadata.mtime_sec as u64 as u128, 8);
    bytes::push_le(&mut r, e.metadata.mtime_nsec as u128, 4);
    let size: u64 = match e.kind {
        EntryKind::File => e.metadata.size,
        _ => 0,
    };
    bytes::push_le(&mut r, size as u128, 8);
    r
}

/// The name of an entry, as a key to sort by.
#[derive(Debug)]
struct ByName {
    name: Vec<u8>,
}

impl SortKey for ByName {
    closed spec fn at_most(&self, other: &Self) -> bool {
        !order::bytes_lt(other.name@, self.name@)
    }

    proof fn lemma_total(a: &Self, b: &Self) {
        if order::bytes_lt(a.name@, b.name@) && order::bytes_lt(b.name@, a.name@) {
            order::lemma_bytes_lt_transitive(a.name@, b.name@, a.name@);
            order::lemma_bytes_lt_irreflexive(a.name@);
        }
    }

    proof fn lemma_transitive(a: &Self, b: &Self, c: &Self) {
        order::lemma_bytes_lt_total(b.name@, c.name@);
        if order::bytes_lt(c.name@, a.name@) {
            if order::bytes_lt(b.name@, c.name@) {
                order::lemma_bytes_lt_transitive(b.name@, c.name@, a.name@);
            }
        }
    }

    fn is_at_most(&self, other: &Self) -> (r: bool) {
        match order::rank_bytes(other.name.as_slice(), self.name.as_slice()) {
            Rank::Less => false,
            _ => true,
        }
    }
}

/// The positions of entries in the order of their names.
fn order_by_name(entries: &Vec<Entry>) -> (r: Vec<usize>)
    ensures
        r@.len() == entries@.len(),
        forall|k: int| 0 <= k < r@.len() ==> (#[trigger] r@[k]) < entries@.len(),
        forall|x: usize| x < entries@.len() ==> #[trigger] r@.contains(x),
        forall|a: int, b: int|
            0 <= a < b < r@.len() ==> name_before(
                entry::entry_views(entries@),
                #[trigger] r@[a] as int,
                #[trigger] r@[b] as int,
            ),
{
    let ghost es = entry::entry_views(entries@);
    let mut keys: Vec<ByName> = Vec::new();
    let mut i: usize = 0;
    while i < entries.len()
        invariant
            i <= entries@.len(),
            es == entry::entry_views(entries@),
            keys@.len() == i,
            forall|k: int| 0 <= k < i ==> (#[trigger] keys@[k]).name@ == name_of(es[k]),
        decreases entries@.len() - i,
    {
        let mut name: Vec<u8> = Vec::new();
        push_bytes(&mut name, entries[i].path.name());
        assert(name@ =~= name_of(es[i as int]));
        keys.push(ByName { name });
        i = i + 1;
    }
    let r = sort::stable_order(&keys);
    proof {
        assert forall|a: int, b: int| 0 <= a < b < r@.len() implies name_before(
            es,
            #[trigger] r@[a] as int,
            #[trigger] r@[b] as int,
        ) by {
            let x = r@[a] as int;
            let y = r@[b] as int;
            assert(sort::comes_before(keys@, x, y));
            order::lemma_bytes_lt_total(keys@[x].name@, keys@[y].name@);
            order::lemma_bytes_lt_irreflexive(keys@[x].name@);
        }
    }
    r
}

/// The first directory with each path.
fn first_dirs(entries: &Vec<Entry>) -> (r: PathMap<usize>)
    ensures
        r.wf(),
        ({
            let es = entry::entry_views(entries@);
            &&& forall|p: Seq<Seq<u8>>| #[trigger]
                r@.dom().contains(p) ==> r@[p] < es.len() && es[r@[p] as int].path == p
                    && is_first_dir(es, r@[p] as int)
            &&& forall|i: int|
                0 <= i < es.len() && (#[trigger] es[i]).kind == EntryKind::Directory
                    ==> r@.dom().contains(es[i].path)
        }),
{
    let ghost es = entry::entry_views(entries@);
    let mut r: PathMap<usize> = PathMap::new();
    let mut i: usize = 0;
    while i < entries.len()
        invariant
            i <= entries@.len(),
            es == entry::entry_views(entries@),
            r.wf(),
            forall|p: Seq<Seq<u8>>| #[trigger]
                r@.dom().contains(p) ==> r@[p] < i && es[r@[p] as int].path == p && is_first_dir(
                    es,
                    r@[p] as int,
                ),
            forall|k: int|
                0 <= k < i && (#[trigger] es[k]).kind == EntryKind::Directory
                    ==> r@.dom().contains(es[k].path),
        decreases entries@.len() - i,
    {
        let e = &entries[i];
        assert(es[i as int] == e@);
        if e.kind == EntryKind::Directory && !r.contains(&e.path) {
            assert(is_first_dir(es, i as int));
            r.insert(e.path.clone(), i);
        }
        i = i + 1;
    }
    r
}

/// The children of each directory, in the order of their names.
fn children_of_dirs(entries: &Vec<Entry>) -> (r: Vec<Vec<usize>>)
    ensures
        r@.len() == entries@.len(),
        forall|i: int|
            0 <= i < entries@.len() && (#[trigger] entries@[i]).kind == EntryKind::Directory
                ==> are_children(entry::entry_views(entries@), i, r@[i]@),
{
    let ghost es = entry::entry_views(entries@);
    let n: usize = entries.len();
    let by_name = order_by_name(entries);
    let dirs = first_dirs(entries);
    let mut r: Vec<Vec<usize>> = Vec::new();
    let mut i: usize = 0;
    while i < n
        invariant
            i <= n,
            r@.len() == i,
            forall|k: int| 0 <= k < i ==> (#[trigger] r@[k])@.len() == 0,
        decreases n - i,
    {
        r.push(Vec::new());
        i = i + 1;
    }
    let mut k: usize = 0;
    while k < n
        invariant
            k <= n,
            n == entries@.len() == r@.len() == by_name@.len(),
            es == entry::entry_views(entries@),
            dirs.wf(),
            forall|p: Seq<Seq<u8>>| #[trigger]
                dirs@.dom().contains(p) ==> dirs@[p] < es.len() && es[dirs@[p] as int].path == p
                    && is_first_dir(es, dirs@[p] as int),
            forall|i: int|
                0 <= i < es.len() && (#[trigger] es[i]).kind == EntryKind::Directory
                    ==> dirs@.dom().contains(es[i].path),
            forall|a: int| 0 <= a < n ==> (#[trigger] by_name@[a]) < n,
            forall|a: int, b: int|
                0 <= a < b < n ==> name_before(
                    es,
                    #[trigger] by_name@[a] as int,
                    #[trigger] by_name@[b] as int,
                ),
            // Every list holds, in order, what has been seen of the children.
            forall|i: int, a: int|
                #![trigger r@[i]@[a]]
                0 <= i < n && 0 <= a < r@[i]@.len() ==> {
                    &&& r@[i]@[a] < n
                    &&& is_first_dir(es, i)
                    &&& is_child(es, i, r@[i]@[a] as int)
                    &&& exists|x: int| 0 <= x < k && by_name@[x] == r@[i]@[a]
                },
            forall|i: int, a: int, b: int|
                #![trigger r@[i]@[a], r@[i]@[b]]
                0 <= i < n && 0 <= a < b < r@[i]@.len() ==> name_before(
                    es,
                    r@[i]@[a] as int,
                    r@[i]@[b] as int,
                ),
            forall|i: int, x: int|
                #![trigger is_child(es, i, by_name@[x] as int)]
                0 <= i < n && 0 <= x < k && is_first_dir(es, i) && is_child(
                    es,
                    i,
                    by_name@[x] as int,
                ) ==> r@[i]@.contains(by_name@[x]),
        decreases n - k,
    {
        let j: usize = by_name[k];
        let ghost before = r@;
        let ghost mut to: int = -1;
        match entries[j].path.parent() {
            Some(parent) => {
                match dirs.get(&parent) {
                    Some(found) => {
                        let d: usize = *found;
                        proof {
                            to = d as int;
                        }
                        r[d].push(j);
                    },
                    None => {},
                }
            },
            None => {},
        }
        proof {
            lemma_children_step(es, before, r@, by_name@, k as int, j, to);
        }
        k = k + 1;
    }
    proof {
        assert forall|i: int|
            0 <= i < n && (#[trigger] entries@[i]).kind == EntryKind::Directory implies are_children(
            es,
            i,
            r@[i]@,
        ) by {
            if is_first_dir(es, i) {
                assert forall|j: usize| j < es.len() && is_child(es, i, j as int) implies
                    #[trigger] r@[i]@.contains(j) by {
                    assert(by_name@.contains(j));
                    let x = choose|x: int| 0 <= x < by_name@.len() && by_name@[x] == j;
                    assert(is_child(es, i, by_name@[x] as int));
                }
            } else {
                if r@[i]@.len() > 0 {
                    assert(r@[i]@[0] < n);
                }
            }
        }
    }
    r
}

/// What appending one entry to the list of its directory does.
proof fn lemma_children_step(
    es: Seq<EntryModel>,
    before: Seq<Vec<usize>>,
    after: Seq<Vec<usize>>,
    by_name: Seq<usize>,
    k: int,
    j: usize,
    to: int,
)
    requires
        0 <= k < es.len(),
        es.len() == before.len() == after.len() == by_name.len(),
        j == by_name[k],
        j < es.len(),
        -1 <= to < es.len(),
        to >= 0 ==> is_first_dir(es, to) && is_child(es, to, j as int),
        to < 0 ==> forall|i: int| 0 <= i < es.len() && is_first_dir(es, i) ==> !is_child(
            es,
            i,
            j as int,
        ),
        forall|i: int| 0 <= i < es.len() && i != to ==> after[i] == before[i],
        to >= 0 ==> after[to]@ == before[to]@.push(j),
        forall|a: int, b: int|
            0 <= a < b < es.len() ==> name_before(
                es,
                #[trigger] by_name[a] as int,
                #[trigger] by_name[b] as int,
            ),
        forall|i: int, a: int|
            #![trigger before[i]@[a]]
            0 <= i < es.len() && 0 <= a < before[i]@.len() ==> {
                &&& before[i]@[a] < es.len()
                &&& is_first_dir(es, i)
                &&& is_child(es, i, before[i]@[a] as int)
                &&& exists|x: int| 0 <= x < k && by_name[x] == before[i]@[a]
            },
        forall|i: int, a: int, b: int|
            #![trigger before[i]@[a], before[i]@[b]]
            0 <= i < es.len() && 0 <= a < b < before[i]@.len() ==> name_before(
                es,
                before[i]@[a] as int,
                before[i]@[b] as int,
            ),
        forall|i: int, x: int|
            #![trigger is_child(es, i, by_name[x] as int)]
            0 <= i < es.len() && 0 <= x < k && is_first_dir(es, i) && is_child(
                es,
                i,
                by_name[x] as int,
            ) ==> before[i]@.contains(by_name[x]),
    ensures
        forall|i: int, a: int|
            #![trigger after[i]@[a]]
            0 <= i < es.len() && 0 <= a < after[i]@.len() ==> {
                &&& after[i]@[a] < es.len()
                &&& is_first_dir(es, i)
                &&& is_child(es, i, after[i]@[a] as int)
                &&& exists|x: int| 0 <= x < k + 1 && by_name[x] == after[i]@[a]
            },
        forall|i: int, a: int, b: int|
            #![trigger after[i]@[a], after[i]@[b]]
            0 <= i < es.len() && 0 <= a < b < after[i]@.len() ==> name_before(
                es,
                after[i]@[a] as int,
                after[i]@[b] as int,
            ),
        forall|i: int, x: int|
            #![trigger is_child(es, i, by_name[x] as int)]
            0 <= i < es.len() && 0 <= x < k + 1 && is_first_dir(es, i) && is_child(
                es,
                i,
                by_name[x] as int,
            ) ==> after[i]@.contains(by_name[x]),
{
    assert forall|i: int, a: int| #![trigger after[i]@[a]]
        0 <= i < es.len() && 0 <= a < after[i]@.len() implies {
        &&& after[i]@[a] < es.len()
        &&& is_first_dir(es, i)
        &&& is_child(es, i, after[i]@[a] as int)
        &&& exists|x: int| 0 <= x < k + 1 && by_name[x] == after[i]@[a]
    } by {
        if i == to && a == before[i]@.len() {
            assert(by_name[k] == after[i]@[a]);
        } else {
            assert(after[i]@[a] == before[i]@[a]);
            let x = choose|x: int| 0 <= x < k && by_name[x] == before[i]@[a];
            assert(0 <= x < k + 1 && by_name[x] == after[i]@[a]);
        }
    }
    assert forall|i: int, a: int, b: int| #![trigger after[i]@[a], after[i]@[b]]
        0 <= i < es.len() && 0 <= a < b < after[i]@.len() implies name_before(
        es,
        after[i]@[a] as int,
        after[i]@[b] as int,
    ) by {
        assert(after[i]@[a] == before[i]@[a]);
        if i == to && b == before[i]@.len() {
            let x = choose|x: int| 0 <= x < k && by_name[x] == before[i]@[a];
            assert(name_before(es, by_name[x] as int, by_name[k] as int));
        } else {
            assert(after[i]@[b] == before[i]@[b]);
        }
    }
    assert forall|i: int, x: int| #![trigger is_child(es, i, by_name[x] as int)]
        0 <= i < es.len() && 0 <= x < k + 1 && is_first_dir(es, i) && is_child(
        es,
        i,
        by_name[x] as int,
    ) implies after[i]@.contains(by_name[x]) by {
        if x == k {
            assert(to >= 0);
            if i != to {
                assert(es[i].path == es[to].path);
                if i < to {
                    assert(es[i].path != es[to].path);
                } else {
                    assert(es[to].path != es[i].path);
                }
            }
            assert(after[to]@[before[to]@.len() as int] == j);
        } else {
            assert(before[i]@.contains(by_name[x]));
            let a = choose|a: int| 0 <= a < before[i]@.len() && before[i]@[a] == by_name[x];
            assert(after[i]@[a] == by_name[x]);
        }
    }
}

/// The hash over the given children of a directory.
fn hash_children(entries: &Vec<Entry>, children: &Vec<usize>) -> (r: [u8; 16])
    requires
        forall|k: int| 0 <= k < children@.len() ==> (#[trigger] children@[k]) < entries@.len(),
    ensures
        r@ == checksum::digest(child_records(entry::entry_views(entries@), children@)),
{
    let ghost es = entry::entry_views(entries@);
    let mut hasher = FileHasher::new();
    let mut i: usize = 0;
    assert(children@.take(0) =~= Seq::empty());
    while i < children.len()
        invariant
            i <= children@.len(),
            es == entry::entry_views(entries@),
            forall|k: int| 0 <= k < children@.len() ==> (#[trigger] children@[k]) < entries@.len(),
            hasher.content() == child_records(es, children@.take(i as int)),
        decreases children@.len() - i,
    {
        proof {
            let upto = children@.take(i + 1);
            assert(upto.drop_last() =~= children@.take(i as int));
            assert(upto.last() == children@[i as int]);
        }
        let c: usize = children[i];
        hasher.update(child_record_of(&entries[c]).as_slice());
        i = i + 1;
    }
    assert(children@.take(i as int) =~= children@);
    hasher.finish()
}

/// Entries in which only hashes over children differ have the same children.
proof fn lemma_are_children_same(
    a: Seq<EntryModel>,
    b: Seq<EntryModel>,
    i: int,
    children: Seq<usize>,
)
    requires
        same_but_dir_hashes(a, b),
        0 <= i < a.len(),
        are_children(a, i, children),
    ensures
        are_children(b, i, children),
{
    assert forall|k: int| 0 <= k < a.len() implies (#[trigger] a[k]).path == b[k].path && a[k].kind
        == b[k].kind by {
        assert(with_dir_hash(a[k], None) == with_dir_hash(b[k], None));
    }
    assert(a[i].path == b[i].path);
    assert(is_first_dir(a, i) == is_first_dir(b, i)) by {
        if is_first_dir(a, i) {
            assert forall|j: int|
                0 <= j < i && (#[trigger] b[j]).kind == EntryKind::Directory implies b[j].path
                != b[i].path by {
                assert(a[j].kind == EntryKind::Directory);
            }
        }
        if is_first_dir(b, i) {
            assert forall|j: int|
                0 <= j < i && (#[trigger] a[j]).kind == EntryKind::Directory implies a[j].path
                != a[i].path by {
                assert(b[j].kind == EntryKind::Directory);
            }
        }
    }
    assert forall|j: int| 0 <= j < a.len() implies is_child(a, i, j) == #[trigger] is_child(
        b,
        i,
        j,
    ) by {
        assert(a[j].path == b[j].path);
    }
    assert forall|x: int, y: int|
        0 <= x < a.len() && 0 <= y < a.len() implies name_before(a, x, y)
        == #[trigger] name_before(b, x, y) by {
        assert(a[x].path == b[x].path && a[y].path == b[y].path);
    }
    assert forall|k: int| 0 <= k < children.len() implies (#[trigger] children[k]) < b.len()
        && is_child(b, i, children[k] as int) by {
        assert(is_child(a, i, children[k] as int) == is_child(b, i, children[k] as int));
    }
    assert forall|x: int, y: int| 0 <= x < y < children.len() implies name_before(
        b,
        #[trigger] children[x] as int,
        #[trigger] children[y] as int,
    ) by {
        assert(name_before(a, children[x] as int, children[y] as int));
        assert(name_before(a, children[x] as int, children[y] as int) == name_before(
            b,
            children[x] as int,
            children[y] as int,
        ));
    }
}

/// The hash over some children does not depend on other entries.
proof fn lemma_child_records_same(a: Seq<EntryModel>, b: Seq<EntryModel>, children: Seq<usize>)
    requires
        forall|k: int| 0 <= k < children.len() ==> a[(#[trigger] children[k]) as int] == b[children[k] as int],
    ensures
        child_records(a, children) == child_records(b, children),
    decreases children.len(),
{
    if children.len() > 0 {
        let front = children.drop_last();
        assert forall|k: int| 0 <= k < front.len() implies a[(#[trigger] front[k]) as int]
            == b[front[k] as int] by {
            assert(front[k] == children[k]);
        }
        lemma_child_records_same(a, b, front);
        assert(children[children.len() - 1] == children.last());
    }
}

/// Computes the hashes of all directories from the bottom up: the hash over a
/// directory's children holds those of its subdirectories.
pub fn compute_dir_hashes(entries: &mut Vec<Entry>)
    ensures
        same_but_dir_hashes(
            entry::entry_views(old(entries)@),
            entry::entry_views(final(entries)@),
        ),
        dirs_are_hashed(entry::entry_views(final(entries)@)),
{
    let ghost start = entry::entry_views(entries@);
    let n: usize = entries.len();
    let children = children_of_dirs(entries);
    let mut depths: Vec<DeepestFirst> = Vec::new();
    let mut i: usize = 0;
    while i < n
        invariant
            i <= n == entries@.len(),
            depths@.len() == i,
            start == entry::entry_views(entries@),
            forall|k: int| 0 <= k < i ==> (#[trigger] depths@[k]).0 == start[k].path.len(),
        decreases n - i,
    {
        depths.push(DeepestFirst(entries[i].path.depth()));
        i = i + 1;
    }
    let by_depth = sort::stable_order(&depths);
    let mut k: usize = 0;
    assert(same_but_dir_hashes(start, start));
    while k < n
        invariant
            k <= n == entries@.len() == children@.len() == by_depth@.len() == start.len(),
            depths@.len() == n,
            sort::is_stable_order(depths@, by_depth@),
            forall|x: int| 0 <= x < n ==> (#[trigger] depths@[x]).0 == start[x].path.len(),
            forall|x: int|
                0 <= x < n && (#[trigger] start[x]).kind == EntryKind::Directory ==> are_children(
                    start,
                    x,
                    children@[x]@,
                ),
            same_but_dir_hashes(start, entry::entry_views(entries@)),
            forall|a: int|
                0 <= a < k && start[(#[trigger] by_depth@[a]) as int].kind == EntryKind::Directory
                    ==> entry::entry_views(entries@)[by_depth@[a] as int].dir_hash == Some(
                    checksum::digest(
                        child_records(
                            entry::entry_views(entries@),
                            children@[by_depth@[a] as int]@,
                        ),
                    ),
                ),
        decreases n - k,
    {
        let d: usize = by_depth[k];
        let ghost before = entry::entry_views(entries@);
        assert(with_dir_hash(start[d as int], None) == with_dir_hash(before[d as int], None));
        assert(before[d as int] == entries@[d as int]@);
        if entries[d].kind == EntryKind::Directory {
            assert(are_children(start, d as int, children@[d as int]@));
            let h = hash_children(entries, &children[d]);
            let mut e = entries[d].clone();
            e.dir_hash = Some(h);
            entries[d] = e;
            proof {
                let after = entry::entry_views(entries@);
                assert(after =~= before.update(d as int, with_dir_hash(before[d as int], Some(h@))));
                assert forall|x: int| 0 <= x < n implies with_dir_hash(#[trigger] start[x], None)
                    == with_dir_hash(after[x], None) by {
                    assert(with_dir_hash(start[x], None) == with_dir_hash(before[x], None));
                }
                assert forall|x: int|
                    0 <= x < n && (#[trigger] start[x]).kind != EntryKind::Directory implies start[x]
                    == after[x] by {
                    assert(start[x] == before[x]);
                }
                assert forall|a: int|
                    0 <= a < k + 1 && start[(#[trigger] by_depth@[a]) as int].kind
                        == EntryKind::Directory implies after[by_depth@[a] as int].dir_hash == Some(
                    checksum::digest(child_records(after, children@[by_depth@[a] as int]@)),
                ) by {
                    let x = by_depth@[a] as int;
                    assert(are_children(start, x, children@[x]@));
                    // The directory that was just hashed is no child of one that
                    // was hashed before, nor of itself.
                    if a < k {
                        assert(sort::comes_before(depths@, x, d as int));
                    }
                    assert(depths@[x].0 == start[x].path.len());
                    assert(depths@[d as int].0 == start[d as int].path.len());
                    assert forall|c: int| 0 <= c < children@[x]@.len() implies before[(
                    #[trigger] children@[x]@[c]) as int] == after[children@[x]@[c] as int] by {
                        assert(is_child(start, x, children@[x]@[c] as int));
                    }
                    lemma_child_records_same(before, after, children@[x]@);
                    if a < k && x == d {
                        assert(sort::comes_before(depths@, x, d as int));
                        assert(false);
                    }
                }
            }
        }
        k = k + 1;
    }
    proof {
        let es = entry::entry_views(entries@);
        assert forall|x: int|
            0 <= x < es.len() && (#[trigger] es[x]).kind == EntryKind::Directory implies is_dir_hash(
            es,
            x,
            es[x].dir_hash,
        ) by {
            assert(with_dir_hash(start[x], None) == with_dir_hash(es[x], None));
            assert(start[x].kind == EntryKind::Directory);
            assert(by_depth@.contains(x as usize));
            let a = choose|a: int| 0 <= a < by_depth@.len() && by_depth@[a] == x as usize;
            assert(by_depth@[a] == x);
            assert(are_children(start, x, children@[x]@));
            lemma_are_children_same(start, es, x, children@[x]@);
            assert(es[x].dir_hash == Some(checksum::digest(child_records(es, children@[x]@))));
        }
    }
}

/// There is only one order of the children of a directory.
proof fn lemma_children_unique(
    es: Seq<EntryModel>,
    i: int,
    a: Seq<usize>,
    b: Seq<usize>,
)
    requires
        are_children(es, i, a),
        are_children(es, i, b),
    ensures
        a == b,
{
    if is_first_dir(es, i) {
        assert(a.take(0) =~= b.take(0));
        lemma_same_sorted(es, i, a, b, 0);
        assert(a.skip(0) =~= a);
        assert(b.skip(0) =~= b);
    } else {
        assert(a =~= b);
    }
}

proof fn lemma_name_before_asymmetric(es: Seq<EntryModel>, x: int, y: int)
    ensures
        !(name_before(es, x, y) && name_before(es, y, x)),
{
    let p = name_of(es[x]);
    let q = name_of(es[y]);
    order::lemma_bytes_lt_irreflexive(p);
    if order::bytes_lt(p, q) && order::bytes_lt(q, p) {
        order::lemma_bytes_lt_transitive(p, q, p);
    }
}

/// Two lists that agree in front of `k` agree from there on.
proof fn lemma_same_sorted(es: Seq<EntryModel>, i: int, a: Seq<usize>, b: Seq<usize>, k: int)
    requires
        are_children(es, i, a),
        are_children(es, i, b),
        is_first_dir(es, i),
        0 <= k <= a.len(),
        k <= b.len(),
        a.take(k) == b.take(k),
    ensures
        a.skip(k) == b.skip(k),
    decreases a.len() - k,
{
    if k < a.len() && k < b.len() {
        let x = a[k];
        let y = b[k];
        if x != y {
            // Each of the two occurs in the other list, and not in front of `k`.
            assert(is_child(es, i, x as int) && is_child(es, i, y as int));
            assert(b.contains(x) && a.contains(y));
            let p = choose|p: int| 0 <= p < b.len() && b[p] == x;
            let q = choose|q: int| 0 <= q < a.len() && a[q] == y;
            if p < k {
                assert(a.take(k)[p] == a[p] && b.take(k)[p] == b[p]);
                assert(name_before(es, a[p] as int, a[k] as int));
                lemma_name_before_asymmetric(es, x as int, x as int);
            } else {
                assert(name_before(es, b[k] as int, b[p] as int));
            }
            if q < k {
                assert(a.take(k)[q] == a[q] && b.take(k)[q] == b[q]);
                assert(name_before(es, b[q] as int, b[k] as int));
                lemma_name_before_asymmetric(es, y as int, y as int);
            } else {
                assert(name_before(es, a[k] as int, a[q] as int));
            }
            lemma_name_before_asymmetric(es, x as int, y as int);
        }
        assert(a.take(k + 1) =~= a.take(k).push(x));
        assert(b.take(k + 1) =~= b.take(k).push(y));
        lemma_same_sorted(es, i, a, b, k + 1);
        assert(a.skip(k) =~= seq![x] + a.skip(k + 1));
        assert(b.skip(k) =~= seq![y] + b.skip(k + 1));
    } else if k < a.len() {
        lemma_no_more(es, i, a, b, k);
    } else if k < b.len() {
        assert(b.take(k) == a.take(k));
        lemma_no_more(es, i, b, a, k);
    } else {
        assert(a.skip(k) =~= b.skip(k));
    }
}

/// A list that holds all children does not end in front of another.
proof fn lemma_no_more(es: Seq<EntryModel>, i: int, a: Seq<usize>, b: Seq<usize>, k: int)
    requires
        are_children(es, i, a),
        are_children(es, i, b),
        is_first_dir(es, i),
        b.len() == k < a.len(),
        a.take(k) == b.take(k),
    ensures
        a.skip(k) == b.skip(k),
{
    let x = a[k];
    assert(is_child(es, i, x as int));
    assert(b.contains(x));
    let p = choose|p: int| 0 <= p < b.len() && b[p] == x;
    assert(a.take(k)[p] == a[p] && b.take(k)[p] == b[p]);
    assert(name_before(es, a[p] as int, a[k] as int));
    lemma_name_before_asymmetric(es, x as int, x as int);
}

/// How deep the deepest of some entries is.
spec fn max_depth(es: Seq<EntryModel>) -> nat
    decreases es.len(),
{
    if es.len() == 0 {
        0
    } else if es.last().path.len() > max_depth(es.drop_last()) {
        es.last().path.len()
    } else {
        max_depth(es.drop_last())
    }
}

proof fn lemma_max_depth(es: Seq<EntryModel>, i: int)
    requires
        0 <= i < es.len(),
    ensures
        es[i].path.len() <= max_depth(es),
    decreases es.len(),
{
    if i < es.len() - 1 {
        lemma_max_depth(es.drop_last(), i);
    }
}

proof fn lemma_dir_hash_unique(a: Seq<EntryModel>, b: Seq<EntryModel>, i: int)
    requires
        same_but_dir_hashes(a, b),
        dirs_are_hashed(a),
        dirs_are_hashed(b),
        0 <= i < a.len(),
    ensures
        a[i] == b[i],
    decreases max_depth(a) - a[i].path.len(),
{
    assert(with_dir_hash(a[i], None) == with_dir_hash(b[i], None));
    if a[i].kind == EntryKind::Directory {
        assert(is_dir_hash(a, i, a[i].dir_hash));
        assert(b[i].kind == EntryKind::Directory);
        assert(is_dir_hash(b, i, b[i].dir_hash));
        let ca = choose|c: Seq<usize>|
            are_children(a, i, c) && a[i].dir_hash == Some(
                checksum::digest(#[trigger] child_records(a, c)),
            );
        let cb = choose|c: Seq<usize>|
            are_children(b, i, c) && b[i].dir_hash == Some(
                checksum::digest(#[trigger] child_records(b, c)),
            );
        lemma_are_children_same(a, b, i, ca);
        lemma_children_unique(b, i, ca, cb);
        assert forall|k: int| 0 <= k < ca.len() implies a[(#[trigger] ca[k]) as int]
            == b[ca[k] as int] by {
            let c = ca[k] as int;
            assert(is_child(a, i, c));
            lemma_max_depth(a, c);
            lemma_dir_hash_unique(a, b, c);
        }
        lemma_child_records_same(a, b, ca);
        assert(a[i] =~= b[i]);
    }
}

/// The hashes of directories are determined by everything else: entries that
/// agree but for these hashes, and hold the right ones, are the same. So
/// computing them again changes nothing, and old values do not matter.
pub proof fn law_dir_hashes_are_determined(a: Seq<EntryModel>, b: Seq<EntryModel>)
    requires
        same_but_dir_hashes(a, b),
        dirs_are_hashed(a),
        dirs_are_hashed(b),
    ensures
        a == b,
{
    assert forall|i: int| 0 <= i < a.len() implies a[i] == b[i] by {
        lemma_dir_hash_unique(a, b, i);
    }
    assert(a =~= b);
}

/// Whether no two entries have the same path.
pub open spec fn unique_paths(es: Seq<EntryModel>) -> bool {
    forall|i: int, j: int|
        0 <= i < es.len() && 0 <= j < es.len() && (#[trigger] es[i]).path == (#[trigger] es[j]).path
            ==> i == j
}

/// Whether everything that lies below a path in `a` is in `b` too, but for
/// hashes over children.
pub open spec fn is_part_below(a: Seq<EntryModel>, b: Seq<EntryModel>, p: Seq<Seq<u8>>) -> bool {
    forall|k: int|
        0 <= k < a.len() && path::is_under(p, (#[trigger] a[k]).path) ==> has_counterpart(b, a[k])
}

/// Whether an entry is in a list, but for hashes over children.
pub open spec fn has_counterpart(b: Seq<EntryModel>, e: EntryModel) -> bool {
    exists|l: int|
        0 <= l < b.len() && with_dir_hash(#[trigger] b[l], None) == with_dir_hash(e, None)
}

/// The names of the entries at some positions.
spec fn names_at(es: Seq<EntryModel>, at: Seq<usize>) -> Seq<Seq<u8>> {
    at.map_values(|i: usize| name_of(es[i as int]))
}

/// Whether names stand in their order, each one once.
spec fn names_sorted(names: Seq<Seq<u8>>) -> bool {
    forall|i: int, j: int|
        0 <= i < j < names.len() ==> order::bytes_lt(#[trigger] names[i], #[trigger] names[j])
}

/// Sorted names are determined by which names there are.
proof fn lemma_sorted_names_unique(a: Seq<Seq<u8>>, b: Seq<Seq<u8>>, k: int)
    requires
        names_sorted(a),
        names_sorted(b),
        forall|n: Seq<u8>| a.contains(n) <==> b.contains(n),
        0 <= k <= a.len(),
        k <= b.len(),
        forall|i: int| 0 <= i < k ==> a[i] == b[i],
    ensures
        a == b,
    decreases a.len() - k,
{
    if k < a.len() && k < b.len() {
        assert(a.contains(a[k]) && b.contains(b[k]));
        let p = choose|p: int| 0 <= p < b.len() && b[p] == a[k];
        let q = choose|q: int| 0 <= q < a.len() && a[q] == b[k];
        order::lemma_bytes_lt_irreflexive(a[k]);
        order::lemma_bytes_lt_irreflexive(b[k]);
        if p < k {
            assert(order::bytes_lt(a[p], a[k]));
        }
        if q < k {
            assert(order::bytes_lt(b[q], b[k]));
        }
        if p > k && q > k {
            assert(order::bytes_lt(b[k], b[p]) && order::bytes_lt(a[k], a[q]));
            order::lemma_bytes_lt_transitive(a[k], b[k], a[k]);
        }
        assert(a[k] == b[k]);
        lemma_sorted_names_unique(a, b, k + 1);
    } else if k < a.len() {
        assert(a.contains(a[k]));
        let p = choose|p: int| 0 <= p < b.len() && b[p] == a[k];
        assert(order::bytes_lt(a[p], a[k]));
        order::lemma_bytes_lt_irreflexive(a[k]);
    } else if k < b.len() {
        assert(b.contains(b[k]));
        let p = choose|p: int| 0 <= p < a.len() && a[p] == b[k];
        assert(order::bytes_lt(b[p], b[k]));
        order::lemma_bytes_lt_irreflexive(b[k]);
    } else {
        assert(a =~= b);
    }
}

proof fn lemma_child_names_sorted(es: Seq<EntryModel>, i: int, children: Seq<usize>)
    requires
        unique_paths(es),
        are_children(es, i, children),
    ensures
        names_sorted(names_at(es, children)),
{
    let names = names_at(es, children);
    assert forall|x: int, y: int| 0 <= x < y < names.len() implies order::bytes_lt(
        #[trigger] names[x],
        #[trigger] names[y],
    ) by {
        let p = children[x] as int;
        let q = children[y] as int;
        assert(name_before(es, p, q));
        if names[x] == names[y] {
            assert(is_child(es, i, p) && is_child(es, i, q));
            assert(es[p].path =~= es[i].path.push(names[x]));
            assert(es[q].path =~= es[i].path.push(names[y]));
        }
    }
}

/// A child of a directory in one list is a child of it in the other, under the
/// same name.
proof fn lemma_counterpart_is_child(
    a: Seq<EntryModel>,
    b: Seq<EntryModel>,
    i: int,
    j: int,
    ca: Seq<usize>,
    cb: Seq<usize>,
    k: int,
)
    requires
        b.len() <= usize::MAX,
        0 <= i < a.len(),
        0 <= j < b.len(),
        a[i].path == b[j].path,
        are_children(a, i, ca),
        are_children(b, j, cb),
        is_first_dir(b, j),
        is_part_below(a, b, a[i].path),
        0 <= k < ca.len(),
    ensures
        names_at(b, cb).contains(names_at(a, ca)[k]),
{
    let x = ca[k] as int;
    assert(is_child(a, i, x));
    path::law_parent_contains(a[x].path);
    assert(has_counterpart(b, a[x]));
    let l = choose|l: int|
        0 <= l < b.len() && with_dir_hash(#[trigger] b[l], None) == with_dir_hash(a[x], None);
    assert(b[l].path == a[x].path);
    assert(is_child(b, j, l as usize as int));
    assert(cb.contains(l as usize));
    let q = choose|q: int| 0 <= q < cb.len() && cb[q] == l as usize;
    assert(names_at(b, cb)[q] == name_of(b[l]));
}

proof fn lemma_is_part_below_deeper(
    a: Seq<EntryModel>,
    b: Seq<EntryModel>,
    p: Seq<Seq<u8>>,
    q: Seq<Seq<u8>>,
)
    requires
        is_part_below(a, b, p),
        path::is_under(p, q),
    ensures
        is_part_below(a, b, q),
{
    assert forall|k: int|
        0 <= k < a.len() && path::is_under(q, (#[trigger] a[k]).path) implies has_counterpart(
        b,
        a[k],
    ) by {
        path::law_contains_is_a_strict_order(p, q, a[k].path);
    }
}

proof fn lemma_same_records(
    a: Seq<EntryModel>,
    b: Seq<EntryModel>,
    ca: Seq<usize>,
    cb: Seq<usize>,
)
    requires
        ca.len() == cb.len(),
        forall|k: int|
            0 <= k < ca.len() ==> child_record(a[(#[trigger] ca[k]) as int]) == child_record(
                b[cb[k] as int],
            ),
    ensures
        child_records(a, ca) == child_records(b, cb),
    decreases ca.len(),
{
    if ca.len() > 0 {
        let fa = ca.drop_last();
        let fb = cb.drop_last();
        assert forall|k: int| 0 <= k < fa.len() implies child_record(a[(#[trigger] fa[k]) as int])
            == child_record(b[fb[k] as int]) by {
            assert(fa[k] == ca[k] && fb[k] == cb[k]);
        }
        lemma_same_records(a, b, fa, fb);
        assert(ca[ca.len() - 1] == ca.last());
    }
}

proof fn lemma_same_dir_hash(
    a: Seq<EntryModel>,
    b: Seq<EntryModel>,
    i: int,
    j: int,
)
    requires
        a.len() <= usize::MAX,
        b.len() <= usize::MAX,
        unique_paths(a),
        unique_paths(b),
        dirs_are_hashed(a),
        dirs_are_hashed(b),
        0 <= i < a.len(),
        0 <= j < b.len(),
        a[i].kind == EntryKind::Directory,
        b[j].kind == EntryKind::Directory,
        a[i].path == b[j].path,
        is_part_below(a, b, a[i].path),
        is_part_below(b, a, a[i].path),
    ensures
        a[i].dir_hash == b[j].dir_hash,
    decreases max_depth(a) - a[i].path.len(),
{
    let p = a[i].path;
    assert(is_dir_hash(a, i, a[i].dir_hash));
    assert(is_dir_hash(b, j, b[j].dir_hash));
    let ca = choose|c: Seq<usize>|
        are_children(a, i, c) && a[i].dir_hash == Some(
            checksum::digest(#[trigger] child_records(a, c)),
        );
    let cb = choose|c: Seq<usize>|
        are_children(b, j, c) && b[j].dir_hash == Some(
            checksum::digest(#[trigger] child_records(b, c)),
        );
    assert(is_first_dir(a, i) && is_first_dir(b, j));
    let na = names_at(a, ca);
    let nb = names_at(b, cb);
    lemma_child_names_sorted(a, i, ca);
    lemma_child_names_sorted(b, j, cb);
    assert forall|n: Seq<u8>| na.contains(n) <==> nb.contains(n) by {
        if na.contains(n) {
            let k = choose|k: int| 0 <= k < na.len() && na[k] == n;
            lemma_counterpart_is_child(a, b, i, j, ca, cb, k);
        }
        if nb.contains(n) {
            let k = choose|k: int| 0 <= k < nb.len() && nb[k] == n;
            lemma_counterpart_is_child(b, a, j, i, cb, ca, k);
        }
    }
    lemma_sorted_names_unique(na, nb, 0);
    assert forall|k: int| 0 <= k < ca.len() implies child_record(a[(#[trigger] ca[k]) as int])
        == child_record(b[cb[k] as int]) by {
        let x = ca[k] as int;
        let y = cb[k] as int;
        assert(is_child(a, i, x) && is_child(b, j, y));
        assert(na[k] == nb[k]);
        assert(a[x].path =~= p.push(na[k]));
        assert(b[y].path =~= p.push(nb[k]));
        path::law_parent_contains(a[x].path);
        assert(has_counterpart(b, a[x]));
        let l = choose|l: int|
            0 <= l < b.len() && with_dir_hash(#[trigger] b[l], None) == with_dir_hash(a[x], None);
        assert(b[l].path == b[y].path);
        assert(l == y);
        if a[x].kind == EntryKind::Directory {
            lemma_is_part_below_deeper(a, b, p, a[x].path);
            lemma_is_part_below_deeper(b, a, p, a[x].path);
            lemma_max_depth(a, x);
            lemma_same_dir_hash(a, b, x, y);
        }
        assert(content_hash(a[x]) == content_hash(b[y]));
    }
    lemma_same_records(a, b, ca, cb);
}

/// The hash of a directory depends only on what lies below it: not on anything
/// else in the tree, and not on the order in which the entries stand.
pub proof fn law_a_dir_hash_depends_on_what_lies_below(
    a: Seq<EntryModel>,
    b: Seq<EntryModel>,
    i: int,
    j: int,
)
    requires
        a.len() <= usize::MAX,
        b.len() <= usize::MAX,
        unique_paths(a),
        unique_paths(b),
        dirs_are_hashed(a),
        dirs_are_hashed(b),
        0 <= i < a.len(),
        0 <= j < b.len(),
        a[i].kind == EntryKind::Directory,
        b[j].kind == EntryKind::Directory,
        a[i].path == b[j].path,
        is_part_below(a, b, a[i].path),
        is_part_below(b, a, a[i].path),
    ensures
        a[i].dir_hash == b[j].dir_hash,
{
    lemma_same_dir_hash(a, b, i, j);
}

} // verus!
