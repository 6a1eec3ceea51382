//! What goes into the hash of a directory.

use crate::bytes;
use crate::format::checksum;
use crate::fs::hash;
use crate::laws::files;
use crate::laws::paths;
use crate::model::entry::{EntryKind, EntryModel};
use crate::order;
use vstd::prelude::*;

verus! {

/// Whether the hashes that an entry holds have sixteen bytes.
pub open spec fn has_whole_hashes(e: EntryModel) -> bool {
    &&& e.hash matches Some(h) ==> h.len() == 16
    &&& e.dir_hash matches Some(h) ==> h.len() == 16
}

/// The hash that stands for the content of an entry: of a file its own, of a
/// directory the one over its children, of a link that of its target; sixteen
/// zeros where there is none.
pub proof fn law_a_content_hash_is_that_of_the_content(e: EntryModel)
    requires
        has_whole_hashes(e),
    ensures
        hash::content_hash(e).len() == 16,
        e.kind == EntryKind::File && e.hash is Some ==> Some(hash::content_hash(e)) == e.hash,
        e.kind == EntryKind::Directory && e.dir_hash is Some ==> Some(hash::content_hash(e))
            == e.dir_hash,
        e.kind == EntryKind::Symlink ==> (e.symlink_target matches Some(t) ==> hash::content_hash(e)
            == checksum::digest(t)),
        ({
            let none = match e.kind {
                EntryKind::File => e.hash is None,
                EntryKind::Directory => e.dir_hash is None,
                EntryKind::Symlink => e.symlink_target is None,
            };
            none ==> forall|i: int| 0 <= i < 16 ==> #[trigger] hash::content_hash(e)[i] == 0
        }),
{
    if let Some(t) = e.symlink_target {
        files::law_a_checksum_is_stored_whole(t);
    }
}

/// The number that eight bytes of a time spell, which may lie in front of 1970.
pub open spec fn spells_time(value: nat, sec: i64) -> bool {
    if sec >= 0 {
        value == sec
    } else {
        value == sec + 0x1_0000_0000_0000_0000
    }
}

/// What an entry adds to the hash of its directory: its name, a zero, a byte for
/// its kind, the hash of its content, and its permissions, owner, group, time and
/// size, each in its place; the size of what is no file counts as zero.
pub proof fn law_a_child_is_recorded_whole(e: EntryModel)
    requires
        has_whole_hashes(e),
    ensures
        ({
            let r = hash::child_record(e);
            let n = hash::name_of(e).len() as int;
            let m = e.metadata;
            &&& r.len() == n + 50
            &&& e.path.len() == 0 ==> n == 0
            &&& e.path.len() > 0 ==> r.take(n) == e.path[e.path.len() - 1]
            &&& r[n] == 0
            &&& r[n + 1] == match e.kind {
                EntryKind::File => 0u8,
                EntryKind::Directory => 1u8,
                EntryKind::Symlink => 2u8,
            }
            &&& r.subrange(n + 2, n + 18) == hash::content_hash(e)
            &&& bytes::le_value(r.subrange(n + 18, n + 22)) == m.permissions
            &&& bytes::le_value(r.subrange(n + 22, n + 26)) == m.uid
            &&& bytes::le_value(r.subrange(n + 26, n + 30)) == m.gid
            &&& spells_time(bytes::le_value(r.subrange(n + 30, n + 38)), m.mtime_sec)
            &&& bytes::le_value(r.subrange(n + 38, n + 42)) == m.mtime_nsec
            &&& e.kind == EntryKind::File ==> bytes::le_value(r.subrange(n + 42, n + 50)) == m.size
            &&& e.kind != EntryKind::File ==> bytes::le_value(r.subrange(n + 42, n + 50)) == 0
        }),
{
    let r = hash::child_record(e);
    let n = hash::name_of(e).len() as int;
    let m = e.metadata;
    let none = Seq::<u8>::empty();
    law_a_content_hash_is_that_of_the_content(e);
    let sec = m.mtime_sec;
    assert(sec >= 0 ==> sec as u64 == sec) by (bit_vector);
    assert(sec < 0 ==> sec as u64 == sec + 0x1_0000_0000_0000_0000) by (bit_vector);
    let size: nat = if e.kind == EntryKind::File {
        m.size as nat
    } else {
        0
    };
    files::law_numbers_are_stored_least_significant_first(m.permissions as nat, 4, none);
    files::law_numbers_are_stored_least_significant_first(m.uid as nat, 4, none);
    files::law_numbers_are_stored_least_significant_first(m.gid as nat, 4, none);
    files::law_numbers_are_stored_least_significant_first(sec as u64 as nat, 8, none);
    files::law_numbers_are_stored_least_significant_first(m.mtime_nsec as nat, 4, none);
    files::law_numbers_are_stored_least_significant_first(size, 8, none);
    assert(r.take(n) =~= hash::name_of(e));
    assert(r.subrange(n + 2, n + 18) =~= hash::content_hash(e));
    assert(r.subrange(n + 18, n + 22) =~= bytes::le_bytes(m.permissions as nat, 4));
    assert(r.subrange(n + 22, n + 26) =~= bytes::le_bytes(m.uid as nat, 4));
    assert(r.subrange(n + 26, n + 30) =~= bytes::le_bytes(m.gid as nat, 4));
    assert(r.subrange(n + 30, n + 38) =~= bytes::le_bytes(sec as u64 as nat, 8));
    assert(r.subrange(n + 38, n + 42) =~= bytes::le_bytes(m.mtime_nsec as nat, 4));
    assert(r.subrange(n + 42, n + 50) =~= bytes::le_bytes(size, 8));
}

/// Entries that add the same to the hash of a directory are the same in name,
/// kind, content, permissions, owner, group and time, and in size if they are
/// files.
pub proof fn law_different_children_are_recorded_differently(a: EntryModel, b: EntryModel)
    requires
        has_whole_hashes(a),
        has_whole_hashes(b),
        a.path.len() > 0,
        b.path.len() > 0,
        hash::child_record(a) == hash::child_record(b),
    ensures
        a.path.last() == b.path.last(),
        a.kind == b.kind,
        a.kind == EntryKind::File && a.hash is Some && b.hash is Some ==> a.hash == b.hash,
        a.kind == EntryKind::Directory && a.dir_hash is Some && b.dir_hash is Some ==> a.dir_hash
            == b.dir_hash,
        a.metadata.permissions == b.metadata.permissions,
        a.metadata.uid == b.metadata.uid,
        a.metadata.gid == b.metadata.gid,
        a.metadata.mtime_sec == b.metadata.mtime_sec,
        a.metadata.mtime_nsec == b.metadata.mtime_nsec,
        a.kind == EntryKind::File ==> a.metadata.size == b.metadata.size,
{
    law_a_child_is_recorded_whole(a);
    law_a_child_is_recorded_whole(b);
    law_a_content_hash_is_that_of_the_content(a);
    law_a_content_hash_is_that_of_the_content(b);
}

/// Whether a directory is the first one with its path.
pub open spec fn is_first_with_its_path(es: Seq<EntryModel>, i: int) -> bool {
    &&& es[i].kind == EntryKind::Directory
    &&& forall|k: int|
        0 <= k < i ==> (#[trigger] es[k]).kind != EntryKind::Directory || es[k].path != es[i].path
}

/// The children of a directory are the entries whose paths are its own with one
/// name more, each once, by name, and by position where names are the same; what
/// they add stands one behind the other. A directory whose path another one has in
/// front of it has none.
pub proof fn law_every_child_has_its_place(
    es: Seq<EntryModel>,
    i: int,
    children: Seq<usize>,
    j: usize,
)
    requires
        0 <= i < es.len(),
        es.len() <= usize::MAX,
        es[i].kind == EntryKind::Directory,
        hash::are_children(es, i, children),
    ensures
        is_first_with_its_path(es, i) ==> (children.contains(j) <==> j < es.len()
            && es[j as int].path.len() == es[i].path.len() + 1 && paths::goes_on(
            es[i].path,
            es[j as int].path,
        )),
        !is_first_with_its_path(es, i) ==> children.len() == 0,
        children.no_duplicates(),
        forall|a: int, b: int|
            0 <= a < b < children.len() ==> {
                let m = es[#[trigger] children[a] as int].path.last();
                let n = es[#[trigger] children[b] as int].path.last();
                order::bytes_lt(m, n) || (m == n && children[a] < children[b])
            },
        hash::child_records(es, Seq::empty()) == Seq::<u8>::empty(),
        hash::child_records(es, children.push(j)) == hash::child_records(es, children)
            + hash::child_record(es[j as int]),
{
    assert(children.push(j).drop_last() =~= children);
    assert(hash::is_first_dir(es, i) <==> is_first_with_its_path(es, i));
    if j < es.len() {
        let p = es[j as int].path;
        let d = es[i].path;
        if hash::is_child(es, i, j as int) {
            assert forall|k: int| 0 <= k < d.len() implies d[k] == p[k] by {
                assert(p.drop_last()[k] == p[k]);
            }
        }
        if p.len() == d.len() + 1 && paths::goes_on(d, p) {
            assert(p.drop_last() =~= d);
        }
    }
    if children.contains(j) {
        let k = choose|k: int| 0 <= k < children.len() && children[k] == j;
        assert(children[k] < es.len());
    }
    assert forall|a: int, b: int| 0 <= a < b < children.len() implies {
        let m = es[#[trigger] children[a] as int].path.last();
        let n = es[#[trigger] children[b] as int].path.last();
        (order::bytes_lt(m, n) || (m == n && children[a] < children[b])) && children[a]
            != children[b]
    } by {
        let x = children[a] as int;
        let y = children[b] as int;
        assert(hash::name_before(es, x, y));
        assert(hash::is_child(es, i, x) && hash::is_child(es, i, y));
        order::lemma_bytes_lt_irreflexive(es[x].path.last());
    }
}

/// A directory that is hashed has the checksum of what its children add.
pub proof fn law_a_hashed_directory_has_the_checksum_of_its_children(
    es: Seq<EntryModel>,
    i: int,
    children: Seq<usize>,
)
    requires
        0 <= i < es.len(),
        es.len() <= usize::MAX,
        hash::dirs_are_hashed(es),
        es[i].kind == EntryKind::Directory,
        hash::are_children(es, i, children),
    ensures
        es[i].dir_hash == Some(checksum::digest(hash::child_records(es, children))),
{
    assert(hash::is_dir_hash(es, i, es[i].dir_hash));
    let other = choose|other: Seq<usize>|
        hash::are_children(es, i, other) && es[i].dir_hash == Some(
            checksum::digest(#[trigger] hash::child_records(es, other)),
        );
    lemma_children_are_determined(es, i, children, other, 0);
}

proof fn lemma_children_are_determined(
    es: Seq<EntryModel>,
    i: int,
    a: Seq<usize>,
    b: Seq<usize>,
    k: int,
)
    requires
        0 <= i < es.len(),
        es.len() <= usize::MAX,
        es[i].kind == EntryKind::Directory,
        hash::are_children(es, i, a),
        hash::are_children(es, i, b),
        0 <= k <= a.len(),
        k <= b.len(),
        forall|x: int| 0 <= x < k ==> a[x] == b[x],
    ensures
        a == b,
    decreases a.len() - k,
{
    if k < a.len() {
        law_every_child_has_its_place(es, i, a, a[k]);
        law_every_child_has_its_place(es, i, b, a[k]);
        assert(a.contains(a[k]));
        assert(b.contains(a[k]));
        let y = choose|y: int| 0 <= y < b.len() && b[y] == a[k];
        if y < k {
            assert(a[y] == a[k]);
        }
        assert(k < b.len());
        law_every_child_has_its_place(es, i, a, b[k]);
        law_every_child_has_its_place(es, i, b, b[k]);
        assert(b.contains(b[k]));
        let x = choose|x: int| 0 <= x < a.len() && a[x] == b[k];
        if x < k {
            assert(b[x] == b[k]);
        }
        if y > k && x > k {
            let p = es[a[k] as int].path.last();
            let q = es[b[k] as int].path.last();
            assert(order::bytes_lt(p, q) || (p == q && a[k] < a[x]));
            assert(order::bytes_lt(q, p) || (q == p && b[k] < b[y]));
            order::lemma_bytes_lt_irreflexive(p);
            if order::bytes_lt(p, q) && order::bytes_lt(q, p) {
                order::lemma_bytes_lt_transitive(p, q, p);
            }
        }
        assert(a[k] == b[k]);
        lemma_children_are_determined(es, i, a, b, k + 1);
    } else if k < b.len() {
        law_every_child_has_its_place(es, i, a, b[k]);
        law_every_child_has_its_place(es, i, b, b[k]);
        assert(b.contains(b[k]));
        let x = choose|x: int| 0 <= x < a.len() && a[x] == b[k];
        assert(b[x] == b[k]);
    } else {
        assert(a =~= b);
    }
}

/// Hashing directories changes nothing but the hashes of directories.
pub proof fn law_hashing_directories_changes_nothing_else(
    a: Seq<EntryModel>,
    b: Seq<EntryModel>,
    i: int,
)
    requires
        hash::same_but_dir_hashes(a, b),
        0 <= i < a.len(),
    ensures
        a.len() == b.len(),
        a[i].path == b[i].path,
        a[i].kind == b[i].kind,
        a[i].metadata == b[i].metadata,
        a[i].hash == b[i].hash,
        a[i].symlink_target == b[i].symlink_target,
        a[i].kind != EntryKind::Directory ==> a[i].dir_hash == b[i].dir_hash,
{
    assert(hash::with_dir_hash(a[i], None) == hash::with_dir_hash(b[i], None));
}

} // verus!
