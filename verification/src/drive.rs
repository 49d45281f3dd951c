//! The drive: a sandboxed tree of directories and files beneath one root.
//!
//! The drive owns a root path and a store of entries. Every operation takes a
//! raw, untrusted path, validates it lexically first, and only then consults
//! the store. The store is modelled as a map from segment lists to what they
//! name: a directory, or a file with its content. Concurrent callers are the
//! caller's concern: the drive holds no locks, and a pre-check such as
//! [`Drive::entry_non_existant`] is a fast-path error, not a guarantee that
//! stands after interleaved mutation.

use vstd::prelude::*;

use crate::bytestr::is_prefix;
use crate::catalog::{
    entry_views, filter_prefixed, page_of, paginate, sort_entries, strictly_sorted,
    strictly_sorted_names,
};
use crate::drive_file::{spec_content_type, DriveFile};
use crate::entry::{Entry, EntryV};
use crate::error::DriveError;
use crate::path::{
    abs_of, abs_path, base_name, clone_bytes, clone_segs, is_normal_seg, is_seg_prefix,
    last_segment_of, parse_path, raw_ok, segs_of, segs_starts_with, segs_wf, ValidatedPath,
};

verus! {

/// What a path names in the store: a directory, or a file with its content.
pub enum FsNode {
    /// A directory.
    Directory,
    /// A file and its content.
    File(Seq<u8>),
}

/// The content a node holds: a file's bytes; a directory holds none.
pub open spec fn content_of(n: FsNode) -> Seq<u8> {
    match n {
        FsNode::Directory => Seq::empty(),
        FsNode::File(c) => c,
    }
}

/// The mathematical state of a drive's store: each existing path, mapped to
/// what it names. The root itself is not a key; it always exists.
pub type DriveModel = Map<Seq<Seq<u8>>, FsNode>;

/// One stored entry: its path segments beneath the root, its kind, and, for
/// a file, its content.
struct Node {
    segs: Vec<Vec<u8>>,
    is_dir: bool,
    content: Vec<u8>,
}

impl Node {
    /// The node's path, as a segment list.
    spec fn path_view(&self) -> Seq<Seq<u8>> {
        self.segs.deep_view()
    }

    /// What the node names.
    spec fn fs_view(&self) -> FsNode {
        if self.is_dir {
            FsNode::Directory
        } else {
            FsNode::File(self.content@)
        }
    }

    /// A node names something beneath the root through ordinary segments,
    /// and a directory node carries no content.
    spec fn wf(&self) -> bool {
        &&& self.path_view().len() > 0
        &&& segs_wf(self.path_view())
        &&& (self.is_dir ==> self.content@.len() == 0)
    }
}

/// The map a node sequence stands for; a later node wins where paths repeat.
spec fn map_of(nodes: Seq<Node>) -> DriveModel
    decreases nodes.len(),
{
    if nodes.len() == 0 {
        Map::empty()
    } else {
        map_of(nodes.drop_last()).insert(nodes.last().path_view(), nodes.last().fs_view())
    }
}

/// No two nodes share a path.
spec fn unique_paths(nodes: Seq<Node>) -> bool {
    forall|i: int, j: int|
        0 <= i < j < nodes.len() ==> nodes[i].path_view() != nodes[j].path_view()
}

/// A key is in the map exactly when some node carries it.
proof fn lemma_map_of_membership(nodes: Seq<Node>)
    ensures
        forall|k: Seq<Seq<u8>>|
            #[trigger] map_of(nodes).contains_key(k) <==> exists|i: int|
                0 <= i < nodes.len() && #[trigger] nodes[i].path_view() == k,
        map_of(nodes).dom().finite(),
    decreases nodes.len(),
{
    if nodes.len() > 0 {
        let sub = nodes.drop_last();
        lemma_map_of_membership(sub);
        assert forall|k: Seq<Seq<u8>>| #[trigger] map_of(nodes).contains_key(k) implies exists|
            i: int,
        | 0 <= i < nodes.len() && #[trigger] nodes[i].path_view() == k by {
            if k == nodes.last().path_view() {
                assert(nodes[nodes.len() - 1].path_view() == k);
            } else {
                let i = choose|i: int| 0 <= i < sub.len() && #[trigger] sub[i].path_view() == k;
                assert(nodes[i].path_view() == k);
            }
        }
        assert forall|k: Seq<Seq<u8>>|
            exists|i: int|
                0 <= i < nodes.len() && #[trigger] nodes[i].path_view()
                    == k implies #[trigger] map_of(nodes).contains_key(k) by {
            let i = choose|i: int| 0 <= i < nodes.len() && #[trigger] nodes[i].path_view() == k;
            if i < nodes.len() - 1 {
                assert(sub[i].path_view() == k);
                assert(map_of(sub).contains_key(k));
            }
        }
    }
}

/// With unique paths, each node's path maps to that node's content.
proof fn lemma_map_of_index(nodes: Seq<Node>, i: int)
    requires
        unique_paths(nodes),
        0 <= i < nodes.len(),
    ensures
        map_of(nodes).contains_key(nodes[i].path_view()),
        map_of(nodes)[nodes[i].path_view()] == nodes[i].fs_view(),
    decreases nodes.len(),
{
    if i < nodes.len() - 1 {
        assert(nodes.drop_last()[i] == nodes[i]);
        lemma_map_of_index(nodes.drop_last(), i);
        assert(nodes[i].path_view() != nodes[nodes.len() - 1].path_view());
    }
}

/// Whether `p`'s parent is ready to receive a new child: the root for a
/// top-level name, an existing directory otherwise.
pub open spec fn parent_ready(m: DriveModel, p: Seq<Seq<u8>>) -> bool {
    p.len() <= 1 || (m.contains_key(p.drop_last()) && m[p.drop_last()] is Directory)
}

/// Every key of the store is a nonempty list of ordinary segments.
pub open spec fn wf_keys(m: DriveModel) -> bool {
    forall|k: Seq<Seq<u8>>| #[trigger] m.contains_key(k) ==> k.len() > 0 && segs_wf(k)
}

/// Every key's parent is a stored directory, or the root itself.
pub open spec fn parent_closed(m: DriveModel) -> bool {
    forall|k: Seq<Seq<u8>>|
        #[trigger] m.contains_key(k) && k.len() > 1 ==> m.contains_key(k.drop_last())
            && m[k.drop_last()] is Directory
}

/// In a parent-closed store, every proper, nonempty prefix of a key is a
/// stored directory.
pub proof fn lemma_ancestors(m: DriveModel, k: Seq<Seq<u8>>, l: int)
    requires
        parent_closed(m),
        m.contains_key(k),
        1 <= l < k.len(),
    ensures
        m.contains_key(k.take(l)),
        m[k.take(l)] is Directory,
    decreases k.len() - l,
{
    if l == k.len() - 1 {
        assert(k.take(l) =~~= k.drop_last());
    } else {
        lemma_ancestors(m, k.drop_last(), l);
        assert(k.drop_last().take(l) =~~= k.take(l));
    }
}

/// The store after everything at or beneath `p` is taken out.
pub open spec fn subtree_removed(m: DriveModel, p: Seq<Seq<u8>>) -> DriveModel {
    Map::new(|k: Seq<Seq<u8>>| m.contains_key(k) && !is_seg_prefix(p, k), |k: Seq<Seq<u8>>| m[k])
}

/// What `removeEntry` does to the store: reject an uncontained path, then an
/// absent target (the root counts as absent: it cannot be removed);
/// otherwise take out the entry and, when it is a directory, everything
/// beneath it.
pub open spec fn spec_remove(m: DriveModel, raw: Seq<u8>) -> Result<DriveModel, DriveError> {
    if !raw_ok(raw) {
        Err(DriveError::EntryNameInvalid)
    } else if segs_of(raw).len() == 0 || !m.contains_key(segs_of(raw)) {
        Err(DriveError::EntryNotFound)
    } else {
        Ok(subtree_removed(m, segs_of(raw)))
    }
}

/// The entry a listing shows for the child `n` of directory `p`: its name,
/// its absolute path text, and its directory flag, all read off the store.
pub open spec fn child_entry(m: DriveModel, root: Seq<u8>, p: Seq<Seq<u8>>, n: Seq<u8>) -> EntryV {
    EntryV { path: abs_of(root, p.push(n)), name: n, is_directory: m[p.push(n)] is Directory }
}

/// A correct listing of `p`'s direct children: strictly name-sorted, every
/// shown entry read off the store, and every stored child shown. These
/// clauses pin the listing down to one value.
pub open spec fn is_child_listing(
    m: DriveModel,
    root: Seq<u8>,
    p: Seq<Seq<u8>>,
    es: Seq<EntryV>,
) -> bool {
    &&& strictly_sorted_names(es)
    &&& forall|i: int|
        0 <= i < es.len() ==> m.contains_key(p.push((#[trigger] es[i]).name)) && es[i]
            == child_entry(m, root, p, es[i].name)
    &&& forall|n: Seq<u8>|
        #[trigger] m.contains_key(p.push(n)) ==> exists|i: int|
            0 <= i < es.len() && (#[trigger] es[i]).name == n
}

/// A correct name listing of `p`'s direct children: strictly sorted, every
/// shown name a stored child, every stored child shown.
pub open spec fn is_name_listing(m: DriveModel, p: Seq<Seq<u8>>, names: Seq<Seq<u8>>) -> bool {
    &&& strictly_sorted(names)
    &&& forall|i: int| 0 <= i < names.len() ==> m.contains_key(p.push(#[trigger] names[i]))
    &&& forall|n: Seq<u8>| #[trigger] m.contains_key(p.push(n)) ==> names.contains(n)
}

/// Where the key `k` goes when the subtree at `from` moves to `to`: keys at
/// or beneath `from` have that prefix replaced by `to`, all others stay.
pub open spec fn rename_key(
    from: Seq<Seq<u8>>,
    to: Seq<Seq<u8>>,
    k: Seq<Seq<u8>>,
) -> Seq<Seq<u8>> {
    if is_seg_prefix(from, k) {
        to + k.skip(from.len() as int)
    } else {
        k
    }
}

/// The store after the subtree at `from` moves to `to`.
pub open spec fn renamed_map(m: DriveModel, from: Seq<Seq<u8>>, to: Seq<Seq<u8>>) -> DriveModel {
    Map::new(
        |k: Seq<Seq<u8>>|
            (m.contains_key(k) && !is_seg_prefix(from, k)) || (is_seg_prefix(to, k)
                && m.contains_key(from + k.skip(to.len() as int))),
        |k: Seq<Seq<u8>>|
            if m.contains_key(k) && !is_seg_prefix(from, k) {
                m[k]
            } else {
                m[from + k.skip(to.len() as int)]
            },
    )
}

/// The conditions under which a rename can go through: `from` is a stored
/// directory, `to` is absent, well-formed and not at or beneath `from`, and
/// `to`'s parent is ready.
pub open spec fn rename_ok(m: DriveModel, from: Seq<Seq<u8>>, to: Seq<Seq<u8>>) -> bool {
    &&& wf_keys(m)
    &&& parent_closed(m)
    &&& from.len() >= 1
    &&& to.len() >= 1
    &&& m.contains_key(from)
    &&& m[from] is Directory
    &&& !m.contains_key(to)
    &&& segs_wf(to)
    &&& !is_seg_prefix(from, to)
    &&& parent_ready(m, to)
}

/// When `to` is absent from a parent-closed store, no key lies at or beneath
/// `to`.
proof fn lemma_no_key_under_to(m: DriveModel, from: Seq<Seq<u8>>, to: Seq<Seq<u8>>)
    requires
        rename_ok(m, from, to),
    ensures
        forall|q: Seq<Seq<u8>>| #[trigger] m.contains_key(q) ==> !is_seg_prefix(to, q),
{
    assert forall|q: Seq<Seq<u8>>| #[trigger] m.contains_key(q) implies !is_seg_prefix(
        to,
        q,
    ) by {
        if is_seg_prefix(to, q) {
            if q.len() == to.len() {
                assert(q.take(to.len() as int) =~~= q);
                assert(m.contains_key(to));
            } else {
                lemma_ancestors(m, q, to.len() as int);
                assert(m.contains_key(to));
            }
        }
    }
}

/// Renaming moves distinct keys to distinct keys.
#[verifier::rlimit(100)]
proof fn lemma_rename_key_injective(
    m: DriveModel,
    from: Seq<Seq<u8>>,
    to: Seq<Seq<u8>>,
    k1: Seq<Seq<u8>>,
    k2: Seq<Seq<u8>>,
)
    requires
        rename_ok(m, from, to),
        m.contains_key(k1),
        m.contains_key(k2),
        k1 != k2,
    ensures
        rename_key(from, to, k1) != rename_key(from, to, k2),
{
    lemma_no_key_under_to(m, from, to);
    if is_seg_prefix(from, k1) && is_seg_prefix(from, k2) {
        if rename_key(from, to, k1) == rename_key(from, to, k2) {
            assert((to + k1.skip(from.len() as int)).skip(to.len() as int)
                =~~= k1.skip(from.len() as int));
            assert((to + k2.skip(from.len() as int)).skip(to.len() as int)
                =~~= k2.skip(from.len() as int));
            assert(k1.skip(from.len() as int) =~~= k2.skip(from.len() as int));
            assert(k1 =~~= k1.take(from.len() as int) + k1.skip(from.len() as int));
            assert(k2 =~~= k2.take(from.len() as int) + k2.skip(from.len() as int));
        }
    } else if is_seg_prefix(from, k1) {
        let r1 = to + k1.skip(from.len() as int);
        assert(r1.take(to.len() as int) =~~= to);
        assert(is_seg_prefix(to, r1));
        if r1 == k2 {
            assert(is_seg_prefix(to, k2));
        }
    } else if is_seg_prefix(from, k2) {
        let r2 = to + k2.skip(from.len() as int);
        assert(r2.take(to.len() as int) =~~= to);
        assert(is_seg_prefix(to, r2));
        if r2 == k1 {
            assert(is_seg_prefix(to, k1));
        }
    }
}

/// Adding one entry to a partial store and renaming commutes with renaming
/// first and adding the moved entry.
#[verifier::rlimit(100)]
proof fn lemma_renamed_insert(
    m: DriveModel,
    s: DriveModel,
    from: Seq<Seq<u8>>,
    to: Seq<Seq<u8>>,
    k: Seq<Seq<u8>>,
    v: FsNode,
)
    requires
        rename_ok(m, from, to),
        forall|q: Seq<Seq<u8>>| #[trigger] s.contains_key(q) ==> m.contains_key(q),
        m.contains_key(k),
        !s.contains_key(k),
    ensures
        renamed_map(s.insert(k, v), from, to) == renamed_map(s, from, to).insert(
            rename_key(from, to, k),
            v,
        ),
{
    lemma_no_key_under_to(m, from, to);
    let s1 = s.insert(k, v);
    let lhs = renamed_map(s1, from, to);
    let rhs = renamed_map(s, from, to).insert(rename_key(from, to, k), v);
    let rk = rename_key(from, to, k);
    if is_seg_prefix(from, k) {
        assert(rk.take(to.len() as int) =~~= to);
        assert(is_seg_prefix(to, rk));
        assert(rk.skip(to.len() as int) =~~= k.skip(from.len() as int));
        assert(from + rk.skip(to.len() as int) =~~= k.take(from.len() as int) + k.skip(
            from.len() as int,
        ));
        assert(from + rk.skip(to.len() as int) =~~= k);
    }
    assert forall|q: Seq<Seq<u8>>| #[trigger] lhs.contains_key(q) implies rhs.contains_key(q)
        && lhs[q] == rhs[q] by {
        if s1.contains_key(q) && !is_seg_prefix(from, q) {
            if q == k {
                assert(rk == k);
                assert(rhs.contains_key(q) && rhs[q] == v);
            } else {
                assert(s.contains_key(q));
                if q == rk {
                    // A stored key never lies beneath `to`.
                    assert(is_seg_prefix(to, rk) ==> false);
                    assert(rk == k);
                }
                assert(rhs.contains_key(q) && rhs[q] == s[q]);
            }
        } else {
            let w = from + q.skip(to.len() as int);
            assert(is_seg_prefix(to, q) && s1.contains_key(w));
            assert(w.take(from.len() as int) =~~= from);
            assert(is_seg_prefix(from, w));
            assert(!s1.contains_key(q) || is_seg_prefix(from, q));
            if w == k {
                assert(is_seg_prefix(from, k));
                assert(k.skip(from.len() as int) =~~= q.skip(to.len() as int));
                assert(rk =~~= to.take(to.len() as int) + q.skip(to.len() as int));
                assert(q =~~= q.take(to.len() as int) + q.skip(to.len() as int));
                assert(rk =~~= q);
                assert(rhs.contains_key(q) && rhs[q] == v);
                assert(!s1.contains_key(q) || is_seg_prefix(from, q));
                assert(lhs[q] == s1[w]);
            } else {
                assert(s.contains_key(w));
                if q == rk {
                    if is_seg_prefix(from, k) {
                        assert(q.skip(to.len() as int) =~~= k.skip(from.len() as int));
                        assert(w =~~= k.take(from.len() as int) + k.skip(from.len() as int));
                        assert(w =~~= k);
                        assert(false);
                    } else {
                        assert(rk == k);
                        assert(m.contains_key(k));
                        assert(!is_seg_prefix(to, k));
                        assert(false);
                    }
                }
                assert(rhs.contains_key(q) && rhs[q] == s[w]);
                assert(lhs[q] == s1[w]);
            }
        }
    }
    assert forall|q: Seq<Seq<u8>>| #[trigger] rhs.contains_key(q) implies lhs.contains_key(
        q,
    ) by {
        if q == rk {
            if is_seg_prefix(from, k) {
                assert(is_seg_prefix(to, q));
                assert(from + q.skip(to.len() as int) =~~= k);
                assert(s1.contains_key(k));
            } else {
                assert(q == k);
                assert(s1.contains_key(q));
            }
        } else {
            assert(renamed_map(s, from, to).contains_key(q));
            if s.contains_key(q) && !is_seg_prefix(from, q) {
                assert(s1.contains_key(q));
            } else {
                let w = from + q.skip(to.len() as int);
                assert(s.contains_key(w));
                assert(s1.contains_key(w));
            }
        }
    }
    assert(lhs =~= rhs);
}

/// A renamed store keeps every key's parent a stored directory.
#[verifier::rlimit(100)]
proof fn lemma_renamed_parent_closed(m: DriveModel, from: Seq<Seq<u8>>, to: Seq<Seq<u8>>)
    requires
        rename_ok(m, from, to),
    ensures
        parent_closed(renamed_map(m, from, to)),
{
    lemma_no_key_under_to(m, from, to);
    let r = renamed_map(m, from, to);
    assert forall|q: Seq<Seq<u8>>| #[trigger] r.contains_key(q) && q.len() > 1 implies
        r.contains_key(q.drop_last()) && r[q.drop_last()] is Directory by {
        let p = q.drop_last();
        if m.contains_key(q) && !is_seg_prefix(from, q) {
            assert(m.contains_key(p) && m[p] is Directory);
            if is_seg_prefix(from, p) {
                assert(q.take(from.len() as int) =~~= p.take(from.len() as int));
                assert(is_seg_prefix(from, q));
            }
            assert(r.contains_key(p) && r[p] == m[p]);
        } else {
            let w = from + q.skip(to.len() as int);
            assert(is_seg_prefix(to, q) && m.contains_key(w));
            if q.len() == to.len() {
                // q is `to` itself; its parent is `to`'s parent, untouched.
                assert(q.take(to.len() as int) =~~= q);
                assert(q =~~= to);
                assert(to.len() > 1);
                assert(m.contains_key(to.drop_last()) && m[to.drop_last()] is Directory);
                if is_seg_prefix(from, to.drop_last()) {
                    assert(to.take(from.len() as int) =~~= to.drop_last().take(
                        from.len() as int,
                    ));
                    assert(is_seg_prefix(from, to));
                }
                assert(r.contains_key(p) && r[p] == m[p]);
            } else {
                // q lies strictly beneath `to`: its parent moves with it.
                let s = q.skip(to.len() as int);
                assert(s.len() >= 1);
                assert(w.len() == from.len() + s.len() >= 2);
                assert(m.contains_key(w.drop_last()) && m[w.drop_last()] is Directory);
                assert(w.drop_last() =~~= from + s.drop_last());
                assert(p =~~= to + s.drop_last());
                assert(p.take(to.len() as int) =~~= to);
                assert(is_seg_prefix(to, p));
                assert(p.skip(to.len() as int) =~~= s.drop_last());
                assert(from + p.skip(to.len() as int) =~~= w.drop_last());
                assert(r.contains_key(p));
                if m.contains_key(p) && !is_seg_prefix(from, p) {
                    assert(is_seg_prefix(to, p));
                    assert(false);
                }
                assert(r[p] == m[w.drop_last()]);
            }
        }
    }
}

/// What `renameDirectory` does to the store: reject an uncontained `from`,
/// an absent `from`, an uncontained `to`, a present `to` (the root counts as
/// present), a `from` that is a file; surface the store's rename failure for
/// the root, a `to` at or beneath `from`, or a missing `to` parent;
/// otherwise move the whole subtree.
pub open spec fn spec_rename_directory(m: DriveModel, from_raw: Seq<u8>, to_raw: Seq<u8>) -> Result<
    DriveModel,
    DriveError,
> {
    if !raw_ok(from_raw) {
        Err(DriveError::EntryNameInvalid)
    } else if segs_of(from_raw).len() > 0 && !m.contains_key(segs_of(from_raw)) {
        Err(DriveError::EntryNotFound)
    } else if !raw_ok(to_raw) {
        Err(DriveError::EntryNameInvalid)
    } else if segs_of(to_raw).len() == 0 || m.contains_key(segs_of(to_raw)) {
        Err(DriveError::EntryExists)
    } else if segs_of(from_raw).len() > 0 && m[segs_of(from_raw)] is File {
        Err(DriveError::EntryUnexpectedType)
    } else if segs_of(from_raw).len() == 0 || is_seg_prefix(segs_of(from_raw), segs_of(to_raw))
        || !parent_ready(m, segs_of(to_raw)) {
        Err(DriveError::EntryRename)
    } else {
        Ok(renamed_map(m, segs_of(from_raw), segs_of(to_raw)))
    }
}

/// What a download reads: reject an uncontained path, the root and other
/// directories, and an absent target; otherwise the file's content.
pub open spec fn spec_download(m: DriveModel, raw: Seq<u8>) -> Result<Seq<u8>, DriveError> {
    if !raw_ok(raw) {
        Err(DriveError::EntryNameInvalid)
    } else if segs_of(raw).len() == 0 {
        Err(DriveError::EntryUnexpectedType)
    } else if !m.contains_key(segs_of(raw)) {
        Err(DriveError::EntryNotFound)
    } else if m[segs_of(raw)] is Directory {
        Err(DriveError::EntryUnexpectedType)
    } else {
        Ok(content_of(m[segs_of(raw)]))
    }
}

/// What an upload writes: reject an uncontained path; the root, an existing
/// directory and a missing parent all surface the store's create failure as
/// an invalid-name error; otherwise the file holds exactly `data`, created
/// or overwritten.
pub open spec fn spec_write(m: DriveModel, raw: Seq<u8>, data: Seq<u8>) -> Result<
    DriveModel,
    DriveError,
> {
    if !raw_ok(raw) {
        Err(DriveError::EntryNameInvalid)
    } else if segs_of(raw).len() == 0 {
        Err(DriveError::EntryNameInvalid)
    } else if m.contains_key(segs_of(raw)) && m[segs_of(raw)] is Directory {
        Err(DriveError::EntryNameInvalid)
    } else if !parent_ready(m, segs_of(raw)) {
        Err(DriveError::EntryNameInvalid)
    } else {
        Ok(m.insert(segs_of(raw), FsNode::File(data)))
    }
}

/// Replacing the node at `i` by one with the same path updates exactly that
/// path's value in the map.
proof fn lemma_map_of_update(nodes: Seq<Node>, i: int, n: Node)
    requires
        unique_paths(nodes),
        0 <= i < nodes.len(),
        n.path_view() == nodes[i].path_view(),
    ensures
        map_of(nodes.update(i, n)) == map_of(nodes).insert(n.path_view(), n.fs_view()),
    decreases nodes.len(),
{
    let k = n.path_view();
    if i == nodes.len() - 1 {
        assert(nodes.update(i, n).drop_last() =~= nodes.drop_last());
        assert(nodes.update(i, n).last() == n);
        assert(map_of(nodes.drop_last()).insert(k, n.fs_view()) =~= map_of(nodes).insert(
            k,
            n.fs_view(),
        ));
    } else {
        assert(nodes.update(i, n).drop_last() =~= nodes.drop_last().update(i, n));
        assert(nodes.drop_last()[i] == nodes[i]);
        lemma_map_of_update(nodes.drop_last(), i, n);
        assert(nodes.update(i, n).last() == nodes.last());
        assert(nodes.last().path_view() != k);
        assert(map_of(nodes.drop_last()).insert(k, n.fs_view()).insert(
            nodes.last().path_view(),
            nodes.last().fs_view(),
        ) =~= map_of(nodes.drop_last()).insert(nodes.last().path_view(), nodes.last().fs_view())
            .insert(k, n.fs_view()));
    }
}

/// A name list read off a correct child listing, name for name, is a correct
/// name listing.
proof fn lemma_names_of_listing(
    m: DriveModel,
    root: Seq<u8>,
    p: Seq<Seq<u8>>,
    es: Seq<EntryV>,
    names: Seq<Seq<u8>>,
)
    requires
        is_child_listing(m, root, p, es),
        names.len() == es.len(),
        forall|i: int| 0 <= i < names.len() ==> names[i] == (#[trigger] es[i]).name,
    ensures
        is_name_listing(m, p, names),
{
    assert forall|a: int, b: int|
        0 <= a < b < names.len() implies crate::bytestr::lex_lt(names[a], names[b]) by {
        assert(names[a] == es[a].name && names[b] == es[b].name);
    }
    assert forall|i: int|
        0 <= i < names.len() implies m.contains_key(p.push(#[trigger] names[i])) by {
        assert(names[i] == es[i].name);
    }
    assert forall|n: Seq<u8>| #[trigger] m.contains_key(p.push(n)) implies names.contains(n) by {
        let i = choose|i: int| 0 <= i < es.len() && (#[trigger] es[i]).name == n;
        assert(names[i] == n);
    }
}

/// What a file delete does to the store: reject an uncontained path, then an
/// absent target, then a directory; otherwise take the one file out.
pub open spec fn spec_delete(m: DriveModel, raw: Seq<u8>) -> Result<DriveModel, DriveError> {
    if !raw_ok(raw) {
        Err(DriveError::EntryNameInvalid)
    } else if segs_of(raw).len() == 0 || !m.contains_key(segs_of(raw)) {
        Err(DriveError::EntryNotFound)
    } else if m[segs_of(raw)] is Directory {
        Err(DriveError::EntryUnexpectedType)
    } else {
        Ok(m.remove(segs_of(raw)))
    }
}

/// What `createDirectory` does to the store: reject an uncontained path,
/// then a present target (the root counts as always present), then a missing
/// parent; otherwise add one directory.
pub open spec fn spec_create_directory(m: DriveModel, raw: Seq<u8>) -> Result<
    DriveModel,
    DriveError,
> {
    if !raw_ok(raw) {
        Err(DriveError::EntryNameInvalid)
    } else if segs_of(raw).len() == 0 || m.contains_key(segs_of(raw)) {
        Err(DriveError::EntryExists)
    } else if !parent_ready(m, segs_of(raw)) {
        Err(DriveError::EntryCreate)
    } else {
        Ok(m.insert(segs_of(raw), FsNode::Directory))
    }
}

/// Taking the node at `i` out of a store with unique paths takes exactly its
/// path out of the map.
proof fn lemma_map_of_remove(nodes: Seq<Node>, i: int)
    requires
        unique_paths(nodes),
        0 <= i < nodes.len(),
    ensures
        map_of(nodes.remove(i)) == map_of(nodes).remove(nodes[i].path_view()),
    decreases nodes.len(),
{
    lemma_map_of_membership(nodes);
    lemma_map_of_membership(nodes.remove(i));
    let k = nodes[i].path_view();
    if i == nodes.len() - 1 {
        assert(nodes.remove(i) =~= nodes.drop_last());
        lemma_map_of_membership(nodes.drop_last());
        assert forall|j: int|
            0 <= j < nodes.drop_last().len() implies (#[trigger] nodes.drop_last()[j]).path_view()
            != k by {
            assert(nodes.drop_last()[j] == nodes[j]);
        }
        assert(!map_of(nodes.drop_last()).contains_key(k));
        assert(map_of(nodes.drop_last()) =~= map_of(nodes).remove(k));
    } else {
        let sub = nodes.drop_last();
        assert(sub[i] == nodes[i]);
        lemma_map_of_remove(sub, i);
        assert(nodes.remove(i).drop_last() =~= sub.remove(i));
        assert(nodes.remove(i).last() == nodes.last());
        assert(map_of(nodes.remove(i)) == map_of(sub.remove(i)).insert(
            nodes.last().path_view(),
            nodes.last().fs_view(),
        ));
        assert(nodes.last().path_view() != k);
        assert(map_of(sub).remove(k).insert(nodes.last().path_view(), nodes.last().fs_view())
            =~= map_of(sub).insert(nodes.last().path_view(), nodes.last().fs_view()).remove(k));
    }
}

/// Rebuilds the node-level parent witness from the model-level closure.
proof fn lemma_nodes_parent_witness(nodes: Seq<Node>)
    requires
        forall|i: int| 0 <= i < nodes.len() ==> (#[trigger] nodes[i]).wf(),
        unique_paths(nodes),
        parent_closed(map_of(nodes)),
    ensures
        forall|i: int|
            0 <= i < nodes.len() && (#[trigger] nodes[i]).path_view().len() > 1 ==> exists|j: int|
                0 <= j < nodes.len() && (#[trigger] nodes[j]).path_view()
                    == nodes[i].path_view().drop_last() && nodes[j].is_dir,
{
    lemma_map_of_membership(nodes);
    assert forall|i: int|
        0 <= i < nodes.len() && (#[trigger] nodes[i]).path_view().len() > 1 implies exists|j: int|
        0 <= j < nodes.len() && (#[trigger] nodes[j]).path_view()
            == nodes[i].path_view().drop_last() && nodes[j].is_dir by {
        let k = nodes[i].path_view();
        lemma_map_of_index(nodes, i);
        assert(map_of(nodes).contains_key(k.drop_last()));
        let j = choose|j: int| 0 <= j < nodes.len() && #[trigger] nodes[j].path_view()
            == k.drop_last();
        lemma_map_of_index(nodes, j);
        assert(nodes[j].fs_view() is Directory);
        assert(nodes[j].is_dir);
    }
}

/// The drive: a root path and the store of entries beneath it.
pub struct Drive {
    root: Vec<u8>,
    nodes: Vec<Node>,
}

impl Drive {
    /// The store's mathematical state.
    pub closed spec fn model(&self) -> DriveModel {
        map_of(self.nodes@)
    }

    /// The root path's text.
    pub closed spec fn root_view(&self) -> Seq<u8> {
        self.root@
    }

    /// The drive's invariant: every stored path is nonempty and made of
    /// ordinary segments, no path repeats, and every stored path's parent is
    /// a stored directory (or the root).
    pub closed spec fn wf(&self) -> bool {
        &&& forall|i: int| 0 <= i < self.nodes@.len() ==> (#[trigger] self.nodes@[i]).wf()
        &&& unique_paths(self.nodes@)
        &&& forall|i: int|
            0 <= i < self.nodes@.len() && (#[trigger] self.nodes@[i]).path_view().len() > 1
                ==> exists|j: int|
                    0 <= j < self.nodes@.len()
                        && (#[trigger] self.nodes@[j]).path_view()
                            == self.nodes@[i].path_view().drop_last() && self.nodes@[j].is_dir
    }

    /// The invariant seen from the model: every key is a nonempty list of
    /// ordinary segments, and every key's parent is a directory key (or the
    /// root).
    pub proof fn lemma_wf_model(&self)
        requires
            self.wf(),
        ensures
            self.model().dom().finite(),
            wf_keys(self.model()),
            parent_closed(self.model()),
    {
        lemma_map_of_membership(self.nodes@);
        assert forall|k: Seq<Seq<u8>>|
            #[trigger] self.model().contains_key(k) implies k.len() > 0 && segs_wf(k) by {
            let i = choose|i: int|
                0 <= i < self.nodes@.len() && #[trigger] self.nodes@[i].path_view() == k;
            assert(self.nodes@[i].wf());
        }
        assert forall|k: Seq<Seq<u8>>|
            #[trigger] self.model().contains_key(k) && k.len() > 1 implies self.model(
        ).contains_key(k.drop_last()) && self.model()[k.drop_last()] is Directory by {
            let i = choose|i: int|
                0 <= i < self.nodes@.len() && #[trigger] self.nodes@[i].path_view() == k;
            let j = choose|j: int|
                0 <= j < self.nodes@.len() && #[trigger] self.nodes@[j].path_view()
                    == self.nodes@[i].path_view().drop_last() && self.nodes@[j].is_dir;
            lemma_map_of_index(self.nodes@, j);
        }
    }

    /// A drive over `root`, its store empty.
    pub fn new(root: Vec<u8>) -> (r: Drive)
        ensures
            r.wf(),
            r.model() == Map::<Seq<Seq<u8>>, FsNode>::empty(),
            r.root_view() == root@,
    {
        let d = Drive { root, nodes: Vec::new() };
        proof {
            assert(d.nodes@.len() == 0);
        }
        d
    }

    /// Looks a segment list up in the store.
    fn find_node(&self, segs: &Vec<Vec<u8>>) -> (r: Option<usize>)
        requires
            self.wf(),
        ensures
            match r {
                Some(i) => {
                    &&& i < self.nodes@.len()
                    &&& self.nodes@[i as int].path_view() == segs.deep_view()
                    &&& self.model().contains_key(segs.deep_view())
                    &&& self.model()[segs.deep_view()] == self.nodes@[i as int].fs_view()
                },
                None => !self.model().contains_key(segs.deep_view()),
            },
    {
        let mut i: usize = 0;
        while i < self.nodes.len()
            invariant
                self.wf(),
                0 <= i <= self.nodes@.len(),
                forall|j: int|
                    0 <= j < i ==> (#[trigger] self.nodes@[j]).path_view() != segs.deep_view(),
            decreases self.nodes@.len() - i,
        {
            if crate::path::segs_eq(&self.nodes[i].segs, segs) {
                proof {
                    lemma_map_of_index(self.nodes@, i as int);
                }
                return Some(i);
            }
            i = i + 1;
        }
        proof {
            lemma_map_of_membership(self.nodes@);
        }
        None
    }

    /// Validates a raw path, accepting it exactly when every segment is an
    /// ordinary name; `EntryNameInvalid` otherwise.
    pub fn entry_valid(&self, path: &Vec<u8>) -> (r: Result<ValidatedPath, DriveError>)
        ensures
            match r {
                Ok(p) => raw_ok(path@) && p@ == segs_of(path@) && p.wf(),
                Err(e) => !raw_ok(path@) && e == DriveError::EntryNameInvalid,
            },
    {
        match parse_path(path) {
            Some(p) => Ok(p),
            None => Err(DriveError::EntryNameInvalid),
        }
    }

    /// Checks that a validated path names an existing entry; the root always
    /// exists. `EntryNotFound` otherwise.
    pub fn entry_exists(&self, p: &ValidatedPath) -> (r: Result<(), DriveError>)
        requires
            self.wf(),
        ensures
            r is Ok <==> (p@.len() == 0 || self.model().contains_key(p@)),
            r is Err ==> r == Err::<(), DriveError>(DriveError::EntryNotFound),
    {
        if p.is_root() {
            return Ok(());
        }
        match self.find_node(p.segments()) {
            Some(_) => Ok(()),
            None => Err(DriveError::EntryNotFound),
        }
    }

    /// Validates a raw path and checks that it names nothing yet: the
    /// fast-path pre-check before a create-style operation.
    pub fn entry_non_existant(&self, path: &Vec<u8>) -> (r: Result<ValidatedPath, DriveError>)
        requires
            self.wf(),
        ensures
            match r {
                Ok(p) => {
                    &&& raw_ok(path@)
                    &&& p@ == segs_of(path@)
                    &&& p.wf()
                    &&& p@.len() > 0
                    &&& !self.model().contains_key(p@)
                },
                Err(e) => {
                    ||| (e == DriveError::EntryNameInvalid && !raw_ok(path@))
                    ||| (e == DriveError::EntryExists && raw_ok(path@) && (segs_of(path@).len()
                        == 0 || self.model().contains_key(segs_of(path@))))
                },
            },
    {
        let p = match parse_path(path) {
            Some(p) => p,
            None => {
                return Err(DriveError::EntryNameInvalid);
            },
        };
        if p.is_root() {
            return Err(DriveError::EntryExists);
        }
        match self.find_node(p.segments()) {
            Some(_) => Err(DriveError::EntryExists),
            None => Ok(p),
        }
    }

    /// Resolves a raw path to an existing entry with its metadata: the
    /// display name and the directory flag.
    pub fn entry(&self, path: &Vec<u8>) -> (r: Result<Entry, DriveError>)
        requires
            self.wf(),
        ensures
            ({
                let p = segs_of(path@);
                match r {
                    Ok(e) => {
                        &&& raw_ok(path@)
                        &&& (p.len() == 0 ==> e@.is_directory && e@.name == base_name(
                            self.root_view(),
                        ) && e@.path == self.root_view())
                        &&& (p.len() > 0 ==> {
                            &&& self.model().contains_key(p)
                            &&& e@.name == p.last()
                            &&& (e@.is_directory <==> self.model()[p] is Directory)
                            &&& e@.path == abs_of(self.root_view(), p)
                        })
                    },
                    Err(err) => {
                        ||| (err == DriveError::EntryNameInvalid && !raw_ok(path@))
                        ||| (err == DriveError::EntryNotFound && raw_ok(path@) && p.len() > 0
                            && !self.model().contains_key(p))
                    },
                }
            }),
    {
        let p = match parse_path(path) {
            Some(p) => p,
            None => {
                return Err(DriveError::EntryNameInvalid);
            },
        };
        if p.is_root() {
            let name = last_segment_of(&self.root);
            let abs = clone_bytes(&self.root);
            return Ok(Entry::new(abs, name, true));
        }
        match self.find_node(p.segments()) {
            Some(i) => {
                let abs = abs_path(&self.root, &p);
                let name = clone_bytes(p.last_segment());
                let is_dir = self.nodes[i].is_dir;
                Ok(Entry::new(abs, name, is_dir))
            },
            None => Err(DriveError::EntryNotFound),
        }
    }

    /// Creates one directory level at a validated, absent path whose parent
    /// is an existing directory.
    pub fn create_directory(&mut self, path: &Vec<u8>) -> (r: Result<(), DriveError>)
        requires
            old(self).wf(),
        ensures
            final(self).wf(),
            final(self).root_view() == old(self).root_view(),
            match r {
                Ok(()) => spec_create_directory(old(self).model(), path@) == Ok::<
                    DriveModel,
                    DriveError,
                >(final(self).model()),
                Err(e) => spec_create_directory(old(self).model(), path@) == Err::<
                    DriveModel,
                    DriveError,
                >(e) && final(self).model() == old(self).model(),
            },
    {
        let p = match self.entry_non_existant(path) {
            Ok(p) => p,
            Err(e) => {
                return Err(e);
            },
        };
        self.insert_node(p, true, Vec::new())
    }

    /// Adds a node for a validated, absent path whose parent is an existing
    /// directory; reports `EntryCreate` when the parent is missing or a file.
    fn insert_node(&mut self, p: ValidatedPath, is_dir: bool, content: Vec<u8>) -> (r: Result<
        (),
        DriveError,
    >)
        requires
            old(self).wf(),
            p.wf(),
            p@.len() > 0,
            !old(self).model().contains_key(p@),
            is_dir ==> content@.len() == 0,
        ensures
            final(self).wf(),
            final(self).root_view() == old(self).root_view(),
            match r {
                Ok(()) => parent_ready(old(self).model(), p@) && final(self).model() == old(
                    self,
                ).model().insert(
                    p@,
                    if is_dir {
                        FsNode::Directory
                    } else {
                        FsNode::File(content@)
                    },
                ),
                Err(e) => {
                    &&& e == DriveError::EntryCreate
                    &&& !parent_ready(old(self).model(), p@)
                    &&& final(self).model() == old(self).model()
                },
            },
    {
        let ghost old_nodes = self.nodes@;
        let ghost pv = p@;
        let segs_len = p.segments().len();
        let ghost mut parent_idx: int = 0;
        if segs_len > 1 {
            let segs_ref = p.segments();
            let mut parent: Vec<Vec<u8>> = Vec::new();
            let mut i: usize = 0;
            while i < segs_len - 1
                invariant
                    0 <= i <= segs_len - 1,
                    segs_len == pv.len(),
                    segs_ref.deep_view() == pv,
                    segs_ref@.len() == segs_len,
                    parent.deep_view() =~~= pv.take(i as int),
                decreases segs_len - 1 - i,
            {
                proof {
                    assert(segs_ref@[i as int].deep_view() =~= segs_ref@[i as int]@);
                }
                parent.push(clone_bytes(&segs_ref[i]));
                proof {
                    assert(parent.deep_view() =~~= pv.take(i as int + 1));
                }
                i = i + 1;
            }
            proof {
                assert(pv.take(segs_len - 1 as int) =~~= pv.drop_last());
            }
            match self.find_node(&parent) {
                Some(j) => {
                    if !self.nodes[j].is_dir {
                        proof {
                            assert(self.model()[pv.drop_last()] is File);
                        }
                        return Err(DriveError::EntryCreate);
                    }
                    proof {
                        parent_idx = j as int;
                    }
                },
                None => {
                    return Err(DriveError::EntryCreate);
                },
            }
        }
        proof {
            lemma_map_of_membership(self.nodes@);
        }
        let node = Node { segs: p.into_segments(), is_dir, content };
        let ghost n = node;
        self.nodes.push(node);
        proof {
            assert(self.nodes@.drop_last() =~= old_nodes);
            assert(self.nodes@.last() == n);
            assert(self.model() == map_of(old_nodes).insert(n.path_view(), n.fs_view()));
            assert(n.path_view() == pv);
            // The new node keeps the invariant: its path is fresh, its
            // segments are ordinary, and its parent (when it has one) was
            // found to be a stored directory.
            assert forall|i: int|
                0 <= i < self.nodes@.len() implies (#[trigger] self.nodes@[i]).wf() by {
                if i < old_nodes.len() {
                    assert(self.nodes@[i] == old_nodes[i]);
                }
            }
            assert forall|i: int, j: int|
                0 <= i < j < self.nodes@.len() implies self.nodes@[i].path_view()
                != self.nodes@[j].path_view() by {
                if j < old_nodes.len() {
                    assert(self.nodes@[i] == old_nodes[i] && self.nodes@[j] == old_nodes[j]);
                } else {
                    assert(self.nodes@[j] == n);
                    if self.nodes@[i].path_view() == n.path_view() {
                        assert(old_nodes[i].path_view() == p@);
                        assert(map_of(old_nodes).contains_key(p@));
                    }
                }
            }
            assert forall|i: int|
                0 <= i < self.nodes@.len() && (#[trigger] self.nodes@[i]).path_view().len()
                    > 1 implies exists|j: int|
                0 <= j < self.nodes@.len() && (#[trigger] self.nodes@[j]).path_view()
                    == self.nodes@[i].path_view().drop_last() && self.nodes@[j].is_dir by {
                if i < old_nodes.len() {
                    let j = choose|j: int|
                        0 <= j < old_nodes.len() && (#[trigger] old_nodes[j]).path_view()
                            == old_nodes[i].path_view().drop_last() && old_nodes[j].is_dir;
                    assert(self.nodes@[j] == old_nodes[j]);
                } else {
                    assert(self.nodes@[i] == n);
                    assert(self.nodes@[parent_idx] == old_nodes[parent_idx]);
                    assert(self.nodes@[parent_idx].path_view() == n.path_view().drop_last()
                        && self.nodes@[parent_idx].is_dir);
                }
            }
        }
        Ok(())
    }

    /// Takes out every node at or beneath `p`.
    fn remove_subtree(&mut self, p: &Vec<Vec<u8>>)
        requires
            old(self).wf(),
        ensures
            final(self).wf(),
            final(self).root_view() == old(self).root_view(),
            final(self).model() == subtree_removed(old(self).model(), p.deep_view()),
    {
        let ghost pv = p.deep_view();
        let ghost old_nodes = self.nodes@;
        let ghost old_map = map_of(old_nodes);
        proof {
            self.lemma_wf_model();
            lemma_map_of_membership(old_nodes);
        }
        let mut kept: Vec<Node> = Vec::new();
        let mut i: usize = 0;
        proof {
            assert(old_nodes.take(0) =~= Seq::<Node>::empty());
            assert(map_of(kept@) =~= subtree_removed(map_of(old_nodes.take(0)), pv));
        }
        while i < self.nodes.len()
            invariant
                self.wf(),
                self.nodes@ == old_nodes,
                pv == p.deep_view(),
                0 <= i <= old_nodes.len(),
                unique_paths(kept@),
                forall|j: int|
                    0 <= j < kept@.len() ==> (#[trigger] kept@[j]).wf() && !is_seg_prefix(
                        pv,
                        kept@[j].path_view(),
                    ),
                forall|j: int|
                    0 <= j < kept@.len() ==> exists|t: int|
                        0 <= t < i && (#[trigger] old_nodes[t]).path_view() == (
                        #[trigger] kept@[j]).path_view(),
                map_of(kept@) == subtree_removed(map_of(old_nodes.take(i as int)), pv),
            decreases old_nodes.len() - i,
        {
            let ghost k = self.nodes@[i as int].path_view();
            let ghost v = self.nodes@[i as int].fs_view();
            let ghost sub = old_nodes.take(i as int);
            let ghost sub1 = old_nodes.take(i as int + 1);
            proof {
                assert(sub1.drop_last() =~= sub);
                assert(sub1.last() == old_nodes[i as int]);
                assert(map_of(sub1) == map_of(sub).insert(k, v));
                lemma_map_of_membership(sub);
                assert forall|t: int| 0 <= t < sub.len() implies (#[trigger] sub[t]).path_view()
                    != k by {
                    assert(sub[t] == old_nodes[t]);
                }
                assert(!map_of(sub).contains_key(k));
            }
            if segs_starts_with(&self.nodes[i].segs, p) {
                proof {
                    assert(subtree_removed(map_of(sub1), pv) =~= subtree_removed(
                        map_of(sub),
                        pv,
                    ));
                }
            } else {
                let ghost old_kept = kept@;
                let node_ref = &self.nodes[i];
                let new_node = Node {
                    segs: clone_segs(&node_ref.segs),
                    is_dir: node_ref.is_dir,
                    content: clone_bytes(&node_ref.content),
                };
                proof {
                    assert(new_node.path_view() == k);
                    assert(new_node.fs_view() == v);
                    assert(new_node.wf());
                    assert forall|j: int| 0 <= j < old_kept.len() implies old_kept[j].path_view()
                        != k by {
                        let t = choose|t: int|
                            0 <= t < i && (#[trigger] old_nodes[t]).path_view()
                                == old_kept[j].path_view();
                    }
                }
                kept.push(new_node);
                proof {
                    assert(kept@.drop_last() =~= old_kept);
                    assert(map_of(kept@) == map_of(old_kept).insert(k, v));
                    assert(map_of(kept@) =~= subtree_removed(map_of(sub1), pv));
                }
            }
            i = i + 1;
        }
        proof {
            assert(old_nodes.take(old_nodes.len() as int) =~= old_nodes);
        }
        self.nodes = kept;
        proof {
            assert(self.model() == subtree_removed(old_map, pv));
            assert forall|k: Seq<Seq<u8>>|
                #[trigger] self.model().contains_key(k) && k.len() > 1 implies self.model(
            ).contains_key(k.drop_last()) && self.model()[k.drop_last()] is Directory by {
                assert(old_map.contains_key(k) && !is_seg_prefix(pv, k));
                assert(old_map.contains_key(k.drop_last()) && old_map[k.drop_last()]
                    is Directory);
                if is_seg_prefix(pv, k.drop_last()) {
                    assert(k.take(pv.len() as int) =~~= k.drop_last().take(pv.len() as int));
                    assert(is_seg_prefix(pv, k));
                }
            }
            lemma_nodes_parent_witness(self.nodes@);
        }
    }

    /// Removes the entry a raw path names: a file, or a directory with
    /// everything beneath it.
    pub fn remove(&mut self, path: &Vec<u8>) -> (r: Result<(), DriveError>)
        requires
            old(self).wf(),
        ensures
            final(self).wf(),
            final(self).root_view() == old(self).root_view(),
            match r {
                Ok(()) => spec_remove(old(self).model(), path@) == Ok::<DriveModel, DriveError>(
                    final(self).model(),
                ),
                Err(e) => spec_remove(old(self).model(), path@) == Err::<DriveModel, DriveError>(
                    e,
                ) && final(self).model() == old(self).model(),
            },
    {
        let p = match parse_path(path) {
            Some(p) => p,
            None => {
                return Err(DriveError::EntryNameInvalid);
            },
        };
        if p.is_root() {
            return Err(DriveError::EntryNotFound);
        }
        match self.find_node(p.segments()) {
            Some(_) => {
                self.remove_subtree(p.segments());
                Ok(())
            },
            None => Err(DriveError::EntryNotFound),
        }
    }

    /// Deletes the file a raw path names; a directory is refused.
    pub fn delete(&mut self, path: &Vec<u8>) -> (r: Result<(), DriveError>)
        requires
            old(self).wf(),
        ensures
            final(self).wf(),
            final(self).root_view() == old(self).root_view(),
            match r {
                Ok(()) => spec_delete(old(self).model(), path@) == Ok::<DriveModel, DriveError>(
                    final(self).model(),
                ),
                Err(e) => spec_delete(old(self).model(), path@) == Err::<DriveModel, DriveError>(
                    e,
                ) && final(self).model() == old(self).model(),
            },
    {
        let p = match parse_path(path) {
            Some(p) => p,
            None => {
                return Err(DriveError::EntryNameInvalid);
            },
        };
        if p.is_root() {
            return Err(DriveError::EntryNotFound);
        }
        let i = match self.find_node(p.segments()) {
            Some(i) => i,
            None => {
                return Err(DriveError::EntryNotFound);
            },
        };
        if self.nodes[i].is_dir {
            return Err(DriveError::EntryUnexpectedType);
        }
        let ghost old_nodes = self.nodes@;
        let ghost k = self.nodes@[i as int].path_view();
        proof {
            self.lemma_wf_model();
        }
        self.nodes.remove(i);
        proof {
            lemma_map_of_remove(old_nodes, i as int);
            assert(self.model() == map_of(old_nodes).remove(k));
            assert forall|a: int|
                0 <= a < self.nodes@.len() implies (#[trigger] self.nodes@[a]).wf() by {
                if a < i {
                    assert(self.nodes@[a] == old_nodes[a]);
                } else {
                    assert(self.nodes@[a] == old_nodes[a + 1]);
                }
            }
            assert forall|a: int, b: int|
                0 <= a < b < self.nodes@.len() implies self.nodes@[a].path_view()
                != self.nodes@[b].path_view() by {
                let a0: int = if a < i { a } else { a + 1 };
                let b0: int = if b < i { b } else { b + 1 };
                assert(self.nodes@[a] == old_nodes[a0] && self.nodes@[b] == old_nodes[b0]);
            }
            assert forall|q: Seq<Seq<u8>>|
                #[trigger] self.model().contains_key(q) && q.len() > 1 implies self.model(
            ).contains_key(q.drop_last()) && self.model()[q.drop_last()] is Directory by {
                assert(map_of(old_nodes).contains_key(q) && q != k);
                assert(map_of(old_nodes).contains_key(q.drop_last()));
                assert(map_of(old_nodes)[q.drop_last()] is Directory);
                assert(map_of(old_nodes)[k] is File);
                assert(q.drop_last() != k);
            }
            lemma_nodes_parent_witness(self.nodes@);
        }
        Ok(())
    }

    /// Gathers the direct children of `p`, unsorted, with correct names,
    /// paths and directory flags, complete and without repeated names.
    #[verifier::rlimit(60)]
    fn collect_children(&self, p: &ValidatedPath) -> (r: Vec<Entry>)
        requires
            self.wf(),
            p.wf(),
        ensures
            ({
                let m = self.model();
                let root = self.root_view();
                let pv = p@;
                let es = entry_views(r@);
                &&& forall|i: int|
                    0 <= i < es.len() ==> m.contains_key(pv.push((#[trigger] es[i]).name)) && es[i]
                        == child_entry(m, root, pv, es[i].name)
                &&& forall|n: Seq<u8>|
                    #[trigger] m.contains_key(pv.push(n)) ==> exists|i: int|
                        0 <= i < es.len() && (#[trigger] es[i]).name == n
                &&& forall|a: int, b: int|
                    0 <= a < b < es.len() ==> es[a].name != es[b].name
            }),
    {
        let ghost m = self.model();
        let ghost pv = p@;
        let ghost nodes = self.nodes@;
        proof {
            lemma_map_of_membership(nodes);
        }
        let mut out: Vec<Entry> = Vec::new();
        let mut t: usize = 0;
        let p_len = p.depth();
        while t < self.nodes.len()
            invariant
                self.wf(),
                p.wf(),
                self.nodes@ == nodes,
                m == self.model(),
                pv == p@,
                p_len == pv.len(),
                0 <= t <= nodes.len(),
                forall|i: int|
                    0 <= i < entry_views(out@).len() ==> m.contains_key(
                        pv.push((#[trigger] entry_views(out@)[i]).name),
                    ) && entry_views(out@)[i] == child_entry(
                        m,
                        self.root_view(),
                        pv,
                        entry_views(out@)[i].name,
                    ),
                forall|i: int|
                    0 <= i < entry_views(out@).len() ==> exists|t0: int|
                        0 <= t0 < t && (#[trigger] nodes[t0]).path_view() == pv.push(
                            (#[trigger] entry_views(out@)[i]).name,
                        ),
                forall|t0: int|
                    0 <= t0 < t && (#[trigger] nodes[t0]).path_view().len() == pv.len() + 1
                        && is_seg_prefix(pv, nodes[t0].path_view()) ==> exists|i: int|
                        0 <= i < entry_views(out@).len() && (#[trigger] entry_views(out@)[i]).name
                            == nodes[t0].path_view().last(),
                forall|a: int, b: int|
                    0 <= a < b < entry_views(out@).len() ==> entry_views(out@)[a].name
                        != entry_views(out@)[b].name,
            decreases nodes.len() - t,
        {
            let node = &self.nodes[t];
            let ghost k = node.path_view();
            proof {
                assert(k.len() == node.segs@.len());
            }
            let is_child = node.segs.len() > p_len && node.segs.len() - 1 == p_len
                && segs_starts_with(&node.segs, p.segments());
            if is_child {
                let last = node.segs.len() - 1;
                proof {
                    assert(node.segs@[last as int]@ =~= k.last());
                    assert(k =~~= pv.push(k.last()));
                    lemma_map_of_index(nodes, t as int);
                }
                let name = clone_bytes(&node.segs[last]);
                let mut child_segs = crate::path::clone_segs(p.segments());
                let name_again = clone_bytes(&name);
                proof {
                    assert(is_normal_seg(k.last()));
                }
                child_segs.push(name_again);
                proof {
                    assert(child_segs.deep_view() =~~= pv.push(name@));
                    assert(segs_wf(child_segs.deep_view()));
                }
                let child = ValidatedPath::from_normal_segments(child_segs);
                let abs = abs_path(&self.root, &child);
                let is_dir = node.is_dir;
                let e = Entry::new(abs, name, is_dir);
                let ghost out_before = entry_views(out@);
                proof {
                    assert(e@ == child_entry(m, self.root_view(), pv, k.last()));
                    assert forall|i: int|
                        0 <= i < out_before.len() implies out_before[i].name != k.last() by {
                        let t0 = choose|t0: int|
                            0 <= t0 < t && (#[trigger] nodes[t0]).path_view() == pv.push(
                                out_before[i].name,
                            );
                        if out_before[i].name == k.last() {
                            assert(nodes[t0].path_view() == nodes[t as int].path_view());
                        }
                    }
                }
                out.push(e);
                proof {
                    let now = entry_views(out@);
                    assert(now =~= out_before.push(e@));
                    assert forall|t0: int|
                        0 <= t0 < t + 1 && (#[trigger] nodes[t0]).path_view().len() == pv.len()
                            + 1 && is_seg_prefix(pv, nodes[t0].path_view()) implies exists|i: int|
                        0 <= i < now.len() && (#[trigger] now[i]).name
                            == nodes[t0].path_view().last() by {
                        if t0 == t {
                            assert(now[now.len() - 1].name == k.last());
                        } else {
                            let i = choose|i: int|
                                0 <= i < out_before.len() && (#[trigger] out_before[i]).name
                                    == nodes[t0].path_view().last();
                            assert(now[i].name == nodes[t0].path_view().last());
                        }
                    }
                }
            } else {
                proof {
                    assert(k.len() != pv.len() + 1 || !is_seg_prefix(pv, k));
                    let now = entry_views(out@);
                    assert forall|t0: int|
                        0 <= t0 < t + 1 && (#[trigger] nodes[t0]).path_view().len() == pv.len()
                            + 1 && is_seg_prefix(pv, nodes[t0].path_view()) implies exists|i: int|
                        0 <= i < now.len() && (#[trigger] now[i]).name
                            == nodes[t0].path_view().last() by {
                        assert(t0 != t);
                    }
                }
            }
            t = t + 1;
        }
        proof {
            assert forall|n: Seq<u8>| #[trigger] m.contains_key(pv.push(n)) implies exists|i: int|
                0 <= i < entry_views(out@).len() && (#[trigger] entry_views(out@)[i]).name
                    == n by {
                let t0 = choose|t0: int|
                    0 <= t0 < nodes.len() && #[trigger] nodes[t0].path_view() == pv.push(n);
                assert(nodes[t0].path_view().len() == pv.len() + 1);
                assert(nodes[t0].path_view().take(pv.len() as int) =~~= pv);
                assert(is_seg_prefix(pv, nodes[t0].path_view()));
                assert(nodes[t0].path_view().last() == n);
            }
        }
        out
    }

    /// Lists the direct children of the directory a raw path names (the
    /// drive root for the empty path), strictly sorted by display name.
    pub fn entries(&self, path: &Vec<u8>) -> (r: Result<Vec<Entry>, DriveError>)
        requires
            self.wf(),
        ensures
            ({
                let p = segs_of(path@);
                match r {
                    Ok(es) => {
                        &&& raw_ok(path@)
                        &&& (p.len() > 0 ==> self.model().contains_key(p) && self.model()[p]
                            is Directory)
                        &&& is_child_listing(
                            self.model(),
                            self.root_view(),
                            p,
                            entry_views(es@),
                        )
                    },
                    Err(e) => {
                        ||| (e == DriveError::EntryNameInvalid && !raw_ok(path@))
                        ||| (e == DriveError::EntryNotFound && raw_ok(path@) && p.len() > 0
                            && !self.model().contains_key(p))
                        ||| (e == DriveError::EntryUnexpectedType && raw_ok(path@) && p.len() > 0
                            && self.model().contains_key(p) && self.model()[p] is File)
                    },
                }
            }),
    {
        let p = match parse_path(path) {
            Some(p) => p,
            None => {
                return Err(DriveError::EntryNameInvalid);
            },
        };
        if !p.is_root() {
            match self.find_node(p.segments()) {
                Some(i) => {
                    if !self.nodes[i].is_dir {
                        return Err(DriveError::EntryUnexpectedType);
                    }
                },
                None => {
                    return Err(DriveError::EntryNotFound);
                },
            }
        }
        let collected = self.collect_children(&p);
        let ghost ins = entry_views(collected@);
        let sorted = sort_entries(collected);
        let ghost outs = entry_views(sorted@);
        proof {
            ins.to_multiset_ensures();
            outs.to_multiset_ensures();
            // Repeated names never arise, so the input is duplicate-free,
            // and the sorted output is therefore strictly ascending.
            assert forall|a: int, b: int|
                0 <= a < ins.len() && 0 <= b < ins.len() && a != b implies ins[a] != ins[b] by {
                if a < b {
                    assert(ins[a].name != ins[b].name);
                } else {
                    assert(ins[b].name != ins[a].name);
                }
            }
            ins.lemma_multiset_has_no_duplicates();
            assert forall|x: EntryV|
                outs.to_multiset().contains(x) implies outs.to_multiset().count(x) == 1 by {
                assert(ins.to_multiset().contains(x));
            }
            outs.lemma_multiset_has_no_duplicates_conv();
            assert forall|i: int| 0 <= i < outs.len() implies exists|j: int|
                0 <= j < ins.len() && (#[trigger] ins[j]) == (#[trigger] outs[i]) by {
                assert(outs.to_multiset().contains(outs[i]));
                assert(ins.to_multiset().contains(outs[i]));
                assert(ins.contains(outs[i]));
            }
            assert forall|a: int, b: int|
                0 <= a < b < outs.len() implies crate::bytestr::lex_lt(
                outs[a].name,
                outs[b].name,
            ) by {
                if outs[a].name == outs[b].name {
                    if outs[a] == outs[b] {
                        assert(false);
                    } else {
                        let ja = choose|j: int| 0 <= j < ins.len() && ins[j] == outs[a];
                        let jb = choose|j: int| 0 <= j < ins.len() && ins[j] == outs[b];
                        assert(ins[ja].name == ins[jb].name);
                        assert(false);
                    }
                }
            }
            assert forall|i: int|
                0 <= i < outs.len() implies self.model().contains_key(
                p@.push((#[trigger] outs[i]).name),
            ) && outs[i] == child_entry(self.model(), self.root_view(), p@, outs[i].name) by {
                let j = choose|j: int| 0 <= j < ins.len() && ins[j] == outs[i];
            }
            assert forall|n: Seq<u8>|
                #[trigger] self.model().contains_key(p@.push(n)) implies exists|i: int|
                0 <= i < outs.len() && (#[trigger] outs[i]).name == n by {
                let j = choose|j: int| 0 <= j < ins.len() && (#[trigger] ins[j]).name == n;
                assert(ins.to_multiset().contains(ins[j]));
                assert(outs.to_multiset().contains(ins[j]));
                assert(outs.contains(ins[j]));
                let i = choose|i: int| 0 <= i < outs.len() && outs[i] == ins[j];
                assert(outs[i].name == n);
            }
        }
        Ok(sorted)
    }

    /// The display names of the listed entries, in the same order.
    fn child_names(es: &Vec<Entry>) -> (r: Vec<Vec<u8>>)
        ensures
            r.deep_view().len() == entry_views(es@).len(),
            forall|i: int|
                0 <= i < r.deep_view().len() ==> r.deep_view()[i] == entry_views(es@)[i].name,
    {
        let mut out: Vec<Vec<u8>> = Vec::new();
        let mut i: usize = 0;
        while i < es.len()
            invariant
                0 <= i <= es@.len(),
                out.deep_view().len() == i,
                forall|j: int|
                    0 <= j < i ==> out.deep_view()[j] == entry_views(es@)[j].name,
            decreases es@.len() - i,
        {
            let n = es[i].file_name();
            proof {
                assert(n.deep_view() =~= n@);
            }
            let ghost out_before = out.deep_view();
            out.push(n);
            proof {
                assert(out.deep_view() =~~= out_before.push(entry_views(es@)[i as int].name));
            }
            i = i + 1;
        }
        out
    }

    /// The sorted names of the root's direct children, windowed by an
    /// absolute offset: `skip(offset).take(count)`.
    pub fn list(&self, count: usize, offset: usize) -> (r: Vec<Vec<u8>>)
        requires
            self.wf(),
        ensures
            exists|full: Seq<Seq<u8>>|
                #[trigger] is_name_listing(self.model(), Seq::empty(), full) && r.deep_view()
                    == page_of(full, offset as int, count as int),
    {
        let empty_path: Vec<u8> = Vec::new();
        let es = match self.entries(&empty_path) {
            Ok(es) => es,
            Err(_) => {
                proof {
                    assert(false);
                }
                Vec::new()
            },
        };
        let names = Self::child_names(&es);
        proof {
            assert(segs_of(empty_path@) =~~= Seq::<Seq<u8>>::empty());
            lemma_names_of_listing(
                self.model(),
                self.root_view(),
                Seq::empty(),
                entry_views(es@),
                names.deep_view(),
            );
        }
        paginate(&names, offset, count)
    }

    /// The sorted names of the root's direct children that begin with
    /// `query`, windowed by page: `skip(page * count).take(count)`.
    pub fn search(&self, query: &Vec<u8>, page: usize, count: usize) -> (r: Vec<Vec<u8>>)
        requires
            self.wf(),
        ensures
            exists|full: Seq<Seq<u8>>|
                #[trigger] is_name_listing(self.model(), Seq::empty(), full) && r.deep_view()
                    == page_of(
                    full.filter(|n: Seq<u8>| is_prefix(query@, n)),
                    (page as int) * (count as int),
                    count as int,
                ),
    {
        let empty_path: Vec<u8> = Vec::new();
        let es = match self.entries(&empty_path) {
            Ok(es) => es,
            Err(_) => {
                proof {
                    assert(false);
                }
                Vec::new()
            },
        };
        let names = Self::child_names(&es);
        proof {
            assert(segs_of(empty_path@) =~~= Seq::<Seq<u8>>::empty());
            lemma_names_of_listing(
                self.model(),
                self.root_view(),
                Seq::empty(),
                entry_views(es@),
                names.deep_view(),
            );
        }
        let matched = filter_prefixed(&names, query);
        match page.checked_mul(count) {
            Some(offset) => paginate(&matched, offset, count),
            None => {
                let n_all = names.len();
                let r: Vec<Vec<u8>> = Vec::new();
                proof {
                    let full = names.deep_view();
                    let matched_names = full.filter(|n: Seq<u8>| is_prefix(query@, n));
                    full.lemma_filter_len(|n: Seq<u8>| is_prefix(query@, n));
                    assert(matched_names.len() <= full.len());
                    assert(full.len() == n_all);
                    assert((page as int) * (count as int) > usize::MAX);
                    assert(r.deep_view() =~~= page_of(
                        matched_names,
                        (page as int) * (count as int),
                        count as int,
                    ));
                }
                r
            },
        }
    }

    /// Validates a raw path and requires it to name something that exists
    /// (the root always does).
    pub fn normalize_path(&self, path: &Vec<u8>) -> (r: Result<ValidatedPath, DriveError>)
        requires
            self.wf(),
        ensures
            match r {
                Ok(p) => {
                    &&& raw_ok(path@)
                    &&& p@ == segs_of(path@)
                    &&& p.wf()
                    &&& (p@.len() == 0 || self.model().contains_key(p@))
                },
                Err(e) => {
                    ||| (e == DriveError::EntryNameInvalid && !raw_ok(path@))
                    ||| (e == DriveError::EntryNotFound && raw_ok(path@) && segs_of(path@).len()
                        > 0 && !self.model().contains_key(segs_of(path@)))
                },
            },
    {
        let p = match self.entry_valid(path) {
            Ok(p) => p,
            Err(e) => {
                return Err(e);
            },
        };
        match self.entry_exists(&p) {
            Ok(()) => Ok(p),
            Err(e) => Err(e),
        }
    }

    /// Opens the file a raw path names for a chunked, forward-only read,
    /// with the advisory content type derived from its name.
    pub fn read(&self, path: &Vec<u8>) -> (r: Result<DriveFile, DriveError>)
        requires
            self.wf(),
        ensures
            match r {
                Ok(f) => {
                    &&& spec_download(self.model(), path@) == Ok::<Seq<u8>, DriveError>(
                        f@.content,
                    )
                    &&& f@.pos == 0
                    &&& f.wf()
                    &&& f@.content_type == spec_content_type(segs_of(path@).last())
                },
                Err(e) => spec_download(self.model(), path@) == Err::<Seq<u8>, DriveError>(e),
            },
    {
        let p = match parse_path(path) {
            Some(p) => p,
            None => {
                return Err(DriveError::EntryNameInvalid);
            },
        };
        if p.is_root() {
            return Err(DriveError::EntryUnexpectedType);
        }
        let i = match self.find_node(p.segments()) {
            Some(i) => i,
            None => {
                return Err(DriveError::EntryNotFound);
            },
        };
        if self.nodes[i].is_dir {
            return Err(DriveError::EntryUnexpectedType);
        }
        let content = clone_bytes(&self.nodes[i].content);
        let content_type = crate::drive_file::content_type_of(p.last_segment());
        Ok(DriveFile::new(content, content_type))
    }

    /// Opens the file a raw path names for download: the advisory content
    /// type and the content as a lazy chunk sequence.
    pub fn download(&self, path: &Vec<u8>) -> (r: Result<DriveFile, DriveError>)
        requires
            self.wf(),
        ensures
            match r {
                Ok(f) => {
                    &&& spec_download(self.model(), path@) == Ok::<Seq<u8>, DriveError>(
                        f@.content,
                    )
                    &&& f@.pos == 0
                    &&& f.wf()
                    &&& f@.content_type == spec_content_type(segs_of(path@).last())
                },
                Err(e) => spec_download(self.model(), path@) == Err::<Seq<u8>, DriveError>(e),
            },
    {
        self.read(path)
    }

    /// Writes the inbound chunks to the file a raw path names, joined in
    /// order, creating the file or overwriting it whole.
    pub fn write(&mut self, chunks: &Vec<Vec<u8>>, path: &Vec<u8>) -> (r: Result<(), DriveError>)
        requires
            old(self).wf(),
        ensures
            final(self).wf(),
            final(self).root_view() == old(self).root_view(),
            match r {
                Ok(()) => spec_write(old(self).model(), path@, chunks.deep_view().flatten())
                    == Ok::<DriveModel, DriveError>(final(self).model()),
                Err(e) => spec_write(old(self).model(), path@, chunks.deep_view().flatten())
                    == Err::<DriveModel, DriveError>(e) && final(self).model() == old(
                    self,
                ).model(),
            },
    {
        let p = match parse_path(path) {
            Some(p) => p,
            None => {
                return Err(DriveError::EntryNameInvalid);
            },
        };
        if p.is_root() {
            return Err(DriveError::EntryNameInvalid);
        }
        let data = crate::drive_file::concat_chunks(chunks);
        match self.find_node(p.segments()) {
            Some(i) => {
                if self.nodes[i].is_dir {
                    return Err(DriveError::EntryNameInvalid);
                }
                proof {
                    self.lemma_wf_model();
                }
                let ghost old_nodes = self.nodes@;
                let ghost pv = p@;
                let node = Node { segs: p.into_segments(), is_dir: false, content: data };
                let ghost n = node;
                self.nodes[i] = node;
                proof {
                    assert(self.nodes@ =~= old_nodes.update(i as int, n));
                    lemma_map_of_update(old_nodes, i as int, n);
                    assert(self.model() == map_of(old_nodes).insert(pv, FsNode::File(n.content@)));
                    assert forall|a: int|
                        0 <= a < self.nodes@.len() implies (#[trigger] self.nodes@[a]).wf() by {
                        if a != i {
                            assert(self.nodes@[a] == old_nodes[a]);
                        }
                    }
                    assert forall|a: int, b: int|
                        0 <= a < b < self.nodes@.len() implies self.nodes@[a].path_view()
                        != self.nodes@[b].path_view() by {
                        assert(self.nodes@[a].path_view() == old_nodes[a].path_view());
                        assert(self.nodes@[b].path_view() == old_nodes[b].path_view());
                    }
                    assert forall|a: int|
                        0 <= a < self.nodes@.len() && (#[trigger] self.nodes@[a]).path_view().len()
                            > 1 implies exists|j: int|
                        0 <= j < self.nodes@.len() && (#[trigger] self.nodes@[j]).path_view()
                            == self.nodes@[a].path_view().drop_last()
                            && self.nodes@[j].is_dir by {
                        let j = choose|j: int|
                            0 <= j < old_nodes.len() && (#[trigger] old_nodes[j]).path_view()
                                == old_nodes[a].path_view().drop_last() && old_nodes[j].is_dir;
                        assert(j != i);
                        assert(self.nodes@[j] == old_nodes[j]);
                        assert(self.nodes@[a].path_view() == old_nodes[a].path_view());
                    }
                    assert(parent_ready(old(self).model(), pv));
                }
                Ok(())
            },
            None => {
                proof {
                    self.lemma_wf_model();
                }
                match self.insert_node(p, false, data) {
                    Ok(()) => Ok(()),
                    Err(_) => Err(DriveError::EntryNameInvalid),
                }
            },
        }
    }

    /// Writes the inbound chunks to the file a raw path names: the upload
    /// operation, overwrite semantics.
    pub fn upload(&mut self, path: &Vec<u8>, chunks: &Vec<Vec<u8>>) -> (r: Result<(), DriveError>)
        requires
            old(self).wf(),
        ensures
            final(self).wf(),
            final(self).root_view() == old(self).root_view(),
            match r {
                Ok(()) => spec_write(old(self).model(), path@, chunks.deep_view().flatten())
                    == Ok::<DriveModel, DriveError>(final(self).model()),
                Err(e) => spec_write(old(self).model(), path@, chunks.deep_view().flatten())
                    == Err::<DriveModel, DriveError>(e) && final(self).model() == old(
                    self,
                ).model(),
            },
    {
        self.write(chunks, path)
    }

    /// Moves the whole subtree at or beneath `from` so that it hangs at
    /// `to`; requires `rename_ok` of the store.
    #[verifier::rlimit(60)]
    fn rename_subtree(&mut self, pf: &ValidatedPath, pt: &ValidatedPath)
        requires
            old(self).wf(),
            pf.wf(),
            pt.wf(),
            rename_ok(old(self).model(), pf@, pt@),
        ensures
            final(self).wf(),
            final(self).root_view() == old(self).root_view(),
            final(self).model() == renamed_map(old(self).model(), pf@, pt@),
    {
        let ghost fv = pf@;
        let ghost tv = pt@;
        let ghost old_nodes = self.nodes@;
        let ghost old_map = map_of(old_nodes);
        proof {
            lemma_map_of_membership(old_nodes);
            lemma_no_key_under_to(old_map, fv, tv);
        }
        let mut done: Vec<Node> = Vec::new();
        let mut i: usize = 0;
        let fv_len = pf.depth();
        proof {
            assert(old_nodes.take(0) =~= Seq::<Node>::empty());
            assert(map_of(done@) =~= renamed_map(map_of(old_nodes.take(0)), fv, tv));
        }
        while i < self.nodes.len()
            invariant
                self.wf(),
                self.nodes@ == old_nodes,
                old_map == map_of(old_nodes),
                pf.wf(),
                pt.wf(),
                fv == pf@,
                tv == pt@,
                fv_len == fv.len(),
                rename_ok(old_map, fv, tv),
                0 <= i <= old_nodes.len(),
                forall|j: int| 0 <= j < done@.len() ==> (#[trigger] done@[j]).wf(),
                forall|j: int|
                    0 <= j < done@.len() ==> exists|t: int|
                        0 <= t < i && (#[trigger] done@[j]).path_view() == rename_key(
                            fv,
                            tv,
                            (#[trigger] old_nodes[t]).path_view(),
                        ),
                unique_paths(done@),
                map_of(done@) == renamed_map(map_of(old_nodes.take(i as int)), fv, tv),
            decreases old_nodes.len() - i,
        {
            let ghost k = self.nodes@[i as int].path_view();
            let ghost v = self.nodes@[i as int].fs_view();
            let ghost sub = old_nodes.take(i as int);
            let ghost sub1 = old_nodes.take(i as int + 1);
            proof {
                assert(sub1.drop_last() =~= sub);
                assert(sub1.last() == old_nodes[i as int]);
                assert(map_of(sub1) == map_of(sub).insert(k, v));
                lemma_map_of_membership(sub);
                assert forall|t: int| 0 <= t < sub.len() implies (#[trigger] sub[t]).path_view()
                    != k by {
                    assert(sub[t] == old_nodes[t]);
                }
                assert(!map_of(sub).contains_key(k));
                assert forall|q: Seq<Seq<u8>>|
                    #[trigger] map_of(sub).contains_key(q) implies old_map.contains_key(q) by {
                    let t = choose|t: int|
                        0 <= t < sub.len() && #[trigger] sub[t].path_view() == q;
                    assert(old_nodes[t].path_view() == q);
                    lemma_map_of_index(old_nodes, t);
                }
                lemma_map_of_index(old_nodes, i as int);
                lemma_renamed_insert(old_map, map_of(sub), fv, tv, k, v);
            }
            let node_ref = &self.nodes[i];
            let renamed = segs_starts_with(&node_ref.segs, pf.segments());
            let new_node: Node;
            if renamed {
                let mut new_segs = clone_segs(pt.segments());
                let mut q: usize = fv_len;
                proof {
                    assert(new_segs.deep_view() =~~= tv + k.subrange(fv_len as int, fv_len as int));
                }
                while q < node_ref.segs.len()
                    invariant
                        fv_len <= q <= node_ref.segs@.len(),
                        k == node_ref.path_view(),
                        k.len() == node_ref.segs@.len(),
                        fv_len <= k.len(),
                        new_segs.deep_view() == tv + k.subrange(fv_len as int, q as int),
                        tv == pt@,
                    decreases node_ref.segs@.len() - q,
                {
                    let c = clone_bytes(&node_ref.segs[q]);
                    proof {
                        assert(c.deep_view() =~= c@);
                        assert(k[q as int] =~= node_ref.segs@[q as int]@);
                    }
                    let ghost before = new_segs.deep_view();
                    new_segs.push(c);
                    proof {
                        assert(new_segs.deep_view() =~~= before.push(k[q as int]));
                        assert(tv + k.subrange(fv_len as int, q as int + 1)
                            =~~= (tv + k.subrange(fv_len as int, q as int)).push(k[q as int]));
                    }
                    q = q + 1;
                }
                proof {
                    assert(k.subrange(fv_len as int, k.len() as int) =~~= k.skip(fv_len as int));
                    assert(new_segs.deep_view() =~~= tv + k.skip(fv_len as int));
                }
                new_node = Node {
                    segs: new_segs,
                    is_dir: node_ref.is_dir,
                    content: clone_bytes(&node_ref.content),
                };
                proof {
                    assert(new_node.path_view() == rename_key(fv, tv, k));
                    assert(new_node.fs_view() == v);
                    assert forall|x: int|
                        0 <= x < new_node.path_view().len() implies is_normal_seg(
                        #[trigger] new_node.path_view()[x],
                    ) by {
                        if x < tv.len() {
                            assert(new_node.path_view()[x] == tv[x]);
                        } else {
                            assert(new_node.path_view()[x] == k[x - tv.len() + fv.len()]);
                            assert(self.nodes@[i as int].wf());
                        }
                    }
                    assert(new_node.wf());
                }
            } else {
                new_node = Node {
                    segs: clone_segs(&node_ref.segs),
                    is_dir: node_ref.is_dir,
                    content: clone_bytes(&node_ref.content),
                };
                proof {
                    assert(new_node.path_view() == k);
                    assert(new_node.path_view() == rename_key(fv, tv, k));
                    assert(new_node.fs_view() == v);
                    assert(self.nodes@[i as int].wf());
                    assert(new_node.wf());
                }
            }
            let ghost done_before = done@;
            proof {
                assert forall|j: int|
                    0 <= j < done_before.len() implies done_before[j].path_view()
                    != new_node.path_view() by {
                    let t = choose|t: int|
                        0 <= t < i && (#[trigger] done_before[j]).path_view() == rename_key(
                            fv,
                            tv,
                            (#[trigger] old_nodes[t]).path_view(),
                        );
                    lemma_map_of_index(old_nodes, t);
                    lemma_rename_key_injective(old_map, fv, tv, old_nodes[t].path_view(), k);
                }
            }
            done.push(new_node);
            proof {
                assert(done@.drop_last() =~= done_before);
                assert(map_of(done@) == map_of(done_before).insert(
                    rename_key(fv, tv, k),
                    v,
                ));
                assert(map_of(done@) == renamed_map(map_of(sub1), fv, tv));
                assert forall|j: int| 0 <= j < done@.len() implies exists|t: int|
                    0 <= t < i + 1 && (#[trigger] done@[j]).path_view() == rename_key(
                        fv,
                        tv,
                        (#[trigger] old_nodes[t]).path_view(),
                    ) by {
                    if j < done_before.len() {
                        let t = choose|t: int|
                            0 <= t < i && (#[trigger] done_before[j]).path_view() == rename_key(
                                fv,
                                tv,
                                (#[trigger] old_nodes[t]).path_view(),
                            );
                        assert(done@[j].path_view() == rename_key(
                            fv,
                            tv,
                            old_nodes[t].path_view(),
                        ));
                    } else {
                        assert(done@[j].path_view() == rename_key(
                            fv,
                            tv,
                            old_nodes[i as int].path_view(),
                        ));
                    }
                }
            }
            i = i + 1;
        }
        proof {
            assert(old_nodes.take(old_nodes.len() as int) =~= old_nodes);
        }
        self.nodes = done;
        proof {
            lemma_renamed_parent_closed(old_map, fv, tv);
            lemma_nodes_parent_witness(self.nodes@);
        }
    }

    /// Renames a directory entry without overwriting the target: the whole
    /// subtree beneath `from` moves to hang at `to`.
    pub fn rename_directory(&mut self, from: &Vec<u8>, to: &Vec<u8>) -> (r: Result<
        (),
        DriveError,
    >)
        requires
            old(self).wf(),
        ensures
            final(self).wf(),
            final(self).root_view() == old(self).root_view(),
            match r {
                Ok(()) => spec_rename_directory(old(self).model(), from@, to@) == Ok::<
                    DriveModel,
                    DriveError,
                >(final(self).model()),
                Err(e) => spec_rename_directory(old(self).model(), from@, to@) == Err::<
                    DriveModel,
                    DriveError,
                >(e) && final(self).model() == old(self).model(),
            },
    {
        let pf = match parse_path(from) {
            Some(p) => p,
            None => {
                return Err(DriveError::EntryNameInvalid);
            },
        };
        let from_is_root = pf.is_root();
        let mut from_is_dir = true;
        if !from_is_root {
            match self.find_node(pf.segments()) {
                Some(i) => {
                    from_is_dir = self.nodes[i].is_dir;
                },
                None => {
                    return Err(DriveError::EntryNotFound);
                },
            }
        }
        let pt = match parse_path(to) {
            Some(p) => p,
            None => {
                return Err(DriveError::EntryNameInvalid);
            },
        };
        if pt.is_root() {
            return Err(DriveError::EntryExists);
        }
        if let Some(_) = self.find_node(pt.segments()) {
            return Err(DriveError::EntryExists);
        }
        if !from_is_dir {
            return Err(DriveError::EntryUnexpectedType);
        }
        if from_is_root {
            return Err(DriveError::EntryRename);
        }
        if segs_starts_with(pt.segments(), pf.segments()) {
            return Err(DriveError::EntryRename);
        }
        if pt.depth() > 1 {
            let segs_ref = pt.segments();
            let mut parent: Vec<Vec<u8>> = Vec::new();
            let mut i: usize = 0;
            let plen = segs_ref.len();
            proof {
                assert(parent.deep_view() =~~= pt@.take(0));
            }
            while i < plen - 1
                invariant
                    0 <= i <= plen - 1,
                    plen == pt@.len(),
                    segs_ref.deep_view() == pt@,
                    segs_ref@.len() == plen,
                    parent.deep_view() == pt@.take(i as int),
                decreases plen - 1 - i,
            {
                proof {
                    assert(segs_ref@[i as int].deep_view() =~= segs_ref@[i as int]@);
                }
                let c = clone_bytes(&segs_ref[i]);
                proof {
                    assert(c.deep_view() =~= c@);
                }
                let ghost before = parent.deep_view();
                parent.push(c);
                proof {
                    assert(parent.deep_view() =~~= before.push(pt@[i as int]));
                    assert(pt@.take(i as int + 1) =~~= pt@.take(i as int).push(pt@[i as int]));
                }
                i = i + 1;
            }
            proof {
                assert(pt@.take(plen - 1 as int) =~~= pt@.drop_last());
            }
            match self.find_node(&parent) {
                Some(j) => {
                    if !self.nodes[j].is_dir {
                        proof {
                            assert(self.model()[pt@.drop_last()] is File);
                        }
                        return Err(DriveError::EntryRename);
                    }
                },
                None => {
                    return Err(DriveError::EntryRename);
                },
            }
        }
        proof {
            self.lemma_wf_model();
            assert(rename_ok(self.model(), pf@, pt@));
        }
        self.rename_subtree(&pf, &pt);
        Ok(())
    }
}

} // verus!
