//! The drive's laws: properties that hold of every store and every input,
//! stated over the store model and proved once and for all.

use vstd::prelude::*;

use crate::bytestr::{lemma_lex_le_antisymmetric, lemma_lex_le_refl, lex_le, lex_lt};
use crate::drive::{
    child_entry, content_of, is_child_listing, is_name_listing, parent_ready,
    spec_create_directory, spec_download, spec_remove, spec_rename_directory, spec_write,
    subtree_removed, DriveModel,
};
use crate::entry::EntryV;
use crate::error::DriveError;
use crate::path::{is_normal_seg, is_seg_prefix, raw_ok, segs_of, DOT};

verus! {

/// Law: a raw path one of whose segments is the parent directory `..`, the
/// current directory `.`, or empty is rejected by validation, so every drive
/// operation answers `EntryNameInvalid` for it. A syntactically absolute
/// path has an empty first segment, so it falls under the empty case.
pub proof fn lemma_validation_rejects_walks(raw: Seq<u8>, i: int)
    requires
        0 <= i < segs_of(raw).len(),
        segs_of(raw)[i] == seq![DOT, DOT] || segs_of(raw)[i] == seq![DOT] || segs_of(raw)[i].len()
            == 0,
    ensures
        !raw_ok(raw),
{
    assert(!is_normal_seg(segs_of(raw)[i]));
}

/// Law: creating a fresh, valid top-level directory succeeds, the new name
/// shows up in the root listing afterwards, and creating it a second time
/// fails `EntryExists`.
pub proof fn lemma_create_then_list(m: DriveModel, raw: Seq<u8>, names: Seq<Seq<u8>>)
    requires
        raw_ok(raw),
        segs_of(raw).len() == 1,
        !m.contains_key(segs_of(raw)),
        spec_create_directory(m, raw) matches Ok(m1) && is_name_listing(m1, Seq::empty(), names),
    ensures
        spec_create_directory(m, raw) is Ok,
        names.contains(segs_of(raw)[0]),
        spec_create_directory(m, raw) matches Ok(m1) ==> spec_create_directory(m1, raw) == Err::<
            DriveModel,
            DriveError,
        >(DriveError::EntryExists),
{
    let p = segs_of(raw);
    assert(parent_ready(m, p));
    let m1 = m.insert(p, crate::drive::FsNode::Directory);
    assert(p =~~= Seq::<Seq<u8>>::empty().push(p[0]));
    assert(m1.contains_key(Seq::<Seq<u8>>::empty().push(p[0])));
}

/// Law: a rename whose source names a file fails `EntryUnexpectedType`.
pub proof fn lemma_rename_from_file(m: DriveModel, from_raw: Seq<u8>, to_raw: Seq<u8>)
    requires
        raw_ok(from_raw),
        segs_of(from_raw).len() > 0,
        m.contains_key(segs_of(from_raw)),
        m[segs_of(from_raw)] is File,
        raw_ok(to_raw),
        segs_of(to_raw).len() > 0,
        !m.contains_key(segs_of(to_raw)),
    ensures
        spec_rename_directory(m, from_raw, to_raw) == Err::<DriveModel, DriveError>(
            DriveError::EntryUnexpectedType,
        ),
{
}

/// Law: a rename whose target already exists (the root included) fails
/// `EntryExists`.
pub proof fn lemma_rename_to_existing(m: DriveModel, from_raw: Seq<u8>, to_raw: Seq<u8>)
    requires
        raw_ok(from_raw),
        segs_of(from_raw).len() > 0 ==> m.contains_key(segs_of(from_raw)),
        raw_ok(to_raw),
        segs_of(to_raw).len() == 0 || m.contains_key(segs_of(to_raw)),
    ensures
        spec_rename_directory(m, from_raw, to_raw) == Err::<DriveModel, DriveError>(
            DriveError::EntryExists,
        ),
{
}

/// Law: after a successful top-level rename, the root listing shows the new
/// name and no longer shows the old one.
pub proof fn lemma_rename_then_list(
    m: DriveModel,
    from_raw: Seq<u8>,
    to_raw: Seq<u8>,
    names: Seq<Seq<u8>>,
)
    requires
        segs_of(from_raw).len() == 1,
        segs_of(to_raw).len() == 1,
        spec_rename_directory(m, from_raw, to_raw) matches Ok(m1) && is_name_listing(
            m1,
            Seq::empty(),
            names,
        ),
    ensures
        names.contains(segs_of(to_raw)[0]),
        !names.contains(segs_of(from_raw)[0]),
{
    let f = segs_of(from_raw);
    let t = segs_of(to_raw);
    let m1 = crate::drive::renamed_map(m, f, t);
    assert(t.take(t.len() as int) =~~= t);
    assert(is_seg_prefix(t, t));
    assert(f + t.skip(t.len() as int) =~~= f);
    assert(m1.contains_key(t));
    assert(t =~~= Seq::<Seq<u8>>::empty().push(t[0]));
    assert(f =~~= Seq::<Seq<u8>>::empty().push(f[0]));
    assert(f.take(f.len() as int) =~~= f);
    assert(is_seg_prefix(f, f));
    if m1.contains_key(f) {
        assert(is_seg_prefix(t, f));
        assert(f.take(t.len() as int) =~~= f);
        assert(f == t);
        assert(m.contains_key(f) && !m.contains_key(t));
    }
    if names.contains(f[0]) {
        let i = choose|i: int| 0 <= i < names.len() && names[i] == f[0];
        assert(m1.contains_key(Seq::<Seq<u8>>::empty().push(names[i])));
    }
}

/// Law: uploading content to a path and then downloading that path yields
/// exactly the uploaded bytes.
pub proof fn lemma_upload_download_roundtrip(m: DriveModel, raw: Seq<u8>, data: Seq<u8>)
    requires
        spec_write(m, raw, data) is Ok,
    ensures
        spec_write(m, raw, data) matches Ok(m1) ==> spec_download(m1, raw) == Ok::<
            Seq<u8>,
            DriveError,
        >(data),
{
}

/// Law: removing an absent entry (or the root) fails `EntryNotFound`.
pub proof fn lemma_remove_absent(m: DriveModel, raw: Seq<u8>)
    requires
        raw_ok(raw),
        segs_of(raw).len() == 0 || !m.contains_key(segs_of(raw)),
    ensures
        spec_remove(m, raw) == Err::<DriveModel, DriveError>(DriveError::EntryNotFound),
{
}

/// Law: a successful remove takes out the entry and every descendant, and a
/// removed top-level entry no longer shows in the root listing.
pub proof fn lemma_remove_subtree(m: DriveModel, raw: Seq<u8>, names: Seq<Seq<u8>>)
    requires
        spec_remove(m, raw) is Ok,
        segs_of(raw).len() == 1,
        spec_remove(m, raw) matches Ok(m1) && is_name_listing(m1, Seq::empty(), names),
    ensures
        spec_remove(m, raw) matches Ok(m1) ==> forall|q: Seq<Seq<u8>>|
            is_seg_prefix(segs_of(raw), q) ==> !(#[trigger] m1.contains_key(q)),
        !names.contains(segs_of(raw)[0]),
{
    let p = segs_of(raw);
    let m1 = subtree_removed(m, p);
    assert(p.take(p.len() as int) =~~= p);
    assert(is_seg_prefix(p, p));
    assert(p =~~= Seq::<Seq<u8>>::empty().push(p[0]));
    if names.contains(p[0]) {
        let i = choose|i: int| 0 <= i < names.len() && names[i] == p[0];
        assert(m1.contains_key(Seq::<Seq<u8>>::empty().push(names[i])));
    }
}

/// Law: a store admits exactly one name listing per directory, so calling
/// the listing twice with no intervening mutation yields identical ordered
/// output.
pub proof fn lemma_listing_deterministic(
    m: DriveModel,
    p: Seq<Seq<u8>>,
    a: Seq<Seq<u8>>,
    b: Seq<Seq<u8>>,
)
    requires
        is_name_listing(m, p, a),
        is_name_listing(m, p, b),
    ensures
        a == b,
    decreases a.len(),
{
    if a.len() == 0 {
        if b.len() > 0 {
            assert(m.contains_key(p.push(b[0])));
            assert(a.contains(b[0]));
        }
        assert(a =~~= b);
    } else {
        let la = a.last();
        assert(m.contains_key(p.push(la)));
        assert(b.contains(la));
        let jb = choose|j: int| 0 <= j < b.len() && b[j] == la;
        assert(b.len() > 0);
        let lb = b.last();
        assert(m.contains_key(p.push(lb)));
        assert(a.contains(lb));
        let ja = choose|j: int| 0 <= j < a.len() && a[j] == lb;
        // Both last names bound each other, so they are equal.
        if jb < b.len() - 1 {
            assert(lex_lt(b[jb], lb));
        } else {
            lemma_lex_le_refl(la);
        }
        if ja < a.len() - 1 {
            assert(lex_lt(a[ja], la));
        } else {
            lemma_lex_le_refl(lb);
        }
        assert(lex_le(la, lb) && lex_le(lb, la));
        lemma_lex_le_antisymmetric(la, lb);
        assert(la == lb);
        // Strip the shared last name and recurse on the smaller store.
        let m1 = m.remove(p.push(la));
        let a1 = a.drop_last();
        let b1 = b.drop_last();
        assert forall|i: int| 0 <= i < a1.len() implies m1.contains_key(
            p.push(#[trigger] a1[i]),
        ) by {
            assert(a1[i] == a[i]);
            assert(lex_lt(a[i], la));
            assert(a[i] != la);
            assert(p.push(a[i]).last() == a[i]);
            assert(p.push(la).last() == la);
            assert(p.push(a[i]) != p.push(la));
        }
        assert forall|i: int| 0 <= i < b1.len() implies m1.contains_key(
            p.push(#[trigger] b1[i]),
        ) by {
            assert(b1[i] == b[i]);
            assert(lex_lt(b[i], lb));
            assert(b[i] != lb);
            assert(p.push(b[i]).last() == b[i]);
            assert(p.push(lb).last() == lb);
            assert(p.push(b[i]) != p.push(lb));
        }
        assert forall|n: Seq<u8>| #[trigger] m1.contains_key(p.push(n)) implies a1.contains(
            n,
        ) by {
            assert(m.contains_key(p.push(n)));
            assert(a.contains(n));
            let i = choose|i: int| 0 <= i < a.len() && a[i] == n;
            assert(p.push(n).last() == n);
            assert(p.push(la).last() == la);
            assert(n != la);
            assert(i < a.len() - 1);
            assert(a1[i] == n);
        }
        assert forall|n: Seq<u8>| #[trigger] m1.contains_key(p.push(n)) implies b1.contains(
            n,
        ) by {
            assert(m.contains_key(p.push(n)));
            assert(b.contains(n));
            let i = choose|i: int| 0 <= i < b.len() && b[i] == n;
            assert(p.push(n).last() == n);
            assert(p.push(lb).last() == lb);
            assert(n != lb);
            assert(i < b.len() - 1);
            assert(b1[i] == n);
        }
        assert(is_name_listing(m1, p, a1));
        assert(is_name_listing(m1, p, b1));
        lemma_listing_deterministic(m1, p, a1, b1);
        assert(a =~~= a1.push(la));
        assert(b =~~= b1.push(lb));
    }
}

/// Law: a store admits exactly one full child listing per directory:
/// repeated `entries` calls with no intervening mutation agree entry for
/// entry.
pub proof fn lemma_entries_deterministic(
    m: DriveModel,
    root: Seq<u8>,
    p: Seq<Seq<u8>>,
    a: Seq<EntryV>,
    b: Seq<EntryV>,
)
    requires
        is_child_listing(m, root, p, a),
        is_child_listing(m, root, p, b),
    ensures
        a == b,
{
    let an = Seq::new(a.len(), |i: int| a[i].name);
    let bn = Seq::new(b.len(), |i: int| b[i].name);
    assert forall|n: Seq<u8>| #[trigger] m.contains_key(p.push(n)) implies an.contains(n) by {
        let i = choose|i: int| 0 <= i < a.len() && (#[trigger] a[i]).name == n;
        assert(an[i] == n);
    }
    assert forall|n: Seq<u8>| #[trigger] m.contains_key(p.push(n)) implies bn.contains(n) by {
        let i = choose|i: int| 0 <= i < b.len() && (#[trigger] b[i]).name == n;
        assert(bn[i] == n);
    }
    assert(is_name_listing(m, p, an));
    assert(is_name_listing(m, p, bn));
    lemma_listing_deterministic(m, p, an, bn);
    assert forall|i: int| 0 <= i < a.len() implies a[i] == b[i] by {
        assert(an[i] == bn[i]);
        assert(a[i] == child_entry(m, root, p, a[i].name));
        assert(b[i] == child_entry(m, root, p, b[i].name));
    }
    assert(a =~~= b);
}

/// Law: what a download returns is exactly what the store holds for the
/// file, byte for byte.
pub proof fn lemma_download_reads_store(m: DriveModel, raw: Seq<u8>)
    requires
        spec_download(m, raw) is Ok,
    ensures
        m.contains_key(segs_of(raw)),
        spec_download(m, raw) == Ok::<Seq<u8>, DriveError>(content_of(m[segs_of(raw)])),
{
}

} // verus!
