//! Lexical path validation: the sandbox boundary of the drive.
//!
//! A client-supplied path is an untrusted byte string. It is accepted only
//! when every segment between separators is an ordinary name: nonempty,
//! not `.`, not `..`. In particular a leading separator (an absolute path)
//! produces an empty first segment and is rejected. Validation is purely
//! lexical and runs before any lookup against the store, so containment
//! never depends on what the target resolves to.

use vstd::prelude::*;

use crate::error::DriveError;

verus! {

/// The byte that separates path segments.
pub const SEPARATOR: u8 = 47;

/// The byte of the current-directory name `.`.
pub const DOT: u8 = 46;

/// A segment is an ordinary name: nonempty, not the current or parent
/// directory, and free of separators.
pub open spec fn is_normal_seg(s: Seq<u8>) -> bool {
    &&& s.len() > 0
    &&& s != seq![DOT]
    &&& s != seq![DOT, DOT]
    &&& forall|i: int| 0 <= i < s.len() ==> s[i] != SEPARATOR
}

/// The segments of `raw` between separators, empty segments kept.
/// A nonempty byte string with `k` separators has `k + 1` segments.
pub open spec fn split_full(raw: Seq<u8>) -> Seq<Seq<u8>>
    decreases raw.len(),
{
    if raw.len() == 0 {
        seq![Seq::<u8>::empty()]
    } else if raw[0] == SEPARATOR {
        seq![Seq::<u8>::empty()] + split_full(raw.drop_first())
    } else {
        let rest = split_full(raw.drop_first());
        seq![seq![raw[0]] + rest[0]] + rest.drop_first()
    }
}

/// The segments a raw path denotes: none for the empty path (the drive root
/// itself), its separator-split segments otherwise.
pub open spec fn segs_of(raw: Seq<u8>) -> Seq<Seq<u8>> {
    if raw.len() == 0 {
        Seq::empty()
    } else {
        split_full(raw)
    }
}

/// A raw path is contained in the drive exactly when every segment it
/// denotes is an ordinary name.
pub open spec fn raw_ok(raw: Seq<u8>) -> bool {
    forall|i: int| 0 <= i < segs_of(raw).len() ==> is_normal_seg(#[trigger] segs_of(raw)[i])
}

/// `split_full` yields at least one segment, and its segments never hold a
/// separator.
pub proof fn lemma_split_full_shape(raw: Seq<u8>)
    ensures
        split_full(raw).len() >= 1,
        forall|i: int, j: int|
            0 <= i < split_full(raw).len() && 0 <= j < split_full(raw)[i].len()
                ==> #[trigger] split_full(raw)[i][j] != SEPARATOR,
    decreases raw.len(),
{
    if raw.len() == 0 {
    } else {
        lemma_split_full_shape(raw.drop_first());
    }
}

/// A path whose segments are all ordinary names.
///
/// The invariant is what guarantees containment: joining the drive root with
/// these segments can reference nothing outside the root.
pub struct ValidatedPath {
    segs: Vec<Vec<u8>>,
}

impl View for ValidatedPath {
    type V = Seq<Seq<u8>>;

    closed spec fn view(&self) -> Seq<Seq<u8>> {
        self.segs.deep_view()
    }
}

/// Every segment of `p` is an ordinary name.
pub open spec fn segs_wf(p: Seq<Seq<u8>>) -> bool {
    forall|i: int| 0 <= i < p.len() ==> is_normal_seg(#[trigger] p[i])
}

impl ValidatedPath {
    /// The path's well-formedness: every segment is an ordinary name.
    pub open spec fn wf(&self) -> bool {
        segs_wf(self@)
    }

    /// The number of segments; zero names the drive root itself.
    pub fn depth(&self) -> (r: usize)
        ensures
            r == self@.len(),
    {
        self.segs.len()
    }

    /// Whether the path names the drive root itself.
    pub fn is_root(&self) -> (r: bool)
        ensures
            r == (self@.len() == 0),
    {
        self.segs.len() == 0
    }

    /// The path's segments.
    pub fn segments(&self) -> (r: &Vec<Vec<u8>>)
        ensures
            r.deep_view() == self@,
    {
        &self.segs
    }

    /// The final segment: the display name of the entry the path names.
    pub fn last_segment(&self) -> (r: &Vec<u8>)
        requires
            self@.len() > 0,
        ensures
            r@ == self@.last(),
    {
        &self.segs[self.segs.len() - 1]
    }

    /// Gives up the path's segments.
    pub fn into_segments(self) -> (r: Vec<Vec<u8>>)
        ensures
            r.deep_view() == self@,
    {
        self.segs
    }

    /// Wraps segments already known to be ordinary names.
    pub(crate) fn from_normal_segments(segs: Vec<Vec<u8>>) -> (r: ValidatedPath)
        requires
            segs_wf(segs.deep_view()),
        ensures
            r@ == segs.deep_view(),
            r.wf(),
    {
        ValidatedPath { segs }
    }
}

/// The segments joined with separators: the path's text beneath the root.
pub open spec fn joined(segs: Seq<Seq<u8>>) -> Seq<u8>
    decreases segs.len(),
{
    if segs.len() == 0 {
        Seq::empty()
    } else if segs.len() == 1 {
        segs[0]
    } else {
        joined(segs.drop_last()) + seq![SEPARATOR] + segs.last()
    }
}

/// The absolute text of a path: the root, then one separator before each
/// segment.
pub open spec fn abs_of(root: Seq<u8>, segs: Seq<Seq<u8>>) -> Seq<u8>
    decreases segs.len(),
{
    if segs.len() == 0 {
        root
    } else {
        abs_of(root, segs.drop_last()) + seq![SEPARATOR] + segs.last()
    }
}

/// Appends the bytes of `seg` to `out`.
pub fn push_bytes(out: &mut Vec<u8>, seg: &Vec<u8>)
    ensures
        final(out)@ == old(out)@ + seg@,
{
    let mut j: usize = 0;
    proof {
        assert(out@ =~= old(out)@ + seg@.take(0));
    }
    while j < seg.len()
        invariant
            0 <= j <= seg@.len(),
            out@ == old(out)@ + seg@.take(j as int),
        decreases seg@.len() - j,
    {
        out.push(seg[j]);
        proof {
            assert(old(out)@ + seg@.take(j as int + 1)
                =~= (old(out)@ + seg@.take(j as int)).push(seg@[j as int]));
        }
        j = j + 1;
    }
    proof {
        assert(seg@.take(seg@.len() as int) =~= seg@);
    }
}

/// Joins segments with separators: the path's text beneath the root.
pub fn join_segs(segs: &Vec<Vec<u8>>) -> (r: Vec<u8>)
    ensures
        r@ == joined(segs.deep_view()),
{
    let ghost all = segs.deep_view();
    let mut out: Vec<u8> = Vec::new();
    let mut i: usize = 0;
    proof {
        assert(out@ =~= joined(all.take(0)));
    }
    while i < segs.len()
        invariant
            0 <= i <= all.len(),
            all == segs.deep_view(),
            out@ == joined(all.take(i as int)),
        decreases all.len() - i,
    {
        if i > 0 {
            out.push(SEPARATOR);
        }
        push_bytes(&mut out, &segs[i]);
        proof {
            assert(all.take(i as int + 1).drop_last() =~= all.take(i as int));
            assert(all.take(i as int + 1).last() == all[i as int]);
            assert(segs@[i as int].deep_view() =~= segs@[i as int]@);
            assert(all[i as int] == segs@[i as int].deep_view());
            if i == 0 {
                assert(joined(all.take(1)) == all.take(1)[0]);
                assert(out@ =~= joined(all.take(i as int + 1)));
            } else {
                assert(joined(all.take(i as int + 1))
                    =~= joined(all.take(i as int)) + seq![SEPARATOR] + all[i as int]);
                assert(out@ =~= joined(all.take(i as int + 1)));
            }
        }
        i = i + 1;
    }
    proof {
        assert(all.take(all.len() as int) =~= all);
    }
    out
}

/// The display name of the path text `raw` itself: its final segment, or the
/// empty name for an empty text.
pub open spec fn base_name(raw: Seq<u8>) -> Seq<u8> {
    if raw.len() == 0 {
        Seq::empty()
    } else {
        split_full(raw).last()
    }
}

/// The final segment of a path text.
pub fn last_segment_of(raw: &Vec<u8>) -> (r: Vec<u8>)
    ensures
        r@ == base_name(raw@),
{
    if raw.len() == 0 {
        return Vec::new();
    }
    let segs = split_bytes(raw);
    proof {
        lemma_split_full_shape(raw@);
        assert(segs@[segs@.len() - 1]@ =~= segs.deep_view().last());
    }
    let last = segs.len() - 1;
    clone_bytes(&segs[last])
}

/// Copies a byte string.
pub fn clone_bytes(v: &Vec<u8>) -> (r: Vec<u8>)
    ensures
        r@ == v@,
{
    let r = v.clone();
    proof {
        assert(r@ =~= v@);
    }
    r
}

/// Forms the absolute text of a validated path beneath `root`.
pub fn abs_path(root: &Vec<u8>, p: &ValidatedPath) -> (r: Vec<u8>)
    ensures
        r@ == abs_of(root@, p@),
{
    let segs = p.segments();
    let ghost all = p@;
    let mut out: Vec<u8> = clone_bytes(root);
    let mut i: usize = 0;
    proof {
        assert(out@ =~= abs_of(root@, all.take(0)));
    }
    while i < segs.len()
        invariant
            0 <= i <= all.len(),
            all == segs.deep_view(),
            out@ == abs_of(root@, all.take(i as int)),
        decreases all.len() - i,
    {
        out.push(SEPARATOR);
        push_bytes(&mut out, &segs[i]);
        proof {
            assert(all.take(i as int + 1).drop_last() =~= all.take(i as int));
            assert(all.take(i as int + 1).last() == all[i as int]);
            assert(segs@[i as int].deep_view() =~= segs@[i as int]@);
            assert(out@ =~= abs_of(root@, all.take(i as int + 1)));
        }
        i = i + 1;
    }
    proof {
        assert(all.take(all.len() as int) =~= all);
    }
    out
}

/// Whether the segment list `p` is a prefix of `k`: `k` names `p` itself or
/// something beneath it.
pub open spec fn is_seg_prefix(p: Seq<Seq<u8>>, k: Seq<Seq<u8>>) -> bool {
    p.len() <= k.len() && k.take(p.len() as int) == p
}

/// Whether the segment list `p` is a prefix of `k`.
pub fn segs_starts_with(k: &Vec<Vec<u8>>, p: &Vec<Vec<u8>>) -> (r: bool)
    ensures
        r == is_seg_prefix(p.deep_view(), k.deep_view()),
{
    if p.len() > k.len() {
        proof {
            assert(p.deep_view().len() > k.deep_view().len());
        }
        return false;
    }
    let mut i: usize = 0;
    while i < p.len()
        invariant
            0 <= i <= p@.len(),
            p@.len() <= k@.len(),
            forall|j: int| 0 <= j < i ==> k.deep_view()[j] == p.deep_view()[j],
        decreases p@.len() - i,
    {
        proof {
            assert(k.deep_view()[i as int] =~= k@[i as int]@);
            assert(p.deep_view()[i as int] =~= p@[i as int]@);
        }
        if !crate::bytestr::bytes_eq(&k[i], &p[i]) {
            proof {
                assert(k.deep_view().take(p.deep_view().len() as int)[i as int]
                    != p.deep_view()[i as int]);
            }
            return false;
        }
        i = i + 1;
    }
    proof {
        assert(k.deep_view().take(p.deep_view().len() as int) =~~= p.deep_view());
    }
    true
}

/// Copies a segment list.
pub fn clone_segs(v: &Vec<Vec<u8>>) -> (r: Vec<Vec<u8>>)
    ensures
        r.deep_view() == v.deep_view(),
{
    let mut out: Vec<Vec<u8>> = Vec::new();
    let mut i: usize = 0;
    while i < v.len()
        invariant
            0 <= i <= v@.len(),
            out.deep_view() =~~= v.deep_view().take(i as int),
        decreases v@.len() - i,
    {
        let c = clone_bytes(&v[i]);
        proof {
            assert(c.deep_view() =~= c@);
            assert(v.deep_view()[i as int] =~= v@[i as int]@);
        }
        out.push(c);
        proof {
            assert(out.deep_view() =~~= v.deep_view().take(i as int + 1));
        }
        i = i + 1;
    }
    proof {
        assert(v.deep_view().take(v@.len() as int) =~~= v.deep_view());
    }
    out
}

/// Whether two segment lists are equal.
pub fn segs_eq(a: &Vec<Vec<u8>>, b: &Vec<Vec<u8>>) -> (r: bool)
    ensures
        r == (a.deep_view() == b.deep_view()),
{
    if a.len() != b.len() {
        proof {
            assert(a.deep_view().len() != b.deep_view().len());
        }
        return false;
    }
    let mut i: usize = 0;
    while i < a.len()
        invariant
            0 <= i <= a@.len(),
            a@.len() == b@.len(),
            forall|j: int| 0 <= j < i ==> a.deep_view()[j] == b.deep_view()[j],
        decreases a@.len() - i,
    {
        proof {
            assert(a.deep_view()[i as int] =~= a@[i as int]@);
            assert(b.deep_view()[i as int] =~= b@[i as int]@);
        }
        if !crate::bytestr::bytes_eq(&a[i], &b[i]) {
            return false;
        }
        i = i + 1;
    }
    proof {
        assert(a.deep_view() =~~= b.deep_view());
    }
    true
}

/// Whether `seg` is an ordinary name.
pub fn seg_is_normal(seg: &Vec<u8>) -> (r: bool)
    ensures
        r == is_normal_seg(seg@),
{
    if seg.len() == 0 {
        proof {
            assert(seg@.len() == 0);
        }
        return false;
    }
    if seg.len() == 1 && seg[0] == DOT {
        proof {
            assert(seg@ =~= seq![DOT]);
        }
        return false;
    }
    if seg.len() == 2 && seg[0] == DOT && seg[1] == DOT {
        proof {
            assert(seg@ =~= seq![DOT, DOT]);
        }
        return false;
    }
    let mut i: usize = 0;
    while i < seg.len()
        invariant
            0 <= i <= seg@.len(),
            forall|j: int| 0 <= j < i ==> seg@[j] != SEPARATOR,
        decreases seg@.len() - i,
    {
        if seg[i] == SEPARATOR {
            return false;
        }
        i = i + 1;
    }
    proof {
        assert(seg@.len() == 1 ==> seg@ =~= seq![seg@[0]]);
        assert(seg@.len() == 2 ==> seg@ =~= seq![seg@[0], seg@[1]]);
    }
    true
}

/// Splits `raw` at each separator, empty segments kept.
pub(crate) fn split_bytes(raw: &Vec<u8>) -> (r: Vec<Vec<u8>>)
    requires
        raw@.len() > 0,
    ensures
        r.deep_view() == split_full(raw@),
{
    let mut done: Vec<Vec<u8>> = Vec::new();
    let mut cur: Vec<u8> = Vec::new();
    let mut i: usize = 0;
    proof {
        assert(raw@.skip(0) =~= raw@);
        assert(split_full(raw@) =~~= done.deep_view()
            + seq![cur@ + split_full(raw@.skip(0))[0]]
            + split_full(raw@.skip(0)).drop_first());
    }
    while i < raw.len()
        invariant
            0 <= i <= raw@.len(),
            split_full(raw@) =~~= done.deep_view()
                + seq![cur@ + split_full(raw@.skip(i as int))[0]]
                + split_full(raw@.skip(i as int)).drop_first(),
        decreases raw@.len() - i,
    {
        let ghost rest = raw@.skip(i as int);
        let ghost rest2 = raw@.skip(i as int + 1);
        let ghost old_done = done.deep_view();
        let ghost old_cur = cur@;
        proof {
            assert(rest.len() > 0);
            assert(rest[0] == raw@[i as int]);
            assert(rest.drop_first() =~= rest2);
            lemma_split_full_shape(rest2);
        }
        if raw[i] == SEPARATOR {
            let finished = cur;
            cur = Vec::new();
            done.push(finished);
            proof {
                assert(split_full(rest) =~~= seq![Seq::<u8>::empty()] + split_full(rest2));
                assert(old_cur + split_full(rest)[0] =~= old_cur);
                assert(split_full(rest).drop_first() =~~= split_full(rest2));
                assert(done.deep_view() =~~= old_done.push(old_cur));
                assert(split_full(rest2) =~~= seq![split_full(rest2)[0]]
                    + split_full(rest2).drop_first());
                assert(done.deep_view() + seq![cur@ + split_full(rest2)[0]]
                    + split_full(rest2).drop_first()
                    =~~= old_done + seq![old_cur + split_full(rest)[0]]
                        + split_full(rest).drop_first());
            }
        } else {
            cur.push(raw[i]);
            proof {
                let rest_split = split_full(rest2);
                assert(split_full(rest)
                    =~~= seq![seq![rest[0]] + rest_split[0]] + rest_split.drop_first());
                assert(cur@ + rest_split[0] =~= old_cur + (seq![rest[0]] + rest_split[0]));
                assert(cur@ + rest_split[0] =~= old_cur + split_full(rest)[0]);
                assert(split_full(rest).drop_first() =~~= rest_split.drop_first());
                assert(done.deep_view() + seq![cur@ + split_full(rest2)[0]]
                    + split_full(rest2).drop_first()
                    =~~= old_done + seq![old_cur + split_full(rest)[0]]
                        + split_full(rest).drop_first());
            }
        }
        i = i + 1;
    }
    proof {
        assert(raw@.skip(raw@.len() as int) =~= Seq::<u8>::empty());
        assert(split_full(raw@.skip(raw@.len() as int)) =~~= seq![Seq::<u8>::empty()]);
        assert(cur@ + Seq::<u8>::empty() =~= cur@);
        assert(split_full(raw@) =~~= done.deep_view() + seq![cur@]);
    }
    let ghost old_done = done.deep_view();
    let ghost old_cur = cur@;
    done.push(cur);
    proof {
        assert(done.deep_view() =~~= old_done.push(old_cur));
        assert(done.deep_view() =~~= split_full(raw@));
    }
    done
}

/// Validates a raw path: accepts it exactly when every segment it denotes is
/// an ordinary name, and returns those segments.
pub fn parse_path(raw: &Vec<u8>) -> (r: Option<ValidatedPath>)
    ensures
        match r {
            Some(p) => raw_ok(raw@) && p@ == segs_of(raw@) && p.wf(),
            None => !raw_ok(raw@),
        },
{
    if raw.len() == 0 {
        let p = ValidatedPath { segs: Vec::new() };
        proof {
            assert(p@ =~= segs_of(raw@));
        }
        return Some(p);
    }
    let segs = split_bytes(raw);
    let mut i: usize = 0;
    while i < segs.len()
        invariant
            0 <= i <= segs@.len(),
            segs.deep_view() == split_full(raw@),
            raw@.len() > 0,
            forall|j: int| 0 <= j < i ==> is_normal_seg(#[trigger] segs.deep_view()[j]),
        decreases segs@.len() - i,
    {
        proof {
            assert(segs.deep_view()[i as int] =~= segs@[i as int]@);
        }
        if !seg_is_normal(&segs[i]) {
            proof {
                assert(!is_normal_seg(segs_of(raw@)[i as int]));
            }
            return None;
        }
        i = i + 1;
    }
    let p = ValidatedPath { segs };
    Some(p)
}

/// Validates a raw path against the tree-walk rule, reporting
/// `EntryNameInvalid` exactly when a segment is not an ordinary name.
pub fn check_tree_walk(path: &Vec<u8>) -> (r: Result<(), DriveError>)
    ensures
        r is Ok <==> raw_ok(path@),
        r is Err ==> r == Err::<(), DriveError>(DriveError::EntryNameInvalid),
{
    match parse_path(path) {
        Some(_) => Ok(()),
        None => Err(DriveError::EntryNameInvalid),
    }
}

} // verus!
