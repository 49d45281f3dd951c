//! A display path for the browsing views: the drive-relative path split into
//! the base (everything up to the final segment, shown under the fixed
//! anchor name `root`) and the display name (the final segment). The anchor
//! is the first segment of the inbound text and is discarded.

use vstd::prelude::*;

use crate::path::{clone_bytes, clone_segs, join_segs, joined, split_bytes, split_full, SEPARATOR};

verus! {

/// The bytes of the fixed anchor name `root`.
pub open spec fn anchor() -> Seq<u8> {
    seq![114u8, 111u8, 111u8, 116u8]
}

/// The segments a display path denotes: the inbound text split at
/// separators, its first segment (the anchor) discarded.
pub open spec fn box_components(raw: Seq<u8>) -> Seq<Seq<u8>> {
    if raw.len() == 0 {
        Seq::empty()
    } else {
        split_full(raw).drop_first()
    }
}

/// The display name: the final component, or empty at the anchor itself.
pub open spec fn box_name(raw: Seq<u8>) -> Seq<u8> {
    if box_components(raw).len() == 0 {
        Seq::empty()
    } else {
        box_components(raw).last()
    }
}

/// The base: the anchor, then every component but the last.
pub open spec fn box_base(raw: Seq<u8>) -> Seq<u8> {
    if box_components(raw).len() <= 1 {
        anchor()
    } else {
        anchor() + seq![SEPARATOR] + joined(box_components(raw).drop_last())
    }
}

/// The drive-relative text: the components joined again, anchor gone.
pub open spec fn box_rel_path(raw: Seq<u8>) -> Seq<u8> {
    joined(box_components(raw))
}

/// The mathematical content of a [`BoxPath`].
pub struct BoxPathV {
    /// The drive-relative path text.
    pub path: Seq<u8>,
    /// The base shown under the anchor.
    pub base: Seq<u8>,
    /// The display name.
    pub name: Seq<u8>,
}

/// A display path: the drive-relative text, its base under the anchor, and
/// its display name.
pub struct BoxPath {
    path: Vec<u8>,
    base: Vec<u8>,
    name: Vec<u8>,
}

impl View for BoxPath {
    type V = BoxPathV;

    closed spec fn view(&self) -> BoxPathV {
        BoxPathV { path: self.path@, base: self.base@, name: self.name@ }
    }
}

/// The anchor name, as bytes.
pub fn anchor_bytes() -> (r: Vec<u8>)
    ensures
        r@ == anchor(),
{
    let mut v: Vec<u8> = Vec::new();
    v.push(114);
    v.push(111);
    v.push(111);
    v.push(116);
    proof {
        assert(v@ =~= anchor());
    }
    v
}

impl BoxPath {
    /// Parses an inbound display path: accepted exactly when its text begins
    /// with the anchor name.
    pub fn parse(path: &Vec<u8>) -> (r: Option<BoxPath>)
        ensures
            match r {
                Some(p) => {
                    &&& crate::bytestr::is_prefix(anchor(), path@)
                    &&& p@.path == box_rel_path(path@)
                    &&& p@.base == box_base(path@)
                    &&& p@.name == box_name(path@)
                },
                None => !crate::bytestr::is_prefix(anchor(), path@),
            },
    {
        let anchor_v = anchor_bytes();
        if crate::bytestr::bytes_starts_with(path, &anchor_v) {
            Some(Self::new(path))
        } else {
            None
        }
    }

    /// Splits an inbound display path into base and name, discarding its
    /// anchor segment.
    pub fn new(path: &Vec<u8>) -> (r: BoxPath)
        ensures
            r@.path == box_rel_path(path@),
            r@.base == box_base(path@),
            r@.name == box_name(path@),
    {
        let comps: Vec<Vec<u8>> = if path.len() == 0 {
            Vec::new()
        } else {
            let mut all = split_bytes(path);
            proof {
                crate::path::lemma_split_full_shape(path@);
            }
            all.remove(0);
            proof {
                assert(all.deep_view() =~~= split_full(path@).drop_first());
            }
            all
        };
        proof {
            assert(comps.deep_view() =~~= box_components(path@));
        }
        let name: Vec<u8> = if comps.len() == 0 {
            Vec::new()
        } else {
            proof {
                assert(comps@[comps@.len() - 1]@ =~= comps.deep_view().last());
            }
            clone_bytes(&comps[comps.len() - 1])
        };
        let base: Vec<u8> = if comps.len() <= 1 {
            anchor_bytes()
        } else {
            let mut prefix = clone_segs(&comps);
            prefix.pop();
            proof {
                assert(prefix.deep_view() =~~= comps.deep_view().drop_last());
            }
            let tail = join_segs(&prefix);
            let mut b = anchor_bytes();
            b.push(SEPARATOR);
            crate::path::push_bytes(&mut b, &tail);
            proof {
                assert(b@ =~= anchor() + seq![SEPARATOR] + joined(
                    box_components(path@).drop_last(),
                ));
            }
            b
        };
        let rel = join_segs(&comps);
        BoxPath { path: rel, base, name }
    }

    /// The base shown under the anchor.
    pub fn base(&self) -> (r: &Vec<u8>)
        ensures
            r@ == self@.base,
    {
        &self.base
    }

    /// The display name.
    pub fn name(&self) -> (r: &Vec<u8>)
        ensures
            r@ == self@.name,
    {
        &self.name
    }

    /// The drive-relative path text.
    pub fn rel_path(&self) -> (r: &Vec<u8>)
        ensures
            r@ == self@.path,
    {
        &self.path
    }

    /// Base and name joined back together; the base alone at the anchor.
    pub fn full_name(&self) -> (r: Vec<u8>)
        ensures
            self@.name.len() == 0 ==> r@ == self@.base,
            self@.name.len() > 0 ==> r@ == self@.base + seq![SEPARATOR] + self@.name,
    {
        if self.name.len() == 0 {
            clone_bytes(&self.base)
        } else {
            let mut r = clone_bytes(&self.base);
            r.push(SEPARATOR);
            crate::path::push_bytes(&mut r, &self.name);
            r
        }
    }
}

} // verus!
