//! Ordering and windowing of directory listings: a verified sort by display
//! name, a prefix filter, and page extraction. Deterministic ordering is what
//! makes pagination stable across repeated calls, whatever order the store
//! yields its entries in.

use vstd::prelude::*;

use crate::bytestr::{bytes_lex_le, bytes_starts_with, is_prefix, lex_le, lex_lt};
use crate::entry::{Entry, EntryV};
use crate::path::clone_bytes;

verus! {

/// The views of a sequence of entries.
pub open spec fn entry_views(es: Seq<Entry>) -> Seq<EntryV> {
    es.map_values(|e: Entry| e@)
}

/// The names are sorted, later names never below earlier ones.
pub open spec fn sorted_names(es: Seq<EntryV>) -> bool {
    forall|a: int, b: int| 0 <= a < b < es.len() ==> lex_le(es[a].name, es[b].name)
}

/// The names are strictly ascending: sorted, with no repeats.
pub open spec fn strictly_sorted_names(es: Seq<EntryV>) -> bool {
    forall|a: int, b: int| 0 <= a < b < es.len() ==> lex_lt(es[a].name, es[b].name)
}

/// Names strictly ascending, for plain name lists.
pub open spec fn strictly_sorted(names: Seq<Seq<u8>>) -> bool {
    forall|a: int, b: int| 0 <= a < b < names.len() ==> lex_lt(names[a], names[b])
}

/// The window `skip(offset).take(count)` of a name list.
pub open spec fn page_of(names: Seq<Seq<u8>>, offset: int, count: int) -> Seq<Seq<u8>> {
    let start = if offset > names.len() {
        names.len() as int
    } else {
        offset
    };
    let end = if offset + count > names.len() {
        names.len() as int
    } else {
        offset + count
    };
    names.subrange(start, end)
}

/// Sorts entries by display name. The result holds exactly the given
/// entries, reordered so that names never descend.
pub fn sort_entries(es: Vec<Entry>) -> (r: Vec<Entry>)
    ensures
        entry_views(r@).to_multiset() == entry_views(es@).to_multiset(),
        sorted_names(entry_views(r@)),
{
    broadcast use vstd::seq_lib::group_to_multiset_ensures;

    let ghost orig = entry_views(es@);
    let mut input = es;
    let mut out: Vec<Entry> = Vec::new();
    proof {
        assert(entry_views(out@) =~= Seq::<EntryV>::empty());
        assert(entry_views(out@).to_multiset().add(entry_views(input@).to_multiset())
            =~= orig.to_multiset());
    }
    while input.len() > 0
        invariant
            entry_views(out@).to_multiset().add(entry_views(input@).to_multiset())
                == orig.to_multiset(),
            sorted_names(entry_views(out@)),
            forall|a: int, b: int|
                0 <= a < entry_views(out@).len() && 0 <= b < entry_views(input@).len() ==> lex_le(
                    entry_views(out@)[a].name,
                    entry_views(input@)[b].name,
                ),
        decreases input@.len(),
    {
        // Find the least remaining name.
        let mut m: usize = 0;
        let mut t: usize = 1;
        proof {
            crate::bytestr::lemma_lex_le_refl(entry_views(input@)[0].name);
        }
        while t < input.len()
            invariant
                0 <= m < t <= input@.len(),
                forall|u: int|
                    0 <= u < t ==> lex_le(
                        entry_views(input@)[m as int].name,
                        entry_views(input@)[u].name,
                    ),
            decreases input@.len() - t,
        {
            if bytes_lex_le(input[t].name(), input[m].name()) {
                proof {
                    assert forall|u: int|
                        0 <= u < t + 1 implies lex_le(
                        entry_views(input@)[t as int].name,
                        entry_views(input@)[u].name,
                    ) by {
                        if u == t {
                            crate::bytestr::lemma_lex_le_refl(entry_views(input@)[t as int].name);
                        } else {
                            crate::bytestr::lemma_lex_le_transitive(
                                entry_views(input@)[t as int].name,
                                entry_views(input@)[m as int].name,
                                entry_views(input@)[u].name,
                            );
                        }
                    }
                }
                m = t;
            } else {
                proof {
                    crate::bytestr::lemma_lex_le_total(
                        entry_views(input@)[t as int].name,
                        entry_views(input@)[m as int].name,
                    );
                }
            }
            t = t + 1;
        }
        let ghost before = entry_views(input@);
        let ghost out_before = entry_views(out@);
        let e = input.remove(m);
        out.push(e);
        proof {
            out_before.to_multiset_ensures();
            before.to_multiset_ensures();
            assert(entry_views(input@) =~= before.remove(m as int));
            assert(entry_views(out@) =~= out_before.push(before[m as int]));
            assert(out_before.push(before[m as int]).to_multiset()
                =~= out_before.to_multiset().insert(before[m as int]));
            assert(entry_views(out@).to_multiset() == out_before.to_multiset().insert(
                before[m as int],
            ));
            assert(before.remove(m as int).to_multiset() =~= before.to_multiset().remove(
                before[m as int],
            ));
            assert(entry_views(input@).to_multiset() == before.to_multiset().remove(
                before[m as int],
            ));
            assert(before.to_multiset().contains(before[m as int]));
            assert(entry_views(out@).to_multiset().add(entry_views(input@).to_multiset())
                =~= out_before.to_multiset().add(before.to_multiset()));
            assert forall|a: int, b: int|
                0 <= a < entry_views(out@).len() && 0 <= b < entry_views(input@).len() implies
                lex_le(entry_views(out@)[a].name, entry_views(input@)[b].name) by {
                let b0: int = if b < m { b } else { b + 1 };
                assert(entry_views(input@)[b] == before[b0]);
                if a == entry_views(out@).len() - 1 {
                    assert(lex_le(before[m as int].name, before[b0].name));
                } else {
                    crate::bytestr::lemma_lex_le_transitive(
                        out_before[a].name,
                        before[m as int].name,
                        before[b0].name,
                    );
                }
            }
        }
    }
    proof {
        assert(entry_views(input@).to_multiset() =~= Seq::<EntryV>::empty().to_multiset());
        assert(entry_views(out@).to_multiset().add(Seq::<EntryV>::empty().to_multiset())
            =~= entry_views(out@).to_multiset());
    }
    out
}

/// Keeps, in order, the names that begin with `query`.
pub fn filter_prefixed(names: &Vec<Vec<u8>>, query: &Vec<u8>) -> (r: Vec<Vec<u8>>)
    ensures
        r.deep_view() == names.deep_view().filter(|n: Seq<u8>| is_prefix(query@, n)),
{
    let ghost all = names.deep_view();
    let ghost pred = |n: Seq<u8>| is_prefix(query@, n);
    let mut out: Vec<Vec<u8>> = Vec::new();
    let mut i: usize = 0;
    proof {
        reveal(Seq::filter);
        assert(all.take(0) =~~= Seq::<Seq<u8>>::empty());
        assert(out.deep_view() =~~= all.take(0).filter(pred));
    }
    while i < names.len()
        invariant
            0 <= i <= all.len(),
            all == names.deep_view(),
            pred == (|n: Seq<u8>| is_prefix(query@, n)),
            out.deep_view() == all.take(i as int).filter(pred),
        decreases all.len() - i,
    {
        let ghost sub = all.take(i as int);
        let ghost sub1 = all.take(i as int + 1);
        proof {
            reveal(Seq::filter);
            assert(sub1.drop_last() =~~= sub);
            assert(sub1.last() == all[i as int]);
            assert(names.deep_view()[i as int] =~= names@[i as int]@);
        }
        if bytes_starts_with(&names[i], query) {
            let c = clone_bytes(&names[i]);
            proof {
                assert(c.deep_view() =~= c@);
            }
            let ghost out_before = out.deep_view();
            out.push(c);
            proof {
                assert(out.deep_view() =~~= out_before.push(all[i as int]));
                assert(sub1.filter(pred) == sub.filter(pred).push(sub1.last()));
                assert(out.deep_view() =~~= sub1.filter(pred));
            }
        } else {
            proof {
                assert(sub1.filter(pred) == sub.filter(pred));
            }
        }
        i = i + 1;
    }
    proof {
        assert(all.take(all.len() as int) =~~= all);
    }
    out
}

/// The page `skip(offset).take(count)` of a name list, as owned names.
pub fn paginate(names: &Vec<Vec<u8>>, offset: usize, count: usize) -> (r: Vec<Vec<u8>>)
    ensures
        r.deep_view() == page_of(names.deep_view(), offset as int, count as int),
{
    let len = names.len();
    let start = if offset > len {
        len
    } else {
        offset
    };
    let end = if count > len - start {
        len
    } else {
        start + count
    };
    let mut out: Vec<Vec<u8>> = Vec::new();
    let mut i: usize = start;
    proof {
        assert(out.deep_view() =~~= names.deep_view().subrange(start as int, start as int));
    }
    while i < end
        invariant
            start <= i <= end <= names@.len(),
            out.deep_view() == names.deep_view().subrange(start as int, i as int),
        decreases end - i,
    {
        let c = clone_bytes(&names[i]);
        proof {
            assert(c.deep_view() =~= c@);
            assert(names.deep_view()[i as int] =~= names@[i as int]@);
        }
        let ghost out_before = out.deep_view();
        out.push(c);
        proof {
            assert(out.deep_view() =~~= out_before.push(c@));
            assert(names.deep_view().subrange(start as int, i as int + 1)
                =~= names.deep_view().subrange(start as int, i as int).push(
                names.deep_view()[i as int],
            ));
        }
        i = i + 1;
    }
    proof {
        assert(out.deep_view() =~~= page_of(
            names.deep_view(),
            offset as int,
            count as int,
        ));
    }
    out
}

} // verus!
