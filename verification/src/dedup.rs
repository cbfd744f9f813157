//! Deduplication index: maps normalized comment text to the raw form first
//! seen and to every (file, line) occurrence. Inserting an already-seen text
//! appends the occurrence and keeps the raw form; distinct texts stay in
//! distinct entries. The index exports its entries sorted by normalized text
//! in byte order.

use vstd::prelude::*;
use vstd::multiset::Multiset;
use crate::bytes::bytes_eq;
use crate::order::{lex_le, lex_le_bytes, lemma_lex_total, lemma_lex_trans};

verus! {

/// One place a comment was found.
pub struct Occurrence {
    pub file: Vec<u8>,
    pub line: usize,
}

/// Mathematical form of an `Occurrence`.
#[verifier::ext_equal]
pub struct OccurrenceView {
    pub file: Seq<u8>,
    pub line: int,
}

impl View for Occurrence {
    type V = OccurrenceView;

    open spec fn view(&self) -> OccurrenceView {
        OccurrenceView { file: self.file@, line: self.line as int }
    }
}

/// One unique comment: its normalized text, the raw form first seen, and
/// every occurrence in scan order.
pub struct CommentEntry {
    pub normalized: Vec<u8>,
    pub raw: Vec<u8>,
    pub occurrences: Vec<Occurrence>,
}

/// Mathematical form of a `CommentEntry`.
#[verifier::ext_equal]
pub struct EntryView {
    pub normalized: Seq<u8>,
    pub raw: Seq<u8>,
    pub occurrences: Seq<OccurrenceView>,
}

impl View for CommentEntry {
    type V = EntryView;

    open spec fn view(&self) -> EntryView {
        EntryView {
            normalized: self.normalized@,
            raw: self.raw@,
            occurrences: Seq::new(
                self.occurrences@.len(),
                |i: int| self.occurrences@[i]@,
            ),
        }
    }
}

/// The view of a sequence of entries.
pub open spec fn entries_view(s: Seq<CommentEntry>) -> Seq<EntryView> {
    Seq::new(s.len(), |i: int| s[i]@)
}

/// Inserting an occurrence: the entry with this normalized text gains the
/// occurrence and keeps its raw form; if none exists, a fresh entry with one
/// occurrence is appended.
pub open spec fn index_insert_spec(
    idx: Seq<EntryView>,
    normalized: Seq<u8>,
    raw: Seq<u8>,
    occ: OccurrenceView,
) -> Seq<EntryView>
    decreases idx.len(),
{
    if idx.len() == 0 {
        seq![EntryView { normalized, raw, occurrences: seq![occ] }]
    } else if idx[0].normalized == normalized {
        seq![
            EntryView {
                normalized: idx[0].normalized,
                raw: idx[0].raw,
                occurrences: idx[0].occurrences.push(occ),
            },
        ] + idx.drop_first()
    } else {
        seq![idx[0]] + index_insert_spec(idx.drop_first(), normalized, raw, occ)
    }
}

/// Normalized texts are pairwise distinct and every entry has an occurrence.
pub open spec fn index_wf(idx: Seq<EntryView>) -> bool {
    &&& forall|i: int, j: int|
        0 <= i < j < idx.len() ==> (#[trigger] idx[i]).normalized != (#[trigger] idx[j]).normalized
    &&& forall|i: int| 0 <= i < idx.len() ==> (#[trigger] idx[i].occurrences).len() > 0
}

/// Equal normalized texts merge: inserting under a text already held at
/// position `i` only appends the occurrence there, keeping the raw form and
/// every other entry.
pub proof fn lemma_insert_merges(
    idx: Seq<EntryView>,
    normalized: Seq<u8>,
    raw: Seq<u8>,
    occ: OccurrenceView,
    i: int,
)
    requires
        0 <= i < idx.len(),
        idx[i].normalized == normalized,
        forall|j: int| 0 <= j < i ==> (#[trigger] idx[j]).normalized != normalized,
    ensures
        index_insert_spec(idx, normalized, raw, occ) == idx.update(
            i,
            EntryView {
                normalized: idx[i].normalized,
                raw: idx[i].raw,
                occurrences: idx[i].occurrences.push(occ),
            },
        ),
    decreases i,
{
    let goal = EntryView {
        normalized: idx[i].normalized,
        raw: idx[i].raw,
        occurrences: idx[i].occurrences.push(occ),
    };
    if i == 0 {
        assert(index_insert_spec(idx, normalized, raw, occ) =~= idx.update(0, goal));
    } else {
        let d = idx.drop_first();
        assert(idx[0].normalized != normalized);
        assert(forall|j: int| 0 <= j < i - 1 ==> (#[trigger] d[j]).normalized != normalized) by {
            assert(forall|j: int| 0 <= j < d.len() ==> d[j] == idx[j + 1]);
        }
        assert(d[i - 1] == idx[i]);
        lemma_insert_merges(d, normalized, raw, occ, i - 1);
        assert(seq![idx[0]] + d.update(i - 1, goal) =~= idx.update(i, goal));
    }
}

/// Distinct normalized texts stay distinct: inserting under a text held by
/// no entry appends a fresh entry with exactly one occurrence.
pub proof fn lemma_insert_appends(
    idx: Seq<EntryView>,
    normalized: Seq<u8>,
    raw: Seq<u8>,
    occ: OccurrenceView,
)
    requires
        forall|j: int| 0 <= j < idx.len() ==> (#[trigger] idx[j]).normalized != normalized,
    ensures
        index_insert_spec(idx, normalized, raw, occ) == idx.push(
            EntryView { normalized, raw, occurrences: seq![occ] },
        ),
    decreases idx.len(),
{
    let goal = EntryView { normalized, raw, occurrences: seq![occ] };
    if idx.len() == 0 {
        assert(index_insert_spec(idx, normalized, raw, occ) =~= idx.push(goal));
    } else {
        let d = idx.drop_first();
        assert(forall|j: int| 0 <= j < d.len() ==> d[j] == idx[j + 1]);
        lemma_insert_appends(d, normalized, raw, occ);
        assert(seq![idx[0]] + d.push(goal) =~= idx.push(goal));
    }
}

/// Insertion keeps the index well formed.
pub proof fn lemma_insert_wf(
    idx: Seq<EntryView>,
    normalized: Seq<u8>,
    raw: Seq<u8>,
    occ: OccurrenceView,
)
    requires
        index_wf(idx),
    ensures
        index_wf(index_insert_spec(idx, normalized, raw, occ)),
{
    if exists|i: int| 0 <= i < idx.len() && (#[trigger] idx[i]).normalized == normalized {
        let w = choose|i: int| 0 <= i < idx.len() && (#[trigger] idx[i]).normalized == normalized;
        lemma_first_key(idx, normalized, w);
        let i = choose|i: int|
            0 <= i < idx.len() && (#[trigger] idx[i]).normalized == normalized && (forall|j: int|
                0 <= j < i ==> (#[trigger] idx[j]).normalized != normalized);
        lemma_insert_merges(idx, normalized, raw, occ, i);
        let goal = EntryView {
            normalized: idx[i].normalized,
            raw: idx[i].raw,
            occurrences: idx[i].occurrences.push(occ),
        };
        let u = idx.update(i, goal);
        assert(forall|j: int| 0 <= j < u.len() ==> (#[trigger] u[j]).normalized
            == idx[j].normalized);
        assert(forall|j: int| 0 <= j < u.len() ==> (#[trigger] u[j]).occurrences.len() > 0);
    } else {
        lemma_insert_appends(idx, normalized, raw, occ);
        let goal = EntryView { normalized, raw, occurrences: seq![occ] };
        let u = idx.push(goal);
        assert(forall|j: int| 0 <= j < idx.len() ==> (#[trigger] u[j]) == idx[j]);
        assert(u[idx.len() as int] == goal);
        assert(forall|j: int| 0 <= j < u.len() ==> (#[trigger] u[j]).occurrences.len() > 0);
    }
}

/// Below any position holding a key there is a first position holding it.
proof fn lemma_first_key(idx: Seq<EntryView>, normalized: Seq<u8>, w: int)
    requires
        0 <= w < idx.len(),
        idx[w].normalized == normalized,
    ensures
        exists|i: int|
            0 <= i < idx.len() && (#[trigger] idx[i]).normalized == normalized
            && forall|j: int| 0 <= j < i ==> (#[trigger] idx[j]).normalized != normalized,
    decreases w,
{
    if forall|j: int| 0 <= j < w ==> (#[trigger] idx[j]).normalized != normalized {
        assert(0 <= w < idx.len() && idx[w].normalized == normalized
            && forall|j: int| 0 <= j < w ==> (#[trigger] idx[j]).normalized != normalized);
    } else {
        let w2 = choose|j: int| 0 <= j < w && (#[trigger] idx[j]).normalized == normalized;
        lemma_first_key(idx, normalized, w2);
    }
}

/// The deduplication index.
pub struct DedupIndex {
    pub entries: Vec<CommentEntry>,
}

impl View for DedupIndex {
    type V = Seq<EntryView>;

    open spec fn view(&self) -> Seq<EntryView> {
        entries_view(self.entries@)
    }
}

impl DedupIndex {
    /// An empty index.
    pub fn new() -> (r: DedupIndex)
        ensures
            r@ == Seq::<EntryView>::empty(),
            index_wf(r@),
    {
        let r = DedupIndex { entries: Vec::new() };
        assert(r@ =~= Seq::<EntryView>::empty());
        r
    }

    /// Records one occurrence of a comment under its normalized text.
    pub fn insert(&mut self, normalized: Vec<u8>, raw: Vec<u8>, file: Vec<u8>, line: usize)
        ensures
            final(self)@ == index_insert_spec(
                old(self)@,
                normalized@,
                raw@,
                OccurrenceView { file: file@, line: line as int },
            ),
            index_wf(old(self)@) ==> index_wf(final(self)@),
    {
        let ghost occ_v = OccurrenceView { file: file@, line: line as int };
        let ghost old_view = self@;
        let n = self.entries.len();
        let mut i: usize = 0;
        while i < n
            invariant
                i <= n,
                n == self.entries@.len(),
                self@ == old_view,
                old_view == old(self)@,
                occ_v == (OccurrenceView { file: file@, line: line as int }),
                forall|j: int| 0 <= j < i ==> (#[trigger] old_view[j]).normalized != normalized@,
            decreases n - i,
        {
            assert(old_view[i as int].normalized == self.entries@[i as int].normalized@);
            if bytes_eq(&self.entries[i].normalized, &normalized) {
                let mut e = self.entries.remove(i);
                let ghost e0 = e@;
                proof {
                    assert(e0 == old_view[i as int]);
                }
                let occ = Occurrence { file, line };
                proof {
                    assert(occ@ == occ_v);
                }
                e.occurrences.push(occ);
                let ghost e_view = e@;
                self.entries.insert(i, e);
                proof {
                    assert(e_view.occurrences =~= e0.occurrences.push(occ_v));
                    assert(e_view =~= EntryView {
                        normalized: old_view[i as int].normalized,
                        raw: old_view[i as int].raw,
                        occurrences: old_view[i as int].occurrences.push(occ_v),
                    });
                    assert(self@ =~= old_view.update(i as int, e_view));
                    lemma_insert_merges(old_view, normalized@, raw@, occ_v, i as int);
                    if index_wf(old_view) {
                        assert(index_wf(self@)) by {
                            lemma_insert_wf(old_view, normalized@, raw@, occ_v);
                        }
                    }
                }
                return;
            }
            i = i + 1;
        }
        let entry = CommentEntry {
            normalized,
            raw,
            occurrences: vec![Occurrence { file, line }],
        };
        let ghost entry_view = entry@;
        self.entries.push(entry);
        proof {
            assert(entry_view.occurrences =~= seq![occ_v]);
            assert(entry_view =~= EntryView {
                normalized: normalized@,
                raw: raw@,
                occurrences: seq![occ_v],
            });
            assert(self@ =~= old_view.push(entry_view));
            lemma_insert_appends(old_view, normalized@, raw@, occ_v);
            if index_wf(old_view) {
                assert(index_wf(self@)) by {
                    lemma_insert_wf(old_view, normalized@, raw@, occ_v);
                }
            }
        }
    }
}


/// Entries are pairwise sorted by normalized text in byte order.
pub open spec fn sorted_by_text(idx: Seq<EntryView>) -> bool {
    forall|i: int, j: int|
        0 <= i < j < idx.len() ==> lex_le(
            (#[trigger] idx[i]).normalized,
            (#[trigger] idx[j]).normalized,
        )
}

impl DedupIndex {
    /// Consumes the index, handing its entries back sorted by normalized
    /// text in byte order; the multiset of entries is unchanged.
    pub fn into_sorted(self) -> (r: Vec<CommentEntry>)
        ensures
            sorted_by_text(entries_view(r@)),
            entries_view(r@).to_multiset() == self@.to_multiset(),
    {
        let ghost orig = self@;
        let mut src = self.entries;
        let mut out: Vec<CommentEntry> = Vec::new();
        proof {
            broadcast use vstd::seq_lib::to_multiset_insert;
            broadcast use vstd::seq_lib::to_multiset_remove;
            broadcast use vstd::seq_lib::group_to_multiset_ensures;

            assert(entries_view(out@) =~= Seq::<EntryView>::empty());
            assert(entries_view(out@).to_multiset() =~= Multiset::<EntryView>::empty());
            assert(entries_view(src@) =~= orig);
            assert(entries_view(out@).to_multiset().add(entries_view(src@).to_multiset())
                =~= orig.to_multiset());
        }
        while src.len() > 0
            invariant
                sorted_by_text(entries_view(out@)),
                entries_view(out@).to_multiset().add(entries_view(src@).to_multiset())
                    == orig.to_multiset(),
            decreases src@.len(),
        {
            proof {
                broadcast use vstd::seq_lib::to_multiset_insert;
                broadcast use vstd::seq_lib::to_multiset_remove;
                broadcast use vstd::seq_lib::group_to_multiset_ensures;
            }
            let ghost src0 = entries_view(src@);
            let ghost out0 = entries_view(out@);
            let e = match src.pop() {
                Some(e) => e,
                None => {
                    proof {
                        assert(false);
                    }
                    continue;
                },
            };
            proof {
                assert(src0.remove(src0.len() - 1) =~= src0.subrange(0, src0.len() - 1));
                assert(entries_view(src@) =~= src0.remove(src0.len() - 1));
                assert(e@ == src0[src0.len() - 1]);
                assert(entries_view(src@).to_multiset() == src0.to_multiset().remove(e@));
                assert(src0.to_multiset().count(e@) > 0) by {
                    assert(src0.contains(e@));
                }
            }
            let n = out.len();
            let mut pos: usize = 0;
            while pos < n
                invariant
                    pos <= n,
                    n == out@.len(),
                    entries_view(out@) == out0,
                    forall|k: int| 0 <= k < pos ==> lex_le(
                        (#[trigger] out0[k]).normalized,
                        e@.normalized,
                    ),
                ensures
                    pos <= n,
                    n == out@.len(),
                    entries_view(out@) == out0,
                    forall|k: int| 0 <= k < pos ==> lex_le(
                        (#[trigger] out0[k]).normalized,
                        e@.normalized,
                    ),
                    pos < n ==> !lex_le(out0[pos as int].normalized, e@.normalized),
                decreases n - pos,
            {
                assert(out0[pos as int].normalized == out@[pos as int]@.normalized);
                if !lex_le_bytes(&out[pos].normalized, &e.normalized) {
                    break;
                }
                pos = pos + 1;
            }
            out.insert(pos, e);
            proof {
                broadcast use vstd::seq_lib::to_multiset_insert;
                broadcast use vstd::seq_lib::to_multiset_remove;
                broadcast use vstd::seq_lib::group_to_multiset_ensures;

                let out1 = entries_view(out@);
                assert(out1 =~= out0.insert(pos as int, e@));
                assert(out1.to_multiset() == out0.to_multiset().insert(e@));
                assert(out1.to_multiset().add(entries_view(src@).to_multiset())
                    =~= orig.to_multiset());
                if pos < out0.len() {
                    lemma_lex_total(out0[pos as int].normalized, e@.normalized);
                }
                assert(sorted_by_text(out1)) by {
                    assert(forall|k: int| 0 <= k < pos ==> out1[k] == out0[k]);
                    assert(out1[pos as int] == e@);
                    assert(forall|k: int| pos < k < out1.len() ==> out1[k] == out0[k - 1]);
                    assert forall|i: int, j: int| 0 <= i < j < out1.len() implies lex_le(
                        (#[trigger] out1[i]).normalized,
                        (#[trigger] out1[j]).normalized,
                    ) by {
                        if i < pos && j == pos {
                        } else if i == pos && pos < j {
                            assert(lex_le(e@.normalized, out0[pos as int].normalized));
                            if j > pos + 1 {
                                assert(lex_le(
                                    out0[pos as int].normalized,
                                    out0[j - 1].normalized,
                                ));
                                lemma_lex_trans(
                                    e@.normalized,
                                    out0[pos as int].normalized,
                                    out0[j - 1].normalized,
                                );
                            }
                        } else {
                        }
                    }
                }
            }
        }
        proof {
            assert(entries_view(src@).to_multiset() =~= Multiset::<EntryView>::empty());
            assert(entries_view(out@).to_multiset() =~= orig.to_multiset());
        }
        out
    }
}

} // verus!


