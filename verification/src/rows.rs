//! Report rows: the sorted entries of the index, each with its description
//! segments and one source link per occurrence.

use vstd::prelude::*;
use crate::bytes::copy_bytes;
use crate::dedup::{DedupIndex, CommentEntry, Occurrence, EntryView, entries_view, sorted_by_text};
use crate::links::{dec_str, blob_glue, line_glue, display_name_spec, source_href, display_name,
    SLASH};
use crate::order::lex_le;
use crate::pipeline::ScanConfig;
use crate::render::{Segment, segs_view, description_of, topic_matches, paren_topic,
    row_segments};

verus! {

/// One link to an occurrence of a comment in the repository.
pub struct SourceLink {
    pub href: Vec<u8>,
    pub label: Vec<u8>,
}

/// One row of the report: a unique comment, its description split into
/// segments, its author/topic tag when the raw form carries one, and a link
/// for each place it occurs.
pub struct ReportRow {
    pub entry: CommentEntry,
    pub description: Vec<Segment>,
    pub topic: Option<Vec<u8>>,
    pub sources: Vec<SourceLink>,
}

/// The mathematical form of a row's author/topic tag.
pub open spec fn row_topic_view(row: ReportRow) -> Option<Seq<u8>> {
    match row.topic {
        Some(t) => Some(t@),
        None => None,
    }
}

/// Render configuration: the issue tracker base, the repository base and
/// reference for source links, and the filename prefix hidden in labels.
pub struct RenderConfig {
    pub issue_base_url: Vec<u8>,
    pub repo_base_url: Vec<u8>,
    pub repo_ref: Vec<u8>,
    pub strip_prefix: Vec<u8>,
}

/// The entries of a run of rows.
pub open spec fn rows_entries(s: Seq<ReportRow>) -> Seq<EntryView> {
    Seq::new(s.len(), |i: int| s[i].entry@)
}

/// A row's source links match its entry's occurrences one for one.
pub open spec fn sources_match(row: ReportRow, rcfg: RenderConfig) -> bool {
    &&& row.sources@.len() == row.entry@.occurrences.len()
    &&& forall|j: int|
        0 <= j < row.sources@.len() ==> (#[trigger] row.sources@[j]).href@
            == rcfg.repo_base_url@ + blob_glue() + rcfg.repo_ref@ + seq![SLASH]
            + row.entry@.occurrences[j].file + line_glue() + dec_str(
            row.entry@.occurrences[j].line as nat,
        )
    &&& forall|j: int|
        0 <= j < row.sources@.len() ==> (#[trigger] row.sources@[j]).label@
            == display_name_spec(row.entry@.occurrences[j].file, rcfg.strip_prefix@)
}

/// Copies one occurrence.
fn duplicate_occurrence(o: &Occurrence) -> (r: Occurrence)
    ensures
        r@ == o@,
{
    Occurrence { file: copy_bytes(&o.file), line: o.line }
}

/// Copies one entry.
fn duplicate_entry(e: &CommentEntry) -> (r: CommentEntry)
    ensures
        r@ == e@,
{
    let n = e.occurrences.len();
    let mut occs: Vec<Occurrence> = Vec::new();
    let mut i: usize = 0;
    while i < n
        invariant
            i <= n,
            n == e.occurrences@.len(),
            occs@.len() == i,
            forall|j: int| 0 <= j < i ==> (#[trigger] occs@[j])@ == e.occurrences@[j]@,
        decreases n - i,
    {
        let o = duplicate_occurrence(&e.occurrences[i]);
        occs.push(o);
        i = i + 1;
    }
    let r = CommentEntry {
        normalized: copy_bytes(&e.normalized),
        raw: copy_bytes(&e.raw),
        occurrences: occs,
    };
    proof {
        assert(r@ =~~= e@);
    }
    r
}

/// Builds the source links of one entry.
fn source_links(e: &CommentEntry, rcfg: &RenderConfig) -> (r: Vec<SourceLink>)
    ensures
        r@.len() == e@.occurrences.len(),
        forall|j: int|
            0 <= j < r@.len() ==> (#[trigger] r@[j]).href@ == rcfg.repo_base_url@ + blob_glue()
                + rcfg.repo_ref@ + seq![SLASH] + e@.occurrences[j].file + line_glue() + dec_str(
                e@.occurrences[j].line as nat,
            ),
        forall|j: int|
            0 <= j < r@.len() ==> (#[trigger] r@[j]).label@ == display_name_spec(
                e@.occurrences[j].file,
                rcfg.strip_prefix@,
            ),
{
    let n = e.occurrences.len();
    let mut r: Vec<SourceLink> = Vec::new();
    let mut j: usize = 0;
    while j < n
        invariant
            j <= n,
            n == e.occurrences@.len(),
            r@.len() == j,
            forall|k: int|
                0 <= k < j ==> (#[trigger] r@[k]).href@ == rcfg.repo_base_url@ + blob_glue()
                    + rcfg.repo_ref@ + seq![SLASH] + e@.occurrences[k].file + line_glue()
                    + dec_str(e@.occurrences[k].line as nat),
            forall|k: int|
                0 <= k < j ==> (#[trigger] r@[k]).label@ == display_name_spec(
                    e@.occurrences[k].file,
                    rcfg.strip_prefix@,
                ),
        decreases n - j,
    {
        let occ = &e.occurrences[j];
        proof {
            assert(e@.occurrences[j as int] == e.occurrences@[j as int]@);
        }
        let href = source_href(&rcfg.repo_base_url, &rcfg.repo_ref, &occ.file, occ.line);
        let label = display_name(&occ.file, &rcfg.strip_prefix);
        r.push(SourceLink { href, label });
        j = j + 1;
    }
    r
}

/// Turns the index into the report's rows: entries sorted by normalized
/// text, each described by segmenting its normalized text — the display
/// form — with its author/topic tag taken from the raw form, and one source
/// link per occurrence.
pub fn render_rows(index: DedupIndex, scfg: &ScanConfig, rcfg: &RenderConfig) -> (r: Vec<ReportRow>)
    ensures
        rows_entries(r@).to_multiset() == index@.to_multiset(),
        sorted_by_text(rows_entries(r@)),
        forall|i: int, j: int|
            0 <= i < j < r@.len() ==> lex_le(
                (#[trigger] r@[i]).entry@.normalized,
                (#[trigger] r@[j]).entry@.normalized,
            ),
        forall|i: int|
            0 <= i < r@.len() ==> description_of(
                (#[trigger] r@[i]).entry@.normalized,
                segs_view(r@[i].description@),
            ),
        forall|i: int|
            0 <= i < r@.len() ==> topic_matches(
                (#[trigger] r@[i]).entry@.raw,
                scfg.markers.deep_view(),
                row_topic_view(r@[i]),
            ),
        forall|i: int| 0 <= i < r@.len() ==> sources_match(#[trigger] r@[i], *rcfg),
{
    let sorted = index.into_sorted();
    let ghost sv = entries_view(sorted@);
    let ghost rc = *rcfg;
    let ghost mk = scfg.markers.deep_view();
    let n = sorted.len();
    let mut rows: Vec<ReportRow> = Vec::new();
    let mut i: usize = 0;
    while i < n
        invariant
            i <= n,
            n == sorted@.len(),
            sv == entries_view(sorted@),
            rc == *rcfg,
            mk == scfg.markers.deep_view(),
            rows@.len() == i,
            forall|k: int| 0 <= k < i ==> (#[trigger] rows@[k]).entry@ == sv[k],
            forall|k: int|
                0 <= k < i ==> description_of(
                    (#[trigger] rows@[k]).entry@.normalized,
                    segs_view(rows@[k].description@),
                ),
            forall|k: int|
                0 <= k < i ==> topic_matches(
                    (#[trigger] rows@[k]).entry@.raw,
                    mk,
                    row_topic_view(rows@[k]),
                ),
            forall|k: int| 0 <= k < i ==> sources_match(#[trigger] rows@[k], rc),
        decreases n - i,
    {
        let e = &sorted[i];
        proof {
            assert(e@ == sv[i as int]);
        }
        let entry = duplicate_entry(e);
        let description = row_segments(&e.normalized, &scfg.markers);
        let topic = paren_topic(&e.raw, &scfg.markers);
        let sources = source_links(e, rcfg);
        rows.push(ReportRow { entry, description, topic, sources });
        i = i + 1;
    }
    proof {
        assert(rows_entries(rows@) =~= sv);
        assert(forall|i2: int, j2: int|
            0 <= i2 < j2 < rows@.len() ==> lex_le(
                (#[trigger] rows@[i2]).entry@.normalized,
                (#[trigger] rows@[j2]).entry@.normalized,
            )) by {
            assert(forall|k: int| 0 <= k < rows@.len() ==> (#[trigger] rows@[k]).entry@ == sv[k]);
        }
    }
    rows
}

} // verus!
