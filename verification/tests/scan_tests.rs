use fixme_scan::bytes::trim_bytes;
use fixme_scan::dedup::DedupIndex;
use fixme_scan::issues::{issue_references, IssueReference};
use fixme_scan::links::{display_name, source_href, url_label};
use fixme_scan::locate::split_lines;
use fixme_scan::normalize::normalize_comment;
use fixme_scan::pipeline::{build_index, ScanConfig, SourceFile};
use fixme_scan::render::{row_segments, Segment};
use fixme_scan::rows::{render_rows, RenderConfig};

fn refs(text: &str) -> Vec<IssueReference> {
    issue_references(&text.as_bytes().to_vec())
}

#[test]
fn test_issue_references() {
    let cases = [
        (
            "FIXME: #7698, false positive of the internal lints",
            //       ^   ^
            //       |   |
            // index 8   |
            //     index 12
            vec![IssueReference { start: 8, end: 12 }],
        ),
        ("FIXME: 91167", vec![IssueReference { start: 7, end: 12 }]),
        (
            "#[allow(dead_code)] // FIXME(81658): should be used + lint reinstated after #83171 relands",
            vec![IssueReference { start: 29, end: 34 }, IssueReference { start: 77, end: 82 }],
        ),
        ("ignore-android: FIXME (#20004)", vec![IssueReference { start: 24, end: 29 }]),
        ("ignore-android: FIXME(#10381)", vec![IssueReference { start: 23, end: 28 }]),
        ("FIXME(jackh726): This is a hack. It's somewhat like", vec![]),
    ];

    for case in cases {
        let text = case.0;
        let expected = case.1;

        assert_eq!(refs(text), *expected, "{text}");
    }
}

#[test]
fn issue_references_ignore_short_and_glued_runs() {
    assert_eq!(refs("u32 and 99 are fine"), vec![]);
    assert_eq!(refs("v123abc"), vec![]);
    assert_eq!(refs("0123"), vec![]);
    assert_eq!(refs("123 leads"), vec![IssueReference { start: 0, end: 3 }]);
}

#[test]
fn trim_strips_both_ends() {
    let cfg = ScanConfig::standard();
    let t = trim_bytes(&b"  // FIXME: tidy up. ".to_vec(), &cfg.trim_set);
    assert_eq!(t, b"FIXME: tidy up".to_vec());
}

#[test]
fn normalization_boundary() {
    let cfg = ScanConfig::standard();
    let raw = b"  // FIXME(alice): fix this. ".to_vec();
    let n = normalize_comment(&raw, &cfg.markers, &cfg.trim_set);
    assert_eq!(n, b"fix this".to_vec());
}

#[test]
fn normalization_without_parenthetical() {
    let cfg = ScanConfig::standard();
    let n = normalize_comment(&b"// HACK: work around".to_vec(), &cfg.markers, &cfg.trim_set);
    assert_eq!(n, b"work around".to_vec());
}

#[test]
fn split_lines_matches_line_numbers() {
    let lines = split_lines(&b"one\ntwo\r\nthree".to_vec());
    assert_eq!(lines, vec![b"one".to_vec(), b"two".to_vec(), b"three".to_vec()]);
    assert_eq!(split_lines(&b"tail\n".to_vec()), vec![b"tail".to_vec()]);
    assert_eq!(split_lines(&b"".to_vec()).len(), 0);
}

#[test]
fn dedup_merges_equal_texts() {
    let mut idx = DedupIndex::new();
    idx.insert(b"fix this".to_vec(), b"// FIXME: fix this".to_vec(), b"a.rs".to_vec(), 3);
    idx.insert(b"fix this".to_vec(), b"-- FIXME fix this".to_vec(), b"b.rs".to_vec(), 9);
    assert_eq!(idx.entries.len(), 1);
    assert_eq!(idx.entries[0].raw, b"// FIXME: fix this".to_vec());
    assert_eq!(idx.entries[0].occurrences.len(), 2);
    assert_eq!(idx.entries[0].occurrences[0].file, b"a.rs".to_vec());
    assert_eq!(idx.entries[0].occurrences[0].line, 3);
    assert_eq!(idx.entries[0].occurrences[1].file, b"b.rs".to_vec());
    assert_eq!(idx.entries[0].occurrences[1].line, 9);
}

#[test]
fn dedup_keeps_distinct_texts_apart() {
    let mut idx = DedupIndex::new();
    idx.insert(b"one".to_vec(), b"FIXME one".to_vec(), b"a.rs".to_vec(), 1);
    idx.insert(b"two".to_vec(), b"FIXME two".to_vec(), b"a.rs".to_vec(), 2);
    assert_eq!(idx.entries.len(), 2);
}

#[test]
fn sorted_export_is_lexicographic() {
    let mut idx = DedupIndex::new();
    idx.insert(b"pear".to_vec(), b"p".to_vec(), b"a.rs".to_vec(), 1);
    idx.insert(b"apple".to_vec(), b"a".to_vec(), b"a.rs".to_vec(), 2);
    idx.insert(b"apples".to_vec(), b"as".to_vec(), b"a.rs".to_vec(), 3);
    let sorted = idx.into_sorted();
    let keys: Vec<Vec<u8>> = sorted.iter().map(|e| e.normalized.clone()).collect();
    assert_eq!(keys, vec![b"apple".to_vec(), b"apples".to_vec(), b"pear".to_vec()]);
}

fn sample_files() -> Vec<SourceFile> {
    vec![
        SourceFile {
            path: b"src/a.rs".to_vec(),
            text: b"fn f() {}\n// FIXME(alice): fix this. \nlet x = 1;\n// FIXME(alice): fix this. \n".to_vec(),
        },
        SourceFile {
            path: b"src/b.rs".to_vec(),
            text: b"// HACK: avoid the allocation\n".to_vec(),
        },
    ]
}

#[test]
fn pipeline_dedups_and_numbers_lines() {
    let cfg = ScanConfig::standard();
    let idx = build_index(&sample_files(), &cfg);
    assert_eq!(idx.entries.len(), 2);
    let first = &idx.entries[0];
    assert_eq!(first.normalized, b"fix this".to_vec());
    assert_eq!(first.occurrences.len(), 2);
    assert_eq!(first.occurrences[0].line, 2);
    assert_eq!(first.occurrences[1].line, 4);
    assert_eq!(idx.entries[1].normalized, b"avoid the allocation".to_vec());
    assert_eq!(idx.entries[1].occurrences[0].file, b"src/b.rs".to_vec());
}

#[test]
fn pipeline_is_idempotent() {
    let cfg = ScanConfig::standard();
    let a = build_index(&sample_files(), &cfg);
    let b = build_index(&sample_files(), &cfg);
    assert_eq!(a.entries.len(), b.entries.len());
    for (x, y) in a.entries.iter().zip(b.entries.iter()) {
        assert_eq!(x.normalized, y.normalized);
        assert_eq!(x.raw, y.raw);
        assert_eq!(x.occurrences.len(), y.occurrences.len());
        for (ox, oy) in x.occurrences.iter().zip(y.occurrences.iter()) {
            assert_eq!(ox.file, oy.file);
            assert_eq!(ox.line, oy.line);
        }
    }
}

#[test]
fn scan_continues_past_missing_files() {
    // The directory walker in front of the library skips unreadable files;
    // the report then holds exactly what the readable files yielded.
    let cfg = ScanConfig::standard();
    let readable = vec![SourceFile {
        path: b"ok.rs".to_vec(),
        text: b"// FIXME: still here\n".to_vec(),
    }];
    let idx = build_index(&readable, &cfg);
    assert_eq!(idx.entries.len(), 1);
    assert_eq!(idx.entries[0].normalized, b"still here".to_vec());
    assert_eq!(idx.entries[0].occurrences.len(), 1);
    assert_eq!(idx.entries[0].occurrences[0].file, b"ok.rs".to_vec());
}

#[test]
fn validate_rejects_empty_marker_sets() {
    let bad = ScanConfig { markers: vec![], trim_set: vec![] };
    assert!(!bad.validate());
    let bad2 = ScanConfig { markers: vec![vec![]], trim_set: vec![] };
    assert!(!bad2.validate());
    assert!(ScanConfig::standard().validate());
}

fn seg_text_bytes(segs: &[Segment]) -> Vec<u8> {
    let mut out = Vec::new();
    for s in segs {
        match s {
            Segment::Plain { text } => out.extend_from_slice(text),
            Segment::Bold { text } => out.extend_from_slice(text),
            Segment::Issue { number } => out.extend_from_slice(number),
            Segment::Url { url, .. } => out.extend_from_slice(url),
        }
    }
    out
}

#[test]
fn segments_keep_text_in_order() {
    let cfg = ScanConfig::standard();
    let text = b"FIXME(alice): see https://github.com/rust-lang/rust/issues/81658 and #83171 too".to_vec();
    let segs = row_segments(&text, &cfg.markers);
    assert_eq!(seg_text_bytes(&segs), text);
}

#[test]
fn segments_link_urls_with_short_labels() {
    let cfg = ScanConfig::standard();
    let text = b"see https://github.com/rust-lang/rust/pull/123456 now".to_vec();
    let segs = row_segments(&text, &cfg.markers);
    let urls: Vec<(&Vec<u8>, &Vec<u8>)> = segs
        .iter()
        .filter_map(|s| match s {
            Segment::Url { url, label } => Some((url, label)),
            _ => None,
        })
        .collect();
    assert_eq!(urls.len(), 1);
    assert_eq!(*urls[0].0, b"https://github.com/rust-lang/rust/pull/123456".to_vec());
    assert_eq!(*urls[0].1, b"rust-lang/rust/pull/123456".to_vec());
}

#[test]
fn segments_link_issue_numbers() {
    let cfg = ScanConfig::standard();
    let text = b"FIXME: #7698, false positive of the internal lints".to_vec();
    let segs = row_segments(&text, &cfg.markers);
    let numbers: Vec<&Vec<u8>> = segs
        .iter()
        .filter_map(|s| match s {
            Segment::Issue { number } => Some(number),
            _ => None,
        })
        .collect();
    assert_eq!(numbers, vec![&b"7698".to_vec()]);
}

#[test]
fn segments_bold_the_author_tag() {
    let cfg = ScanConfig::standard();
    let text = b"FIXME(jackh726): This is odd".to_vec();
    let segs = row_segments(&text, &cfg.markers);
    let bolds: Vec<&Vec<u8>> = segs
        .iter()
        .filter_map(|s| match s {
            Segment::Bold { text } => Some(text),
            _ => None,
        })
        .collect();
    assert_eq!(bolds, vec![&b"jackh726".to_vec()]);
}

#[test]
fn url_labels_drop_known_prefixes() {
    assert_eq!(
        url_label(&b"https://example.org/x".to_vec()),
        b"example.org/x".to_vec()
    );
    assert_eq!(
        url_label(&b"https://github.com/rust-lang/rust".to_vec()),
        b"rust-lang/rust".to_vec()
    );
}

#[test]
fn source_href_builds_the_blob_address() {
    let href = source_href(
        &b"https://github.com/rust-lang/rust".to_vec(),
        &b"master".to_vec(),
        &b"src/lib.rs".to_vec(),
        42,
    );
    assert_eq!(
        href,
        b"https://github.com/rust-lang/rust/blob/master/src/lib.rs#L42".to_vec()
    );
    let zero = source_href(&b"b".to_vec(), &b"r".to_vec(), &b"p".to_vec(), 0);
    assert_eq!(zero, b"b/blob/r/p#L0".to_vec());
    let big = source_href(&b"b".to_vec(), &b"r".to_vec(), &b"p".to_vec(), 91167);
    assert_eq!(big, b"b/blob/r/p#L91167".to_vec());
}

#[test]
fn display_names_drop_extension_and_prefix() {
    let prefix = b"lib".to_vec();
    assert_eq!(display_name(&b"libstd/sync.rs".to_vec(), &prefix), b"std/sync".to_vec());
    assert_eq!(display_name(&b"core/num.rs".to_vec(), &prefix), b"core/num".to_vec());
    assert_eq!(display_name(&b"noext".to_vec(), &prefix), b"noext".to_vec());
}

#[test]
fn rows_come_out_sorted_with_sources() {
    let scfg = ScanConfig::standard();
    let rcfg = RenderConfig {
        issue_base_url: b"https://github.com/rust-lang/rust/issues/".to_vec(),
        repo_base_url: b"https://github.com/rust-lang/rust".to_vec(),
        repo_ref: b"master".to_vec(),
        strip_prefix: b"lib".to_vec(),
    };
    let idx = build_index(&sample_files(), &scfg);
    let rows = render_rows(idx, &scfg, &rcfg);
    assert_eq!(rows.len(), 2);
    assert_eq!(rows[0].entry.normalized, b"avoid the allocation".to_vec());
    assert_eq!(rows[1].entry.normalized, b"fix this".to_vec());
    assert_eq!(rows[1].sources.len(), 2);
    assert_eq!(
        rows[1].sources[0].href,
        b"https://github.com/rust-lang/rust/blob/master/src/a.rs#L2".to_vec()
    );
    assert_eq!(rows[1].sources[0].label, b"src/a".to_vec());
    // The displayed description is the normalized text: marker keyword,
    // author tag and boundary punctuation are gone.
    assert_eq!(seg_text_bytes(&rows[1].description), b"fix this".to_vec());
    assert_eq!(seg_text_bytes(&rows[0].description), b"avoid the allocation".to_vec());
    // The author/topic tag comes from the raw form.
    assert_eq!(rows[1].topic, Some(b"alice".to_vec()));
    assert_eq!(rows[0].topic, None);
}
