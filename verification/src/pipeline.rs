//! The scanning pipeline: walks the lines of each given file, selects the
//! lines holding a marker, normalizes them and records every occurrence in
//! the deduplication index. The whole pipeline is a function of its input,
//! which is what makes repeated runs agree.

use vstd::prelude::*;
use crate::bytes::copy_bytes;
use crate::dedup::{DedupIndex, EntryView, OccurrenceView, index_insert_spec, index_wf};
use crate::locate::{lines_spec, line_selected, split_lines, line_has_marker};
use crate::normalize::{normalize_spec, normalize_comment};

verus! {

/// One input file: its path relative to the scan root, and its full text.
pub struct SourceFile {
    pub path: Vec<u8>,
    pub text: Vec<u8>,
}

/// Mathematical form of a `SourceFile`.
#[verifier::ext_equal]
pub struct FileView {
    pub path: Seq<u8>,
    pub text: Seq<u8>,
}

impl View for SourceFile {
    type V = FileView;

    open spec fn view(&self) -> FileView {
        FileView { path: self.path@, text: self.text@ }
    }
}

/// The view of a sequence of input files.
pub open spec fn files_view(s: Seq<SourceFile>) -> Seq<FileView> {
    Seq::new(s.len(), |i: int| s[i]@)
}

/// Scan configuration: the marker keywords and the punctuation set trimmed
/// from comment ends.
pub struct ScanConfig {
    pub markers: Vec<Vec<u8>>,
    pub trim_set: Vec<u8>,
}

impl ScanConfig {
    /// At least one marker, and no marker empty.
    pub open spec fn wf(&self) -> bool {
        &&& self.markers@.len() > 0
        &&& forall|k: int| 0 <= k < self.markers@.len()
            ==> (#[trigger] self.markers@[k])@.len() > 0
    }

    /// Checks the configuration before any scanning starts.
    pub fn validate(&self) -> (r: bool)
        ensures
            r == self.wf(),
    {
        if self.markers.len() == 0 {
            return false;
        }
        let n = self.markers.len();
        let mut k: usize = 0;
        while k < n
            invariant
                k <= n,
                n == self.markers@.len(),
                forall|j: int| 0 <= j < k ==> (#[trigger] self.markers@[j])@.len() > 0,
            decreases n - k,
        {
            if self.markers[k].len() == 0 {
                return false;
            }
            k = k + 1;
        }
        true
    }
}

/// One line's effect on the index: a line holding a marker is inserted under
/// its normalized text; any other line leaves the index unchanged.
pub open spec fn scan_line_spec(
    idx: Seq<EntryView>,
    path: Seq<u8>,
    line: Seq<u8>,
    lineno: int,
    markers: Seq<Seq<u8>>,
    trim: Seq<u8>,
) -> Seq<EntryView> {
    if line_selected(line, markers) {
        index_insert_spec(
            idx,
            normalize_spec(line, markers, trim),
            line,
            OccurrenceView { file: path, line: lineno },
        )
    } else {
        idx
    }
}

/// The effect of a run of lines, numbered from `next`.
pub open spec fn scan_lines_spec(
    idx: Seq<EntryView>,
    path: Seq<u8>,
    lines: Seq<Seq<u8>>,
    next: int,
    markers: Seq<Seq<u8>>,
    trim: Seq<u8>,
) -> Seq<EntryView>
    decreases lines.len(),
{
    if lines.len() == 0 {
        idx
    } else {
        scan_lines_spec(
            scan_line_spec(idx, path, lines[0], next, markers, trim),
            path,
            lines.drop_first(),
            next + 1,
            markers,
            trim,
        )
    }
}

/// The effect of one whole file, lines numbered from one.
pub open spec fn scan_file_spec(
    idx: Seq<EntryView>,
    f: FileView,
    markers: Seq<Seq<u8>>,
    trim: Seq<u8>,
) -> Seq<EntryView> {
    scan_lines_spec(idx, f.path, lines_spec(f.text), 1, markers, trim)
}

/// The effect of a run of files, scanned in order.
pub open spec fn scan_files_spec(
    idx: Seq<EntryView>,
    files: Seq<FileView>,
    markers: Seq<Seq<u8>>,
    trim: Seq<u8>,
) -> Seq<EntryView>
    decreases files.len(),
{
    if files.len() == 0 {
        idx
    } else {
        scan_files_spec(
            scan_file_spec(idx, files[0], markers, trim),
            files.drop_first(),
            markers,
            trim,
        )
    }
}

/// The index built from an input tree: every file scanned, starting empty.
pub open spec fn build_index_spec(
    files: Seq<FileView>,
    markers: Seq<Seq<u8>>,
    trim: Seq<u8>,
) -> Seq<EntryView> {
    scan_files_spec(Seq::empty(), files, markers, trim)
}

/// Scans one file's text into the index.
pub fn scan_file(idx: &mut DedupIndex, path: &Vec<u8>, text: &Vec<u8>, cfg: &ScanConfig)
    ensures
        final(idx)@ == scan_file_spec(
            old(idx)@,
            FileView { path: path@, text: text@ },
            cfg.markers.deep_view(),
            cfg.trim_set@,
        ),
        index_wf(old(idx)@) ==> index_wf(final(idx)@),
{
    let ghost markers = cfg.markers.deep_view();
    let ghost trim = cfg.trim_set@;
    let lines = split_lines(text);
    let ghost all = lines.deep_view();
    let n = lines.len();
    let mut li: usize = 0;
    proof {
        assert(all.skip(0) =~= all);
    }
    while li < n
        invariant
            li <= n,
            n == lines@.len(),
            all == lines.deep_view(),
            all == lines_spec(text@),
            markers == cfg.markers.deep_view(),
            trim == cfg.trim_set@,
            scan_lines_spec(idx@, path@, all.skip(li as int), li + 1, markers, trim)
                == scan_lines_spec(old(idx)@, path@, all, 1, markers, trim),
            index_wf(old(idx)@) ==> index_wf(idx@),
        decreases n - li,
    {
        let line = &lines[li];
        proof {
            assert(line@ =~= lines@[li as int].deep_view());
            assert(all.skip(li as int)[0] == all[li as int]);
            assert(all.skip(li as int).drop_first() =~= all.skip(li + 1));
        }
        let ghost idx0 = idx@;
        if line_has_marker(line, &cfg.markers) {
            let norm = normalize_comment(line, &cfg.markers, &cfg.trim_set);
            let raw = copy_bytes(line);
            let fpath = copy_bytes(path);
            idx.insert(norm, raw, fpath, li + 1);
            proof {
                assert(idx@ == scan_line_spec(idx0, path@, all[li as int], li + 1, markers, trim));
            }
        } else {
            proof {
                assert(idx@ == scan_line_spec(idx0, path@, all[li as int], li + 1, markers, trim));
            }
        }
        li = li + 1;
    }
    proof {
        assert(all.skip(n as int).len() == 0);
        assert(scan_lines_spec(idx@, path@, all.skip(n as int), n + 1, markers, trim) == idx@);
    }
}

/// Builds the full index for an input tree.
pub fn build_index(files: &Vec<SourceFile>, cfg: &ScanConfig) -> (r: DedupIndex)
    ensures
        r@ == build_index_spec(files_view(files@), cfg.markers.deep_view(), cfg.trim_set@),
        index_wf(r@),
{
    let ghost markers = cfg.markers.deep_view();
    let ghost trim = cfg.trim_set@;
    let ghost all = files_view(files@);
    let mut idx = DedupIndex::new();
    let n = files.len();
    let mut fi: usize = 0;
    proof {
        assert(all.skip(0) =~= all);
    }
    while fi < n
        invariant
            fi <= n,
            n == files@.len(),
            all == files_view(files@),
            markers == cfg.markers.deep_view(),
            trim == cfg.trim_set@,
            scan_files_spec(idx@, all.skip(fi as int), markers, trim)
                == scan_files_spec(Seq::empty(), all, markers, trim),
            index_wf(idx@),
        decreases n - fi,
    {
        let f = &files[fi];
        proof {
            assert(all.skip(fi as int)[0] == all[fi as int]);
            assert(all.skip(fi as int).drop_first() =~= all.skip(fi + 1));
            assert(all[fi as int] == files@[fi as int]@);
        }
        scan_file(&mut idx, &f.path, &f.text, cfg);
        fi = fi + 1;
    }
    proof {
        assert(all.skip(n as int).len() == 0);
        assert(scan_files_spec(idx@, all.skip(n as int), markers, trim) == idx@);
    }
    idx
}

/// Idempotence: scanning an unchanged input tree twice builds the same
/// index, entry for entry — the same normalized texts, raw forms and
/// occurrence lists.
pub proof fn lemma_scan_idempotent(
    files: Seq<FileView>,
    markers: Seq<Seq<u8>>,
    trim: Seq<u8>,
    r1: Seq<EntryView>,
    r2: Seq<EntryView>,
)
    requires
        r1 == build_index_spec(files, markers, trim),
        r2 == build_index_spec(files, markers, trim),
    ensures
        r1 == r2,
{
}


/// The default marker keywords.
pub open spec fn default_markers() -> Seq<Seq<u8>> {
    // "FIXME" and "HACK"
    seq![seq![70u8, 73u8, 88u8, 77u8, 69u8], seq![72u8, 65u8, 67u8, 75u8]]
}

/// The default punctuation set trimmed from comment ends.
pub open spec fn default_trim_set() -> Seq<u8> {
    // "/* :-.^,"
    seq![47u8, 42u8, 32u8, 58u8, 45u8, 46u8, 94u8, 44u8]
}

impl ScanConfig {
    /// The default configuration: markers `FIXME` and `HACK`, and the
    /// standard punctuation trim set.
    pub fn standard() -> (r: ScanConfig)
        ensures
            r.markers.deep_view() == default_markers(),
            r.trim_set@ == default_trim_set(),
            r.wf(),
    {
        let mut fixme: Vec<u8> = Vec::new();
        fixme.push(70);
        fixme.push(73);
        fixme.push(88);
        fixme.push(77);
        fixme.push(69);
        let mut hack: Vec<u8> = Vec::new();
        hack.push(72);
        hack.push(65);
        hack.push(67);
        hack.push(75);
        let mut markers: Vec<Vec<u8>> = Vec::new();
        proof {
            assert(fixme@ =~= default_markers()[0]);
            assert(hack@ =~= default_markers()[1]);
        }
        markers.push(fixme);
        markers.push(hack);
        let mut trim_set: Vec<u8> = Vec::new();
        trim_set.push(47);
        trim_set.push(42);
        trim_set.push(32);
        trim_set.push(58);
        trim_set.push(45);
        trim_set.push(46);
        trim_set.push(94);
        trim_set.push(44);
        let r = ScanConfig { markers, trim_set };
        proof {
            assert(r.markers.deep_view() =~~= default_markers());
            assert(r.trim_set@ =~= default_trim_set());
        }
        r
    }
}

} // verus!
