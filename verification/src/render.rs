//! Report row assembly: the description of a comment is split into plain
//! text, a bolded author/topic tag, issue links and URL links, in the order
//! the pieces stand in the text. Concatenating the pieces gives back the
//! text: links never reorder relative to the surrounding words.

use vstd::prelude::*;
use crate::bytes::{is_digit, is_nonzero_digit, sub_at, copy_range, match_at, find_byte_from};
use crate::issues::{issue_ref_at, issue_references, IssueReference};
use crate::links::{url_label_spec, url_label};
use crate::normalize::{LPAREN, RPAREN};

verus! {

/// One piece of a description cell.
pub enum Segment {
    /// Plain text shown as it stands.
    Plain { text: Vec<u8> },
    /// The author/topic tag, shown bold.
    Bold { text: Vec<u8> },
    /// A tracker issue number, shown as a link.
    Issue { number: Vec<u8> },
    /// An embedded URL, shown as a link under a shortened label.
    Url { url: Vec<u8>, label: Vec<u8> },
}

/// Mathematical form of a `Segment`.
#[verifier::ext_equal]
pub enum SegmentView {
    Plain { text: Seq<u8> },
    Bold { text: Seq<u8> },
    Issue { number: Seq<u8> },
    Url { url: Seq<u8>, label: Seq<u8> },
}

impl View for Segment {
    type V = SegmentView;

    open spec fn view(&self) -> SegmentView {
        match self {
            Segment::Plain { text } => SegmentView::Plain { text: text@ },
            Segment::Bold { text } => SegmentView::Bold { text: text@ },
            Segment::Issue { number } => SegmentView::Issue { number: number@ },
            Segment::Url { url, label } => SegmentView::Url { url: url@, label: label@ },
        }
    }
}

/// The view of a sequence of segments.
pub open spec fn segs_view(s: Seq<Segment>) -> Seq<SegmentView> {
    Seq::new(s.len(), |i: int| s[i]@)
}

/// The text a segment stands for in the source comment.
pub open spec fn seg_text(s: SegmentView) -> Seq<u8> {
    match s {
        SegmentView::Plain { text } => text,
        SegmentView::Bold { text } => text,
        SegmentView::Issue { number } => number,
        SegmentView::Url { url, label: _ } => url,
    }
}

/// The comment text a run of segments stands for.
pub open spec fn segs_text(s: Seq<SegmentView>) -> Seq<u8>
    decreases s.len(),
{
    if s.len() == 0 {
        Seq::empty()
    } else {
        seg_text(s[0]) + segs_text(s.drop_first())
    }
}

/// Every byte of the sequence is a digit.
pub open spec fn all_digits(s: Seq<u8>) -> bool {
    forall|i: int| 0 <= i < s.len() ==> is_digit(#[trigger] s[i])
}

/// What each segment kind guarantees of its own content.
pub open spec fn seg_wf(s: SegmentView) -> bool {
    match s {
        SegmentView::Issue { number } => number.len() >= 3 && all_digits(number)
            && is_nonzero_digit(number[0]),
        SegmentView::Url { url, label } => label == url_label_spec(url),
        _ => true,
    }
}

/// The segment is an issue link.
pub open spec fn is_issue_segment(s: SegmentView) -> bool {
    s matches SegmentView::Issue { .. }
}

/// The segment is a URL link.
pub open spec fn is_url_segment(s: SegmentView) -> bool {
    s matches SegmentView::Url { .. }
}

/// The texts of the URL links among the segments, in order.
pub open spec fn url_links_of(s: Seq<SegmentView>) -> Seq<Seq<u8>>
    decreases s.len(),
{
    if s.len() == 0 {
        Seq::empty()
    } else if is_url_segment(s.last()) {
        url_links_of(s.drop_last()).push(seg_text(s.last()))
    } else {
        url_links_of(s.drop_last())
    }
}

/// `url_links_of` distributes over concatenation.
proof fn lemma_url_links_concat(a: Seq<SegmentView>, b: Seq<SegmentView>)
    ensures
        url_links_of(a + b) == url_links_of(a) + url_links_of(b),
    decreases b.len(),
{
    if b.len() == 0 {
        assert(a + b =~= a);
        assert(url_links_of(a) + url_links_of(b) =~= url_links_of(a));
    } else {
        assert((a + b).drop_last() =~= a + b.drop_last());
        assert((a + b).last() == b.last());
        lemma_url_links_concat(a, b.drop_last());
        assert(url_links_of(a + b) =~= url_links_of(a) + url_links_of(b));
    }
}

/// A run without URL links contributes none.
proof fn lemma_url_links_none(s: Seq<SegmentView>)
    requires
        forall|k: int| 0 <= k < s.len() ==> !is_url_segment(#[trigger] s[k]),
    ensures
        url_links_of(s) == Seq::<Seq<u8>>::empty(),
    decreases s.len(),
{
    if s.len() > 0 {
        let d = s.drop_last();
        assert(forall|k: int| 0 <= k < d.len() ==> d[k] == s[k]);
        lemma_url_links_none(d);
        assert(!is_url_segment(s.last()));
        assert(url_links_of(s) =~= Seq::<Seq<u8>>::empty());
    }
}

/// What a verified description guarantees: the pieces concatenate back to
/// the text (nothing lost, nothing reordered), each piece is well formed,
/// and the URL links are exactly the link scanner's spans, in order.
pub open spec fn description_of(text: Seq<u8>, s: Seq<SegmentView>) -> bool {
    &&& segs_text(s) == text
    &&& forall|k: int| 0 <= k < s.len() ==> seg_wf(#[trigger] s[k])
    &&& url_links_of(s).len() == url_spans(text).len()
    &&& forall|j: int|
        0 <= j < url_spans(text).len() ==> url_links_of(s)[j] == text.subrange(
            (#[trigger] url_spans(text)[j]).0,
            url_spans(text)[j].1,
        )
}

/// `segs_text` distributes over concatenation.
pub proof fn lemma_segs_text_concat(a: Seq<SegmentView>, b: Seq<SegmentView>)
    ensures
        segs_text(a + b) == segs_text(a) + segs_text(b),
    decreases a.len(),
{
    if a.len() == 0 {
        assert(a + b =~= b);
        assert(segs_text(a) + segs_text(b) =~= segs_text(b));
    } else {
        assert((a + b).drop_first() =~= a.drop_first() + b);
        lemma_segs_text_concat(a.drop_first(), b);
        assert(segs_text(a + b) =~= segs_text(a) + segs_text(b));
    }
}

/// A marker `m` stands at `ms`, followed by `(`, with the content span
/// `[cs, ce)` closed by the first `)` after the parenthesis.
pub open spec fn capture_with(t: Seq<u8>, m: Seq<u8>, ms: int, cs: int, ce: int) -> bool {
    &&& m.len() > 0
    &&& sub_at(t, m, ms)
    &&& cs == ms + m.len() + 1
    &&& cs <= ce < t.len()
    &&& t[cs - 1] == LPAREN
    &&& t[ce] == RPAREN
    &&& forall|j: int| cs <= j < ce ==> t[j] != RPAREN
}

/// Some configured marker opens an author/topic parenthetical at `ms`.
pub open spec fn capture_at(t: Seq<u8>, markers: Seq<Seq<u8>>, ms: int) -> bool {
    exists|k: int, cs: int, ce: int|
        0 <= k < markers.len() && #[trigger] capture_with(t, markers[k], ms, cs, ce)
}

/// The place of an author/topic parenthetical: where the marker starts,
/// where the content starts, and where the closing parenthesis stands.
pub struct ParenCapture {
    pub start: usize,
    pub content_start: usize,
    pub content_end: usize,
}

/// Some configured marker opens the parenthetical that `c` describes.
pub open spec fn capture_found(t: Seq<u8>, markers: Seq<Seq<u8>>, c: ParenCapture) -> bool {
    exists|k: int|
        0 <= k < markers.len() && #[trigger] capture_with(
            t,
            markers[k],
            c.start as int,
            c.content_start as int,
            c.content_end as int,
        )
}

/// Finds the leftmost author/topic parenthetical.
#[verifier::rlimit(50)]
fn find_paren_capture(t: &Vec<u8>, markers: &Vec<Vec<u8>>) -> (r: Option<ParenCapture>)
    ensures
        r is Some ==> capture_found(t@, markers.deep_view(), r.unwrap()),
        r is Some ==> forall|m2: int|
            0 <= m2 < r.unwrap().start ==> !capture_at(t@, markers.deep_view(), m2),
        r is None ==> forall|m2: int| !capture_at(t@, markers.deep_view(), m2),
{
    let n = t.len();
    let nm = markers.len();
    let mut ms: usize = 0;
    while ms < n
        invariant
            ms <= n,
            n == t@.len(),
            nm == markers@.len(),
            forall|m2: int| 0 <= m2 < ms ==> !capture_at(t@, markers.deep_view(), m2),
        decreases n - ms,
    {
        let mut k: usize = 0;
        while k < nm
            invariant
                k <= nm,
                ms < n,
                n == t@.len(),
                nm == markers@.len(),
                forall|k2: int, cs: int, ce: int|
                    0 <= k2 < k ==> !(#[trigger] capture_with(
                        t@,
                        markers.deep_view()[k2],
                        ms as int,
                        cs,
                        ce,
                    )),
            ensures
                k <= nm,
                forall|k2: int, cs: int, ce: int|
                    0 <= k2 < k ==> !(#[trigger] capture_with(
                        t@,
                        markers.deep_view()[k2],
                        ms as int,
                        cs,
                        ce,
                    )),
                k < nm ==> exists|cs: int, ce: int|
                    capture_with(t@, markers.deep_view()[k as int], ms as int, cs, ce),
            decreases nm - k,
        {
            let m = &markers[k];
            proof {
                assert(m@ =~= markers.deep_view()[k as int]);
            }
            if m.len() > 0 && m.len() < n - ms && match_at(t, m, ms) {
                let after = ms + m.len();
                if t[after] == LPAREN {
                    let close = find_byte_from(t, RPAREN, after + 1);
                    if close < n {
                        proof {
                            assert(capture_with(
                                t@,
                                markers.deep_view()[k as int],
                                ms as int,
                                after + 1,
                                close as int,
                            ));
                        }
                        break;
                    }
                    proof {
                        assert(forall|ce: int| after + 1 <= ce < n ==> t@[ce] != RPAREN);
                        assert(forall|cs: int, ce: int|
                            !capture_with(t@, markers.deep_view()[k as int], ms as int, cs, ce));
                    }
                } else {
                    proof {
                        assert(forall|cs: int, ce: int|
                            !capture_with(t@, markers.deep_view()[k as int], ms as int, cs, ce));
                    }
                }
            } else {
                proof {
                    assert(forall|cs: int, ce: int|
                        !capture_with(t@, markers.deep_view()[k as int], ms as int, cs, ce));
                }
            }
            k = k + 1;
        }
        if k < nm {
            let ghost kk = k as int;
            proof {
                assert(markers@[kk]@ =~= markers.deep_view()[kk]);
            }
            let m_len = markers[k].len();
            let ghost (cs0, ce0) = choose|cs: int, ce: int|
                capture_with(t@, markers.deep_view()[kk], ms as int, cs, ce);
            proof {
                assert(cs0 == ms + m_len + 1);
                assert(cs0 <= ce0 < n);
            }
            let after = ms + m_len;
            let close = find_byte_from(t, RPAREN, after + 1);
            let cs_r = after + 1;
            proof {
                assert(t@[ce0] == RPAREN && forall|j: int| cs0 <= j < ce0 ==> t@[j] != RPAREN);
                assert(close < n && close == ce0) by {
                    assert(t@[ce0] == RPAREN);
                    if close == n {
                        assert(forall|j: int| after + 1 <= j < n ==> t@[j] != RPAREN);
                    } else {
                        if close < ce0 {
                            assert(t@[close as int] == RPAREN);
                        }
                        if ce0 < close {
                            assert(t@[ce0] != RPAREN);
                        }
                    }
                }
                assert(capture_with(
                    t@,
                    markers.deep_view()[kk],
                    ms as int,
                    cs_r as int,
                    close as int,
                ));
                assert(capture_at(t@, markers.deep_view(), ms as int));
                assert(0 <= kk < markers.deep_view().len());
            }
            let cap = ParenCapture { start: ms, content_start: cs_r, content_end: close };
            proof {
                assert(cap.start == ms && cap.content_start == cs_r && cap.content_end == close);
                assert(capture_found(t@, markers.deep_view(), cap)) by {
                    assert(capture_with(
                        t@,
                        markers.deep_view()[kk],
                        cap.start as int,
                        cap.content_start as int,
                        cap.content_end as int,
                    ));
                }
                assert(forall|m2: int| 0 <= m2 < cap.start ==> !capture_at(
                    t@,
                    markers.deep_view(),
                    m2,
                ));
            }
            return Some(cap);
        }
        proof {
            assert(forall|k2: int, cs: int, ce: int|
                0 <= k2 < markers.deep_view().len() ==> !(#[trigger] capture_with(
                    t@,
                    markers.deep_view()[k2],
                    ms as int,
                    cs,
                    ce,
                )));
            assert(!capture_at(t@, markers.deep_view(), ms as int));
        }
        ms = ms + 1;
    }
    proof {
        assert(forall|m2: int| m2 >= t@.len() ==> !capture_at(t@, markers.deep_view(), m2)) by {
            assert(forall|m2: int, k: int, cs: int, ce: int|
                m2 >= t@.len() && 0 <= k < markers.deep_view().len() ==> !(#[trigger] capture_with(
                    t@,
                    markers.deep_view()[k],
                    m2,
                    cs,
                    ce,
                )));
        }
        assert(forall|m2: int| m2 < 0 ==> !capture_at(t@, markers.deep_view(), m2)) by {
            assert(forall|m2: int, k: int, cs: int, ce: int|
                m2 < 0 && 0 <= k < markers.deep_view().len() ==> !(#[trigger] capture_with(
                    t@,
                    markers.deep_view()[k],
                    m2,
                    cs,
                    ce,
                )));
        }
    }
    None
}

/// The author/topic label of a raw comment: the content of its leftmost
/// marker parenthetical, or nothing when the raw text has none.
pub open spec fn topic_matches(raw: Seq<u8>, markers: Seq<Seq<u8>>, topic: Option<Seq<u8>>) -> bool {
    match topic {
        Some(t) => exists|c: ParenCapture|
            #[trigger] capture_found(raw, markers, c) && (forall|m2: int|
                0 <= m2 < c.start ==> !capture_at(raw, markers, m2)) && t == raw.subrange(
                c.content_start as int,
                c.content_end as int,
            ),
        None => forall|m2: int| !capture_at(raw, markers, m2),
    }
}

/// Extracts the author/topic tag of a raw comment: the content of the
/// leftmost marker parenthetical, if there is one.
pub fn paren_topic(raw: &Vec<u8>, markers: &Vec<Vec<u8>>) -> (r: Option<Vec<u8>>)
    ensures
        r is Some ==> topic_matches(raw@, markers.deep_view(), Some(r.unwrap()@)),
        r is None ==> topic_matches(raw@, markers.deep_view(), None::<Seq<u8>>),
{
    match find_paren_capture(raw, markers) {
        Some(c) => {
            proof {
                let kx = choose|k: int|
                    0 <= k < markers.deep_view().len() && #[trigger] capture_with(
                        raw@,
                        markers.deep_view()[k],
                        c.start as int,
                        c.content_start as int,
                        c.content_end as int,
                    );
                assert(c.content_start <= c.content_end < raw@.len());
            }
            let t = copy_range(raw, c.content_start, c.content_end);
            proof {
                assert(t@ == raw@.subrange(c.content_start as int, c.content_end as int));
                assert(capture_found(raw@, markers.deep_view(), c) && (forall|m2: int|
                    0 <= m2 < c.start ==> !capture_at(raw@, markers.deep_view(), m2)) && t@
                    == raw@.subrange(c.content_start as int, c.content_end as int));
            }
            Some(t)
        },
        None => None,
    }
}

/// Splits a chunk around its author/topic parenthetical, bolding the content.
/// The pieces concatenate back to the chunk.
pub fn bold_segments(chunk: &Vec<u8>, markers: &Vec<Vec<u8>>) -> (r: Vec<Segment>)
    ensures
        segs_text(segs_view(r@)) == chunk@,
        forall|k: int| 0 <= k < r@.len() ==> seg_wf(#[trigger] segs_view(r@)[k]),
        forall|k: int| 0 <= k < r@.len() ==> !is_issue_segment(#[trigger] segs_view(r@)[k]),
        forall|k: int| 0 <= k < r@.len() ==> !is_url_segment(#[trigger] segs_view(r@)[k]),
        (forall|m2: int| !capture_at(chunk@, markers.deep_view(), m2)) ==> (r@.len() == 1
            && segs_view(r@)[0] == (SegmentView::Plain { text: chunk@ })),
        (exists|m2: int| capture_at(chunk@, markers.deep_view(), m2)) ==> (r@.len() == 3
            && exists|c: ParenCapture|
            (#[trigger] capture_found(chunk@, markers.deep_view(), c)) && segs_view(r@)
                =~= seq![
            SegmentView::Plain { text: chunk@.subrange(0, c.content_start as int) },
            SegmentView::Bold {
                text: chunk@.subrange(c.content_start as int, c.content_end as int),
            },
            SegmentView::Plain { text: chunk@.subrange(c.content_end as int, chunk@.len() as int) },
        ]),
{
    match find_paren_capture(chunk, markers) {
        Some(c) => {
            proof {
                let kx = choose|k: int|
                    0 <= k < markers.deep_view().len() && #[trigger] capture_with(
                        chunk@,
                        markers.deep_view()[k],
                        c.start as int,
                        c.content_start as int,
                        c.content_end as int,
                    );
                assert(capture_at(chunk@, markers.deep_view(), c.start as int));
            }
            let cs = c.content_start;
            let ce = c.content_end;
            let n = chunk.len();
            let pre = copy_range(chunk, 0, cs);
            let mid = copy_range(chunk, cs, ce);
            let post = copy_range(chunk, ce, n);
            let mut r: Vec<Segment> = Vec::new();
            r.push(Segment::Plain { text: pre });
            r.push(Segment::Bold { text: mid });
            r.push(Segment::Plain { text: post });
            proof {
                let v = segs_view(r@);
                let v1 = v.drop_first();
                let v2 = v1.drop_first();
                let v3 = v2.drop_first();
                assert(v.len() == 3);
                assert(v1[0] == v[1] && v2[0] == v[2]);
                assert(v3 =~= Seq::<SegmentView>::empty());
                assert(segs_text(v3) =~= Seq::<u8>::empty());
                assert(segs_text(v2) == seg_text(v[2]) + segs_text(v3));
                assert(segs_text(v1) == seg_text(v[1]) + segs_text(v2));
                assert(segs_text(v) == seg_text(v[0]) + segs_text(v1));
                assert(segs_text(v) =~= chunk@);
                assert(v =~= seq![
                    SegmentView::Plain { text: chunk@.subrange(0, c.content_start as int) },
                    SegmentView::Bold {
                        text: chunk@.subrange(c.content_start as int, c.content_end as int),
                    },
                    SegmentView::Plain {
                        text: chunk@.subrange(c.content_end as int, chunk@.len() as int),
                    },
                ]);
                assert(forall|k: int| 0 <= k < v.len() ==> !is_issue_segment(#[trigger] v[k]));
                assert(forall|k: int| 0 <= k < v.len() ==> !is_url_segment(#[trigger] v[k]));
            }
            r
        },
        None => {
            let text = copy_range(chunk, 0, chunk.len());
            assert(text@ =~= chunk@);
            let mut r: Vec<Segment> = Vec::new();
            r.push(Segment::Plain { text });
            proof {
                let v = segs_view(r@);
                let v1 = v.drop_first();
                assert(v1 =~= Seq::<SegmentView>::empty());
                assert(segs_text(v1) =~= Seq::<u8>::empty());
                assert(segs_text(v) == seg_text(v[0]) + segs_text(v1));
                assert(segs_text(v) =~= chunk@);
                assert(forall|k: int| 0 <= k < v.len() ==> !is_issue_segment(#[trigger] v[k]));
                assert(forall|k: int| 0 <= k < v.len() ==> !is_url_segment(#[trigger] v[k]));
            }
            r
        },
    }
}


/// Appends `src`'s segments to `dst`, keeping text and well-formedness.
fn append_segments(dst: &mut Vec<Segment>, src: Vec<Segment>)
    ensures
        final(dst)@ == old(dst)@ + src@,
{
    let mut src = src;
    dst.append(&mut src);
}

/// A span of a text holding an embedded URL.
pub struct UrlSpan {
    pub start: usize,
    pub end: usize,
}

/// The URL spans that the link scanner reports for a text, in text order.
pub uninterp spec fn url_spans(text: Seq<u8>) -> Seq<(int, int)>;

/// Relies on linkify::LinkFinder::links, restricted to URL links: each link
/// is a nonempty span within the text, and the links come out in text order
/// without overlapping.
#[verifier::external_body]
fn find_url_spans(text: &Vec<u8>) -> (r: Vec<UrlSpan>)
    ensures
        r@.len() == url_spans(text@).len(),
        forall|k: int|
            0 <= k < r@.len() ==> (((#[trigger] r@[k]).start as int, r@[k].end as int)
                == url_spans(text@)[k]),
        forall|k: int| 0 <= k < r@.len() ==> (#[trigger] r@[k]).start < r@[k].end <= text@.len(),
        forall|k: int| 0 < k < r@.len() ==> r@[k - 1].end <= (#[trigger] r@[k]).start,
{
    let mut finder = linkify::LinkFinder::new();
    finder.kinds(&[linkify::LinkKind::Url]);
    let mut spans = Vec::new();
    if let Ok(s) = std::str::from_utf8(text.as_slice()) {
        for link in finder.links(s) {
            spans.push(UrlSpan { start: link.start(), end: link.end() });
        }
    }
    spans
}

/// The issue link standing at `wit[k]` serves the reference `refs[k]`.
pub open spec fn links_witnessed(
    segs: Seq<SegmentView>,
    chunk: Seq<u8>,
    refs: Seq<IssueReference>,
    wit: Seq<int>,
    upto: int,
) -> bool {
    forall|k: int|
        0 <= k < upto ==> {
            let w = #[trigger] wit[k];
            &&& 0 <= w < segs.len()
            &&& is_issue_segment(segs[w])
            &&& seg_text(segs[w]) == chunk.subrange(refs[k].start as int, refs[k].end as int)
        }
}

/// Each piece is well formed, none is a URL link, and every issue link is
/// a true issue reference of the chunk.
#[verifier::opaque]
pub open spec fn issue_gap_wf(chunk: Seq<u8>, segs: Seq<SegmentView>) -> bool {
    &&& forall|k: int| 0 <= k < segs.len() ==> seg_wf(#[trigger] segs[k])
    &&& forall|k: int| 0 <= k < segs.len() ==> !is_url_segment(#[trigger] segs[k])
    &&& forall|k: int|
        0 <= k < segs.len() && is_issue_segment(#[trigger] segs[k]) ==> exists|s2: int, e2: int|
            #[trigger] issue_ref_at(chunk, s2, e2) && seg_text(segs[k]) == chunk.subrange(s2, e2)
}

/// Splits a chunk around its issue numbers: each becomes an issue link, and
/// the text between them is bolded around its author/topic tag. The pieces
/// concatenate back to the chunk, every issue link is a true reference, and
/// every reference of the chunk gets its link.
#[verifier::rlimit(100)]
#[verifier::spinoff_prover]
pub fn issue_segments(chunk: &Vec<u8>, markers: &Vec<Vec<u8>>) -> (r: Vec<Segment>)
    ensures
        segs_text(segs_view(r@)) == chunk@,
        forall|k: int| 0 <= k < r@.len() ==> seg_wf(#[trigger] segs_view(r@)[k]),
        forall|k: int| 0 <= k < r@.len() ==> !is_url_segment(#[trigger] segs_view(r@)[k]),
        forall|k: int|
            0 <= k < r@.len() && is_issue_segment(#[trigger] segs_view(r@)[k]) ==> exists|s: int,
            e: int|
                #[trigger] issue_ref_at(chunk@, s, e) && seg_text(segs_view(r@)[k])
                    == chunk@.subrange(s, e),
        forall|s: int, e: int|
            #[trigger] issue_ref_at(chunk@, s, e) ==> exists|k: int|
                0 <= k < r@.len() && is_issue_segment(#[trigger] segs_view(r@)[k]) && seg_text(
                    segs_view(r@)[k],
                ) == chunk@.subrange(s, e),
{
    let refs = issue_references(chunk);
    let nr = refs.len();
    let n = chunk.len();
    let mut out: Vec<Segment> = Vec::new();
    let mut last: usize = 0;
    let mut ri: usize = 0;
    let ghost mut wit: Seq<int> = Seq::empty();
    proof {
        reveal(issue_gap_wf);
        assert(segs_view(out@) =~= Seq::<SegmentView>::empty());
        assert(segs_text(segs_view(out@)) =~= chunk@.subrange(0, 0));
        assert(issue_gap_wf(chunk@, segs_view(out@)));
    }
    while ri < nr
        invariant
            ri <= nr,
            nr == refs@.len(),
            n == chunk@.len(),
            last <= n,
            ri < nr ==> last <= refs@[ri as int].start,
            forall|k: int|
                0 <= k < nr ==> issue_ref_at(
                    chunk@,
                    (#[trigger] refs@[k]).start as int,
                    refs@[k].end as int,
                ),
            forall|s2: int, e2: int|
                #[trigger] issue_ref_at(chunk@, s2, e2) ==> exists|k: int|
                    0 <= k < nr && (#[trigger] refs@[k]).start == s2 && refs@[k].end == e2,
            forall|k: int| 0 < k < nr ==> refs@[k - 1].end <= (#[trigger] refs@[k]).start,
            segs_text(segs_view(out@)) == chunk@.subrange(0, last as int),
            issue_gap_wf(chunk@, segs_view(out@)),
            wit.len() == ri,
            links_witnessed(segs_view(out@), chunk@, refs@, wit, ri as int),
        decreases nr - ri,
    {
        let s = refs[ri].start;
        let e = refs[ri].end;
        proof {
            assert(issue_ref_at(chunk@, refs@[ri as int].start as int, refs@[ri as int].end as int));
        }
        if last < s {
            let gap = copy_range(chunk, last, s);
            let gs = bold_segments(&gap, markers);
            let ghost out0 = segs_view(out@);
            let ghost gs0 = segs_view(gs@);
            append_segments(&mut out, gs);
            proof {
                reveal(issue_gap_wf);
                assert(segs_view(out@) =~~= out0 + gs0);
                lemma_segs_text_concat(out0, gs0);
                assert(chunk@.subrange(0, last as int) + chunk@.subrange(last as int, s as int)
                    =~= chunk@.subrange(0, s as int));
                assert(segs_text(segs_view(out@)) == chunk@.subrange(0, s as int));
                assert(forall|k: int| 0 <= k < out0.len() ==> segs_view(out@)[k] == out0[k]);
                assert(forall|k: int|
                    out0.len() <= k < out0.len() + gs0.len() ==> segs_view(out@)[k] == gs0[
                        k - out0.len()
                    ]);
                assert(issue_gap_wf(chunk@, segs_view(out@)));
                assert(links_witnessed(segs_view(out@), chunk@, refs@, wit, ri as int));
            }
        }
        let num = copy_range(chunk, s, e);
        let ghost out1 = segs_view(out@);
        let ghost numv = SegmentView::Issue { number: chunk@.subrange(s as int, e as int) };
        out.push(Segment::Issue { number: num });
        proof {
            reveal(issue_gap_wf);
            assert(seg_wf(numv)) by {
                let nn = chunk@.subrange(s as int, e as int);
                assert(forall|i: int| 0 <= i < nn.len() ==> is_digit(#[trigger] nn[i])) by {
                    assert(forall|i: int| 0 <= i < nn.len() ==> nn[i] == chunk@[s + i]);
                }
                assert(nn[0] == chunk@[s as int]);
            }
            assert(segs_view(out@) =~~= out1 + seq![numv]);
            lemma_segs_text_concat(out1, seq![numv]);
            assert(segs_text(seq![numv]) =~= seg_text(numv)) by {
                let single = seq![numv];
                assert(single.drop_first() =~= Seq::<SegmentView>::empty());
                assert(segs_text(Seq::<SegmentView>::empty()) =~= Seq::<u8>::empty());
                assert(single[0] == numv);
                assert(segs_text(single) == seg_text(numv) + segs_text(
                    Seq::<SegmentView>::empty(),
                ));
                assert(seg_text(numv) + Seq::<u8>::empty() =~= seg_text(numv));
            }
            assert(chunk@.subrange(0, s as int) + chunk@.subrange(s as int, e as int)
                =~= chunk@.subrange(0, e as int));
            assert(segs_text(segs_view(out@)) == chunk@.subrange(0, e as int));
            assert(forall|k: int| 0 <= k < out1.len() ==> segs_view(out@)[k] == out1[k]);
            assert(segs_view(out@)[out1.len() as int] == numv);
            assert(issue_ref_at(chunk@, s as int, e as int) && seg_text(numv) == chunk@.subrange(
                s as int,
                e as int,
            ));
            assert(issue_gap_wf(chunk@, segs_view(out@)));
            assert(links_witnessed(segs_view(out@), chunk@, refs@, wit, ri as int));
            wit = wit.push(out1.len() as int);
            assert(is_issue_segment(segs_view(out@)[out1.len() as int]) && seg_text(
                segs_view(out@)[out1.len() as int],
            ) == chunk@.subrange(refs@[ri as int].start as int, refs@[ri as int].end as int));
            assert(links_witnessed(segs_view(out@), chunk@, refs@, wit, ri + 1));
        }
        last = e;
        ri = ri + 1;
    }
    if last < n {
        let gap = copy_range(chunk, last, n);
        let gs = bold_segments(&gap, markers);
        let ghost out0 = segs_view(out@);
        let ghost gs0 = segs_view(gs@);
        append_segments(&mut out, gs);
        proof {
            reveal(issue_gap_wf);
            assert(segs_view(out@) =~~= out0 + gs0);
            lemma_segs_text_concat(out0, gs0);
            assert(chunk@.subrange(0, last as int) + chunk@.subrange(last as int, n as int)
                =~= chunk@.subrange(0, n as int));
            assert(forall|k: int| 0 <= k < out0.len() ==> segs_view(out@)[k] == out0[k]);
            assert(forall|k: int|
                out0.len() <= k < out0.len() + gs0.len() ==> segs_view(out@)[k] == gs0[
                    k - out0.len()
                ]);
            assert(issue_gap_wf(chunk@, segs_view(out@)));
            assert(links_witnessed(segs_view(out@), chunk@, refs@, wit, nr as int));
        }
    }
    proof {
        reveal(issue_gap_wf);
        assert(chunk@.subrange(0, n as int) =~= chunk@);
        assert forall|s2: int, e2: int| #[trigger] issue_ref_at(chunk@, s2, e2) implies exists|
            k: int,
        |
            0 <= k < segs_view(out@).len() && is_issue_segment(#[trigger] segs_view(out@)[k])
                && seg_text(segs_view(out@)[k]) == chunk@.subrange(s2, e2) by {
            let kr = choose|kr: int|
                0 <= kr < nr && (#[trigger] refs@[kr]).start == s2 && refs@[kr].end == e2;
            assert(0 <= wit[kr] < segs_view(out@).len());
            assert(is_issue_segment(segs_view(out@)[wit[kr]]));
            assert(seg_text(segs_view(out@)[wit[kr]]) == chunk@.subrange(s2, e2));
        }
    }
    out
}

/// Splits a comment's text into its description segments: URLs become
/// links, the text between them gains issue links and a bolded author/topic
/// tag. Concatenating the segments' sources gives back the text: nothing is
/// lost and nothing reorders.
pub fn row_segments(text: &Vec<u8>, markers: &Vec<Vec<u8>>) -> (r: Vec<Segment>)
    ensures
        description_of(text@, segs_view(r@)),
{
    let spans = find_url_spans(text);
    let ns = spans.len();
    let n = text.len();
    let mut out: Vec<Segment> = Vec::new();
    let mut last: usize = 0;
    let mut si: usize = 0;
    proof {
        assert(segs_view(out@) =~= Seq::<SegmentView>::empty());
        assert(segs_text(segs_view(out@)) =~= text@.subrange(0, 0));
        assert(url_links_of(segs_view(out@)) =~= Seq::<Seq<u8>>::empty());
    }
    while si < ns
        invariant
            si <= ns,
            ns == spans@.len(),
            n == text@.len(),
            last <= n,
            si < ns ==> last <= spans@[si as int].start,
            ns == url_spans(text@).len(),
            forall|k: int|
                0 <= k < ns ==> (((#[trigger] spans@[k]).start as int, spans@[k].end as int)
                    == url_spans(text@)[k]),
            forall|k: int| 0 <= k < ns ==> (#[trigger] spans@[k]).start < spans@[k].end <= n,
            forall|k: int| 0 < k < ns ==> spans@[k - 1].end <= (#[trigger] spans@[k]).start,
            segs_text(segs_view(out@)) == text@.subrange(0, last as int),
            forall|k: int| 0 <= k < out@.len() ==> seg_wf(#[trigger] segs_view(out@)[k]),
            url_links_of(segs_view(out@)).len() == si,
            forall|j: int|
                0 <= j < si ==> url_links_of(segs_view(out@))[j] == text@.subrange(
                    (#[trigger] url_spans(text@)[j]).0,
                    url_spans(text@)[j].1,
                ),
        decreases ns - si,
    {
        let s = spans[si].start;
        let e = spans[si].end;
        if last < s {
            let gap = copy_range(text, last, s);
            let gs = issue_segments(&gap, markers);
            let ghost out0 = segs_view(out@);
            let ghost gs0 = segs_view(gs@);
            append_segments(&mut out, gs);
            proof {
                assert(segs_view(out@) =~~= out0 + gs0);
                lemma_segs_text_concat(out0, gs0);
                assert(text@.subrange(0, last as int) + text@.subrange(last as int, s as int)
                    =~= text@.subrange(0, s as int));
                assert(forall|k: int| 0 <= k < out0.len() ==> segs_view(out@)[k] == out0[k]);
                assert(forall|k: int|
                    out0.len() <= k < out0.len() + gs0.len() ==> segs_view(out@)[k] == gs0[
                        k - out0.len()
                    ]);
                assert(forall|k: int| 0 <= k < out@.len() ==> seg_wf(
                    #[trigger] segs_view(out@)[k],
                ));
                lemma_url_links_none(gs0);
                lemma_url_links_concat(out0, gs0);
                assert(url_links_of(segs_view(out@)) =~= url_links_of(out0));
            }
        }
        let url = copy_range(text, s, e);
        let label = url_label(&url);
        let ghost out1 = segs_view(out@);
        let ghost urlv = SegmentView::Url {
            url: text@.subrange(s as int, e as int),
            label: url_label_spec(text@.subrange(s as int, e as int)),
        };
        out.push(Segment::Url { url, label });
        proof {
            assert(segs_view(out@) =~~= out1 + seq![urlv]);
            lemma_segs_text_concat(out1, seq![urlv]);
            assert(segs_text(seq![urlv]) =~= seg_text(urlv)) by {
                let single = seq![urlv];
                assert(single.drop_first() =~= Seq::<SegmentView>::empty());
                assert(segs_text(Seq::<SegmentView>::empty()) =~= Seq::<u8>::empty());
                assert(single[0] == urlv);
                assert(segs_text(single) == seg_text(urlv) + segs_text(
                    Seq::<SegmentView>::empty(),
                ));
                assert(seg_text(urlv) + Seq::<u8>::empty() =~= seg_text(urlv));
            }
            assert(text@.subrange(0, s as int) + text@.subrange(s as int, e as int)
                =~= text@.subrange(0, e as int));
            assert(segs_text(segs_view(out@)) == text@.subrange(0, e as int));
            assert(forall|k: int| 0 <= k < out1.len() ==> segs_view(out@)[k] == out1[k]);
            assert(segs_view(out@)[out1.len() as int] == urlv);
            assert(forall|k: int| 0 <= k < out@.len() ==> seg_wf(
                #[trigger] segs_view(out@)[k],
            ));
            assert(url_spans(text@)[si as int] == (s as int, e as int));
            assert(seg_text(urlv) == text@.subrange(
                url_spans(text@)[si as int].0,
                url_spans(text@)[si as int].1,
            ));
            lemma_url_links_concat(out1, seq![urlv]);
            assert(url_links_of(seq![urlv]) =~= seq![seg_text(urlv)]) by {
                let single = seq![urlv];
                assert(single.drop_last() =~= Seq::<SegmentView>::empty());
                assert(url_links_of(Seq::<SegmentView>::empty()) =~= Seq::<Seq<u8>>::empty());
                assert(single.last() == urlv && is_url_segment(urlv));
            }
            assert(url_links_of(segs_view(out@)) =~= url_links_of(out1).push(seg_text(urlv)));
        }
        last = e;
        si = si + 1;
    }
    if last < n {
        let gap = copy_range(text, last, n);
        let gs = issue_segments(&gap, markers);
        let ghost out0 = segs_view(out@);
        let ghost gs0 = segs_view(gs@);
        append_segments(&mut out, gs);
        proof {
            assert(segs_view(out@) =~~= out0 + gs0);
            lemma_segs_text_concat(out0, gs0);
            assert(text@.subrange(0, last as int) + text@.subrange(last as int, n as int)
                =~= text@.subrange(0, n as int));
            assert(forall|k: int| 0 <= k < out0.len() ==> segs_view(out@)[k] == out0[k]);
            assert(forall|k: int|
                out0.len() <= k < out0.len() + gs0.len() ==> segs_view(out@)[k] == gs0[
                    k - out0.len()
                ]);
            assert(forall|k: int| 0 <= k < out@.len() ==> seg_wf(
                #[trigger] segs_view(out@)[k],
            ));
            lemma_url_links_none(gs0);
            lemma_url_links_concat(out0, gs0);
            assert(url_links_of(segs_view(out@)) =~= url_links_of(out0));
        }
    }
    proof {
        assert(text@.subrange(0, n as int) =~= text@);
        assert(description_of(text@, segs_view(out@)));
    }
    out
}

} // verus!
