//! Link assembly: decimal line numbers, issue and source hrefs, the
//! display label of a URL, and the display name of a source file.

use vstd::prelude::*;
use crate::bytes::{starts_with, begins_with, copy_range, copy_bytes, append_bytes};

verus! {

/// Dot byte.
pub const DOT: u8 = 46;

/// Slash byte.
pub const SLASH: u8 = 47;

/// The decimal digits of `n`, most significant first.
pub open spec fn dec_str(n: nat) -> Seq<u8>
    decreases n,
{
    if n < 10 {
        seq![(48 + n) as u8]
    } else {
        dec_str(n / 10).push((48 + n % 10) as u8)
    }
}

/// Appends the decimal digits of `n`.
pub fn push_decimal(n: usize, out: &mut Vec<u8>)
    ensures
        final(out)@ == old(out)@ + dec_str(n as nat),
    decreases n,
{
    if n < 10 {
        out.push(48 + (n as u8));
        assert(out@ =~= old(out)@ + dec_str(n as nat));
    } else {
        push_decimal(n / 10, out);
        out.push(48 + ((n % 10) as u8));
        assert(out@ =~= old(out)@ + dec_str(n as nat));
    }
}

/// `t` with prefix `p` removed when it begins with `p`.
pub open spec fn strip_prefix_spec(t: Seq<u8>, p: Seq<u8>) -> Seq<u8> {
    if starts_with(t, p) {
        t.skip(p.len() as int)
    } else {
        t
    }
}

/// Removes the prefix `p` from `t` when present.
pub fn strip_prefix(t: &Vec<u8>, p: &Vec<u8>) -> (r: Vec<u8>)
    ensures
        r@ == strip_prefix_spec(t@, p@),
{
    if begins_with(t, p) {
        let r = copy_range(t, p.len(), t.len());
        assert(r@ =~= t@.skip(p@.len() as int));
        r
    } else {
        copy_bytes(t)
    }
}

/// The scheme prefix hidden in a URL's display label.
pub open spec fn https_prefix() -> Seq<u8> {
    // "https://"
    seq![104u8, 116u8, 116u8, 112u8, 115u8, 58u8, 47u8, 47u8]
}

/// The host prefix hidden in a URL's display label.
pub open spec fn github_prefix() -> Seq<u8> {
    // "github.com/"
    seq![103u8, 105u8, 116u8, 104u8, 117u8, 98u8, 46u8, 99u8, 111u8, 109u8, 47u8]
}

/// A URL's display label: the URL with a leading scheme, and then a leading
/// well-known host, removed.
pub open spec fn url_label_spec(u: Seq<u8>) -> Seq<u8> {
    strip_prefix_spec(strip_prefix_spec(u, https_prefix()), github_prefix())
}

/// Builds the display label of a URL.
pub fn url_label(u: &Vec<u8>) -> (r: Vec<u8>)
    ensures
        r@ == url_label_spec(u@),
{
    let mut scheme: Vec<u8> = Vec::new();
    scheme.push(104);
    scheme.push(116);
    scheme.push(116);
    scheme.push(112);
    scheme.push(115);
    scheme.push(58);
    scheme.push(47);
    scheme.push(47);
    assert(scheme@ =~= https_prefix());
    let mut host: Vec<u8> = Vec::new();
    host.push(103);
    host.push(105);
    host.push(116);
    host.push(104);
    host.push(117);
    host.push(98);
    host.push(46);
    host.push(99);
    host.push(111);
    host.push(109);
    host.push(47);
    assert(host@ =~= github_prefix());
    let unscheme = strip_prefix(u, &scheme);
    strip_prefix(&unscheme, &host)
}

/// The address of a tracker issue: the configured base followed by the
/// issue number.
pub fn issue_href(base: &Vec<u8>, number: &Vec<u8>) -> (r: Vec<u8>)
    ensures
        r@ == base@ + number@,
{
    let mut r = copy_bytes(base);
    append_bytes(&mut r, number);
    r
}

/// The glue between the repository base and the reference in a source link.
pub open spec fn blob_glue() -> Seq<u8> {
    // "/blob/"
    seq![47u8, 98u8, 108u8, 111u8, 98u8, 47u8]
}

/// The glue before the line number in a source link.
pub open spec fn line_glue() -> Seq<u8> {
    // "#L"
    seq![35u8, 76u8]
}

/// The address of one occurrence in the repository: base, reference, path
/// and one-based line number.
pub fn source_href(base: &Vec<u8>, refname: &Vec<u8>, path: &Vec<u8>, line: usize) -> (r: Vec<u8>)
    ensures
        r@ == base@ + blob_glue() + refname@ + seq![SLASH] + path@ + line_glue() + dec_str(
            line as nat,
        ),
{
    let mut r = copy_bytes(base);
    r.push(47);
    r.push(98);
    r.push(108);
    r.push(111);
    r.push(98);
    r.push(47);
    assert(r@ =~= base@ + blob_glue());
    append_bytes(&mut r, refname);
    r.push(47);
    assert(r@ =~= base@ + blob_glue() + refname@ + seq![SLASH]);
    append_bytes(&mut r, path);
    r.push(35);
    r.push(76);
    assert(r@ =~= base@ + blob_glue() + refname@ + seq![SLASH] + path@ + line_glue());
    push_decimal(line, &mut r);
    assert(r@ =~= base@ + blob_glue() + refname@ + seq![SLASH] + path@ + line_glue() + dec_str(
        line as nat,
    ));
    r
}

/// Index of the last occurrence of `c` in `t`, or `-1` if absent.
pub open spec fn find_last_byte(t: Seq<u8>, c: u8) -> int
    decreases t.len(),
{
    if t.len() == 0 {
        -1
    } else if t[t.len() - 1] == c {
        t.len() - 1
    } else {
        find_last_byte(t.drop_last(), c)
    }
}

/// Pins `find_last_byte` from a found position and the bytes after it.
proof fn lemma_find_last_unique(t: Seq<u8>, c: u8, i: int)
    requires
        0 <= i < t.len(),
        t[i] == c,
        forall|j: int| i < j < t.len() ==> t[j] != c,
    ensures
        find_last_byte(t, c) == i,
    decreases t.len(),
{
    if i < t.len() - 1 {
        let d = t.drop_last();
        assert(forall|j: int| 0 <= j < d.len() ==> d[j] == t[j]);
        lemma_find_last_unique(d, c, i);
    }
}

/// Pins `find_last_byte` to `-1` when `c` is nowhere in `t`.
proof fn lemma_find_last_none(t: Seq<u8>, c: u8)
    requires
        forall|j: int| 0 <= j < t.len() ==> t[j] != c,
    ensures
        find_last_byte(t, c) == -1,
    decreases t.len(),
{
    if t.len() > 0 {
        let d = t.drop_last();
        assert(forall|j: int| 0 <= j < d.len() ==> d[j] == t[j]);
        lemma_find_last_none(d, c);
    }
}

/// Index just past the last occurrence of `c`, or zero if absent.
fn rfind_byte(t: &Vec<u8>, c: u8) -> (r: usize)
    ensures
        r == find_last_byte(t@, c) + 1,
        r <= t@.len(),
{
    let mut i: usize = t.len();
    while i > 0
        invariant
            i <= t@.len(),
            forall|j: int| i <= j < t@.len() ==> t@[j] != c,
        decreases i,
    {
        if t[i - 1] == c {
            proof {
                lemma_find_last_unique(t@, c, i - 1);
            }
            return i;
        }
        i = i - 1;
    }
    proof {
        lemma_find_last_none(t@, c);
    }
    0
}

/// A path with the extension of its final component removed.
pub open spec fn strip_ext_spec(p: Seq<u8>) -> Seq<u8> {
    if find_last_byte(p, DOT) > find_last_byte(p, SLASH) {
        p.subrange(0, find_last_byte(p, DOT))
    } else {
        p
    }
}

/// The display name of a source file: extension removed, then the
/// configured prefix removed from the front.
pub open spec fn display_name_spec(p: Seq<u8>, prefix: Seq<u8>) -> Seq<u8> {
    strip_prefix_spec(strip_ext_spec(p), prefix)
}

/// Builds the display name of a source file.
pub fn display_name(p: &Vec<u8>, prefix: &Vec<u8>) -> (r: Vec<u8>)
    ensures
        r@ == display_name_spec(p@, prefix@),
{
    let dot = rfind_byte(p, DOT);
    let slash = rfind_byte(p, SLASH);
    let stem = if dot > slash {
        let s = copy_range(p, 0, dot - 1);
        assert(s@ =~= p@.subrange(0, find_last_byte(p@, DOT)));
        s
    } else {
        copy_bytes(p)
    };
    strip_prefix(&stem, prefix)
}

} // verus!
