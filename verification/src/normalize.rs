//! Comment normalization: trims configured punctuation from both ends,
//! strips a leading marker keyword together with its author/topic
//! parenthetical, and trims once more. The result is the text shown in the
//! report and the key under which occurrences are deduplicated.

use vstd::prelude::*;
use crate::bytes::{in_set, starts_with, find_byte_spec, trim_spec, trim_bytes, begins_with,
    find_byte_from, copy_range, lemma_find_byte_unique, lemma_find_byte_none};

verus! {

/// Opening parenthesis byte.
pub const LPAREN: u8 = 40;

/// Closing parenthesis byte.
pub const RPAREN: u8 = 41;

/// If `t` opens with `(` and a matching `)` follows, the part through the
/// first `)` is removed; otherwise `t` is unchanged.
pub open spec fn strip_paren_spec(t: Seq<u8>) -> Seq<u8> {
    if t.len() > 0 && t[0] == LPAREN && find_byte_spec(t.skip(1), RPAREN) >= 0 {
        t.skip(find_byte_spec(t.skip(1), RPAREN) + 2)
    } else {
        t
    }
}

/// Strips the first configured marker that prefixes `t`, together with an
/// author/topic parenthetical standing right after it.
pub open spec fn strip_marker_spec(t: Seq<u8>, markers: Seq<Seq<u8>>) -> Seq<u8>
    decreases markers.len(),
{
    if markers.len() == 0 {
        t
    } else if markers[0].len() > 0 && starts_with(t, markers[0]) {
        strip_paren_spec(t.skip(markers[0].len() as int))
    } else {
        strip_marker_spec(t, markers.drop_first())
    }
}

/// The normalized form of a raw matched line: punctuation trimmed, the
/// marker keyword and its parenthetical stripped, punctuation trimmed again.
pub open spec fn normalize_spec(raw: Seq<u8>, markers: Seq<Seq<u8>>, set: Seq<u8>) -> Seq<u8> {
    trim_spec(strip_marker_spec(trim_spec(raw, set), markers), set)
}

/// Skipping an unmatched prefix of markers leaves `strip_marker_spec` unchanged.
proof fn lemma_strip_marker_skip(t: Seq<u8>, markers: Seq<Seq<u8>>, i: int)
    requires
        0 <= i <= markers.len(),
        forall|k: int| 0 <= k < i ==> !(markers[k].len() > 0 && starts_with(t, #[trigger] markers[k])),
    ensures
        strip_marker_spec(t, markers) == strip_marker_spec(t, markers.skip(i)),
    decreases i,
{
    if i == 0 {
        assert(markers.skip(0) =~= markers);
    } else {
        lemma_strip_marker_skip(t, markers, i - 1);
        let s = markers.skip(i - 1);
        assert(s[0] == markers[i - 1]);
        assert(s.drop_first() =~= markers.skip(i));
    }
}

/// Removes the part through the first `)` when `t` opens with `(`.
fn strip_paren(t: &Vec<u8>) -> (r: Vec<u8>)
    ensures
        r@ == strip_paren_spec(t@),
{
    if t.len() > 0 && t[0] == LPAREN {
        let close = find_byte_from(t, RPAREN, 1);
        if close < t.len() {
            proof {
                let s = t@.skip(1);
                assert(forall|j: int| 0 <= j < s.len() ==> s[j] == t@[j + 1]);
                lemma_find_byte_unique(s, RPAREN, close - 1);
            }
            let r = copy_range(t, close + 1, t.len());
            assert(r@ =~= t@.skip(close as int + 1));
            r
        } else {
            proof {
                let s = t@.skip(1);
                assert(forall|j: int| 0 <= j < s.len() ==> s[j] == t@[j + 1]);
                lemma_find_byte_none(s, RPAREN);
            }
            copy_range(t, 0, t.len())
        }
    } else {
        let r = copy_range(t, 0, t.len());
        assert(r@ =~= t@);
        r
    }
}

/// Computes the normalized form of a raw matched line.
pub fn normalize_comment(raw: &Vec<u8>, markers: &Vec<Vec<u8>>, set: &Vec<u8>) -> (r: Vec<u8>)
    ensures
        r@ == normalize_spec(raw@, markers.deep_view(), set@),
{
    let t = trim_bytes(raw, set);
    let n = markers.len();
    let mut i: usize = 0;
    while i < n
        invariant
            i <= n,
            n == markers@.len(),
            t@ == trim_spec(raw@, set@),
            forall|k: int| 0 <= k < i ==> !(markers.deep_view()[k].len() > 0 && starts_with(
                t@,
                #[trigger] markers.deep_view()[k],
            )),
        decreases n - i,
    {
        let m = &markers[i];
        assert(m@ == markers.deep_view()[i as int]);
        if m.len() > 0 && begins_with(&t, m) {
            let rest = copy_range(&t, m.len(), t.len());
            assert(rest@ =~= t@.skip(m@.len() as int));
            let stripped = strip_paren(&rest);
            proof {
                lemma_strip_marker_skip(t@, markers.deep_view(), i as int);
                let s = markers.deep_view().skip(i as int);
                assert(s[0] == markers.deep_view()[i as int]);
                assert(strip_marker_spec(t@, s) == strip_paren_spec(t@.skip(m@.len() as int)));
            }
            return trim_bytes(&stripped, set);
        }
        i = i + 1;
    }
    proof {
        lemma_strip_marker_skip(t@, markers.deep_view(), n as int);
        assert(markers.deep_view().skip(n as int).len() == 0);
        assert(strip_marker_spec(t@, markers.deep_view()) == t@);
    }
    trim_bytes(&t, set)
}

} // verus!
