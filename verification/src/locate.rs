//! Marker location: splits a file's text into lines and selects the lines
//! holding one of the configured marker keywords.

use vstd::prelude::*;
use crate::bytes::{has_substring, find_byte_spec, find_byte_from, copy_range, contains_sub,
    lemma_find_byte_unique, lemma_find_byte_none};

verus! {

/// Line feed byte.
pub const NEWLINE: u8 = 10;

/// Carriage return byte.
pub const CARRIAGE: u8 = 13;

/// A line with a trailing carriage return removed.
pub open spec fn strip_cr_spec(l: Seq<u8>) -> Seq<u8> {
    if l.len() > 0 && l[l.len() - 1] == CARRIAGE {
        l.drop_last()
    } else {
        l
    }
}

/// The lines of `t`, split at line feeds, each with a trailing carriage
/// return removed; a trailing line feed yields no empty final line.
pub open spec fn lines_spec(t: Seq<u8>) -> Seq<Seq<u8>>
    decreases t.len(),
{
    if t.len() == 0 {
        Seq::empty()
    } else {
        let k = find_byte_spec(t, NEWLINE);
        if 0 <= k < t.len() {
            seq![strip_cr_spec(t.subrange(0, k))] + lines_spec(t.skip(k + 1))
        } else {
            seq![strip_cr_spec(t)]
        }
    }
}

/// Some configured marker occurs in the line.
pub open spec fn line_selected(l: Seq<u8>, markers: Seq<Seq<u8>>) -> bool {
    exists|k: int| 0 <= k < markers.len() && has_substring(l, #[trigger] markers[k])
}

/// Removes a trailing carriage return.
fn strip_cr(l: Vec<u8>) -> (r: Vec<u8>)
    ensures
        r@ == strip_cr_spec(l@),
{
    if l.len() > 0 && l[l.len() - 1] == CARRIAGE {
        let r = copy_range(&l, 0, l.len() - 1);
        assert(r@ =~= l@.drop_last());
        r
    } else {
        l
    }
}

/// Splits `t` into lines as `lines_spec` describes.
pub fn split_lines(t: &Vec<u8>) -> (r: Vec<Vec<u8>>)
    ensures
        r.deep_view() == lines_spec(t@),
{
    let n = t.len();
    let mut r: Vec<Vec<u8>> = Vec::new();
    let mut pos: usize = 0;
    proof {
        assert(t@.skip(0) =~= t@);
        assert(r.deep_view() + lines_spec(t@.skip(0)) =~= lines_spec(t@));
    }
    while pos < n
        invariant
            pos <= n,
            n == t@.len(),
            r.deep_view() + lines_spec(t@.skip(pos as int)) == lines_spec(t@),
        decreases n - pos,
    {
        let ghost rest = t@.skip(pos as int);
        let k = find_byte_from(t, NEWLINE, pos);
        let line = strip_cr(copy_range(t, pos, k));
        proof {
            assert(forall|j: int| 0 <= j < rest.len() ==> rest[j] == t@[j + pos]);
            assert(rest.len() > 0);
        }
        if k < n {
            proof {
                lemma_find_byte_unique(rest, NEWLINE, k - pos);
                assert(rest.subrange(0, k - pos) =~= t@.subrange(pos as int, k as int));
                assert(rest.skip(k - pos + 1) =~= t@.skip(k + 1));
                assert(lines_spec(rest) == seq![strip_cr_spec(t@.subrange(pos as int, k as int))]
                    + lines_spec(t@.skip(k + 1)));
            }
            let ghost r0 = r.deep_view();
            r.push(line);
            proof {
                assert(r.deep_view() =~~= r0.push(line@));
                assert(r.deep_view() + lines_spec(t@.skip(k + 1)) =~= lines_spec(t@));
            }
            pos = k + 1;
        } else {
            proof {
                lemma_find_byte_none(rest, NEWLINE);
                assert(rest.subrange(0, rest.len() as int) =~= rest);
                assert(t@.subrange(pos as int, n as int) =~= rest);
                assert(lines_spec(rest) == seq![strip_cr_spec(rest)]);
            }
            let ghost r0 = r.deep_view();
            r.push(line);
            proof {
                assert(r.deep_view() =~~= r0.push(line@));
                assert(t@.skip(n as int).len() == 0);
                assert(lines_spec(t@.skip(n as int)) =~= Seq::<Seq<u8>>::empty());
                assert(r.deep_view() + lines_spec(t@.skip(n as int)) =~= lines_spec(t@));
            }
            pos = n;
        }
    }
    proof {
        assert(t@.skip(pos as int).len() == 0);
        assert(lines_spec(t@.skip(pos as int)) =~= Seq::<Seq<u8>>::empty());
        assert(r.deep_view() =~= r.deep_view() + lines_spec(t@.skip(pos as int)));
    }
    r
}

/// Whether some configured marker occurs in the line.
pub fn line_has_marker(l: &Vec<u8>, markers: &Vec<Vec<u8>>) -> (r: bool)
    ensures
        r == line_selected(l@, markers.deep_view()),
{
    let n = markers.len();
    let mut k: usize = 0;
    while k < n
        invariant
            k <= n,
            n == markers@.len(),
            forall|j: int| 0 <= j < k ==> !has_substring(l@, #[trigger] markers.deep_view()[j]),
        decreases n - k,
    {
        assert(markers@[k as int].deep_view() =~= markers@[k as int]@);
        if contains_sub(l, &markers[k]) {
            assert(has_substring(l@, markers.deep_view()[k as int]));
            return true;
        }
        k = k + 1;
    }
    false
}

} // verus!
