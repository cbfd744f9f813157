//! Issue-number extraction: finds runs of three or more ASCII digits whose
//! first digit is nonzero and which are not glued to a preceding letter.
//! Each such run is reported as a half-open byte span into the text.

use vstd::prelude::*;
use crate::bytes::{is_digit, is_nonzero_digit, is_alpha, byte_is_digit, byte_is_nonzero_digit,
    byte_is_alpha};

verus! {

/// A span of a text holding a tracker issue number.
#[derive(Debug, PartialEq, Eq, Structural, Clone, Copy)]
pub struct IssueReference {
    pub start: usize,
    pub end: usize,
}

/// The bytes of `t` in `[start, end)` are a reported issue number: a maximal
/// digit run of length at least three, led by a nonzero digit, whose
/// preceding byte (if any) is not a letter.
pub open spec fn issue_ref_at(t: Seq<u8>, start: int, end: int) -> bool {
    &&& 0 <= start
    &&& start + 3 <= end
    &&& end <= t.len()
    &&& is_nonzero_digit(t[start])
    &&& (forall|i: int| start <= i < end ==> is_digit(t[i]))
    &&& (start == 0 || (!is_digit(t[start - 1]) && !is_alpha(t[start - 1])))
    &&& (end == t.len() || !is_digit(t[end]))
}

/// Returns every issue reference of `text`, in left-to-right order.
///
/// The result holds exactly the spans satisfying `issue_ref_at`, and they
/// come out ordered and disjoint.
pub fn issue_references(text: &Vec<u8>) -> (r: Vec<IssueReference>)
    ensures
        forall|k: int| 0 <= k < r@.len() ==> #[trigger] issue_ref_at(
            text@,
            r@[k].start as int,
            r@[k].end as int,
        ),
        forall|s: int, e: int| issue_ref_at(text@, s, e) ==> exists|k: int|
            0 <= k < r@.len() && r@[k].start == s && r@[k].end == e,
        forall|k: int| 0 < k < r@.len() ==> r@[k - 1].end <= #[trigger] r@[k].start,
{
    let n = text.len();
    let mut r: Vec<IssueReference> = Vec::new();
    let mut i: usize = 0;
    while i < n
        invariant
            i <= n,
            n == text@.len(),
            forall|k: int| 0 <= k < r@.len() ==> #[trigger] issue_ref_at(
                text@,
                r@[k].start as int,
                r@[k].end as int,
            ),
            forall|s: int, e: int| issue_ref_at(text@, s, e) && s < i ==> exists|k: int|
                0 <= k < r@.len() && r@[k].start == s && r@[k].end == e,
            forall|k: int| 0 <= k < r@.len() ==> r@[k].end <= i,
            forall|k: int| 0 < k < r@.len() ==> r@[k - 1].end <= #[trigger] r@[k].start,
        decreases n - i,
    {
        if !byte_is_digit(text[i]) {
            assert(forall|e: int| !issue_ref_at(text@, i as int, e));
            i = i + 1;
            continue;
        }
        if i > 0 && byte_is_digit(text[i - 1]) {
            // Inside a digit run whose start lies before `i`: no new span here.
            assert(forall|e: int| !issue_ref_at(text@, i as int, e));
            i = i + 1;
            continue;
        }
        // `i` starts a digit run; find its end.
        let mut j: usize = i + 1;
        while j < n
            invariant
                i < j <= n,
                n == text@.len(),
                forall|k: int| i <= k < j ==> is_digit(text@[k]),
            ensures
                i < j <= n,
                forall|k: int| i <= k < j ==> is_digit(text@[k]),
                j == n || !is_digit(text@[j as int]),
            decreases n - j,
        {
            if !byte_is_digit(text[j]) {
                break;
            }
            j = j + 1;
        }
        let long_enough = j - i >= 3;
        let leading_ok = byte_is_nonzero_digit(text[i]);
        let before_ok = i == 0 || !byte_is_alpha(text[i - 1]);
        if long_enough && leading_ok && before_ok {
            let found = IssueReference { start: i, end: j };
            proof {
                assert(issue_ref_at(text@, i as int, j as int));
                // No other span starts inside this run.
                assert(forall|s: int, e: int|
                    i < s < j && issue_ref_at(text@, s, e) ==> !is_digit(text@[s - 1]));
                assert(forall|s: int, e: int| i < s < j ==> !issue_ref_at(text@, s, e));
                // A span starting at `i` ends exactly at `j`.
                assert(forall|e: int| issue_ref_at(text@, i as int, e) && e < j ==> !is_digit(
                    text@[e],
                ));
                assert(forall|e: int| issue_ref_at(text@, i as int, e) ==> e == j);
            }
            let ghost r0 = r@;
            r.push(found);
            proof {
                assert(forall|k: int| 0 <= k < r0.len() ==> r@[k] == r0[k]);
                assert(r@[r0.len() as int] == found);
                assert(forall|s: int, e: int|
                    issue_ref_at(text@, s, e) && s < j ==> exists|k: int|
                        0 <= k < r@.len() && r@[k].start == s && r@[k].end == e) by {
                    assert(forall|s: int, e: int|
                        issue_ref_at(text@, s, e) && s == i ==> (e == j
                            && r@[r0.len() as int].start == s && r@[r0.len() as int].end == e));
                }
            }
        } else {
            proof {
                // The run yields nothing: its head fails the rules and its
                // interior is glued to a digit.
                assert(forall|e: int| issue_ref_at(text@, i as int, e) ==> e == j) by {
                    assert(forall|e: int| issue_ref_at(text@, i as int, e) && e < j ==> !is_digit(
                        text@[e],
                    ));
                }
                assert(forall|e: int| !issue_ref_at(text@, i as int, e));
                assert(forall|s: int, e: int|
                    i < s < j && issue_ref_at(text@, s, e) ==> !is_digit(text@[s - 1]));
                assert(forall|s: int, e: int| i < s < j ==> !issue_ref_at(text@, s, e));
            }
        }
        i = j;
    }
    r
}

} // verus!
