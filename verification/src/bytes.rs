//! Verified primitives over byte sequences: classification, copying,
//! membership in a byte set, prefix and substring tests, searching, and
//! trimming. All higher-level comment processing is built on these.

use vstd::prelude::*;

verus! {

/// A byte is an ASCII decimal digit.
pub open spec fn is_digit(c: u8) -> bool {
    48 <= c <= 57
}

/// A byte is an ASCII decimal digit other than zero.
pub open spec fn is_nonzero_digit(c: u8) -> bool {
    49 <= c <= 57
}

/// A byte is an ASCII letter.
pub open spec fn is_alpha(c: u8) -> bool {
    (65 <= c <= 90) || (97 <= c <= 122)
}

/// Runtime check matching `is_digit`.
pub fn byte_is_digit(c: u8) -> (r: bool)
    ensures
        r == is_digit(c),
{
    48 <= c && c <= 57
}

/// Runtime check matching `is_nonzero_digit`.
pub fn byte_is_nonzero_digit(c: u8) -> (r: bool)
    ensures
        r == is_nonzero_digit(c),
{
    49 <= c && c <= 57
}

/// Runtime check matching `is_alpha`.
pub fn byte_is_alpha(c: u8) -> (r: bool)
    ensures
        r == is_alpha(c),
{
    (65 <= c && c <= 90) || (97 <= c && c <= 122)
}

/// Membership of a byte in a set of bytes given as a sequence.
pub open spec fn in_set(c: u8, set: Seq<u8>) -> bool {
    exists|k: int| 0 <= k < set.len() && set[k] == c
}

/// Runtime check matching `in_set`.
pub fn byte_in_set(c: u8, set: &Vec<u8>) -> (r: bool)
    ensures
        r == in_set(c, set@),
{
    let n = set.len();
    let mut k: usize = 0;
    while k < n
        invariant
            k <= n,
            n == set@.len(),
            forall|j: int| 0 <= j < k ==> set@[j] != c,
        decreases n - k,
    {
        if set[k] == c {
            assert(set@[k as int] == c);
            return true;
        }
        k = k + 1;
    }
    false
}

/// Copies a byte vector.
pub fn copy_bytes(src: &Vec<u8>) -> (r: Vec<u8>)
    ensures
        r@ == src@,
{
    let n = src.len();
    let mut r: Vec<u8> = Vec::new();
    let mut i: usize = 0;
    while i < n
        invariant
            i <= n,
            n == src@.len(),
            r@ == src@.subrange(0, i as int),
        decreases n - i,
    {
        r.push(src[i]);
        assert(r@ =~= src@.subrange(0, i + 1 as int));
        i = i + 1;
    }
    assert(r@ =~= src@);
    r
}

/// Appends the bytes of `src` to `dst`.
pub fn append_bytes(dst: &mut Vec<u8>, src: &Vec<u8>)
    ensures
        final(dst)@ == old(dst)@ + src@,
{
    let n = src.len();
    let mut i: usize = 0;
    while i < n
        invariant
            i <= n,
            n == src@.len(),
            dst@ == old(dst)@ + src@.subrange(0, i as int),
        decreases n - i,
    {
        dst.push(src[i]);
        assert(dst@ =~= old(dst)@ + src@.subrange(0, i + 1 as int));
        i = i + 1;
    }
    assert(dst@ =~= old(dst)@ + src@);
}

/// Copies `src[from .. to]` into a fresh vector.
pub fn copy_range(src: &Vec<u8>, from: usize, to: usize) -> (r: Vec<u8>)
    requires
        from <= to <= src@.len(),
    ensures
        r@ == src@.subrange(from as int, to as int),
{
    let mut r: Vec<u8> = Vec::new();
    let mut i: usize = from;
    while i < to
        invariant
            from <= i <= to <= src@.len(),
            r@ == src@.subrange(from as int, i as int),
        decreases to - i,
    {
        r.push(src[i]);
        assert(r@ =~= src@.subrange(from as int, i + 1 as int));
        i = i + 1;
    }
    r
}

/// Equality of two byte vectors.
pub fn bytes_eq(a: &Vec<u8>, b: &Vec<u8>) -> (r: bool)
    ensures
        r == (a@ == b@),
{
    if a.len() != b.len() {
        return false;
    }
    let n = a.len();
    let mut i: usize = 0;
    while i < n
        invariant
            i <= n,
            n == a@.len() == b@.len(),
            forall|j: int| 0 <= j < i ==> a@[j] == b@[j],
        decreases n - i,
    {
        if a[i] != b[i] {
            return false;
        }
        i = i + 1;
    }
    assert(a@ =~= b@);
    true
}

/// `p` occurs at position `k` of `t`.
pub open spec fn sub_at(t: Seq<u8>, p: Seq<u8>, k: int) -> bool {
    0 <= k && k + p.len() <= t.len() && t.subrange(k, k + p.len() as int) == p
}

/// `p` occurs somewhere in `t`.
pub open spec fn has_substring(t: Seq<u8>, p: Seq<u8>) -> bool {
    exists|k: int| sub_at(t, p, k)
}

/// `t` begins with `p`.
pub open spec fn starts_with(t: Seq<u8>, p: Seq<u8>) -> bool {
    sub_at(t, p, 0)
}

/// Runtime check that `p` occurs at position `k` of `t`.
pub fn match_at(t: &Vec<u8>, p: &Vec<u8>, k: usize) -> (r: bool)
    requires
        k + p@.len() <= t@.len(),
    ensures
        r == sub_at(t@, p@, k as int),
{
    let m = p.len();
    let n = t.len();
    let mut j: usize = 0;
    while j < m
        invariant
            j <= m,
            m == p@.len(),
            n == t@.len(),
            k + m <= n,
            forall|j2: int| 0 <= j2 < j ==> t@[k + j2] == p@[j2],
        decreases m - j,
    {
        if t[k + j] != p[j] {
            assert(t@.subrange(k as int, k as int + p@.len() as int)[j as int] != p@[j as int]);
            return false;
        }
        j = j + 1;
    }
    assert(t@.subrange(k as int, k as int + p@.len() as int) =~= p@);
    true
}

/// Runtime check matching `starts_with`.
pub fn begins_with(t: &Vec<u8>, p: &Vec<u8>) -> (r: bool)
    ensures
        r == starts_with(t@, p@),
{
    if p.len() > t.len() {
        return false;
    }
    match_at(t, p, 0)
}

/// Runtime check matching `has_substring`.
pub fn contains_sub(t: &Vec<u8>, p: &Vec<u8>) -> (r: bool)
    ensures
        r == has_substring(t@, p@),
{
    if p.len() > t.len() {
        return false;
    }
    if p.len() == 0 {
        assert(t@.subrange(0, 0) =~= p@);
        assert(sub_at(t@, p@, 0));
        return true;
    }
    let n = t.len();
    let last = t.len() - p.len();
    let mut k: usize = 0;
    while k <= last
        invariant
            k <= last + 1,
            n == t@.len(),
            last == t@.len() - p@.len(),
            0 < p@.len() <= t@.len(),
            forall|k2: int| 0 <= k2 < k ==> !sub_at(t@, p@, k2),
        decreases last + 1 - k,
    {
        if match_at(t, p, k) {
            return true;
        }
        k = k + 1;
    }
    assert(forall|k2: int| sub_at(t@, p@, k2) ==> 0 <= k2 <= last);
    false
}

/// Index of the first occurrence of byte `c` in `t`, or `-1` if absent.
pub open spec fn find_byte_spec(t: Seq<u8>, c: u8) -> int
    decreases t.len(),
{
    if t.len() == 0 {
        -1
    } else if t[0] == c {
        0
    } else {
        let r = find_byte_spec(t.drop_first(), c);
        if r < 0 {
            -1
        } else {
            r + 1
        }
    }
}

/// `find_byte_spec` returns `-1` exactly when `c` is absent, and otherwise
/// the least index holding `c`.
pub proof fn lemma_find_byte_props(t: Seq<u8>, c: u8)
    ensures
        find_byte_spec(t, c) == -1 <==> (forall|j: int| 0 <= j < t.len() ==> t[j] != c),
        find_byte_spec(t, c) != -1 ==> {
            let r = find_byte_spec(t, c);
            &&& 0 <= r < t.len()
            &&& t[r] == c
            &&& forall|j: int| 0 <= j < r ==> t[j] != c
        },
    decreases t.len(),
{
    if t.len() == 0 {
    } else if t[0] == c {
    } else {
        let d = t.drop_first();
        lemma_find_byte_props(d, c);
        assert(forall|j: int| 0 <= j < d.len() ==> d[j] == t[j + 1]);
        assert(forall|j: int| 1 <= j < t.len() ==> t[j] == d[j - 1]);
        if find_byte_spec(d, c) < 0 {
            assert(find_byte_spec(t, c) == -1);
            assert(forall|j: int| 0 <= j < t.len() ==> t[j] != c);
        } else {
            let r = find_byte_spec(d, c);
            assert(find_byte_spec(t, c) == r + 1);
            assert(t[r + 1] == d[r]);
            assert(forall|j: int| 1 <= j < r + 1 ==> t[j] == d[j - 1]);
        }
    }
}

/// Pins `find_byte_spec` from a found position and the bytes before it.
pub proof fn lemma_find_byte_unique(t: Seq<u8>, c: u8, i: int)
    requires
        0 <= i < t.len(),
        t[i] == c,
        forall|j: int| 0 <= j < i ==> t[j] != c,
    ensures
        find_byte_spec(t, c) == i,
{
    lemma_find_byte_props(t, c);
}

/// Pins `find_byte_spec` to `-1` when `c` is nowhere in `t`.
pub proof fn lemma_find_byte_none(t: Seq<u8>, c: u8)
    requires
        forall|j: int| 0 <= j < t.len() ==> t[j] != c,
    ensures
        find_byte_spec(t, c) == -1,
{
    lemma_find_byte_props(t, c);
}

/// First index of `c` in `t` at or after `from`, or `t.len()` if absent there.
pub fn find_byte_from(t: &Vec<u8>, c: u8, from: usize) -> (r: usize)
    requires
        from <= t@.len(),
    ensures
        from <= r <= t@.len(),
        r < t@.len() ==> t@[r as int] == c,
        forall|j: int| from <= j < r ==> t@[j] != c,
        find_byte_spec(t@.skip(from as int), c) == if r < t@.len() {
            r - from
        } else {
            -1
        },
{
    let n = t.len();
    let mut i: usize = from;
    while i < n
        invariant
            from <= i <= n,
            n == t@.len(),
            forall|j: int| from <= j < i ==> t@[j] != c,
        decreases n - i,
    {
        if t[i] == c {
            proof {
                let s = t@.skip(from as int);
                assert(forall|j: int| 0 <= j < s.len() ==> s[j] == t@[j + from]);
                lemma_find_byte_unique(s, c, i - from);
            }
            return i;
        }
        i = i + 1;
    }
    proof {
        let s = t@.skip(from as int);
        assert(forall|j: int| 0 <= j < s.len() ==> s[j] == t@[j + from]);
        lemma_find_byte_none(s, c);
    }
    n
}

/// `t` with leading bytes of `set` removed.
pub open spec fn trim_start_spec(t: Seq<u8>, set: Seq<u8>) -> Seq<u8>
    decreases t.len(),
{
    if t.len() > 0 && in_set(t[0], set) {
        trim_start_spec(t.drop_first(), set)
    } else {
        t
    }
}

/// `t` with trailing bytes of `set` removed.
pub open spec fn trim_end_spec(t: Seq<u8>, set: Seq<u8>) -> Seq<u8>
    decreases t.len(),
{
    if t.len() > 0 && in_set(t[t.len() - 1], set) {
        trim_end_spec(t.drop_last(), set)
    } else {
        t
    }
}

/// `t` with bytes of `set` removed at both ends.
pub open spec fn trim_spec(t: Seq<u8>, set: Seq<u8>) -> Seq<u8> {
    trim_end_spec(trim_start_spec(t, set), set)
}

/// `trim_start_spec` keeps exactly the suffix from the first byte not in the set.
pub proof fn lemma_trim_start(t: Seq<u8>, set: Seq<u8>, a: int)
    requires
        0 <= a <= t.len(),
        forall|j: int| 0 <= j < a ==> in_set(t[j], set),
        a < t.len() ==> !in_set(t[a], set),
    ensures
        trim_start_spec(t, set) == t.subrange(a, t.len() as int),
    decreases a,
{
    if a == 0 {
        assert(t.subrange(0, t.len() as int) =~= t);
    } else {
        assert(in_set(t[0], set));
        let d = t.drop_first();
        assert(forall|j: int| 0 <= j < d.len() ==> d[j] == t[j + 1]);
        lemma_trim_start(d, set, a - 1);
        assert(d.subrange(a - 1, d.len() as int) =~= t.subrange(a, t.len() as int));
    }
}

/// `trim_end_spec` keeps exactly the prefix up to the last byte not in the set.
pub proof fn lemma_trim_end(t: Seq<u8>, set: Seq<u8>, b: int)
    requires
        0 <= b <= t.len(),
        forall|j: int| b <= j < t.len() ==> in_set(t[j], set),
        b > 0 ==> !in_set(t[b - 1], set),
    ensures
        trim_end_spec(t, set) == t.subrange(0, b),
    decreases t.len() - b,
{
    if b == t.len() {
        if t.len() > 0 && in_set(t[t.len() - 1], set) {
            assert(!in_set(t[b - 1], set));
        }
        assert(t.subrange(0, t.len() as int) =~= t);
    } else {
        assert(in_set(t[t.len() - 1], set));
        let d = t.drop_last();
        assert(forall|j: int| 0 <= j < d.len() ==> d[j] == t[j]);
        lemma_trim_end(d, set, b);
        assert(d.subrange(0, b) =~= t.subrange(0, b));
    }
}

/// Removes the configured punctuation bytes from both ends of `t`.
pub fn trim_bytes(t: &Vec<u8>, set: &Vec<u8>) -> (r: Vec<u8>)
    ensures
        r@ == trim_spec(t@, set@),
{
    let n = t.len();
    let mut a: usize = 0;
    while a < n
        invariant
            a <= n,
            n == t@.len(),
            forall|j: int| 0 <= j < a ==> in_set(t@[j], set@),
        ensures
            a <= n,
            n == t@.len(),
            forall|j: int| 0 <= j < a ==> in_set(t@[j], set@),
            a < n ==> !in_set(t@[a as int], set@),
        decreases n - a,
    {
        if !byte_in_set(t[a], set) {
            break;
        }
        a = a + 1;
    }
    let mut b: usize = n;
    while b > a
        invariant
            a <= b <= n,
            n == t@.len(),
            forall|j: int| b <= j < n ==> in_set(t@[j], set@),
        ensures
            a <= b <= n,
            n == t@.len(),
            forall|j: int| b <= j < n ==> in_set(t@[j], set@),
            b > a ==> !in_set(t@[b - 1], set@),
        decreases b - a,
    {
        if !byte_in_set(t[b - 1], set) {
            break;
        }
        b = b - 1;
    }
    let r = copy_range(t, a, b);
    proof {
        lemma_trim_start(t@, set@, a as int);
        let s = t@.subrange(a as int, n as int);
        assert(forall|j: int| 0 <= j < s.len() ==> s[j] == t@[j + a]);
        if b == a {
            lemma_trim_end(s, set@, 0);
        } else {
            assert(!in_set(s[b - a - 1], set@));
            lemma_trim_end(s, set@, b - a);
        }
        assert(s.subrange(0, b - a) =~= t@.subrange(a as int, b as int));
    }
    r
}

} // verus!
