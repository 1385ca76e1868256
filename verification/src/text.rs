//! The two conversions between `String` text and the `Vec<char>` form that
//! the verified code works on.

use vstd::prelude::*;

verus! {

/// Relies on `str::chars` and `Iterator::collect`: the characters of a string
/// slice, in order.
///
/// A verified loop over `unicode_len` and `get_char` could do the same
/// without trust, but each `get_char` walks the slice from its start, and
/// fetched documents run to hundreds of kilobytes; the linear library call
/// is taken on trust instead.
#[verifier::external_body]
pub fn str_to_chars(s: &str) -> (v: Vec<char>)
    ensures
        v@ == s@,
{
    s.chars().collect()
}

/// Relies on `Iterator::collect` for `String`: the string whose characters
/// are exactly the elements of `v`, in order.
#[verifier::external_body]
pub fn chars_to_string(v: &Vec<char>) -> (r: String)
    ensures
        r@ == v@,
{
    v.iter().collect()
}

/// Relies on `char::from_u32`: the character with the given scalar value,
/// exactly when the value is a Unicode scalar value (not a surrogate, at
/// most the largest code point).
#[verifier::external_body]
pub fn char_of_scalar(v: u32) -> (r: Option<char>)
    ensures
        r matches Some(c) ==> c as u32 == v,
        r is Some <==> (v < 0xD800 || (0xE000 <= v && v <= 0x10FFFF)),
{
    char::from_u32(v)
}

} // verus!
// Searching text, verified.

verus! {

/// The needle occurs in the haystack starting at `i`.
pub open spec fn occurs_at(h: Seq<char>, n: Seq<char>, i: int) -> bool {
    0 <= i && i + n.len() <= h.len() && h.subrange(i, i + n.len() as int) == n
}

/// The needle occurs somewhere in the haystack.
pub open spec fn contains_seq(h: Seq<char>, n: Seq<char>) -> bool {
    exists|i: int| occurs_at(h, n, i)
}

/// The needle compared against the haystack at one position.
fn match_at(h: &Vec<char>, n: &Vec<char>, i: usize) -> (r: bool)
    requires
        i + n@.len() <= h@.len(),
    ensures
        r == occurs_at(h@, n@, i as int),
{
    let m = n.len();
    let hl = h.len();
    let mut k: usize = 0;
    while k < m && h[i + k] == n[k]
        invariant
            0 <= k <= m,
            m == n@.len(),
            i + m <= hl == h@.len(),
            forall|q: int| 0 <= q < k ==> h@[i + q] == n@[q],
        decreases m - k,
    {
        k = k + 1;
    }
    if k == m {
        proof {
            assert(h@.subrange(i as int, i + m as int) =~= n@);
        }
        true
    } else {
        proof {
            assert(h@.subrange(i as int, i + m as int)[k as int] != n@[k as int]);
        }
        false
    }
}

/// Substring test on character vectors.
pub fn contains_chars(h: &Vec<char>, n: &Vec<char>) -> (r: bool)
    ensures
        r == contains_seq(h@, n@),
{
    let m = n.len();
    if m == 0 {
        proof {
            assert(h@.subrange(0, 0) =~= n@);
            assert(occurs_at(h@, n@, 0));
        }
        return true;
    }
    if m > h.len() {
        proof {
            assert(forall|i: int| !occurs_at(h@, n@, i));
        }
        return false;
    }
    let count = h.len() - m + 1;
    let mut i: usize = 0;
    while i < count
        invariant
            0 <= i <= count,
            1 <= m == n@.len() <= h@.len(),
            count == h@.len() - m + 1,
            forall|q: int| 0 <= q < i ==> !occurs_at(h@, n@, q),
        decreases count - i,
    {
        if match_at(h, n, i) {
            return true;
        }
        i = i + 1;
    }
    proof {
        assert forall|q: int| !occurs_at(h@, n@, q) by {
            if 0 <= q && q + n@.len() <= h@.len() {
                assert(q < i);
            }
        }
    }
    false
}

/// Substring test on string slices.
pub fn str_contains(h: &str, n: &str) -> (r: bool)
    ensures
        r == contains_seq(h@, n@),
{
    let hv = str_to_chars(h);
    let nv = str_to_chars(n);
    contains_chars(&hv, &nv)
}

} // verus!
