//! Decimal numbers as sign/mantissa/scale triples.
//!
//! Every numeric value that flows through the library (coordinates, measured
//! values, weather codes) is a decimal fraction written in a JSON document, so
//! it is held exactly as `mant / 10^scale` with a sign, rather than as a
//! binary floating-point approximation. A value is kept normalized: no
//! trailing zero in the fraction, and zero is unsigned with scale zero.

use vstd::prelude::*;

verus! {

/// True for the ten ASCII digit characters.
pub open spec fn is_digit_char(c: char) -> bool {
    '0' <= c && c <= '9'
}

/// Numeric value of a digit character.
pub open spec fn digit_val(c: char) -> int {
    c as int - '0' as int
}

/// The digit character for a value in `0 ..= 9`.
pub open spec fn digit_char(d: int) -> char {
    if d == 0 {
        '0'
    } else if d == 1 {
        '1'
    } else if d == 2 {
        '2'
    } else if d == 3 {
        '3'
    } else if d == 4 {
        '4'
    } else if d == 5 {
        '5'
    } else if d == 6 {
        '6'
    } else if d == 7 {
        '7'
    } else if d == 8 {
        '8'
    } else {
        '9'
    }
}

pub proof fn lemma_digit_char(d: int)
    requires
        0 <= d < 10,
    ensures
        is_digit_char(digit_char(d)),
        digit_val(digit_char(d)) == d,
{
}

/// Ten to the power `e`.
pub open spec fn pow10(e: nat) -> nat
    decreases e,
{
    if e == 0 {
        1
    } else {
        10 * pow10((e - 1) as nat)
    }
}

pub proof fn lemma_pow10_pos(e: nat)
    ensures
        pow10(e) >= 1,
    decreases e,
{
    if e > 0 {
        lemma_pow10_pos((e - 1) as nat);
    }
}

pub proof fn lemma_pow10_mono(a: nat, b: nat)
    requires
        a <= b,
    ensures
        pow10(a) <= pow10(b),
    decreases b,
{
    if a < b {
        lemma_pow10_mono(a, (b - 1) as nat);
        lemma_pow10_pos((b - 1) as nat);
    }
}

/// `pow10` for exponents whose value fits in a `u64`.
pub fn pow10_u64(e: u32) -> (r: u64)
    requires
        e <= 19,
    ensures
        r == pow10(e as nat),
{
    let mut r: u64 = 1;
    let mut i: u32 = 0;
    while i < e
        invariant
            i <= e <= 19,
            r == pow10(i as nat),
        decreases e - i,
    {
        proof {
            lemma_pow10_mono((i + 1) as nat, 19);
            assert(pow10(19nat) < u64::MAX) by {
                reveal_with_fuel(pow10, 20);
            }
        }
        r = r * 10;
        i = i + 1;
    }
    r
}

/// The decimal digits of `n`, most significant first, no leading zero
/// (the single digit `0` for zero).
pub open spec fn digits_of(n: nat) -> Seq<char>
    decreases n,
{
    if n < 10 {
        seq![digit_char(n as int)]
    } else {
        digits_of(n / 10).push(digit_char((n % 10) as int))
    }
}

/// The decimal digits of `n` left-padded with zeros to exactly `w` digits.
pub open spec fn digits_pad(n: nat, w: nat) -> Seq<char>
    decreases w,
{
    if w == 0 {
        Seq::empty()
    } else {
        digits_pad(n / 10, (w - 1) as nat).push(digit_char((n % 10) as int))
    }
}

/// True when every character of `s` is a decimal digit.
pub open spec fn all_digits(s: Seq<char>) -> bool {
    forall|i: int| 0 <= i < s.len() ==> is_digit_char(#[trigger] s[i])
}

/// The number denoted by a sequence of digit characters.
pub open spec fn val_of_digits(s: Seq<char>) -> int
    decreases s.len(),
{
    if s.len() == 0 {
        0
    } else {
        10 * val_of_digits(s.drop_last()) + digit_val(s.last())
    }
}

pub proof fn lemma_digits_of_props(n: nat)
    ensures
        digits_of(n).len() >= 1,
        all_digits(digits_of(n)),
        val_of_digits(digits_of(n)) == n,
        n >= 1 ==> digits_of(n)[0] != '0',
        n < pow10(digits_of(n).len()),
    decreases n,
{
    lemma_digit_char((n % 10) as int);
    if n < 10 {
        lemma_digit_char(n as int);
        assert(digits_of(n) =~= seq![digit_char(n as int)]);
        assert(digits_of(n).drop_last() =~= Seq::<char>::empty());
        assert(val_of_digits(Seq::<char>::empty()) == 0);
        assert(val_of_digits(digits_of(n)) == 10 * val_of_digits(digits_of(n).drop_last())
            + digit_val(digits_of(n).last()));
        assert(pow10(1nat) == 10) by {
            reveal_with_fuel(pow10, 2);
        }
    } else {
        lemma_digits_of_props(n / 10);
        let s = digits_of(n / 10).push(digit_char((n % 10) as int));
        assert(s.drop_last() =~= digits_of(n / 10));
        assert(s[0] == digits_of(n / 10)[0]);
        assert(s.last() == digit_char((n % 10) as int));
        assert(val_of_digits(s) == 10 * val_of_digits(digits_of(n / 10)) + digit_val(
            digit_char((n % 10) as int),
        ));
        assert(val_of_digits(digits_of(n)) == n);
        let l = digits_of(n / 10).len();
        lemma_pow10_pos(l);
        assert(pow10((l + 1) as nat) == 10 * pow10(l));
        assert(n == 10 * (n / 10) + n % 10);
        assert(10 * (n as int / 10) <= 10 * (pow10(l) - 1));
        assert(n < pow10((l + 1) as nat));
    }
}

pub proof fn lemma_digits_pad_props(n: nat, w: nat)
    requires
        n < pow10(w),
    ensures
        digits_pad(n, w).len() == w,
        all_digits(digits_pad(n, w)),
        val_of_digits(digits_pad(n, w)) == n,
    decreases w,
{
    if w > 0 {
        lemma_digit_char((n % 10) as int);
        lemma_digits_pad_props(n / 10, (w - 1) as nat);
        let s = digits_pad(n / 10, (w - 1) as nat).push(digit_char((n % 10) as int));
        assert(s.drop_last() =~= digits_pad(n / 10, (w - 1) as nat));
    }
}

/// Appends the decimal digits of `n` to `out`.
pub fn push_digits(out: &mut Vec<char>, n: u64)
    ensures
        final(out)@ == old(out)@ + digits_of(n as nat),
    decreases n,
{
    if n < 10 {
        out.push(digit_char_of(n));
        assert(out@ =~= old(out)@ + digits_of(n as nat));
    } else {
        push_digits(out, n / 10);
        out.push(digit_char_of(n % 10));
        assert(out@ =~= old(out)@ + digits_of(n as nat));
    }
}

/// Appends exactly `w` digits of `n`, zero-padded on the left.
pub fn push_digits_pad(out: &mut Vec<char>, n: u64, w: u32)
    requires
        n < pow10(w as nat),
    ensures
        final(out)@ == old(out)@ + digits_pad(n as nat, w as nat),
    decreases w,
{
    if w > 0 {
        assert(n as nat / 10 < pow10((w - 1) as nat)) by {
            lemma_pow10_pos((w - 1) as nat);
        }
        push_digits_pad(out, n / 10, w - 1);
        out.push(digit_char_of(n % 10));
        assert(out@ =~= old(out)@ + digits_pad(n as nat, w as nat));
    } else {
        assert(out@ =~= old(out)@ + digits_pad(n as nat, 0));
    }
}

/// The uppercase hexadecimal digit for a value in `0 ..= 15`.
pub open spec fn hex_char(d: int) -> char {
    if d < 10 {
        digit_char(d)
    } else if d == 10 {
        'A'
    } else if d == 11 {
        'B'
    } else if d == 12 {
        'C'
    } else if d == 13 {
        'D'
    } else if d == 14 {
        'E'
    } else {
        'F'
    }
}

/// The uppercase hexadecimal digit, executable form.
pub fn hex_char_of(d: u8) -> (c: char)
    requires
        d < 16,
    ensures
        c == hex_char(d as int),
{
    if d < 10 {
        digit_char_of(d as u64)
    } else if d == 10 {
        'A'
    } else if d == 11 {
        'B'
    } else if d == 12 {
        'C'
    } else if d == 13 {
        'D'
    } else if d == 14 {
        'E'
    } else {
        'F'
    }
}

/// The digit character for a small number.
pub fn digit_char_of(d: u64) -> (c: char)
    requires
        d < 10,
    ensures
        c == digit_char(d as int),
{
    if d == 0 {
        '0'
    } else if d == 1 {
        '1'
    } else if d == 2 {
        '2'
    } else if d == 3 {
        '3'
    } else if d == 4 {
        '4'
    } else if d == 5 {
        '5'
    } else if d == 6 {
        '6'
    } else if d == 7 {
        '7'
    } else if d == 8 {
        '8'
    } else {
        '9'
    }
}

/// The first position at or after `i` that does not hold a digit.
pub open spec fn digits_end(s: Seq<char>, i: int) -> int
    decreases s.len() - i,
{
    if 0 <= i < s.len() && is_digit_char(s[i]) {
        digits_end(s, i + 1)
    } else {
        i
    }
}

pub proof fn lemma_digits_end(s: Seq<char>, i: int)
    requires
        0 <= i <= s.len(),
    ensures
        i <= digits_end(s, i) <= s.len(),
        all_digits(s.subrange(i, digits_end(s, i))),
        digits_end(s, i) < s.len() ==> !is_digit_char(s[digits_end(s, i)]),
        forall|j: int| i <= j <= digits_end(s, i) ==> digits_end(s, j) == digits_end(s, i),
    decreases s.len() - i,
{
    if i < s.len() && is_digit_char(s[i]) {
        lemma_digits_end(s, i + 1);
        let e = digits_end(s, i);
        assert forall|k: int| 0 <= k < e - i implies is_digit_char(
            #[trigger] s.subrange(i, e)[k],
        ) by {
            if k > 0 {
                assert(s.subrange(i + 1, e)[k - 1] == s.subrange(i, e)[k]);
            }
        }
    }
}

/// Digits with their trailing zeros removed.
pub open spec fn strip_zeros(s: Seq<char>) -> Seq<char>
    decreases s.len(),
{
    if s.len() > 0 && s.last() == '0' {
        strip_zeros(s.drop_last())
    } else {
        s
    }
}

pub proof fn lemma_strip_zeros(s: Seq<char>)
    requires
        all_digits(s),
    ensures
        strip_zeros(s).len() <= s.len(),
        all_digits(strip_zeros(s)),
        strip_zeros(s).len() > 0 ==> strip_zeros(s).last() != '0',
        val_of_digits(s) == val_of_digits(strip_zeros(s)) * pow10(
            (s.len() - strip_zeros(s).len()) as nat,
        ),
    decreases s.len(),
{
    if s.len() > 0 && s.last() == '0' {
        assert(forall|i: int| 0 <= i < s.len() - 1 ==> s.drop_last()[i] == s[i]);
        lemma_strip_zeros(s.drop_last());
        let t = strip_zeros(s);
        let v = val_of_digits(t);
        let k = (s.len() - 1 - t.len()) as nat;
        assert(digit_val('0') == 0);
        assert(val_of_digits(s) == 10 * (v * pow10(k)));
        assert(10 * (v * pow10(k)) == v * (10 * pow10(k))) by {
            vstd::arithmetic::mul::lemma_mul_is_associative(10, v, pow10(k) as int);
            vstd::arithmetic::mul::lemma_mul_is_commutative(10, v);
            vstd::arithmetic::mul::lemma_mul_is_associative(v, 10, pow10(k) as int);
        }
        assert(pow10((k + 1) as nat) == 10 * pow10(k));
        assert((s.len() - strip_zeros(s).len()) as nat == k + 1);
        assert(val_of_digits(s) == v * pow10((k + 1) as nat));
    } else {
        assert(pow10(0) == 1);
        assert(strip_zeros(s) == s);
        assert(val_of_digits(s) == val_of_digits(strip_zeros(s)) * 1);
    }
}

/// The value of concatenated digit strings.
pub proof fn lemma_val_concat(a: Seq<char>, b: Seq<char>)
    ensures
        val_of_digits(a + b) == val_of_digits(a) * pow10(b.len()) + val_of_digits(b),
    decreases b.len(),
{
    if b.len() == 0 {
        assert(a + b =~= a);
        assert(pow10(b.len()) == 1);
        assert(val_of_digits(b) == 0);
        assert(val_of_digits(a) * 1 == val_of_digits(a));
    } else {
        lemma_val_concat(a, b.drop_last());
        assert((a + b).drop_last() =~= a + b.drop_last());
        assert((a + b).last() == b.last());
        let p = pow10((b.len() - 1) as nat) as int;
        let va = val_of_digits(a);
        let vb = val_of_digits(b.drop_last());
        assert(val_of_digits(a + b) == 10 * (va * p + vb) + digit_val(b.last()));
        assert(10 * (va * p) == va * (10 * p)) by {
            vstd::arithmetic::mul::lemma_mul_is_associative(10, va, p);
            vstd::arithmetic::mul::lemma_mul_is_commutative(10, va);
            vstd::arithmetic::mul::lemma_mul_is_associative(va, 10, p);
        }
        assert(pow10(b.len()) == 10 * p);
        assert(val_of_digits(b) == 10 * vb + digit_val(b.last()));
        assert(val_of_digits(a + b) == 10 * (va * p) + 10 * vb + digit_val(b.last()));
        assert(val_of_digits(a + b) == va * (10 * p) + val_of_digits(b));
        assert(val_of_digits(a + b) == va * pow10(b.len()) + val_of_digits(b));
    }
}

/// Digit strings denote values in `[0, 10^len)`.
pub proof fn lemma_val_bounds(s: Seq<char>)
    requires
        all_digits(s),
    ensures
        0 <= val_of_digits(s) < pow10(s.len()),
    decreases s.len(),
{
    if s.len() == 0 {
        assert(pow10(0) == 1);
    } else {
        assert(forall|i: int| 0 <= i < s.len() - 1 ==> s.drop_last()[i] == s[i]);
        lemma_val_bounds(s.drop_last());
        assert(is_digit_char(s.last()));
        let p = pow10((s.len() - 1) as nat) as int;
        assert(val_of_digits(s.drop_last()) <= p - 1);
        assert(10 * val_of_digits(s.drop_last()) <= 10 * (p - 1));
        assert(pow10(s.len()) == 10 * p);
    }
}

/// A decimal number `mant / 10^scale`, negative when `neg` holds.
#[derive(Clone, Copy, PartialEq, Eq, Structural, Debug)]
pub struct Dec {
    pub neg: bool,
    pub mant: u64,
    pub scale: u32,
}

impl Dec {
    /// Normal form: zero is unsigned with scale zero, a fraction never ends
    /// in a zero digit, and the scale stays within the supported precision.
    pub open spec fn wf(self) -> bool {
        &&& self.mant == 0 ==> !self.neg && self.scale == 0
        &&& self.scale > 0 ==> self.mant % 10 != 0
        &&& self.scale <= 18
    }

    /// The signed mantissa.
    pub open spec fn signed_mant(self) -> int {
        if self.neg {
            -(self.mant as int)
        } else {
            self.mant as int
        }
    }

    /// Builds the normal form of `mant / 10^scale` with the given sign.
    pub fn new(neg: bool, mant: u64, scale: u32) -> (r: Dec)
        requires
            scale <= 18,
        ensures
            r.wf(),
            r.scale <= scale,
            r.mant as int * pow10((scale - r.scale) as nat) == mant as int,
            r.neg == (neg && mant != 0),
    {
        let mut m: u64 = mant;
        let mut s: u32 = scale;
        assert(pow10((scale - s) as nat) == 1);
        assert(m as int * pow10((scale - s) as nat) == mant as int);
        while s > 0 && m % 10 == 0
            invariant
                s <= scale <= 18,
                m as int * pow10((scale - s) as nat) == mant as int,
            decreases s,
        {
            proof {
                let p = pow10((scale - s) as nat) as int;
                assert(pow10((scale - (s - 1)) as nat) == 10 * p);
                assert(m as int == (m as int / 10) * 10);
                vstd::arithmetic::mul::lemma_mul_is_associative(m as int / 10, 10, p);
            }
            m = m / 10;
            s = s - 1;
        }
        if m == 0 {
            Dec { neg: false, mant: 0, scale: 0 }
        } else {
            proof {
                assert(mant != 0) by {
                    lemma_pow10_pos((scale - s) as nat);
                    vstd::arithmetic::mul::lemma_mul_nonzero(
                        m as int,
                        pow10((scale - s) as nat) as int,
                    );
                }
            }
            Dec { neg, mant: m, scale: s }
        }
    }

    /// The integer part of the magnitude (the value truncated toward zero,
    /// ignoring the sign).
    pub open spec fn spec_trunc_mag(self) -> nat {
        self.mant as nat / pow10(self.scale as nat)
    }

    /// The value truncated to an unsigned integer, as a cast of the original
    /// floating-point reading would do: negative values give zero.
    pub fn trunc_to_u64(&self) -> (r: u64)
        requires
            self.wf(),
        ensures
            r == if self.neg {
                0
            } else {
                self.spec_trunc_mag() as int
            },
    {
        if self.neg {
            0
        } else {
            let p = pow10_u64(self.scale);
            proof {
                lemma_pow10_pos(self.scale as nat);
            }
            self.mant / p
        }
    }
}

/// The normal form of `mant / 10^scale` with the given sign: trailing
/// fraction zeros removed, zero unsigned at scale zero.
pub open spec fn dec_norm(neg: bool, mant: nat, scale: nat) -> Dec
    decreases scale,
{
    if mant == 0 {
        Dec { neg: false, mant: 0, scale: 0 }
    } else if scale > 0 && mant % 10 == 0 {
        dec_norm(neg, mant / 10, (scale - 1) as nat)
    } else {
        Dec { neg, mant: mant as u64, scale: scale as u32 }
    }
}

/// `dec_norm` is pinned down by the value equation and normal form.
pub proof fn lemma_dec_norm_unique(neg: bool, mant: nat, scale: nat, r: Dec)
    requires
        r.wf(),
        r.scale <= scale,
        r.mant as int * pow10((scale - r.scale) as nat) == mant,
        r.neg == (neg && mant != 0),
    ensures
        r == dec_norm(neg, mant, scale),
    decreases scale,
{
    if mant == 0 {
        lemma_pow10_pos((scale - r.scale) as nat);
        vstd::arithmetic::mul::lemma_mul_nonzero(
            r.mant as int,
            pow10((scale - r.scale) as nat) as int,
        );
        assert(r.mant == 0);
        assert(r == Dec { neg: false, mant: 0u64, scale: 0u32 });
    } else if scale > 0 && mant % 10 == 0 {
        assert(r.scale < scale) by {
            if r.scale == scale {
                assert(pow10(0) == 1);
                vstd::arithmetic::mul::lemma_mul_basics(r.mant as int);
                assert(r.mant as int == mant);
            }
        }
        let p = pow10((scale - 1 - r.scale) as nat) as int;
        assert(pow10((scale - r.scale) as nat) == 10 * p);
        assert(r.mant as int * (10 * p) == mant);
        assert((r.mant as int * 10) * p == r.mant as int * (10 * p)) by {
            vstd::arithmetic::mul::lemma_mul_is_associative(r.mant as int, 10, p);
        }
        assert((mant / 10) * 10 == mant);
        assert(r.mant as int * p == mant / 10) by {
            vstd::arithmetic::mul::lemma_mul_is_commutative(r.mant as int, 10);
            vstd::arithmetic::mul::lemma_mul_is_associative(10, r.mant as int, p);
            assert(10 * (r.mant as int * p) == mant);
            assert(10 * (mant as int / 10) == mant);
        }
        lemma_dec_norm_unique(neg, mant / 10, (scale - 1) as nat, r);
    } else {
        assert(r.scale == scale) by {
            if r.scale < scale {
                let p = pow10((scale - 1 - r.scale) as nat) as int;
                assert(pow10((scale - r.scale) as nat) == 10 * p);
                assert(r.mant as int * (10 * p) == mant);
                assert((r.mant as int * p) * 10 == mant) by {
                    vstd::arithmetic::mul::lemma_mul_is_associative(r.mant as int, 10, p);
                    vstd::arithmetic::mul::lemma_mul_is_commutative(r.mant as int, 10);
                    vstd::arithmetic::mul::lemma_mul_is_associative(10, r.mant as int, p);
                    vstd::arithmetic::mul::lemma_mul_is_commutative(10, r.mant as int * p);
                }
                assert(mant % 10 == 0) by {
                    vstd::arithmetic::div_mod::lemma_mod_multiples_basic(r.mant as int * p, 10);
                }
            }
        }
        assert(pow10(0) == 1);
        vstd::arithmetic::mul::lemma_mul_basics(r.mant as int);
        assert(r.mant as int == mant);
    }
}

/// Scaling any positive mantissa twenty places overflows 64 bits.
pub proof fn lemma_pow10_overflow(m: int, k: nat)
    requires
        m >= 1,
        k >= 20,
    ensures
        m * pow10(k) > u64::MAX,
{
    lemma_pow10_mono(20, k);
    assert(pow10(20nat) > u64::MAX) by {
        reveal_with_fuel(pow10, 21);
    }
    vstd::arithmetic::mul::lemma_mul_inequality(1, m, pow10(k) as int);
    vstd::arithmetic::mul::lemma_mul_is_commutative(1, pow10(k) as int);
    vstd::arithmetic::mul::lemma_mul_basics(pow10(k) as int);
}

/// The textual rendering of a decimal: optional minus sign, the integer part,
/// and when the scale is positive a point followed by exactly `scale`
/// fraction digits.
pub open spec fn dec_chars(d: Dec) -> Seq<char> {
    let mag = if d.scale == 0 {
        digits_of(d.mant as nat)
    } else {
        digits_of(d.mant as nat / pow10(d.scale as nat)) + seq!['.'] + digits_pad(
            d.mant as nat % pow10(d.scale as nat),
            d.scale as nat,
        )
    };
    if d.neg {
        seq!['-'] + mag
    } else {
        mag
    }
}

/// Appends the textual rendering of `d` to `out`.
pub fn push_dec_chars(out: &mut Vec<char>, d: &Dec)
    requires
        d.wf(),
    ensures
        final(out)@ == old(out)@ + dec_chars(*d),
{
    if d.neg {
        out.push('-');
    }
    if d.scale == 0 {
        push_digits(out, d.mant);
    } else {
        let p = pow10_u64(d.scale);
        proof {
            lemma_pow10_pos(d.scale as nat);
        }
        push_digits(out, d.mant / p);
        out.push('.');
        push_digits_pad(out, d.mant % p, d.scale);
    }
    assert(out@ =~= old(out)@ + dec_chars(*d));
}

/// The textual rendering of `d` as a `String`.
pub fn dec_to_string(d: &Dec) -> (r: String)
    requires
        d.wf(),
    ensures
        r@ == dec_chars(*d),
{
    let mut out: Vec<char> = Vec::new();
    push_dec_chars(&mut out, d);
    crate::text::chars_to_string(&out)
}

} // verus!
