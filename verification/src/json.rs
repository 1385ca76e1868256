//! A JSON document model with a verified parser and serializer.
//!
//! The grammar is standard JSON, with numbers held exactly: a mantissa must
//! fit in 64 bits and a fraction keeps at most 18 significant digits (more
//! precision is rejected with a decode error rather than misread, since no
//! value here is approximated). The specification parser `sp_json` is the
//! single model: the executable parser returns exactly what it says, and the
//! serializer emits the canonical text that `sp_json` maps back to the same
//! value.

use vstd::prelude::*;

use crate::dec::{
    all_digits, digit_val, digits_end, digits_of, digits_pad, is_digit_char, lemma_digits_end,
    lemma_strip_zeros, lemma_val_bounds, lemma_val_concat, pow10, strip_zeros, val_of_digits, Dec,
};
use crate::errors::DecodeError;

verus! {

/// A JSON value as executable data.
pub enum Json {
    Null,
    Bool(bool),
    Num(Dec),
    Str(Vec<char>),
    Arr(Vec<Json>),
    Obj(Vec<(Vec<char>, Json)>),
}

/// A JSON value as mathematical data.
pub enum JsonV {
    Null,
    Bool(bool),
    Num(Dec),
    Str(Seq<char>),
    Arr(Seq<JsonV>),
    Obj(Seq<(Seq<char>, JsonV)>),
}

/// The mathematical value of an executable JSON tree.
pub open spec fn json_view(j: Json) -> JsonV
    decreases j,
{
    match j {
        Json::Null => JsonV::Null,
        Json::Bool(b) => JsonV::Bool(b),
        Json::Num(d) => JsonV::Num(d),
        Json::Str(v) => JsonV::Str(v@),
        Json::Arr(es) => JsonV::Arr(
            Seq::new(
                es@.len(),
                |i: int|
                    if 0 <= i < es.len() {
                        json_view(es[i])
                    } else {
                        JsonV::Null
                    },
            ),
        ),
        Json::Obj(ms) => JsonV::Obj(
            Seq::new(
                ms@.len(),
                |i: int|
                    if 0 <= i < ms.len() {
                        (ms[i].0@, json_view(ms[i].1))
                    } else {
                        (Seq::empty(), JsonV::Null)
                    },
            ),
        ),
    }
}

impl View for Json {
    type V = JsonV;

    open spec fn view(&self) -> JsonV {
        json_view(*self)
    }
}

/// JSON whitespace.
pub open spec fn is_ws_char(c: char) -> bool {
    c == ' ' || c == '\t' || c == '\n' || c == '\r'
}

/// The larger of a position and a lower bound.
pub open spec fn at_least(j: int, lo: int) -> int {
    if j < lo {
        lo
    } else {
        j
    }
}

/// A position clamped into `[lo, len]`; positions that a parser hands on are
/// in that range anyway, and the clamped form keeps that fact syntactic.
pub open spec fn next_pos(len: int, j: int, lo: int) -> int {
    if at_least(j, lo) > len {
        len
    } else {
        at_least(j, lo)
    }
}

/// The first position at or after `i` that does not hold whitespace.
pub open spec fn sp_ws(s: Seq<char>, i: int) -> int
    decreases s.len() - i,
{
    if 0 <= i < s.len() && is_ws_char(s[i]) {
        sp_ws(s, i + 1)
    } else {
        i
    }
}

/// A character written with a backslash escape.
pub open spec fn is_escape_code(c: char) -> bool {
    ||| c == '"'
    ||| c == '\\'
    ||| c == '/'
    ||| c == 'b'
    ||| c == 'f'
    ||| c == 'n'
    ||| c == 'r'
    ||| c == 't'
}

/// The character an escape code stands for.
pub open spec fn unescape(c: char) -> char {
    if c == 'b' {
        '\u{0008}'
    } else if c == 'f' {
        '\u{000C}'
    } else if c == 'n' {
        '\n'
    } else if c == 'r' {
        '\r'
    } else if c == 't' {
        '\t'
    } else {
        c
    }
}

/// A hexadecimal digit character, either case.
pub open spec fn is_hex_digit(c: char) -> bool {
    ||| is_digit_char(c)
    ||| ('a' <= c && c <= 'f')
    ||| ('A' <= c && c <= 'F')
}

/// The value of a hexadecimal digit character.
pub open spec fn hex_val(c: char) -> int {
    if is_digit_char(c) {
        c as int - 48
    } else if 'a' <= c && c <= 'f' {
        c as int - 87
    } else {
        c as int - 55
    }
}

/// Four hexadecimal digits stand at `i`.
pub open spec fn four_hex_at(s: Seq<char>, i: int) -> bool {
    &&& 0 <= i
    &&& i + 4 <= s.len()
    &&& is_hex_digit(s[i])
    &&& is_hex_digit(s[i + 1])
    &&& is_hex_digit(s[i + 2])
    &&& is_hex_digit(s[i + 3])
}

/// The value of the four hexadecimal digits at `i`.
pub open spec fn four_hex_val(s: Seq<char>, i: int) -> int {
    4096 * hex_val(s[i]) + 256 * hex_val(s[i + 1]) + 16 * hex_val(s[i + 2]) + hex_val(s[i + 3])
}

/// A high surrogate, carrying the upper bits of a code point beyond the
/// basic plane.
pub open spec fn is_high_surrogate(u: int) -> bool {
    0xD800 <= u <= 0xDBFF
}

/// A low surrogate, carrying the lower bits.
pub open spec fn is_low_surrogate(u: int) -> bool {
    0xDC00 <= u <= 0xDFFF
}

/// The code point a surrogate pair stands for.
pub open spec fn surrogate_pair_val(hi: int, lo: int) -> int {
    0x10000 + (hi - 0xD800) * 0x400 + (lo - 0xDC00)
}

/// Parses the body of a string literal from just after the opening quote:
/// the decoded characters and the position after the closing quote. A `\u`
/// escape carries four hexadecimal digits; a code point beyond the basic
/// plane is written as a surrogate pair.
pub open spec fn sp_string_body(s: Seq<char>, i: int) -> Option<(Seq<char>, int)>
    decreases s.len() - i,
{
    if i < 0 || i >= s.len() {
        None
    } else if s[i] == '"' {
        Some((Seq::empty(), i + 1))
    } else if s[i] == '\\' {
        if i + 1 < s.len() && s[i + 1] == 'u' {
            if four_hex_at(s, i + 2) {
                let u = four_hex_val(s, i + 2);
                if is_high_surrogate(u) {
                    if i + 12 <= s.len() && s[i + 6] == '\\' && s[i + 7] == 'u' && four_hex_at(
                        s,
                        i + 8,
                    ) && is_low_surrogate(four_hex_val(s, i + 8)) {
                        let cp = surrogate_pair_val(u, four_hex_val(s, i + 8));
                        match sp_string_body(s, i + 12) {
                            Some((t, j)) => Some((seq![((cp as u32) as char)] + t, j)),
                            None => None,
                        }
                    } else {
                        None
                    }
                } else if is_low_surrogate(u) {
                    None
                } else {
                    match sp_string_body(s, i + 6) {
                        Some((t, j)) => Some((seq![((u as u32) as char)] + t, j)),
                        None => None,
                    }
                }
            } else {
                None
            }
        } else if i + 1 < s.len() && is_escape_code(s[i + 1]) {
            match sp_string_body(s, i + 2) {
                Some((t, j)) => Some((seq![unescape(s[i + 1])] + t, j)),
                None => None,
            }
        } else {
            None
        }
    } else if (s[i] as u32) < 32 {
        None
    } else {
        match sp_string_body(s, i + 1) {
            Some((t, j)) => Some((seq![s[i]] + t, j)),
            None => None,
        }
    }
}

/// The decimal from a sign, a mantissa value, and a fraction width, in
/// normal form.
pub open spec fn make_dec(neg: bool, mant: int, scale: int) -> Dec {
    if mant == 0 {
        Dec { neg: false, mant: 0, scale: 0 }
    } else {
        Dec { neg, mant: mant as u64, scale: scale as u32 }
    }
}

/// The decimal a significand and an exponent shift denote, in normal form;
/// `None` when the shifted value leaves the `Dec` form.
pub open spec fn apply_exponent(neg: bool, mant: int, scale: int, shift: int, pos: int) -> Option<
    (Dec, int),
> {
    let newscale = scale - shift;
    if mant == 0 {
        Some((Dec { neg: false, mant: 0, scale: 0 }, pos))
    } else if newscale < 0 {
        if mant * pow10((-newscale) as nat) <= u64::MAX {
            Some((make_dec(neg, mant * pow10((-newscale) as nat), 0), pos))
        } else {
            None
        }
    } else if newscale <= 18 {
        Some((crate::dec::dec_norm(neg, mant as nat, newscale as nat), pos))
    } else {
        None
    }
}

/// Finishes a number token at `pos`: an optional exponent part (`e` or `E`,
/// an optional sign, digits) shifts the significand.
pub open spec fn sp_exponent(s: Seq<char>, neg: bool, mant: int, scale: int, pos: int) -> Option<
    (Dec, int),
> {
    if 0 <= pos < s.len() && (s[pos] == 'e' || s[pos] == 'E') {
        let psign = pos + 1;
        let eneg = psign < s.len() && s[psign] == '-';
        let pdig = if psign < s.len() && (s[psign] == '-' || s[psign] == '+') {
            psign + 1
        } else {
            psign
        };
        if pdig >= s.len() || !is_digit_char(s[pdig]) {
            None
        } else {
            let ee = digits_end(s, pdig);
            let expval = val_of_digits(s.subrange(pdig, ee));
            apply_exponent(
                neg,
                mant,
                scale,
                if eneg {
                    -expval
                } else {
                    expval
                },
                ee,
            )
        }
    } else {
        Some((make_dec(neg, mant, scale), pos))
    }
}

/// Parses a number token at `i`: the value and the position after it.
/// A number is an optional minus, an integer part without a leading zero, an
/// optional fraction, and an optional exponent; the significand must fit the
/// `Dec` form, and the exponent must shift it within that form.
pub open spec fn sp_number(s: Seq<char>, i: int) -> Option<(Dec, int)> {
    let neg = 0 <= i < s.len() && s[i] == '-';
    let p = if neg {
        i + 1
    } else {
        i
    };
    if p < 0 || p >= s.len() || !is_digit_char(s[p]) {
        None
    } else if s[p] == '0' && p + 1 < s.len() && is_digit_char(s[p + 1]) {
        None
    } else {
        let e1 = digits_end(s, p);
        let ipart = s.subrange(p, e1);
        if e1 < s.len() && s[e1] == '.' {
            let e2 = digits_end(s, e1 + 1);
            if e2 == e1 + 1 {
                None
            } else {
                let frac = strip_zeros(s.subrange(e1 + 1, e2));
                let mant = val_of_digits(ipart + frac);
                if mant <= u64::MAX && frac.len() <= 18 {
                    sp_exponent(s, neg, mant, frac.len() as int, e2)
                } else {
                    None
                }
            }
        } else {
            let mant = val_of_digits(ipart);
            if mant <= u64::MAX {
                sp_exponent(s, neg, mant, 0, e1)
            } else {
                None
            }
        }
    }
}

/// Parses a value at `i` (no leading whitespace): the value and the position
/// after it.
pub open spec fn sp_value(s: Seq<char>, i: int) -> Option<(JsonV, int)>
    decreases s.len() - i, 1int,
{
    if i < 0 || i >= s.len() {
        None
    } else if s[i] == '"' {
        match sp_string_body(s, i + 1) {
            Some((t, j)) => Some((JsonV::Str(t), j)),
            None => None,
        }
    } else if s[i] == 'n' {
        if i + 4 <= s.len() && s[i + 1] == 'u' && s[i + 2] == 'l' && s[i + 3] == 'l' {
            Some((JsonV::Null, i + 4))
        } else {
            None
        }
    } else if s[i] == 't' {
        if i + 4 <= s.len() && s[i + 1] == 'r' && s[i + 2] == 'u' && s[i + 3] == 'e' {
            Some((JsonV::Bool(true), i + 4))
        } else {
            None
        }
    } else if s[i] == 'f' {
        if i + 5 <= s.len() && s[i + 1] == 'a' && s[i + 2] == 'l' && s[i + 3] == 's' && s[i + 4]
            == 'e' {
            Some((JsonV::Bool(false), i + 5))
        } else {
            None
        }
    } else if s[i] == '-' || is_digit_char(s[i]) {
        match sp_number(s, i) {
            Some((d, j)) => Some((JsonV::Num(d), j)),
            None => None,
        }
    } else if s[i] == '[' {
        let j = next_pos(s.len() as int, sp_ws(s, i + 1), i + 1);
        if j < s.len() && s[j] == ']' {
            Some((JsonV::Arr(Seq::empty()), j + 1))
        } else {
            match sp_elems(s, j) {
                Some((es, k)) => Some((JsonV::Arr(es), k)),
                None => None,
            }
        }
    } else if s[i] == '{' {
        let j = next_pos(s.len() as int, sp_ws(s, i + 1), i + 1);
        if j < s.len() && s[j] == '}' {
            Some((JsonV::Obj(Seq::empty()), j + 1))
        } else {
            match sp_members(s, j) {
                Some((ms, k)) => Some((JsonV::Obj(ms), k)),
                None => None,
            }
        }
    } else {
        None
    }
}

/// Parses the elements of an array from the first element on, through the
/// closing bracket.
pub open spec fn sp_elems(s: Seq<char>, i: int) -> Option<(Seq<JsonV>, int)>
    decreases s.len() - i, 2int,
{
    if i < 0 || i >= s.len() {
        None
    } else {
        match sp_value(s, i) {
            None => None,
            Some((v, j0)) => {
                let k = at_least(sp_ws(s, at_least(j0, i + 1)), i + 1);
                if k < s.len() && s[k] == ',' {
                    let m = next_pos(s.len() as int, sp_ws(s, k + 1), k + 1);
                    match sp_elems(s, m) {
                        Some((es, e)) => Some((seq![v] + es, e)),
                        None => None,
                    }
                } else if k < s.len() && s[k] == ']' {
                    Some((seq![v], k + 1))
                } else {
                    None
                }
            },
        }
    }
}

/// Parses the members of an object from the first key on, through the
/// closing brace.
pub open spec fn sp_members(s: Seq<char>, i: int) -> Option<(Seq<(Seq<char>, JsonV)>, int)>
    decreases s.len() - i, 2int,
{
    if i < 0 || i >= s.len() || s[i] != '"' {
        None
    } else {
        match sp_string_body(s, i + 1) {
            None => None,
            Some((key, j0)) => {
                let k = at_least(sp_ws(s, at_least(j0, i + 1)), i + 1);
                if k < s.len() && s[k] == ':' {
                    let m = next_pos(s.len() as int, sp_ws(s, k + 1), k + 1);
                    match sp_value(s, m) {
                        None => None,
                        Some((v, j2)) => {
                            let k2 = at_least(sp_ws(s, at_least(j2, m + 1)), m + 1);
                            if k2 < s.len() && s[k2] == ',' {
                                let nxt = next_pos(s.len() as int, sp_ws(s, k2 + 1), k2 + 1);
                                match sp_members(s, nxt) {
                                    Some((ms, e)) => Some((seq![(key, v)] + ms, e)),
                                    None => None,
                                }
                            } else if k2 < s.len() && s[k2] == '}' {
                                Some((seq![(key, v)], k2 + 1))
                            } else {
                                None
                            }
                        },
                    }
                } else {
                    None
                }
            },
        }
    }
}

/// A decode error for text that does not follow the grammar.
fn syntax_error() -> DecodeError {
    DecodeError { path: "$".to_owned(), reason: "the text does not follow the JSON grammar".to_owned() }
}

/// Whitespace test, executable form.
fn is_ws(c: char) -> (r: bool)
    ensures
        r == is_ws_char(c),
{
    c == ' ' || c == '\t' || c == '\n' || c == '\r'
}

/// Digit test, executable form.
fn is_digit(c: char) -> (r: bool)
    ensures
        r == is_digit_char(c),
{
    '0' <= c && c <= '9'
}

/// Skips whitespace from `i`.
fn skip_ws(s: &Vec<char>, i: usize) -> (r: usize)
    requires
        i <= s@.len(),
    ensures
        r as int == sp_ws(s@, i as int),
        i <= r <= s@.len(),
{
    let mut r = i;
    while r < s.len() && is_ws(s[r])
        invariant
            i <= r <= s@.len(),
            sp_ws(s@, i as int) == sp_ws(s@, r as int),
        decreases s@.len() - r,
    {
        r = r + 1;
    }
    r
}

/// Scans digits from `i`.
fn scan_digits(s: &Vec<char>, i: usize) -> (r: usize)
    requires
        i <= s@.len(),
    ensures
        r as int == digits_end(s@, i as int),
        i <= r <= s@.len(),
{
    let mut r = i;
    while r < s.len() && is_digit(s[r])
        invariant
            i <= r <= s@.len(),
            digits_end(s@, i as int) == digits_end(s@, r as int),
        decreases s@.len() - r,
    {
        r = r + 1;
    }
    r
}

/// Accumulates the digits of `s[from .. to]` onto the value of a prefix of
/// digits already read; `None` reports that the value does not fit in 64 bits.
fn digits_val_from(
    s: &Vec<char>,
    from: usize,
    to: usize,
    acc0: u64,
    Ghost(prefix): Ghost<Seq<char>>,
) -> (r: Option<u64>)
    requires
        from <= to <= s@.len(),
        all_digits(s@.subrange(from as int, to as int)),
        all_digits(prefix),
        acc0 == val_of_digits(prefix),
    ensures
        match r {
            Some(x) => x == val_of_digits(prefix + s@.subrange(from as int, to as int)),
            None => val_of_digits(prefix + s@.subrange(from as int, to as int)) > u64::MAX,
        },
{
    let mut acc = acc0;
    let mut idx = from;
    proof {
        assert(prefix + s@.subrange(from as int, from as int) =~= prefix);
    }
    while idx < to
        invariant
            from <= idx <= to <= s@.len(),
            all_digits(s@.subrange(from as int, to as int)),
            all_digits(prefix),
            acc == val_of_digits(prefix + s@.subrange(from as int, idx as int)),
            all_digits(prefix + s@.subrange(from as int, idx as int)),
        decreases to - idx,
    {
        let ghost cur = prefix + s@.subrange(from as int, idx as int);
        let ghost nxt = prefix + s@.subrange(from as int, idx as int + 1);
        proof {
            assert(s@.subrange(from as int, to as int)[idx - from] == s@[idx as int]);
            assert(nxt =~= cur.push(s@[idx as int]));
            assert(nxt.drop_last() =~= cur);
            assert(val_of_digits(nxt) == 10 * val_of_digits(cur) + digit_val(s@[idx as int]));
        }
        let c = s[idx];
        let d = c as u64 - 48;
        if acc > (u64::MAX - d) / 10 {
            proof {
                let m = u64::MAX as int;
                assert(10 * ((m - d) / 10) == (m - d) - (m - d) % 10);
                assert(val_of_digits(nxt) > u64::MAX);
                let rest = s@.subrange(idx as int + 1, to as int);
                assert(prefix + s@.subrange(from as int, to as int) =~= nxt + rest);
                assert(all_digits(rest)) by {
                    assert(forall|k: int| 0 <= k < rest.len() ==> rest[k] == s@.subrange(
                        from as int,
                        to as int,
                    )[k + idx + 1 - from]);
                }
                lemma_val_concat(nxt, rest);
                lemma_val_bounds(rest);
                crate::dec::lemma_pow10_pos(rest.len());
                vstd::arithmetic::mul::lemma_mul_inequality(
                    1,
                    pow10(rest.len()) as int,
                    val_of_digits(nxt),
                );
            }
            return None;
        }
        proof {
            let m = u64::MAX as int;
            assert(10 * acc <= 10 * ((m - d) / 10));
            assert(10 * ((m - d) / 10) <= m - d);
        }
        acc = acc * 10 + d;
        idx = idx + 1;
    }
    Some(acc)
}

/// The value of a hexadecimal digit character, either case.
fn hex_digit_val(c: char) -> (r: Option<u8>)
    ensures
        r is Some <==> is_hex_digit(c),
        r matches Some(v) ==> v == hex_val(c),
{
    if '0' <= c && c <= '9' {
        Some((c as u8) - 48)
    } else if 'a' <= c && c <= 'f' {
        Some((c as u8) - 87)
    } else if 'A' <= c && c <= 'F' {
        Some((c as u8) - 55)
    } else {
        None
    }
}

/// Reads four hexadecimal digits at `i`.
fn read_four_hex(s: &Vec<char>, i: usize) -> (r: Option<u32>)
    requires
        i <= s@.len(),
    ensures
        r is Some <==> four_hex_at(s@, i as int),
        r matches Some(v) ==> v == four_hex_val(s@, i as int),
{
    if s.len() - i < 4 {
        return None;
    }
    let d0 = match hex_digit_val(s[i]) {
        Some(d) => d,
        None => {
            return None;
        },
    };
    let d1 = match hex_digit_val(s[i + 1]) {
        Some(d) => d,
        None => {
            return None;
        },
    };
    let d2 = match hex_digit_val(s[i + 2]) {
        Some(d) => d,
        None => {
            return None;
        },
    };
    let d3 = match hex_digit_val(s[i + 3]) {
        Some(d) => d,
        None => {
            return None;
        },
    };
    Some(4096 * (d0 as u32) + 256 * (d1 as u32) + 16 * (d2 as u32) + (d3 as u32))
}

/// Parses the body of a string literal from just after the opening quote.
fn parse_string_body(s: &Vec<char>, i: usize) -> (r: Result<(Vec<char>, usize), DecodeError>)
    requires
        i <= s@.len(),
    ensures
        match r {
            Ok((t, j)) => sp_string_body(s@, i as int) == Some((t@, j as int)) && i < j
                <= s@.len(),
            Err(_) => sp_string_body(s@, i as int) is None,
        },
    decreases s@.len() - i,
{
    if i >= s.len() {
        return Err(syntax_error());
    }
    let c = s[i];
    if c == '"' {
        let t: Vec<char> = Vec::new();
        proof {
            assert(t@ =~= Seq::<char>::empty());
            assert(sp_string_body(s@, i as int) == Some((Seq::<char>::empty(), i + 1 as int)));
        }
        Ok((t, i + 1))
    } else if c == '\\' {
        if i + 1 < s.len() && s[i + 1] == 'u' {
            let u = match read_four_hex(s, i + 2) {
                Some(u) => u,
                None => {
                    return Err(syntax_error());
                },
            };
            if 0xD800 <= u && u <= 0xDBFF {
                if s.len() - i >= 12 && s[i + 6] == '\\' && s[i + 7] == 'u' {
                    let l = match read_four_hex(s, i + 8) {
                        Some(l) => l,
                        None => {
                            return Err(syntax_error());
                        },
                    };
                    if 0xDC00 <= l && l <= 0xDFFF {
                        let cp: u32 = 0x10000 + (u - 0xD800) * 0x400 + (l - 0xDC00);
                        let decoded = match crate::text::char_of_scalar(cp) {
                            Some(decoded) => decoded,
                            None => {
                                return Err(syntax_error());
                            },
                        };
                        proof {
                            vstd::utf8::char_u32_cast(decoded, cp);
                        }
                        let (mut t, j) = parse_string_body(s, i + 12)?;
                        let ghost t0 = t@;
                        t.insert(0, decoded);
                        proof {
                            assert(t@ =~= seq![decoded] + t0);
                        }
                        return Ok((t, j));
                    } else {
                        return Err(syntax_error());
                    }
                } else {
                    return Err(syntax_error());
                }
            } else if 0xDC00 <= u && u <= 0xDFFF {
                return Err(syntax_error());
            } else {
                let decoded = match crate::text::char_of_scalar(u) {
                    Some(decoded) => decoded,
                    None => {
                        return Err(syntax_error());
                    },
                };
                proof {
                    vstd::utf8::char_u32_cast(decoded, u);
                }
                let (mut t, j) = parse_string_body(s, i + 6)?;
                let ghost t0 = t@;
                t.insert(0, decoded);
                proof {
                    assert(t@ =~= seq![decoded] + t0);
                }
                return Ok((t, j));
            }
        } else if i + 1 < s.len() {
            let e = s[i + 1];
            let u: char = if e == 'b' {
                '\u{0008}'
            } else if e == 'f' {
                '\u{000C}'
            } else if e == 'n' {
                '\n'
            } else if e == 'r' {
                '\r'
            } else if e == 't' {
                '\t'
            } else if e == '"' || e == '\\' || e == '/' {
                e
            } else {
                return Err(syntax_error());
            };
            let (mut t, j) = parse_string_body(s, i + 2)?;
            let ghost t0 = t@;
            t.insert(0, u);
            proof {
                assert(t@ =~= seq![u] + t0);
            }
            proof {
                assert(sp_string_body(s@, i as int) == Some((seq![u] + t0, j as int)));
            }
            Ok((t, j))
        } else {
            Err(syntax_error())
        }
    } else if (c as u32) < 32 {
        Err(syntax_error())
    } else {
        let (mut t, j) = parse_string_body(s, i + 1)?;
        let ghost t0 = t@;
        t.insert(0, c);
        proof {
            assert(t@ =~= seq![c] + t0);
            assert(sp_string_body(s@, i as int) == Some((seq![c] + t0, j as int)));
        }
        Ok((t, j))
    }
}

/// Finishes a number token: reads an optional exponent part and builds the
/// decimal, in normal form.
fn parse_exponent(s: &Vec<char>, neg: bool, mant: u64, scale: u32, pos: usize) -> (r: Result<
    (Dec, usize),
    DecodeError,
>)
    requires
        pos <= s@.len(),
        scale <= 18,
        scale > 0 ==> mant % 10 != 0,
    ensures
        match r {
            Ok((d, j)) => sp_exponent(s@, neg, mant as int, scale as int, pos as int) == Some(
                (d, j as int),
            ) && pos <= j <= s@.len() && d.wf(),
            Err(_) => sp_exponent(s@, neg, mant as int, scale as int, pos as int) is None,
        },
{
    let len = s.len();
    if !(pos < len && (s[pos] == 'e' || s[pos] == 'E')) {
        let d = if mant == 0 {
            Dec { neg: false, mant: 0, scale: 0 }
        } else {
            Dec { neg, mant, scale }
        };
        return Ok((d, pos));
    }
    let psign = pos + 1;
    let (eneg, pdig) = if psign < len && (s[psign] == '-' || s[psign] == '+') {
        (s[psign] == '-', psign + 1)
    } else {
        (false, psign)
    };
    if pdig >= len || !is_digit(s[pdig]) {
        return Err(syntax_error());
    }
    let ee = scan_digits(s, pdig);
    proof {
        lemma_digits_end(s@, pdig as int);
    }
    if mant == 0 {
        return Ok((Dec { neg: false, mant: 0, scale: 0 }, ee));
    }
    let ghost expval = val_of_digits(s@.subrange(pdig as int, ee as int));
    proof {
        assert(Seq::<char>::empty() + s@.subrange(pdig as int, ee as int) =~= s@.subrange(
            pdig as int,
            ee as int,
        ));
    }
    let expv = match digits_val_from(s, pdig, ee, 0, Ghost(Seq::empty())) {
        Some(v) => v,
        None => {
            proof {
                assert(expval > u64::MAX);
                if !eneg {
                    let newscale = scale - expval;
                    assert(expval - scale >= 20);
                    crate::dec::lemma_pow10_overflow(mant as int, (expval - scale) as nat);
                }
            }
            return Err(syntax_error());
        },
    };
    if eneg {
        if expv > 18 {
            return Err(syntax_error());
        }
        let ns = scale + (expv as u32);
        if ns > 18 {
            return Err(syntax_error());
        }
        let d = Dec::new(neg, mant, ns);
        proof {
            crate::dec::lemma_dec_norm_unique(neg, mant as nat, ns as nat, d);
        }
        Ok((d, ee))
    } else {
        if expv <= scale as u64 {
            let ns = scale - (expv as u32);
            let d = Dec::new(neg, mant, ns);
            proof {
                crate::dec::lemma_dec_norm_unique(neg, mant as nat, ns as nat, d);
            }
            Ok((d, ee))
        } else {
            let k = expv - (scale as u64);
            if k > 19 {
                proof {
                    crate::dec::lemma_pow10_overflow(mant as int, k as nat);
                }
                return Err(syntax_error());
            }
            let p = crate::dec::pow10_u64(k as u32);
            proof {
                vstd::arithmetic::mul::lemma_mul_upper_bound(
                    mant as int,
                    u64::MAX as int,
                    p as int,
                    u64::MAX as int,
                );
            }
            let wide: u128 = (mant as u128) * (p as u128);
            proof {
                assert(wide == mant as nat * pow10(k as nat));
            }
            if wide > u64::MAX as u128 {
                return Err(syntax_error());
            }
            let m2 = wide as u64;
            proof {
                crate::dec::lemma_pow10_pos(k as nat);
                vstd::arithmetic::mul::lemma_mul_nonzero(mant as int, pow10(k as nat) as int);
            }
            Ok((Dec { neg, mant: m2, scale: 0 }, ee))
        }
    }
}

/// Parses a number token at `i`.
pub(crate) fn parse_number(s: &Vec<char>, i: usize) -> (r: Result<(Dec, usize), DecodeError>)
    requires
        i <= s@.len(),
    ensures
        match r {
            Ok((d, j)) => sp_number(s@, i as int) == Some((d, j as int)) && i < j <= s@.len()
                && d.wf(),
            Err(_) => sp_number(s@, i as int) is None,
        },
{
    let len = s.len();
    if i >= len {
        return Err(syntax_error());
    }
    let neg = s[i] == '-';
    let p = if neg {
        i + 1
    } else {
        i
    };
    if p >= len || !is_digit(s[p]) {
        return Err(syntax_error());
    }
    if s[p] == '0' && p + 1 < len && is_digit(s[p + 1]) {
        return Err(syntax_error());
    }
    let e1 = scan_digits(s, p);
    proof {
        lemma_digits_end(s@, p as int);
    }
    let ghost ipart = s@.subrange(p as int, e1 as int);
    if e1 < len && s[e1] == '.' {
        let e2 = scan_digits(s, e1 + 1);
        proof {
            lemma_digits_end(s@, e1 as int + 1);
        }
        if e2 == e1 + 1 {
            return Err(syntax_error());
        }
        let mut f2 = e2;
        while f2 > e1 + 1 && s[f2 - 1] == '0'
            invariant
                e1 + 1 <= f2 <= e2 <= s@.len(),
                strip_zeros(s@.subrange(e1 as int + 1, e2 as int)) == strip_zeros(
                    s@.subrange(e1 as int + 1, f2 as int),
                ),
            decreases f2,
        {
            proof {
                let a = s@.subrange(e1 as int + 1, f2 as int);
                assert(a.last() == s@[f2 - 1]);
                assert(a.drop_last() =~= s@.subrange(e1 as int + 1, f2 as int - 1));
            }
            f2 = f2 - 1;
        }
        let ghost fullfrac = s@.subrange(e1 as int + 1, e2 as int);
        let ghost frac = s@.subrange(e1 as int + 1, f2 as int);
        proof {
            assert(forall|k: int| 0 <= k < frac.len() ==> frac[k] == fullfrac[k]);
            assert(all_digits(frac));
            assert(strip_zeros(frac) =~= frac);
            assert(strip_zeros(fullfrac) =~= frac);
        }
        let scale = f2 - (e1 + 1);
        if scale > 18 {
            return Err(syntax_error());
        }
        proof {
            assert(ipart + s@.subrange(p as int, e1 as int) =~= ipart + ipart);
        }
        let va = match digits_val_from(s, p, e1, 0, Ghost(Seq::empty())) {
            Some(v) => v,
            None => {
                proof {
                    lemma_overflow_extends(ipart, frac);
                    assert(Seq::<char>::empty() + ipart =~= ipart);
                }
                return Err(syntax_error());
            },
        };
        proof {
            assert(Seq::<char>::empty() + ipart =~= ipart);
        }
        let mant = match digits_val_from(s, e1 + 1, f2, va, Ghost(ipart)) {
            Some(v) => v,
            None => {
                return Err(syntax_error());
            },
        };
        proof {
            if scale > 0 {
                lemma_mant_tail(ipart, frac, mant as int);
            }
        }
        let (d, j) = parse_exponent(s, neg, mant, scale as u32, e2)?;
        Ok((d, j))
    } else {
        let mant = match digits_val_from(s, p, e1, 0, Ghost(Seq::empty())) {
            Some(v) => v,
            None => {
                proof {
                    assert(Seq::<char>::empty() + ipart =~= ipart);
                }
                return Err(syntax_error());
            },
        };
        proof {
            assert(Seq::<char>::empty() + ipart =~= ipart);
        }
        let (d, j) = parse_exponent(s, neg, mant, 0, e1)?;
        Ok((d, j))
    }
}

/// If the integer part alone overflows, the whole mantissa overflows.
proof fn lemma_overflow_extends(ipart: Seq<char>, frac: Seq<char>)
    requires
        all_digits(ipart),
        all_digits(frac),
        val_of_digits(ipart) > u64::MAX,
    ensures
        val_of_digits(ipart + frac) > u64::MAX,
{
    lemma_val_concat(ipart, frac);
    lemma_val_bounds(frac);
    lemma_val_bounds(ipart);
    crate::dec::lemma_pow10_pos(frac.len());
    vstd::arithmetic::mul::lemma_mul_inequality(
        1,
        pow10(frac.len()) as int,
        val_of_digits(ipart),
    );
    vstd::arithmetic::mul::lemma_mul_is_commutative(pow10(frac.len()) as int, val_of_digits(ipart));
    assert(1 * val_of_digits(ipart) == val_of_digits(ipart));
}

/// A nonzero mantissa whose fraction part was stripped of trailing zeros
/// does not end in a zero digit.
proof fn lemma_mant_tail(ipart: Seq<char>, frac: Seq<char>, mant: int)
    requires
        all_digits(ipart),
        all_digits(frac),
        frac.len() > 0,
        frac.last() != '0',
        mant == val_of_digits(ipart + frac),
    ensures
        mant % 10 != 0,
{
    let w = ipart + frac;
    assert(w.len() > 0);
    assert(w.last() == frac.last());
    assert(is_digit_char(w.last()));
    assert(val_of_digits(w) == 10 * val_of_digits(w.drop_last()) + digit_val(w.last()));
    assert(1 <= digit_val(w.last()) <= 9);
}

/// Every number in the tree is a well-formed decimal.
pub open spec fn json_num_wf(v: JsonV) -> bool
    decreases v, 0int,
{
    match v {
        JsonV::Num(d) => d.wf(),
        JsonV::Arr(es) => jsons_num_wf(es),
        JsonV::Obj(ms) => members_num_wf(ms),
        _ => true,
    }
}

/// Every number under every element is well-formed.
pub open spec fn jsons_num_wf(es: Seq<JsonV>) -> bool
    decreases es, 1int,
{
    es.len() == 0 || (json_num_wf(es[0]) && jsons_num_wf(es.drop_first()))
}

/// Every number under every member value is well-formed.
pub open spec fn members_num_wf(ms: Seq<(Seq<char>, JsonV)>) -> bool
    decreases ms, 1int,
{
    ms.len() == 0 || (json_num_wf(ms[0].1) && members_num_wf(ms.drop_first()))
}

pub proof fn lemma_jsons_num_wf_index(es: Seq<JsonV>, i: int)
    requires
        jsons_num_wf(es),
        0 <= i < es.len(),
    ensures
        json_num_wf(es[i]),
    decreases i,
{
    if i > 0 {
        assert(es.drop_first()[i - 1] == es[i]);
        lemma_jsons_num_wf_index(es.drop_first(), i - 1);
    }
}

pub proof fn lemma_members_num_wf_index(ms: Seq<(Seq<char>, JsonV)>, i: int)
    requires
        members_num_wf(ms),
        0 <= i < ms.len(),
    ensures
        json_num_wf(ms[i].1),
    decreases i,
{
    if i > 0 {
        assert(ms.drop_first()[i - 1] == ms[i]);
        lemma_members_num_wf_index(ms.drop_first(), i - 1);
    }
}


/// Putting a well-formed value in front keeps a list well-formed.
pub proof fn lemma_jsons_num_wf_cons(v: JsonV, es: Seq<JsonV>)
    requires
        json_num_wf(v),
        jsons_num_wf(es),
    ensures
        jsons_num_wf(seq![v] + es),
{
    let after = seq![v] + es;
    assert(after.len() > 0);
    assert(after[0] == v);
    assert(after.drop_first() =~= es);
}

/// Putting a member with a well-formed value in front keeps an object
/// well-formed.
pub proof fn lemma_members_num_wf_cons(key: Seq<char>, v: JsonV, ms: Seq<(Seq<char>, JsonV)>)
    requires
        json_num_wf(v),
        members_num_wf(ms),
    ensures
        members_num_wf(seq![(key, v)] + ms),
{
    let after = seq![(key, v)] + ms;
    assert(after.len() > 0);
    assert(after[0] == (key, v));
    assert(after.drop_first() =~= ms);
}

/// Parses a value at `i`; no leading whitespace.
fn parse_value(s: &Vec<char>, i: usize) -> (r: Result<(Json, usize), DecodeError>)
    requires
        i <= s@.len(),
    ensures
        match r {
            Ok((j, p)) => sp_value(s@, i as int) == Some((j@, p as int)) && i < p <= s@.len()
                && json_num_wf(j@),
            Err(_) => sp_value(s@, i as int) is None,
        },
    decreases s@.len() - i, 1int,
{
    let len = s.len();
    if i >= len {
        return Err(syntax_error());
    }
    let c = s[i];
    if c == '"' {
        let (t, j) = parse_string_body(s, i + 1)?;
        Ok((Json::Str(t), j))
    } else if c == 'n' {
        if len - i >= 4 && s[i + 1] == 'u' && s[i + 2] == 'l' && s[i + 3] == 'l' {
            Ok((Json::Null, i + 4))
        } else {
            Err(syntax_error())
        }
    } else if c == 't' {
        if len - i >= 4 && s[i + 1] == 'r' && s[i + 2] == 'u' && s[i + 3] == 'e' {
            Ok((Json::Bool(true), i + 4))
        } else {
            Err(syntax_error())
        }
    } else if c == 'f' {
        if len - i >= 5 && s[i + 1] == 'a' && s[i + 2] == 'l' && s[i + 3] == 's' && s[i + 4]
            == 'e' {
            Ok((Json::Bool(false), i + 5))
        } else {
            Err(syntax_error())
        }
    } else if c == '-' || is_digit(c) {
        let (d, j) = parse_number(s, i)?;
        Ok((Json::Num(d), j))
    } else if c == '[' {
        let j = skip_ws(s, i + 1);
        proof {
            assert(next_pos(s@.len() as int, sp_ws(s@, i as int + 1), i as int + 1) == j as int);
        }
        if j < len && s[j] == ']' {
            let es: Vec<Json> = Vec::new();
            let out = Json::Arr(es);
            proof {
                assert(out@->Arr_0 =~= Seq::<JsonV>::empty());
            }
            Ok((out, j + 1))
        } else {
            let (es, k) = parse_elems(s, j)?;
            let out = Json::Arr(es);
            Ok((out, k))
        }
    } else if c == '{' {
        let j = skip_ws(s, i + 1);
        proof {
            assert(next_pos(s@.len() as int, sp_ws(s@, i as int + 1), i as int + 1) == j as int);
        }
        if j < len && s[j] == '}' {
            let ms: Vec<(Vec<char>, Json)> = Vec::new();
            let out = Json::Obj(ms);
            proof {
                assert(out@->Obj_0 =~= Seq::<(Seq<char>, JsonV)>::empty());
            }
            Ok((out, j + 1))
        } else {
            let (ms, k) = parse_members(s, j)?;
            let out = Json::Obj(ms);
            Ok((out, k))
        }
    } else {
        Err(syntax_error())
    }
}

/// Parses array elements from the first element through the closing bracket.
#[verifier::rlimit(50)]
fn parse_elems(s: &Vec<char>, i: usize) -> (r: Result<(Vec<Json>, usize), DecodeError>)
    requires
        i <= s@.len(),
    ensures
        match r {
            Ok((es, p)) => sp_elems(s@, i as int) == Some((Json::Arr(es)@->Arr_0, p as int)) && i
                < p <= s@.len() && json_num_wf(Json::Arr(es)@),
            Err(_) => sp_elems(s@, i as int) is None,
        },
    decreases s@.len() - i, 2int,
{
    let len = s.len();
    if i >= len {
        return Err(syntax_error());
    }
    let (v, j0) = parse_value(s, i)?;
    let k = skip_ws(s, j0);
    proof {
        assert(at_least(sp_ws(s@, at_least(j0 as int, i as int + 1)), i as int + 1) == k as int);
    }
    if k < len && s[k] == ',' {
        let m = skip_ws(s, k + 1);
        proof {
            assert(next_pos(s@.len() as int, sp_ws(s@, k as int + 1), k as int + 1) == m as int);
        }
        let (mut es, e) = parse_elems(s, m)?;
        let ghost before = Json::Arr(es)@->Arr_0;
        let ghost oldes = es@;
        es.insert(0, v);
        proof {
            let after = Json::Arr(es)@->Arr_0;
            assert forall|q: int| 0 <= q < after.len() implies after[q] == (seq![v@]
                + before)[q] by {
                if q > 0 {
                    assert(es@[q] == oldes[q - 1]);
                }
            }
            assert(after =~= seq![v@] + before);
            assert(jsons_num_wf(before));
            lemma_jsons_num_wf_cons(v@, before);
        }
        Ok((es, e))
    } else if k < len && s[k] == ']' {
        let mut es: Vec<Json> = Vec::new();
        es.push(v);
        proof {
            let after = Json::Arr(es)@->Arr_0;
            assert(after =~= seq![v@] + Seq::<JsonV>::empty());
            assert(jsons_num_wf(Seq::<JsonV>::empty()));
            lemma_jsons_num_wf_cons(v@, Seq::<JsonV>::empty());
        }
        Ok((es, k + 1))
    } else {
        Err(syntax_error())
    }
}

/// Parses object members from the first key through the closing brace.
#[verifier::rlimit(50)]
fn parse_members(s: &Vec<char>, i: usize) -> (r: Result<(Vec<(Vec<char>, Json)>, usize), DecodeError>)
    requires
        i <= s@.len(),
    ensures
        match r {
            Ok((ms, p)) => sp_members(s@, i as int) == Some((Json::Obj(ms)@->Obj_0, p as int))
                && i < p <= s@.len() && json_num_wf(Json::Obj(ms)@),
            Err(_) => sp_members(s@, i as int) is None,
        },
    decreases s@.len() - i, 2int,
{
    let len = s.len();
    if i >= len || s[i] != '"' {
        return Err(syntax_error());
    }
    let (key, j0) = parse_string_body(s, i + 1)?;
    let k = skip_ws(s, j0);
    proof {
        assert(at_least(sp_ws(s@, at_least(j0 as int, i as int + 1)), i as int + 1) == k as int);
    }
    if k < len && s[k] == ':' {
        let m = skip_ws(s, k + 1);
        proof {
            assert(next_pos(s@.len() as int, sp_ws(s@, k as int + 1), k as int + 1) == m as int);
        }
        let (v, j2) = parse_value(s, m)?;
        let k2 = skip_ws(s, j2);
        proof {
            assert(at_least(sp_ws(s@, at_least(j2 as int, m as int + 1)), m as int + 1)
                == k2 as int);
        }
        if k2 < len && s[k2] == ',' {
            let nxt = skip_ws(s, k2 + 1);
            proof {
                assert(next_pos(s@.len() as int, sp_ws(s@, k2 as int + 1), k2 as int + 1)
                    == nxt as int);
            }
            let (mut ms, e) = parse_members(s, nxt)?;
            let ghost before = Json::Obj(ms)@->Obj_0;
            let ghost oldms = ms@;
            ms.insert(0, (key, v));
            proof {
                let after = Json::Obj(ms)@->Obj_0;
                assert forall|q: int| 0 <= q < after.len() implies after[q] == (seq![(key@, v@)]
                    + before)[q] by {
                    if q > 0 {
                        assert(ms@[q] == oldms[q - 1]);
                    }
                }
                assert(after =~= seq![(key@, v@)] + before);
                assert(members_num_wf(before));
                lemma_members_num_wf_cons(key@, v@, before);
            }
            Ok((ms, e))
        } else if k2 < len && s[k2] == '}' {
            let mut ms: Vec<(Vec<char>, Json)> = Vec::new();
            ms.push((key, v));
            proof {
                let after = Json::Obj(ms)@->Obj_0;
                assert(after =~= seq![(key@, v@)] + Seq::<(Seq<char>, JsonV)>::empty());
                assert(members_num_wf(Seq::<(Seq<char>, JsonV)>::empty()));
                lemma_members_num_wf_cons(key@, v@, Seq::<(Seq<char>, JsonV)>::empty());
            }
            Ok((ms, k2 + 1))
        } else {
            Err(syntax_error())
        }
    } else {
        Err(syntax_error())
    }
}

/// Parses a whole JSON document.
pub fn parse_json(s: &Vec<char>) -> (r: Result<Json, DecodeError>)
    ensures
        match r {
            Ok(j) => sp_json(s@) == Some(j@) && json_num_wf(j@),
            Err(_) => sp_json(s@) is None,
        },
{
    let i = skip_ws(s, 0);
    let (v, j) = parse_value(s, i)?;
    let e = skip_ws(s, j);
    if e == s.len() {
        Ok(v)
    } else {
        Err(syntax_error())
    }
}

/// Parses a whole document: one value, surrounded only by whitespace.
pub open spec fn sp_json(s: Seq<char>) -> Option<JsonV> {
    let i = sp_ws(s, 0);
    match sp_value(s, i) {
        None => None,
        Some((v, j)) => {
            if sp_ws(s, j) == s.len() {
                Some(v)
            } else {
                None
            }
        },
    }
}

} // verus!
// The serializer: canonical text for a JSON value, with no whitespace, and
// strings escaped only where the grammar demands it.

verus! {

/// The characters a string character is written as: a backslash escape for
/// the quote and the backslash, a `\u` escape for a control character, the
/// character itself otherwise.
pub open spec fn esc_char(c: char) -> Seq<char> {
    if c == '"' {
        seq!['\\', '"']
    } else if c == '\\' {
        seq!['\\', '\\']
    } else if (c as u32) < 32 {
        seq![
            '\\',
            'u',
            '0',
            '0',
            crate::dec::hex_char((c as u32) as int / 16),
            crate::dec::hex_char((c as u32) as int % 16),
        ]
    } else {
        seq![c]
    }
}

/// The escaped form of a whole string.
pub open spec fn esc_str(t: Seq<char>) -> Seq<char>
    decreases t.len(),
{
    if t.len() == 0 {
        Seq::empty()
    } else {
        esc_str(t.drop_last()) + esc_char(t.last())
    }
}

/// The canonical text of a value.
pub open spec fn ser_value(v: JsonV) -> Seq<char>
    decreases v, 0int,
{
    match v {
        JsonV::Null => seq!['n', 'u', 'l', 'l'],
        JsonV::Bool(b) => if b {
            seq!['t', 'r', 'u', 'e']
        } else {
            seq!['f', 'a', 'l', 's', 'e']
        },
        JsonV::Num(d) => crate::dec::dec_chars(d),
        JsonV::Str(t) => seq!['"'] + esc_str(t) + seq!['"'],
        JsonV::Arr(es) => seq!['['] + ser_elems(es) + seq![']'],
        JsonV::Obj(ms) => seq!['{'] + ser_members(ms) + seq!['}'],
    }
}

/// The canonical text of array elements, comma separated.
pub open spec fn ser_elems(es: Seq<JsonV>) -> Seq<char>
    decreases es, 1int,
{
    if es.len() == 0 {
        Seq::empty()
    } else if es.len() == 1 {
        ser_value(es[0])
    } else {
        ser_value(es[0]) + seq![','] + ser_elems(es.drop_first())
    }
}

/// The canonical text of object members, comma separated.
pub open spec fn ser_members(ms: Seq<(Seq<char>, JsonV)>) -> Seq<char>
    decreases ms, 1int,
{
    if ms.len() == 0 {
        Seq::empty()
    } else {
        let head = seq!['"'] + esc_str(ms[0].0) + seq!['"', ':'] + ser_value(ms[0].1);
        if ms.len() == 1 {
            head
        } else {
            head + seq![','] + ser_members(ms.drop_first())
        }
    }
}

/// Appends the escaped form of the characters of `t`.
fn write_escaped(t: &Vec<char>, out: &mut Vec<char>)
    ensures
        final(out)@ == old(out)@ + esc_str(t@),
{
    let ghost base = out@;
    let mut k: usize = 0;
    proof {
        assert(t@.subrange(0, 0) =~= Seq::<char>::empty());
    }
    while k < t.len()
        invariant
            k <= t@.len(),
            out@ == base + esc_str(t@.subrange(0, k as int)),
        decreases t@.len() - k,
    {
        let c = t[k];
        if c == '"' || c == '\\' {
            out.push('\\');
            out.push(c);
        } else if (c as u32) < 32 {
            let u = (c as u32) as u8;
            proof {
                assert(u == c as u32);
                assert(u as int == (c as u32) as int);
            }
            out.push('\\');
            out.push('u');
            out.push('0');
            out.push('0');
            out.push(crate::dec::hex_char_of(u / 16));
            out.push(crate::dec::hex_char_of(u % 16));
        } else {
            out.push(c);
        }
        proof {
            let pre = t@.subrange(0, k as int);
            let cur = t@.subrange(0, k as int + 1);
            assert(cur.drop_last() =~= pre);
            assert(cur.last() == c);
            assert(out@ =~= base + (esc_str(pre) + esc_char(c)));
        }
        k = k + 1;
    }
    proof {
        assert(t@.subrange(0, t@.len() as int) =~= t@);
    }
}

/// Appends the canonical text of a value.
pub fn write_value(j: &Json, out: &mut Vec<char>)
    requires
        json_num_wf(j@),
    ensures
        final(out)@ == old(out)@ + ser_value(j@),
    decreases *j, 0int,
{
    match j {
        Json::Null => {
            out.push('n');
            out.push('u');
            out.push('l');
            out.push('l');
            assert(out@ =~= old(out)@ + ser_value(j@));
        },
        Json::Bool(b) => {
            if *b {
                out.push('t');
                out.push('r');
                out.push('u');
                out.push('e');
            } else {
                out.push('f');
                out.push('a');
                out.push('l');
                out.push('s');
                out.push('e');
            }
            assert(out@ =~= old(out)@ + ser_value(j@));
        },
        Json::Num(d) => {
            crate::dec::push_dec_chars(out, d);
        },
        Json::Str(t) => {
            out.push('"');
            write_escaped(t, out);
            out.push('"');
            assert(out@ =~= old(out)@ + ser_value(j@));
        },
        Json::Arr(es) => {
            out.push('[');
            if es.len() > 0 {
                proof {
                    assert(j@->Arr_0.subrange(0, j@->Arr_0.len() as int) =~= j@->Arr_0);
                }
                write_elems(es, 0, out, Ghost(j@->Arr_0));
            } else {
                assert(j@->Arr_0 =~= Seq::<JsonV>::empty());
            }
            out.push(']');
            assert(out@ =~= old(out)@ + ser_value(j@));
        },
        Json::Obj(ms) => {
            out.push('{');
            if ms.len() > 0 {
                proof {
                    assert(j@->Obj_0.subrange(0, j@->Obj_0.len() as int) =~= j@->Obj_0);
                }
                write_members(ms, 0, out, Ghost(j@->Obj_0));
            } else {
                assert(j@->Obj_0 =~= Seq::<(Seq<char>, JsonV)>::empty());
            }
            out.push('}');
            assert(out@ =~= old(out)@ + ser_value(j@));
        },
    }
}

/// Appends the elements of an array from `idx` on.
fn write_elems(es: &Vec<Json>, idx: usize, out: &mut Vec<char>, Ghost(evs): Ghost<Seq<JsonV>>)
    requires
        idx < es@.len(),
        evs == Json::Arr(*es)@->Arr_0,
        json_num_wf(Json::Arr(*es)@),
    ensures
        final(out)@ == old(out)@ + ser_elems(evs.subrange(idx as int, evs.len() as int)),
    decreases *es, 1int, es@.len() - idx,
{
    proof {
        assert(evs[idx as int] == es@[idx as int]@);
        lemma_jsons_num_wf_index(evs, idx as int);
    }
    write_value(&es[idx], out);
    let ghost tail = evs.subrange(idx as int, evs.len() as int);
    if idx + 1 < es.len() {
        out.push(',');
        write_elems(es, idx + 1, out, Ghost(evs));
        proof {
            assert(tail.drop_first() =~= evs.subrange(idx as int + 1, evs.len() as int));
            assert(tail[0] == evs[idx as int]);
            assert(out@ =~= old(out)@ + (ser_value(evs[idx as int]) + seq![','] + ser_elems(
                tail.drop_first(),
            )));
        }
    } else {
        proof {
            assert(tail.len() == 1);
            assert(tail[0] == evs[idx as int]);
        }
    }
}

/// Appends the members of an object from `idx` on.
fn write_members(
    ms: &Vec<(Vec<char>, Json)>,
    idx: usize,
    out: &mut Vec<char>,
    Ghost(mvs): Ghost<Seq<(Seq<char>, JsonV)>>,
)
    requires
        idx < ms@.len(),
        mvs == Json::Obj(*ms)@->Obj_0,
        json_num_wf(Json::Obj(*ms)@),
    ensures
        final(out)@ == old(out)@ + ser_members(mvs.subrange(idx as int, mvs.len() as int)),
    decreases *ms, 1int, ms@.len() - idx,
{
    proof {
        assert(mvs[idx as int] == (ms@[idx as int].0@, ms@[idx as int].1@));
        lemma_members_num_wf_index(mvs, idx as int);
    }
    out.push('"');
    write_escaped(&ms[idx].0, out);
    out.push('"');
    out.push(':');
    write_value(&ms[idx].1, out);
    let ghost tail = mvs.subrange(idx as int, mvs.len() as int);
    let ghost head = seq!['"'] + esc_str(mvs[idx as int].0) + seq!['"', ':'] + ser_value(
        mvs[idx as int].1,
    );
    if idx + 1 < ms.len() {
        out.push(',');
        write_members(ms, idx + 1, out, Ghost(mvs));
        proof {
            assert(tail.drop_first() =~= mvs.subrange(idx as int + 1, mvs.len() as int));
            assert(tail[0] == mvs[idx as int]);
            assert(out@ =~= old(out)@ + (head + seq![','] + ser_members(tail.drop_first())));
        }
    } else {
        proof {
            assert(tail.len() == 1);
            assert(tail[0] == mvs[idx as int]);
            assert(out@ =~= old(out)@ + head);
        }
    }
}

/// The canonical text of a whole document.
pub fn render_json(j: &Json) -> (r: Vec<char>)
    requires
        json_num_wf(j@),
    ensures
        r@ == ser_value(j@),
{
    let mut out: Vec<char> = Vec::new();
    write_value(j, &mut out);
    proof {
        assert(out@ =~= ser_value(j@));
    }
    out
}

} // verus!
// The canonical text of a value parses back to the value.

verus! {

/// The hexadecimal digit characters carry their values.
proof fn lemma_hex_char_val(d: int)
    requires
        0 <= d < 16,
    ensures
        is_hex_digit(crate::dec::hex_char(d)),
        hex_val(crate::dec::hex_char(d)) == d,
{
    if d < 10 {
        crate::dec::lemma_digit_char(d);
    }
}

/// `esc_str` unfolded from the front.
proof fn lemma_esc_str_front(t: Seq<char>)
    requires
        t.len() > 0,
    ensures
        esc_str(t) == esc_char(t[0]) + esc_str(t.drop_first()),
    decreases t.len(),
{
    if t.len() == 1 {
        assert(t.drop_last() =~= Seq::<char>::empty());
        assert(t.drop_first() =~= Seq::<char>::empty());
        assert(esc_str(t) =~= esc_char(t[0]) + esc_str(t.drop_first()));
    } else {
        lemma_esc_str_front(t.drop_last());
        assert(t.drop_last()[0] == t[0]);
        assert(t.drop_last().drop_first() =~= t.drop_first().drop_last());
        assert(t.drop_first().last() == t.last());
        assert(esc_str(t.drop_first()) == esc_str(t.drop_first().drop_last()) + esc_char(
            t.last(),
        ));
        assert(esc_str(t) =~= esc_char(t[0]) + esc_str(t.drop_first()));
    }
}

/// An escaped string body followed by its closing quote parses back to the
/// string.
proof fn lemma_string_body_roundtrip(s: Seq<char>, i: int, t: Seq<char>)
    requires
        0 <= i,
        i + esc_str(t).len() + 1 <= s.len(),
        s.subrange(i, i + esc_str(t).len() + 1) == esc_str(t) + seq!['"'],
    ensures
        sp_string_body(s, i) == Some((t, i + esc_str(t).len() + 1)),
    decreases t.len(),
{
    let e = esc_str(t);
    let block = e + seq!['"'];
    assert(s[i] == block[0]);
    if t.len() == 0 {
        assert(e =~= Seq::<char>::empty());
        assert(s[i] == '"');
    } else {
        lemma_esc_str_front(t);
        let c = t[0];
        let rest = t.drop_first();
        let erest = esc_str(rest);
        if c == '"' || c == '\\' {
            assert(esc_char(c) =~= seq!['\\', c]);
            assert(s[i] == '\\');
            assert(s[i + 1] == block[1]);
            assert(s[i + 1] == c);
            assert(is_escape_code(c));
            assert(unescape(c) == c);
            assert(s.subrange(i + 2, i + 2 + erest.len() + 1) =~= erest + seq!['"']) by {
                assert(forall|k: int|
                    0 <= k < erest.len() + 1 ==> #[trigger] s.subrange(
                        i + 2,
                        i + 2 + erest.len() + 1,
                    )[k] == block[k + 2]);
            }
            lemma_string_body_roundtrip(s, i + 2, rest);
            assert(seq![c] + rest =~= t);
        } else if (c as u32) < 32 {
            let cu = (c as u32) as int;
            let h1 = crate::dec::hex_char(cu / 16);
            let h0 = crate::dec::hex_char(cu % 16);
            assert(esc_char(c) =~= seq!['\\', 'u', '0', '0', h1, h0]);
            assert(s[i] == '\\');
            assert(s[i + 1] == block[1] && s[i + 2] == block[2] && s[i + 3] == block[3] && s[i
                + 4] == block[4] && s[i + 5] == block[5]);
            assert(s[i + 1] == 'u' && s[i + 2] == '0' && s[i + 3] == '0' && s[i + 4] == h1 && s[i
                + 5] == h0);
            lemma_hex_char_val(cu / 16);
            lemma_hex_char_val(cu % 16);
            assert(is_hex_digit('0') && hex_val('0') == 0);
            assert(four_hex_at(s, i + 2));
            assert(four_hex_val(s, i + 2) == 16 * (cu / 16) + cu % 16);
            assert(four_hex_val(s, i + 2) == cu);
            assert(!is_high_surrogate(cu) && !is_low_surrogate(cu));
            assert(((cu as u32) as char) == c) by {
                vstd::utf8::char_u32_cast(c, c as u32);
            }
            assert(s.subrange(i + 6, i + 6 + erest.len() + 1) =~= erest + seq!['"']) by {
                assert(forall|k: int|
                    0 <= k < erest.len() + 1 ==> #[trigger] s.subrange(
                        i + 6,
                        i + 6 + erest.len() + 1,
                    )[k] == block[k + 6]);
            }
            lemma_string_body_roundtrip(s, i + 6, rest);
            assert(seq![c] + rest =~= t);
        } else {
            assert(esc_char(c) =~= seq![c]);
            assert(s[i] == c);
            assert(s[i] != '"' && s[i] != '\\');
            assert(s.subrange(i + 1, i + 1 + erest.len() + 1) =~= erest + seq!['"']) by {
                assert(forall|k: int|
                    0 <= k < erest.len() + 1 ==> #[trigger] s.subrange(
                        i + 1,
                        i + 1 + erest.len() + 1,
                    )[k] == block[k + 1]);
            }
            lemma_string_body_roundtrip(s, i + 1, rest);
            assert(seq![c] + rest =~= t);
        }
    }
}

/// Digits bounded by a non-digit scan to exactly their end.
proof fn lemma_digits_end_block(s: Seq<char>, a: int, b: int)
    requires
        0 <= a <= b <= s.len(),
        all_digits(s.subrange(a, b)),
        b == s.len() || !is_digit_char(s[b]),
    ensures
        digits_end(s, a) == b,
    decreases b - a,
{
    if a < b {
        assert(is_digit_char(s[a])) by {
            assert(s.subrange(a, b)[0] == s[a]);
        }
        assert(all_digits(s.subrange(a + 1, b))) by {
            assert(forall|k: int|
                0 <= k < b - a - 1 ==> #[trigger] s.subrange(a + 1, b)[k] == s.subrange(a, b)[k
                    + 1]);
        }
        lemma_digits_end_block(s, a + 1, b);
    }
}

/// The canonical text of a well-formed decimal, followed by anything that
/// cannot extend a number, parses back to the decimal.
proof fn lemma_number_roundtrip(s: Seq<char>, i: int, d: Dec)
    requires
        d.wf(),
        0 <= i,
        i + crate::dec::dec_chars(d).len() <= s.len(),
        s.subrange(i, i + crate::dec::dec_chars(d).len()) == crate::dec::dec_chars(d),
        i + crate::dec::dec_chars(d).len() == s.len() || (!is_digit_char(
            s[i + crate::dec::dec_chars(d).len()],
        ) && s[i + crate::dec::dec_chars(d).len()] != '.' && s[i + crate::dec::dec_chars(d).len()]
            != 'e' && s[i + crate::dec::dec_chars(d).len()] != 'E'),
    ensures
        sp_number(s, i) == Some((d, i + crate::dec::dec_chars(d).len())),
{
    let nc = crate::dec::dec_chars(d);
    let endpos = i + nc.len();
    let p = if d.neg {
        i + 1
    } else {
        i
    };
    let powscale = pow10(d.scale as nat);
    crate::dec::lemma_pow10_pos(d.scale as nat);
    let ipval = d.mant as nat / powscale;
    let fracval = d.mant as nat % powscale;
    let ip = digits_of(ipval);
    crate::dec::lemma_digits_of_props(ipval);
    vstd::arithmetic::div_mod::lemma_fundamental_div_mod(d.mant as int, powscale as int);
    if d.neg {
        assert(s[i] == nc[0]);
        assert(nc[0] == '-');
    }
    if d.scale == 0 {
        assert(powscale == 1);
        vstd::arithmetic::div_mod::lemma_mod_bound(d.mant as int, powscale as int);
        assert(fracval == 0);
        assert(d.mant as int == powscale as int * ipval + fracval);
        assert(1 * ipval == ipval) by {
            vstd::arithmetic::mul::lemma_mul_basics(ipval as int);
        }
        assert(ipval == d.mant);
        assert(fracval == 0);
        let mag = ip;
        assert(nc =~= if d.neg {
            seq!['-'] + mag
        } else {
            mag
        });
        assert(s.subrange(p, endpos) =~= ip) by {
            assert(forall|k: int|
                0 <= k < ip.len() ==> #[trigger] s.subrange(p, endpos)[k] == nc[k + (p - i)]);
        }
        assert(all_digits(s.subrange(p, endpos)));
        lemma_digits_end_block(s, p, endpos);
        assert(is_digit_char(s[p])) by {
            assert(s.subrange(p, endpos)[0] == s[p]);
        }
        // no leading zero unless the single digit zero
        if s[p] == '0' && p + 1 < s.len() && is_digit_char(s[p + 1]) {
            assert(ip[0] == '0');
            assert(ipval == 0);
            assert(ip.len() == 1);
            assert(p + 1 == endpos);
            assert(false);
        }
        assert(s.subrange(p, digits_end(s, p)) == s.subrange(p, endpos));
        assert(val_of_digits(s.subrange(p, endpos)) == d.mant as int);
        assert(make_dec(d.neg, d.mant as int, 0) == d);
    } else {
        let frac = digits_pad(fracval, d.scale as nat);
        crate::dec::lemma_digits_pad_props(fracval, d.scale as nat);
        let mag = ip + seq!['.'] + frac;
        assert(nc =~= if d.neg {
            seq!['-'] + mag
        } else {
            mag
        });
        let dot = p + ip.len() as int;
        let e2 = dot + 1 + d.scale as int;
        assert(e2 == endpos);
        assert(s.subrange(p, dot) =~= ip) by {
            assert(forall|k: int|
                0 <= k < ip.len() ==> #[trigger] s.subrange(p, dot)[k] == nc[k + (p - i)]);
        }
        assert(s[dot] == nc[dot - i]);
        assert(s[dot] == '.');
        assert(s.subrange(dot + 1, e2) =~= frac) by {
            assert(forall|k: int|
                0 <= k < frac.len() ==> #[trigger] s.subrange(dot + 1, e2)[k] == nc[k + (dot
                    + 1 - i)]);
        }
        assert(all_digits(s.subrange(p, dot)));
        lemma_digits_end_block(s, p, dot);
        assert(all_digits(s.subrange(dot + 1, e2)));
        lemma_digits_end_block(s, dot + 1, e2);
        assert(is_digit_char(s[p])) by {
            assert(s.subrange(p, dot)[0] == s[p]);
        }
        if s[p] == '0' && p + 1 < s.len() && is_digit_char(s[p + 1]) {
            assert(ip[0] == '0');
            assert(ipval == 0);
            assert(ip.len() == 1);
            assert(p + 1 == dot);
            assert(s[dot] == '.');
            assert(false);
        }
        // the written fraction carries no trailing zero, so stripping is the
        // identity
        assert(frac.last() == crate::dec::digit_char((fracval % 10) as int));
        assert(fracval % 10 == d.mant % 10) by {
            assert(powscale == 10 * pow10((d.scale - 1) as nat));
            vstd::arithmetic::mul::lemma_mul_is_commutative(
                10,
                pow10((d.scale - 1) as nat) as int,
            );
            vstd::arithmetic::div_mod::lemma_mod_mod(
                d.mant as int,
                10,
                pow10((d.scale - 1) as nat) as int,
            );
        }
        assert(frac.last() != '0') by {
            crate::dec::lemma_digit_char((d.mant % 10) as int);
        }
        assert(strip_zeros(frac) == frac);
        // the mantissa reassembles from the two digit blocks
        crate::dec::lemma_val_concat(ip, frac);
        assert(val_of_digits(ip + frac) == ipval * powscale + fracval) by {
            assert(pow10(frac.len()) == powscale);
        }
        assert(val_of_digits(ip + frac) == d.mant);
        assert(make_dec(d.neg, d.mant as int, d.scale as int) == d);
        assert(sp_number(s, i) == Some((d, e2)));
    }
}

} // verus!
// Whole canonical documents parse back, by one induction over the tree.

verus! {

/// The canonical text of a value is non-empty, and its first character is
/// no whitespace, separator or closing bracket.
proof fn lemma_ser_value_first(v: JsonV)
    ensures
        ser_value(v).len() >= 1,
        !is_ws_char(ser_value(v)[0]),
        ser_value(v)[0] != ']',
        ser_value(v)[0] != '}',
        ser_value(v)[0] != ',',
        ser_value(v)[0] != ':',
{
    match v {
        JsonV::Num(d) => {
            let nc = crate::dec::dec_chars(d);
            if d.scale == 0 {
                let ip = digits_of(d.mant as nat);
                crate::dec::lemma_digits_of_props(d.mant as nat);
                assert(nc == if d.neg {
                    seq!['-'] + ip
                } else {
                    ip
                });
                if d.neg {
                    assert(nc[0] == '-');
                } else {
                    assert(nc[0] == ip[0]);
                    assert(is_digit_char(nc[0]));
                }
            } else {
                let ip = digits_of(d.mant as nat / pow10(d.scale as nat));
                crate::dec::lemma_digits_of_props(d.mant as nat / pow10(d.scale as nat));
                let mag = ip + seq!['.'] + crate::dec::digits_pad(
                    d.mant as nat % pow10(d.scale as nat),
                    d.scale as nat,
                );
                assert(mag[0] == ip[0]);
                assert(nc == if d.neg {
                    seq!['-'] + mag
                } else {
                    mag
                });
                if d.neg {
                    assert(nc[0] == '-');
                } else {
                    assert(nc[0] == ip[0]);
                    assert(is_digit_char(nc[0]));
                }
            }
        },
        _ => {},
    }
}

/// The canonical text of a value parses back to the value, with anything
/// that cannot extend a number token after it.
#[verifier::rlimit(100)]
proof fn lemma_value_text_roundtrip(s: Seq<char>, i: int, v: JsonV)
    requires
        json_num_wf(v),
        0 <= i,
        i + ser_value(v).len() <= s.len(),
        s.subrange(i, i + ser_value(v).len()) == ser_value(v),
        i + ser_value(v).len() == s.len() || (!is_digit_char(s[i + ser_value(v).len()]) && s[i
            + ser_value(v).len()] != '.' && s[i + ser_value(v).len()] != 'e' && s[i
            + ser_value(v).len()] != 'E'),
    ensures
        sp_value(s, i) == Some((v, i + ser_value(v).len())),
    decreases v, 0int,
{
    let sv = ser_value(v);
    let endpos = i + sv.len();
    lemma_ser_value_first(v);
    assert(s[i] == sv[0]) by {
        assert(s.subrange(i, endpos)[0] == s[i]);
    }
    assert(forall|k: int| 0 <= k < sv.len() ==> s[i + k] == #[trigger] sv[k]) by {
        assert(forall|k: int|
            0 <= k < sv.len() ==> #[trigger] s.subrange(i, endpos)[k] == s[i + k]);
    }
    match v {
        JsonV::Null => {
            assert(s[i] == 'n' && s[i + 1] == 'u' && s[i + 2] == 'l' && s[i + 3] == 'l');
        },
        JsonV::Bool(b) => {
            if b {
                assert(s[i] == 't' && s[i + 1] == 'r' && s[i + 2] == 'u' && s[i + 3] == 'e');
            } else {
                assert(s[i] == 'f' && s[i + 1] == 'a' && s[i + 2] == 'l' && s[i + 3] == 's' && s[i
                    + 4] == 'e');
            }
        },
        JsonV::Num(d) => {
            lemma_number_roundtrip(s, i, d);
            assert(s[i] == '-' || is_digit_char(s[i]));
            assert(s[i] != '"' && s[i] != 'n' && s[i] != 't' && s[i] != 'f');
        },
        JsonV::Str(t) => {
            assert(s[i] == '"');
            let e = esc_str(t);
            assert(s.subrange(i + 1, i + 1 + e.len() + 1) =~= e + seq!['"']) by {
                assert(forall|k: int|
                    0 <= k < e.len() + 1 ==> #[trigger] (e + seq!['"'])[k] == sv[k + 1]);
            }
            lemma_string_body_roundtrip(s, i + 1, t);
        },
        JsonV::Arr(es) => {
            assert(s[i] == '[');
            assert(sv =~= seq!['['] + ser_elems(es) + seq![']']);
            if es.len() == 0 {
                assert(ser_elems(es) =~= Seq::<char>::empty());
                assert(sv[1] == ']');
                assert(s[i + 1] == ']');
                assert(sp_ws(s, i + 1) == i + 1);
                assert(next_pos(s.len() as int, sp_ws(s, i + 1), i + 1) == i + 1);
                assert(sp_value(s, i) == Some((JsonV::Arr(Seq::empty()), i + 2)));
                assert(es =~= Seq::<JsonV>::empty());
            } else {
                lemma_ser_elems_first(es);
                assert(s[i + 1] == ser_elems(es)[0]) by {
                    assert(sv[1] == ser_elems(es)[0]);
                }
                assert(!is_ws_char(s[i + 1]) && s[i + 1] != ']');
                assert(sp_ws(s, i + 1) == i + 1);
                assert(next_pos(s.len() as int, sp_ws(s, i + 1), i + 1) == i + 1);
                assert(s.subrange(i + 1, i + 1 + ser_elems(es).len() + 1) =~= ser_elems(es)
                    + seq![']']) by {
                    assert(forall|k: int|
                        0 <= k < ser_elems(es).len() + 1 ==> #[trigger] (ser_elems(es)
                            + seq![']'])[k] == sv[k + 1]);
                }
                lemma_elems_text_roundtrip(s, i + 1, es);
            }
        },
        JsonV::Obj(ms) => {
            assert(s[i] == '{');
            assert(sv =~= seq!['{'] + ser_members(ms) + seq!['}']);
            if ms.len() == 0 {
                assert(ser_members(ms) =~= Seq::<char>::empty());
                assert(sv[1] == '}');
                assert(s[i + 1] == '}');
                assert(sp_ws(s, i + 1) == i + 1);
                assert(next_pos(s.len() as int, sp_ws(s, i + 1), i + 1) == i + 1);
                assert(sp_value(s, i) == Some((JsonV::Obj(Seq::empty()), i + 2)));
                assert(ms =~= Seq::<(Seq<char>, JsonV)>::empty());
            } else {
                assert(ser_members(ms)[0] == '"') by {
                    assert((seq!['"'] + esc_str(ms[0].0) + seq!['"', ':'] + ser_value(
                        ms[0].1,
                    ))[0] == '"');
                }
                assert(s[i + 1] == ser_members(ms)[0]) by {
                    assert(sv[1] == ser_members(ms)[0]);
                }
                assert(!is_ws_char(s[i + 1]) && s[i + 1] != '}');
                assert(sp_ws(s, i + 1) == i + 1);
                assert(next_pos(s.len() as int, sp_ws(s, i + 1), i + 1) == i + 1);
                assert(s.subrange(i + 1, i + 1 + ser_members(ms).len() + 1) =~= ser_members(ms)
                    + seq!['}']) by {
                    assert(forall|k: int|
                        0 <= k < ser_members(ms).len() + 1 ==> #[trigger] (ser_members(ms)
                            + seq!['}'])[k] == sv[k + 1]);
                }
                lemma_members_text_roundtrip(s, i + 1, ms);
            }
        },
    }
}

/// The canonical text of a non-empty element list starts as its first
/// value starts.
proof fn lemma_ser_elems_first(es: Seq<JsonV>)
    requires
        es.len() > 0,
    ensures
        ser_elems(es).len() >= 1,
        ser_elems(es)[0] == ser_value(es[0])[0],
        !is_ws_char(ser_elems(es)[0]),
        ser_elems(es)[0] != ']',
{
    lemma_ser_value_first(es[0]);
    if es.len() > 1 {
        assert((ser_value(es[0]) + seq![','] + ser_elems(es.drop_first()))[0] == ser_value(
            es[0],
        )[0]);
    }
}

/// Element texts followed by the closing bracket parse back to the elements.
proof fn lemma_elems_text_roundtrip(s: Seq<char>, i: int, es: Seq<JsonV>)
    requires
        jsons_num_wf(es),
        es.len() > 0,
        0 <= i,
        i + ser_elems(es).len() + 1 <= s.len(),
        s.subrange(i, i + ser_elems(es).len() + 1) == ser_elems(es) + seq![']'],
    ensures
        sp_elems(s, i) == Some((es, i + ser_elems(es).len() + 1)),
    decreases es, 1int,
{
    let se = ser_elems(es);
    let block = se + seq![']'];
    let v0 = ser_value(es[0]);
    lemma_ser_value_first(es[0]);
    assert(forall|k: int| 0 <= k < block.len() ==> s[i + k] == #[trigger] block[k]) by {
        assert(forall|k: int|
            0 <= k < block.len() ==> #[trigger] s.subrange(i, i + se.len() + 1)[k] == s[i + k]);
    }
    if es.len() == 1 {
        assert(se =~= v0);
        assert(s.subrange(i, i + v0.len()) =~= v0) by {
            assert(forall|k: int| 0 <= k < v0.len() ==> #[trigger] v0[k] == block[k]);
        }
        assert(block[v0.len() as int] == ']');
        assert(s[i + v0.len()] == ']');
        lemma_value_text_roundtrip(s, i, es[0]);
        let j0 = i + v0.len();
        assert(sp_ws(s, j0) == j0);
        assert(at_least(sp_ws(s, at_least(j0, i + 1)), i + 1) == j0);
        assert(es =~= seq![es[0]]);
    } else {
        assert(se =~= v0 + seq![','] + ser_elems(es.drop_first()));
        assert(s.subrange(i, i + v0.len()) =~= v0) by {
            assert(forall|k: int| 0 <= k < v0.len() ==> #[trigger] v0[k] == block[k]);
        }
        assert(block[v0.len() as int] == ',');
        assert(s[i + v0.len()] == ',');
        lemma_value_text_roundtrip(s, i, es[0]);
        let j0 = i + v0.len();
        assert(sp_ws(s, j0) == j0);
        assert(at_least(sp_ws(s, at_least(j0, i + 1)), i + 1) == j0);
        let rest = es.drop_first();
        lemma_ser_elems_first(rest);
        assert(s[j0 + 1] == ser_elems(rest)[0]) by {
            assert(block[v0.len() as int + 1] == ser_elems(rest)[0]);
        }
        assert(sp_ws(s, j0 + 1) == j0 + 1);
        assert(next_pos(s.len() as int, sp_ws(s, j0 + 1), j0 + 1) == j0 + 1);
        assert(s.subrange(j0 + 1, j0 + 1 + ser_elems(rest).len() + 1) =~= ser_elems(rest)
            + seq![']']) by {
            assert(forall|k: int|
                0 <= k < ser_elems(rest).len() + 1 ==> #[trigger] (ser_elems(rest)
                    + seq![']'])[k] == block[k + v0.len() + 1]);
        }
        lemma_elems_text_roundtrip(s, j0 + 1, rest);
        assert(seq![es[0]] + rest =~= es);
    }
}

/// Member texts followed by the closing brace parse back to the members.
proof fn lemma_members_text_roundtrip(s: Seq<char>, i: int, ms: Seq<(Seq<char>, JsonV)>)
    requires
        members_num_wf(ms),
        ms.len() > 0,
        0 <= i,
        i + ser_members(ms).len() + 1 <= s.len(),
        s.subrange(i, i + ser_members(ms).len() + 1) == ser_members(ms) + seq!['}'],
    ensures
        sp_members(s, i) == Some((ms, i + ser_members(ms).len() + 1)),
    decreases ms, 1int,
{
    let sm = ser_members(ms);
    let block = sm + seq!['}'];
    let key = ms[0].0;
    let v0 = ser_value(ms[0].1);
    let ek = esc_str(key);
    let head = seq!['"'] + ek + seq!['"', ':'] + v0;
    lemma_ser_value_first(ms[0].1);
    assert(forall|k: int| 0 <= k < block.len() ==> s[i + k] == #[trigger] block[k]) by {
        assert(forall|k: int|
            0 <= k < block.len() ==> #[trigger] s.subrange(i, i + sm.len() + 1)[k] == s[i + k]);
    }
    assert(sm =~= if ms.len() == 1 {
        head
    } else {
        head + seq![','] + ser_members(ms.drop_first())
    });
    assert(forall|k: int| 0 <= k < head.len() ==> #[trigger] head[k] == block[k]);
    assert(head[0] == '"');
    assert(block[0] == '"');
    assert(s[i] == '"');
    assert(s.subrange(i + 1, i + 1 + ek.len() + 1) =~= ek + seq!['"']) by {
        assert(forall|k: int|
            0 <= k < ek.len() + 1 ==> #[trigger] (ek + seq!['"'])[k] == head[k + 1]);
    }
    lemma_string_body_roundtrip(s, i + 1, key);
    let j0 = i + 1 + ek.len() + 1;
    assert(s[j0] == ':') by {
        assert(head[j0 - i] == ':');
    }
    assert(sp_ws(s, j0) == j0);
    assert(at_least(sp_ws(s, at_least(j0, i + 1)), i + 1) == j0);
    let m = j0 + 1;
    assert(s[m] == v0[0]) by {
        assert(head[m - i] == v0[0]);
    }
    assert(sp_ws(s, m) == m);
    assert(next_pos(s.len() as int, sp_ws(s, m), m) == m);
    assert(s.subrange(m, m + v0.len()) =~= v0) by {
        assert(forall|k: int| 0 <= k < v0.len() ==> #[trigger] v0[k] == head[k + (m - i)]);
    }
    let j2 = m + v0.len();
    assert(j2 == i + head.len());
    if ms.len() == 1 {
        assert(block[head.len() as int] == '}');
        assert(s[j2] == '}');
        lemma_value_text_roundtrip(s, m, ms[0].1);
        assert(sp_ws(s, j2) == j2);
        assert(at_least(sp_ws(s, at_least(j2, m + 1)), m + 1) == j2);
        assert(ms =~= seq![(key, ms[0].1)]);
        assert(seq![(key, ms[0].1)] =~= seq![ms[0]]);
    } else {
        assert(s[j2] == ',') by {
            assert(block[head.len() as int] == ',');
        }
        lemma_value_text_roundtrip(s, m, ms[0].1);
        assert(sp_ws(s, j2) == j2);
        assert(at_least(sp_ws(s, at_least(j2, m + 1)), m + 1) == j2);
        let rest = ms.drop_first();
        assert(ser_members(rest)[0] == '"') by {
            assert((seq!['"'] + esc_str(rest[0].0) + seq!['"', ':'] + ser_value(rest[0].1))[0]
                == '"');
        }
        assert(s[j2 + 1] == ser_members(rest)[0]) by {
            assert(block[head.len() as int + 1] == ser_members(rest)[0]);
        }
        assert(sp_ws(s, j2 + 1) == j2 + 1);
        assert(next_pos(s.len() as int, sp_ws(s, j2 + 1), j2 + 1) == j2 + 1);
        assert(s.subrange(j2 + 1, j2 + 1 + ser_members(rest).len() + 1) =~= ser_members(rest)
            + seq!['}']) by {
            assert(forall|k: int|
                0 <= k < ser_members(rest).len() + 1 ==> #[trigger] (ser_members(rest)
                    + seq!['}'])[k] == block[k + head.len() + 1]);
        }
        lemma_members_text_roundtrip(s, j2 + 1, rest);
        assert(seq![(key, ms[0].1)] + rest =~= ms);
    }
}

/// The law at the document level: the canonical text of a well-formed value
/// parses back to the value.
pub proof fn lemma_json_text_roundtrip(v: JsonV)
    requires
        json_num_wf(v),
    ensures
        sp_json(ser_value(v)) == Some(v),
{
    let s = ser_value(v);
    lemma_ser_value_first(v);
    assert(sp_ws(s, 0) == 0);
    assert(s.subrange(0, s.len() as int) =~= s);
    lemma_value_text_roundtrip(s, 0, v);
    assert(sp_ws(s, s.len() as int) == s.len());
}

} // verus!
