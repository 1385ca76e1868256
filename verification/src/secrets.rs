//! Reading a secret out of the text of a line-oriented `KEY=value` file.
//!
//! Lines beginning with `#` are comments. The value is the text after the
//! first `=` of the matched line itself (not of the whole file). Reading the
//! file from disk is the caller's business; this module only parses its text.

use vstd::prelude::*;

use crate::text::{contains_seq, str_to_chars};

verus! {

/// The position of the first line break at or after `i`.
pub open spec fn line_end(s: Seq<char>, i: int) -> int
    decreases s.len() - i,
{
    if 0 <= i < s.len() && s[i] != '\n' {
        line_end(s, i + 1)
    } else {
        i
    }
}

/// A line as read: without its terminator, and without a trailing carriage
/// return.
pub open spec fn line_text(s: Seq<char>) -> Seq<char> {
    if s.len() > 0 && s.last() == '\r' {
        s.drop_last()
    } else {
        s
    }
}

/// The position of the first `=` at or after `i`, or the length.
pub open spec fn eq_pos(s: Seq<char>, i: int) -> int
    decreases s.len() - i,
{
    if 0 <= i < s.len() && s[i] != '=' {
        eq_pos(s, i + 1)
    } else {
        i
    }
}

/// Whether a line yields the secret: not a comment, and holding `key=`.
pub open spec fn line_matches(line: Seq<char>, key: Seq<char>) -> bool {
    &&& !(line.len() > 0 && line[0] == '#')
    &&& contains_seq(line, key + seq!['='])
}

/// The value of a matching line: the text after its first `=`.
pub open spec fn line_value(line: Seq<char>) -> Seq<char> {
    line.subrange(eq_pos(line, 0) + 1, line.len() as int)
}

/// The secret in the file text from position `i` on: the value of the first
/// matching line.
pub open spec fn secret_from(s: Seq<char>, key: Seq<char>, i: int) -> Option<Seq<char>>
    decreases s.len() - i,
{
    if i < 0 || i >= s.len() {
        None
    } else {
        let e = line_end(s, i);
        let line = line_text(s.subrange(i, e));
        if line_matches(line, key) {
            Some(line_value(line))
        } else if e < s.len() {
            secret_from(s, key, if e + 1 > i + 1 {
                e + 1
            } else {
                i + 1
            })
        } else {
            None
        }
    }
}

/// The secret named `key` in a whole file text.
pub open spec fn spec_secret(s: Seq<char>, key: Seq<char>) -> Option<Seq<char>> {
    secret_from(s, key, 0)
}

proof fn lemma_line_end(s: Seq<char>, i: int)
    requires
        0 <= i <= s.len(),
    ensures
        i <= line_end(s, i) <= s.len(),
        line_end(s, i) < s.len() ==> s[line_end(s, i)] == '\n',
        forall|j: int| i <= j <= line_end(s, i) ==> line_end(s, j) == line_end(s, i),
    decreases s.len() - i,
{
    if i < s.len() && s[i] != '\n' {
        lemma_line_end(s, i + 1);
    }
}

proof fn lemma_eq_pos(s: Seq<char>, i: int)
    requires
        0 <= i <= s.len(),
    ensures
        i <= eq_pos(s, i) <= s.len(),
        eq_pos(s, i) < s.len() ==> s[eq_pos(s, i)] == '=',
        forall|j: int| i <= j <= eq_pos(s, i) ==> eq_pos(s, j) == eq_pos(s, i),
    decreases s.len() - i,
{
    if i < s.len() && s[i] != '=' {
        lemma_eq_pos(s, i + 1);
    }
}

/// Finds the first line break at or after `i`.
fn scan_line_end(v: &Vec<char>, i: usize) -> (r: usize)
    requires
        i <= v@.len(),
    ensures
        r as int == line_end(v@, i as int),
        i <= r <= v@.len(),
{
    let mut r = i;
    while r < v.len() && v[r] != '\n'
        invariant
            i <= r <= v@.len(),
            line_end(v@, i as int) == line_end(v@, r as int),
        decreases v@.len() - r,
    {
        r = r + 1;
    }
    r
}

/// Finds the first `=` at or after `i`.
fn scan_eq(v: &Vec<char>, i: usize) -> (r: usize)
    requires
        i <= v@.len(),
    ensures
        r as int == eq_pos(v@, i as int),
        i <= r <= v@.len(),
{
    let mut r = i;
    while r < v.len() && v[r] != '='
        invariant
            i <= r <= v@.len(),
            eq_pos(v@, i as int) == eq_pos(v@, r as int),
        decreases v@.len() - r,
    {
        r = r + 1;
    }
    r
}

/// Reads the secret named `key` from the file text `contents`: the text
/// after the first `=` of the first non-comment line holding `key=`; `None`
/// when no line matches.
pub fn load_secret(contents: &str, key: &str) -> (r: Option<String>)
    ensures
        match r {
            Some(v) => spec_secret(contents@, key@) == Some(v@),
            None => spec_secret(contents@, key@) is None,
        },
{
    let s = str_to_chars(contents);
    let mut needle = str_to_chars(key);
    needle.push('=');
    proof {
        assert(needle@ =~= key@ + seq!['=']);
    }
    let mut i: usize = 0;
    #[verifier::loop_isolation(false)]
    while i < s.len()
        invariant
            0 <= i <= s@.len(),
            spec_secret(contents@, key@) == secret_from(s@, key@, i as int),
        decreases s@.len() - i,
    {
        let e = scan_line_end(&s, i);
        proof {
            lemma_line_end(s@, i as int);
        }
        let raw_end = if e > i && s[e - 1] == '\r' {
            e - 1
        } else {
            e
        };
        let ghost raw = s@.subrange(i as int, e as int);
        let ghost line = line_text(raw);
        proof {
            if raw.len() > 0 && raw.last() == '\r' {
                assert(raw.drop_last() =~= s@.subrange(i as int, e as int - 1));
            }
            assert(line =~= s@.subrange(i as int, raw_end as int));
        }
        let mut lv: Vec<char> = Vec::new();
        let mut k: usize = i;
        while k < raw_end
            invariant
                i <= k <= raw_end <= s@.len(),
                lv@ =~= s@.subrange(i as int, k as int),
            decreases raw_end - k,
        {
            lv.push(s[k]);
            proof {
                assert(lv@ =~= s@.subrange(i as int, k as int + 1));
            }
            k = k + 1;
        }
        proof {
            assert(lv@ =~= line);
        }
        let is_comment = lv.len() > 0 && lv[0] == '#';
        if !is_comment && crate::text::contains_chars(&lv, &needle) {
            let eq = scan_eq(&lv, 0);
            proof {
                lemma_eq_pos(lv@, 0);
            }
            let mut out: Vec<char> = Vec::new();
            let mut k2: usize = if eq < lv.len() {
                eq + 1
            } else {
                proof {
                    lemma_needle_forces_eq(line, key@);
                }
                eq
            };
            proof {
                assert(out@ =~= lv@.subrange(eq_pos(lv@, 0) + 1, k2 as int));
            }
            #[verifier::loop_isolation(false)]
            while k2 < lv.len()
                invariant
                    eq_pos(lv@, 0) + 1 <= k2 <= lv@.len(),
                    out@ =~= lv@.subrange(eq_pos(lv@, 0) + 1, k2 as int),
                decreases lv@.len() - k2,
            {
                out.push(lv[k2]);
                proof {
                    assert(out@ =~= lv@.subrange(eq_pos(lv@, 0) + 1, k2 as int + 1));
                }
                k2 = k2 + 1;
            }
            proof {
                assert(out@ =~= line_value(line));
            }
            return Some(crate::text::chars_to_string(&out));
        }
        proof {
            assert(!line_matches(line, key@));
        }
        let next = if e < s.len() {
            e + 1
        } else {
            return None;
        };
        i = next;
    }
    None
}

/// A line that holds `key=` holds an `=`.
proof fn lemma_needle_forces_eq(line: Seq<char>, key: Seq<char>)
    requires
        crate::text::contains_seq(line, key + seq!['=']),
    ensures
        eq_pos(line, 0) < line.len(),
{
    let i = choose|i: int| crate::text::occurs_at(line, key + seq!['='], i);
    let n = key + seq!['='];
    assert(line.subrange(i, i + n.len() as int)[n.len() - 1] == '=');
    assert(line[i + n.len() - 1] == '=');
    lemma_eq_pos_finds(line, 0, i + n.len() - 1);
}

/// If some position at or after `i` holds `=`, the scan stops inside the
/// text.
proof fn lemma_eq_pos_finds(s: Seq<char>, i: int, w: int)
    requires
        0 <= i <= w < s.len(),
        s[w] == '=',
    ensures
        eq_pos(s, i) <= w,
    decreases w - i,
{
    if i < w && s[i] != '=' {
        lemma_eq_pos_finds(s, i + 1, w);
    }
}

/// The geocoding key, as the deployment's secrets file names it.
pub fn load_maps_api_key(contents: &str) -> (r: Option<String>)
    ensures
        match r {
            Some(v) => spec_secret(contents@, "MAPS_API_KEY"@) == Some(v@),
            None => spec_secret(contents@, "MAPS_API_KEY"@) is None,
        },
{
    load_secret(contents, "MAPS_API_KEY")
}

} // verus!
