//! Text helpers over characters: conversion between strings and character
//! vectors, digit-separator removal, unsigned integer parsing in a radix,
//! Unicode whitespace, and escape processing of string literals.
use vstd::prelude::*;

use crate::cst::without_underscores;

verus! {

/// The characters of a string, in order.
pub fn chars_of(s: &str) -> (r: Vec<char>)
    ensures
        r@ == s@,
{
    broadcast use vstd::string::axiom_spec_iter;

    let mut out: Vec<char> = Vec::new();
    for c in it: s.chars()
        invariant
            out@ == it.seq().take(it.index() as int),
            it.seq() == s@,
    {
        out.push(c);
        assert(out@ =~= it.seq().take(it.index() as int + 1));
    }
    assert(out@ =~= s@);
    out
}

/// Builds a string from characters (`String: FromIterator<&char>`).
#[verifier::external_body]
pub(crate) fn string_from_chars(v: &Vec<char>) -> (r: String)
    ensures
        r@ == v@,
{
    String::from_iter(v.iter())
}

/// The characters of `v` with every `_` removed.
pub fn remove_underscores(v: &Vec<char>) -> (r: Vec<char>)
    ensures
        r@ == without_underscores(v@),
{
    let mut out: Vec<char> = Vec::new();
    let mut i: usize = 0;
    assert(v@.skip(0) =~= v@);
    while i < v.len()
        invariant
            i <= v@.len(),
            out@ + without_underscores(v@.skip(i as int)) == without_underscores(v@),
        decreases v@.len() - i,
    {
        let c = v[i];
        assert(v@.skip(i as int).drop_first() =~= v@.skip(i + 1));
        assert(v@.skip(i as int)[0] == c);
        if c != '_' {
            out.push(c);
            assert(out@ + without_underscores(v@.skip(i + 1)) =~= out@.drop_last() + (seq![c]
                + without_underscores(v@.skip(i + 1))));
        }
        i = i + 1;
    }
    assert(v@.skip(i as int) =~= Seq::<char>::empty());
    assert(out@ + Seq::<char>::empty() =~= out@);
    out
}

/// The value of a digit character in a radix of at most 36, if it is one.
pub open spec fn digit_value(c: char, radix: u32) -> Option<nat> {
    let v: int = if '0' <= c && c <= '9' {
        (c as int) - ('0' as int)
    } else if 'a' <= c && c <= 'z' {
        (c as int) - ('a' as int) + 10
    } else if 'A' <= c && c <= 'Z' {
        (c as int) - ('A' as int) + 10
    } else {
        36
    };
    if v < radix {
        Some(v as nat)
    } else {
        None
    }
}

/// Whether every character of `s` is a digit in `radix`.
pub open spec fn all_digits(s: Seq<char>, radix: u32) -> bool {
    forall|i: int| 0 <= i < s.len() ==> (#[trigger] digit_value(s[i], radix)) is Some
}

/// The value of a sequence of digits, most significant first.
pub open spec fn digits_value(s: Seq<char>, radix: u32) -> nat
    decreases s.len(),
{
    if s.len() == 0 {
        0
    } else {
        digits_value(s.drop_last(), radix) * (radix as nat) + digit_value(s.last(), radix).unwrap()
    }
}

/// What `from_str_radix` of an unsigned integer type whose largest value is
/// `max` returns on `s`: an optional `+`, then at least one digit, and a
/// value that fits.
pub open spec fn spec_parse_unsigned(s: Seq<char>, radix: u32, max: nat) -> Option<nat> {
    if s.len() == 0 {
        None
    } else if (s[0] == '+' || s[0] == '-') && s.len() == 1 {
        None
    } else {
        let digits = if s[0] == '+' {
            s.drop_first()
        } else {
            s
        };
        if all_digits(digits, radix) && digits_value(digits, radix) <= max {
            Some(digits_value(digits, radix))
        } else {
            None
        }
    }
}

fn digit_of(c: char, radix: u32) -> (r: Option<u64>)
    requires
        2 <= radix <= 36,
    ensures
        r matches Some(v) ==> digit_value(c, radix) == Some(v as nat),
        r is None <==> digit_value(c, radix) is None,
{
    let v: u32 = if '0' <= c && c <= '9' {
        (c as u32) - ('0' as u32)
    } else if 'a' <= c && c <= 'z' {
        (c as u32) - ('a' as u32) + 10
    } else if 'A' <= c && c <= 'Z' {
        (c as u32) - ('A' as u32) + 10
    } else {
        36
    };
    if v < radix {
        Some(v as u64)
    } else {
        None
    }
}

proof fn lemma_digits_value_grows(s: Seq<char>, radix: u32, i: int)
    requires
        2 <= radix,
        0 <= i <= s.len(),
        all_digits(s, radix),
    ensures
        digits_value(s.take(i), radix) <= digits_value(s, radix),
    decreases s.len() - i,
{
    if i < s.len() {
        lemma_digits_value_grows(s, radix, i + 1);
        let p = s.take(i + 1);
        assert(p.drop_last() =~= s.take(i));
        let a = digits_value(s.take(i), radix);
        let r = radix as nat;
        assert(a <= a * r) by (nonlinear_arith)
            requires
                r >= 2,
        ;
    } else {
        assert(s.take(i) =~= s);
    }
}

/// Parses an unsigned integer in `radix`, the way `from_str_radix` does for
/// an unsigned type whose largest value is `max`.
pub fn parse_unsigned(s: &Vec<char>, radix: u32, max: u64) -> (r: Option<u64>)
    requires
        2 <= radix <= 36,
    ensures
        r matches Some(v) ==> spec_parse_unsigned(s@, radix, max as nat) == Some(v as nat),
        r is None <==> spec_parse_unsigned(s@, radix, max as nat) is None,
{
    if s.len() == 0 {
        return None;
    }
    if (s[0] == '+' || s[0] == '-') && s.len() == 1 {
        return None;
    }
    let start: usize = if s[0] == '+' {
        1
    } else {
        0
    };
    assert(s@.len() != 0);
    assert(!((s@[0] == '+' || s@[0] == '-') && s@.len() == 1));
    let ghost digits = if s@[0] == '+' {
        s@.drop_first()
    } else {
        s@
    };
    assert(digits =~= s@.skip(start as int));
    let mut value: u64 = 0;
    let mut i: usize = start;
    while i < s.len()
        invariant
            start <= i <= s@.len(),
            digits =~= s@.skip(start as int),
            s@.len() != 0,
            !((s@[0] == '+' || s@[0] == '-') && s@.len() == 1),
            digits == (if s@[0] == '+' {
                s@.drop_first()
            } else {
                s@
            }),
            2 <= radix <= 36,
            all_digits(digits.take(i - start), radix),
            value as nat == digits_value(digits.take(i - start), radix),
            value <= max,
        decreases s@.len() - i,
    {
        let d = digit_of(s[i], radix);
        let ghost k: int = i - start;
        assert(digits[k] == s@[i as int]);
        match d {
            None => {
                assert(!all_digits(digits, radix)) by {
                    assert(digit_value(digits[k], radix) is None);
                }
                assert(spec_parse_unsigned(s@, radix, max as nat) is None);
                return None;
            },
            Some(dv) => {
                assert(digits.take(k + 1).drop_last() =~= digits.take(k));
                assert(digits.take(k + 1).last() == digits[k]);
                assert(all_digits(digits.take(k + 1), radix)) by {
                    assert forall|j: int| 0 <= j < digits.take(k + 1).len() implies (
                    #[trigger] digit_value(digits.take(k + 1)[j], radix)) is Some by {
                        if j < k {
                            assert(digits.take(k + 1)[j] == digits.take(k)[j]);
                        }
                    }
                }
                let next: Option<u64> = match value.checked_mul(radix as u64) {
                    Some(m) => m.checked_add(dv),
                    None => None,
                };
                match next {
                    Some(n) if n <= max => {
                        value = n;
                    },
                    _ => {
                        assert(digits_value(digits.take(k + 1), radix) == value as nat * (
                        radix as nat) + dv as nat);
                        assert(digits_value(digits.take(k + 1), radix) > max);
                        proof {
                            if all_digits(digits, radix) {
                                lemma_digits_value_grows(digits, radix, k + 1);
                            }
                        }
                        assert(spec_parse_unsigned(s@, radix, max as nat) is None);
                        return None;
                    },
                }
            },
        }
        i = i + 1;
    }
    assert(digits.take(i - start) =~= digits);
    Some(value)
}

/// Unicode `White_Space` characters, which `char::is_whitespace` accepts.
pub open spec fn spec_is_whitespace(c: char) -> bool {
    let u = c as u32;
    (0x09 <= u && u <= 0x0D) || u == 0x20 || u == 0x85 || u == 0xA0 || u == 0x1680 || (0x2000
        <= u && u <= 0x200A) || u == 0x2028 || u == 0x2029 || u == 0x202F || u == 0x205F || u
        == 0x3000
}

/// Whether `c` is Unicode whitespace.
pub fn is_whitespace(c: char) -> (r: bool)
    ensures
        r == spec_is_whitespace(c),
{
    let u = c as u32;
    (0x09 <= u && u <= 0x0D) || u == 0x20 || u == 0x85 || u == 0xA0 || u == 0x1680 || (0x2000
        <= u && u <= 0x200A) || u == 0x2028 || u == 0x2029 || u == 0x202F || u == 0x205F || u
        == 0x3000
}

/// Number of leading characters of `s` that satisfy: is `'#'`.
pub open spec fn leading_hashes(s: Seq<char>) -> nat
    decreases s.len(),
{
    if s.len() > 0 && s[0] == '#' {
        1 + leading_hashes(s.drop_first())
    } else {
        0
    }
}

/// Number of leading whitespace characters of `s`.
pub open spec fn leading_ws(s: Seq<char>) -> nat
    decreases s.len(),
{
    if s.len() > 0 && spec_is_whitespace(s[0]) {
        1 + leading_ws(s.drop_first())
    } else {
        0
    }
}

/// Number of trailing whitespace characters of `s`.
pub open spec fn trailing_ws(s: Seq<char>) -> nat
    decreases s.len(),
{
    if s.len() > 0 && spec_is_whitespace(s.last()) {
        1 + trailing_ws(s.drop_last())
    } else {
        0
    }
}

/// `s` with leading and trailing whitespace removed (`str::trim`).
pub open spec fn spec_trim(s: Seq<char>) -> Seq<char> {
    let a = s.skip(leading_ws(s) as int);
    a.take(a.len() - trailing_ws(a))
}

/// `s` with all leading `'#'` removed, then trimmed: the text of a doc
/// comment.
pub open spec fn spec_doc_text(s: Seq<char>) -> Seq<char> {
    spec_trim(s.skip(leading_hashes(s) as int))
}

proof fn lemma_leading_bound(s: Seq<char>)
    ensures
        leading_hashes(s) <= s.len(),
        leading_ws(s) <= s.len(),
        trailing_ws(s) <= s.len(),
    decreases s.len(),
{
    if s.len() > 0 {
        lemma_leading_bound(s.drop_first());
        lemma_leading_bound(s.drop_last());
    }
}

/// The text of a doc comment token: leading `#` removed, then trimmed.
pub fn doc_text(s: &Vec<char>) -> (r: Vec<char>)
    ensures
        r@ == spec_doc_text(s@),
{
    proof {
        lemma_leading_bound(s@);
    }
    let mut a: usize = 0;
    assert(s@.skip(0) =~= s@);
    while a < s.len() && s[a] == '#'
        invariant
            a <= s@.len(),
            leading_hashes(s@) == a + leading_hashes(s@.skip(a as int)),
        decreases s@.len() - a,
    {
        assert(s@.skip(a as int).drop_first() =~= s@.skip(a + 1));
        a = a + 1;
    }
    proof {
        if a < s@.len() {
            assert(s@.skip(a as int)[0] == s@[a as int]);
        }
    }
    let ghost t = s@.skip(a as int);
    proof {
        lemma_leading_bound(t);
    }
    let mut b: usize = a;
    while b < s.len() && is_whitespace(s[b])
        invariant
            a <= b <= s@.len(),
            t == s@.skip(a as int),
            leading_ws(t) == (b - a) + leading_ws(s@.skip(b as int)),
        decreases s@.len() - b,
    {
        assert(s@.skip(b as int).drop_first() =~= s@.skip(b + 1));
        b = b + 1;
    }
    proof {
        if b < s@.len() {
            assert(s@.skip(b as int)[0] == s@[b as int]);
        }
        assert(t.skip(leading_ws(t) as int) =~= s@.skip(b as int));
    }
    let ghost u = s@.skip(b as int);
    proof {
        lemma_leading_bound(u);
    }
    let mut e: usize = s.len();
    while e > b && is_whitespace(s[e - 1])
        invariant
            b <= e <= s@.len(),
            u == s@.skip(b as int),
            trailing_ws(u) == (s@.len() - e) + trailing_ws(s@.subrange(b as int, e as int)),
        decreases e,
    {
        assert(s@.subrange(b as int, e as int).drop_last() =~= s@.subrange(b as int, e - 1));
        e = e - 1;
    }
    proof {
        if e > b {
            assert(s@.subrange(b as int, e as int).last() == s@[e - 1]);
        }
        assert(u =~= s@.subrange(b as int, s@.len() as int));
        assert(u.take(u.len() - trailing_ws(u)) =~= s@.subrange(b as int, e as int));
    }
    let mut out: Vec<char> = Vec::new();
    let mut k: usize = b;
    while k < e
        invariant
            b <= k <= e <= s@.len(),
            out@ == s@.subrange(b as int, k as int),
        decreases e - k,
    {
        out.push(s[k]);
        k = k + 1;
        assert(out@ =~= s@.subrange(b as int, k as int));
    }
    out
}


/// Whether `v` is a Unicode scalar value (what `char::from_u32` accepts).
pub open spec fn is_scalar_value(v: nat) -> bool {
    v < 0x110000 && !(0xD800 <= v && v <= 0xDFFF)
}

/// `char::from_u32`: the character with the given code, when the code is a
/// Unicode scalar value.
#[verifier::external_body]
fn char_from_u32(code: u32) -> (r: Option<char>)
    ensures
        r is Some <==> is_scalar_value(code as nat),
        r matches Some(c) ==> c as u32 == code,
{
    char::from_u32(code)
}

/// Position of the first `c` in `s`, or the length of `s` when there is none.
pub open spec fn first_index_of(s: Seq<char>, c: char) -> nat
    decreases s.len(),
{
    if s.len() == 0 {
        0
    } else if s[0] == c {
        0
    } else {
        1 + first_index_of(s.drop_first(), c)
    }
}

pub proof fn lemma_first_index_of(s: Seq<char>, c: char, j: int)
    requires
        0 <= j <= s.len(),
        forall|t: int| 0 <= t < j ==> s[t] != c,
        j == s.len() || s[j] == c,
    ensures
        first_index_of(s, c) == j,
    decreases j,
{
    if j > 0 {
        lemma_first_index_of(s.drop_first(), c, j - 1);
    }
}

/// The character that a `\u{..}` escape with hex digits `hex` produces:
/// none when the digits do not parse or do not name a scalar value.
pub open spec fn unicode_escape(hex: Seq<char>) -> Seq<char> {
    match spec_parse_unsigned(hex, 16, 0xFFFF_FFFF) {
        Some(v) => if is_scalar_value(v) {
            seq![(v as u32) as char]
        } else {
            Seq::empty()
        },
        None => Seq::empty(),
    }
}

/// Escape processing of the inside of a string literal: `\n`, `\r`,
/// `\t`, `\\`, `\"` and `\f` stand for their characters; `\u{X}` for the
/// character with hex code `X` (nothing when `X` is not a scalar value, and
/// the character after `u` is dropped when it is not `{`); any other escaped
/// character is kept with its backslash, and a trailing backslash stays.
pub open spec fn spec_unescape(s: Seq<char>) -> Seq<char>
    decreases s.len(),
{
    if s.len() == 0 {
        Seq::empty()
    } else if s[0] != '\\' {
        seq![s[0]] + spec_unescape(s.drop_first())
    } else if s.len() == 1 {
        seq!['\\']
    } else {
        let c = s[1];
        let rest = s.skip(2);
        if c == 'n' {
            seq!['\n'] + spec_unescape(rest)
        } else if c == 'r' {
            seq!['\r'] + spec_unescape(rest)
        } else if c == 't' {
            seq!['\t'] + spec_unescape(rest)
        } else if c == '\\' {
            seq!['\\'] + spec_unescape(rest)
        } else if c == '"' {
            seq!['"'] + spec_unescape(rest)
        } else if c == 'f' {
            seq!['\x0C'] + spec_unescape(rest)
        } else if c == 'u' {
            if rest.len() == 0 {
                Seq::empty()
            } else if rest[0] != '{' {
                spec_unescape(rest.drop_first())
            } else {
                let body = rest.drop_first();
                proof {
                    lemma_first_index_bound(body, '}');
                }
                let k = first_index_of(body, '}');
                let after = if k < body.len() {
                    body.skip(k + 1 as int)
                } else {
                    body.skip(k as int)
                };
                unicode_escape(body.take(k as int)) + spec_unescape(after)
            }
        } else {
            seq!['\\', c] + spec_unescape(rest)
        }
    }
}

pub proof fn lemma_first_index_bound(s: Seq<char>, c: char)
    ensures
        first_index_of(s, c) <= s.len(),
    decreases s.len(),
{
    if s.len() > 0 {
        lemma_first_index_bound(s.drop_first(), c);
    }
}

proof fn lemma_char_cast(c: char)
    ensures
        (c as u32) as char == c,
{
}

/// Handles the hex digits of a `\\u{..}` escape that start at `start`:
/// appends the character they name (if any) and returns the position of the
/// closing brace, or the end of the text.
fn push_unicode_escape(s: &Vec<char>, start: usize, out: &mut Vec<char>) -> (j: usize)
    requires
        start <= s@.len(),
    ensures
        j == start + first_index_of(s@.skip(start as int), '}'),
        j <= s@.len(),
        j < s@.len() ==> s@[j as int] == '}',
        final(out)@ == old(out)@ + unicode_escape(
            s@.skip(start as int).take(first_index_of(s@.skip(start as int), '}') as int),
        ),
{
    let ghost body = s@.skip(start as int);
    let mut j: usize = start;
    let mut hex: Vec<char> = Vec::new();
    while j < s.len() && s[j] != '}'
        invariant
            start <= j <= s@.len(),
            hex@ == s@.subrange(start as int, j as int),
            forall|t: int| start <= t < j ==> s@[t] != '}',
        decreases s@.len() - j,
    {
        hex.push(s[j]);
        j = j + 1;
        assert(hex@ =~= s@.subrange(start as int, j as int));
    }
    let k: usize = j - start;
    proof {
        assert forall|t: int| 0 <= t < k implies body[t] != '}' by {
            assert(body[t] == s@[start + t]);
        }
        if j < s.len() {
            assert(body[k as int] == s@[j as int]);
        }
        lemma_first_index_of(body, '}', k as int);
        assert(body.take(k as int) =~= hex@);
    }
    let parsed = parse_unsigned(&hex, 16, 0xFFFF_FFFF);
    if let Some(v) = parsed {
        let code: u32 = v as u32;
        if let Some(ch) = char_from_u32(code) {
            proof {
                lemma_char_cast(ch);
            }
            out.push(ch);
        }
    }
    j
}

/// Processes the escapes of the inside of a string literal.
pub fn process_escapes(s: &Vec<char>) -> (r: Vec<char>)
    ensures
        r@ == spec_unescape(s@),
{
    let mut out: Vec<char> = Vec::new();
    let mut i: usize = 0;
    assert(s@.skip(0) =~= s@);
    while i < s.len()
        invariant
            i <= s@.len(),
            out@ + spec_unescape(s@.skip(i as int)) == spec_unescape(s@),
        decreases s@.len() - i,
    {
        let ghost before = out@;
        let ghost cur = s@.skip(i as int);
        assert(cur[0] == s@[i as int]);
        let c = s[i];
        if c != '\\' {
            out.push(c);
            assert(cur.drop_first() =~= s@.skip(i + 1));
            assert(out@ + spec_unescape(s@.skip(i + 1)) =~= before + spec_unescape(cur));
            i = i + 1;
        } else if i + 1 == s.len() {
            out.push('\\');
            assert(s@.skip(i + 1) =~= Seq::<char>::empty());
            assert(out@ + spec_unescape(s@.skip(i + 1)) =~= before + spec_unescape(cur));
            i = i + 1;
        } else {
            let e = s[i + 1];
            assert(cur[1] == e);
            assert(cur.skip(2) =~= s@.skip(i + 2));
            let simple: Option<char> = if e == 'n' {
                Some('\n')
            } else if e == 'r' {
                Some('\r')
            } else if e == 't' {
                Some('\t')
            } else if e == '\\' {
                Some('\\')
            } else if e == '"' {
                Some('"')
            } else if e == 'f' {
                Some('\x0C')
            } else {
                None
            };
            if let Some(x) = simple {
                out.push(x);
                assert(out@ + spec_unescape(s@.skip(i + 2)) =~= before + spec_unescape(cur));
                i = i + 2;
            } else if e != 'u' {
                out.push('\\');
                out.push(e);
                assert(out@ + spec_unescape(s@.skip(i + 2)) =~= before + spec_unescape(cur));
                i = i + 2;
            } else if i + 2 == s.len() {
                assert(s@.skip(i + 2) =~= Seq::<char>::empty());
                assert(spec_unescape(cur) =~= Seq::<char>::empty());
                assert(out@ + spec_unescape(s@.skip(i + 2)) =~= before + spec_unescape(cur));
                i = i + 2;
            } else if s[i + 2] != '{' {
                assert(s@.skip(i + 2)[0] == s@[i + 2]);
                assert(s@.skip(i + 2).drop_first() =~= s@.skip(i + 3));
                assert(out@ + spec_unescape(s@.skip(i + 3)) =~= before + spec_unescape(cur));
                i = i + 3;
            } else {
                let ghost body = s@.skip(i + 3);
                assert(s@.skip(i + 2)[0] == s@[i + 2]);
                assert(s@.skip(i + 2).drop_first() =~= body);
                let j = push_unicode_escape(s, i + 3, &mut out);
                let ghost k = first_index_of(body, '}');
                assert(out@ =~= before + unicode_escape(body.take(k as int)));
                if j < s.len() {
                    assert(body.skip(k + 1 as int) =~= s@.skip(j + 1));
                    assert(out@ + spec_unescape(s@.skip(j + 1)) =~= before + spec_unescape(cur));
                    i = j + 1;
                } else {
                    assert(body.skip(k as int) =~= s@.skip(j as int));
                    assert(out@ + spec_unescape(s@.skip(j as int)) =~= before + spec_unescape(cur));
                    i = j;
                }
            }
        }
    }
    assert(s@.skip(i as int) =~= Seq::<char>::empty());
    assert(out@ + Seq::<char>::empty() =~= out@);
    out
}

} // verus!
