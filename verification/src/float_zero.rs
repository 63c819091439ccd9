//! Whether a decimal float literal is zero once read as an `f64`: its value
//! is at most 2^-1075, the largest value that rounds to `0.0` (a tie rounds
//! to the even neighbour, zero). Since 2^-1075 = 5^1075 / 10^1075, the test
//! compares integers: the literal's digits against the decimal digits of
//! 5^1075, computed exactly.
use vstd::prelude::*;

use vstd::arithmetic::power::{lemma_pow_adds, lemma_pow_positive, lemma_pow_increases, pow};

verus! {

/// Decimal digit characters.
pub open spec fn is_digit(c: char) -> bool {
    '0' <= c && c <= '9'
}

/// The value of a digit character.
pub open spec fn digit_val(c: char) -> nat {
    (c as int - '0' as int) as nat
}

/// The value of decimal digit characters, most significant first.
pub open spec fn digits_value(d: Seq<char>) -> nat
    decreases d.len(),
{
    if d.len() == 0 {
        0
    } else {
        digits_value(d.drop_last()) * 10 + digit_val(d.last())
    }
}

/// The digits of a mantissa without its decimal point.
pub open spec fn strip_dot(m: Seq<char>) -> Seq<char>
    decreases m.len(),
{
    if m.len() == 0 {
        m
    } else if m.last() == '.' {
        strip_dot(m.drop_last())
    } else {
        strip_dot(m.drop_last()).push(m.last())
    }
}

/// The number of decimal points in a mantissa.
pub open spec fn dot_count(m: Seq<char>) -> nat
    decreases m.len(),
{
    if m.len() == 0 {
        0
    } else {
        dot_count(m.drop_last()) + if m.last() == '.' {
            1nat
        } else {
            0nat
        }
    }
}

/// The number of digits after the decimal point of a mantissa.
pub open spec fn frac_len(m: Seq<char>) -> nat
    decreases m.len(),
{
    if m.len() == 0 || m.last() == '.' {
        0
    } else if dot_count(m.drop_last()) > 0 {
        frac_len(m.drop_last()) + 1
    } else {
        0
    }
}

/// A mantissa of digits with at most one decimal point and at least one
/// digit.
pub open spec fn mant_ok(m: Seq<char>) -> bool {
    &&& forall|k: int| 0 <= k < m.len() ==> is_digit(#[trigger] m[k]) || m[k] == '.'
    &&& dot_count(m) <= 1
    &&& strip_dot(m).len() >= 1
}

/// The length of a leading sign.
pub open spec fn sign_len(t: Seq<char>) -> int {
    if t.len() > 0 && (t[0] == '+' || t[0] == '-') {
        1
    } else {
        0
    }
}

/// The position of the first exponent mark at or after `i`, else the length.
pub open spec fn exp_index(t: Seq<char>, i: int) -> int
    decreases t.len() - i,
{
    if i >= t.len() {
        t.len() as int
    } else if t[i] == 'e' || t[i] == 'E' {
        i
    } else {
        exp_index(t, i + 1)
    }
}

/// The digits of an exponent part (after its mark and sign).
pub open spec fn exp_digits(x: Seq<char>) -> Seq<char> {
    if x.len() > 0 && (x[0] == '+' || x[0] == '-') {
        x.drop_first()
    } else {
        x
    }
}

/// An exponent part: an optional sign and at least one digit.
pub open spec fn exp_ok(x: Seq<char>) -> bool {
    let d = exp_digits(x);
    d.len() >= 1 && forall|k: int| 0 <= k < d.len() ==> is_digit(#[trigger] d[k])
}

/// The value of an exponent part.
pub open spec fn exp_value(x: Seq<char>) -> int {
    if x.len() > 0 && x[0] == '-' {
        -digits_value(exp_digits(x))
    } else {
        digits_value(exp_digits(x)) as int
    }
}

/// `M * 10^x <= 5^1075 / 10^1075`, written over integers.
pub open spec fn scaled_at_most_tiny(mv: nat, x: int) -> bool {
    mv * pow(10, (1075 + if x > 0 { x } else { 0 }) as nat) <= pow(5, 1075) * pow(
        10,
        (if x < 0 { -x } else { 0 }) as nat,
    )
}

/// The text of a float reads as an `f64` equal to zero: an optional sign, a
/// mantissa of digits with at most one decimal point, an optional exponent
/// (`e` or `E`, an optional sign, digits), and a value `M * 10^x` (`M` the
/// mantissa's digits, `x` the exponent less the number of fraction digits)
/// of at most 2^-1075.
pub open spec fn float_is_zero(t: Seq<char>) -> bool {
    let sl = sign_len(t);
    let ei = exp_index(t, sl);
    let m = t.subrange(sl, ei);
    let x = if ei < t.len() {
        exp_value(t.subrange(ei + 1, t.len() as int))
    } else {
        0
    };
    &&& mant_ok(m)
    &&& ei < t.len() ==> exp_ok(t.subrange(ei + 1, t.len() as int))
    &&& scaled_at_most_tiny(digits_value(strip_dot(m)), x - frac_len(m))
}

/// The value of decimal digits, most significant first.
pub open spec fn val8(d: Seq<u8>) -> nat
    decreases d.len(),
{
    if d.len() == 0 {
        0
    } else {
        val8(d.drop_last()) * 10 + (d.last() as nat)
    }
}

/// Every element is a decimal digit.
pub open spec fn digits8(d: Seq<u8>) -> bool {
    forall|k: int| 0 <= k < d.len() ==> #[trigger] d[k] < 10
}

proof fn lemma_pow10_step(k: nat)
    ensures
        pow(10, k + 1) == pow(10, k) * 10,
        pow(10, k) > 0,
{
    lemma_pow_adds(10, k, 1);
    vstd::arithmetic::power::lemma_pow1(10);
    lemma_pow_positive(10, k);
}

/// Appending digits shifts the first ones up.
proof fn lemma_val8_concat(x: Seq<u8>, y: Seq<u8>)
    ensures
        val8(x + y) == val8(x) * pow(10, y.len()) + val8(y),
    decreases y.len(),
{
    if y.len() == 0 {
        assert(x + y =~= x);
        vstd::arithmetic::power::lemma_pow0(10);
    } else {
        assert((x + y).drop_last() =~= x + y.drop_last());
        assert((x + y).last() == y.last());
        lemma_val8_concat(x, y.drop_last());
        lemma_pow10_step((y.len() - 1) as nat);
        let p = pow(10, (y.len() - 1) as nat);
        assert((val8(x) * p + val8(y.drop_last())) * 10 + (y.last() as nat) == val8(x) * (p * 10) + (val8(
            y.drop_last(),
        ) * 10 + (y.last() as nat))) by (nonlinear_arith);
    }
}

/// Digits are worth less than the next power of ten.
proof fn lemma_val8_lt(x: Seq<u8>)
    requires
        digits8(x),
    ensures
        val8(x) < pow(10, x.len()),
    decreases x.len(),
{
    lemma_pow10_step(0);
    vstd::arithmetic::power::lemma_pow0(10);
    if x.len() > 0 {
        assert(digits8(x.drop_last()));
        lemma_val8_lt(x.drop_last());
        lemma_pow10_step((x.len() - 1) as nat);
        let p = pow(10, (x.len() - 1) as nat);
        let v = val8(x.drop_last());
        let dl = x.last() as nat;
        assert(x.last() < 10);
        assert(v * 10 + dl < p * 10) by (nonlinear_arith)
            requires
                v < p,
                dl < 10,
        ;
    }
}

/// Digits with a nonzero first one are worth at least 10^(len-1).
proof fn lemma_val8_lead(x: Seq<u8>)
    requires
        x.len() >= 1,
        x[0] >= 1,
    ensures
        val8(x) >= pow(10, (x.len() - 1) as nat),
{
    let h = x.take(1);
    let t = x.skip(1);
    assert(h + t =~= x);
    lemma_val8_concat(h, t);
    assert(h.drop_last() =~= Seq::<u8>::empty());
    assert(h.last() == x[0]);
    assert(val8(h.drop_last()) == 0);
    assert(val8(h) == (x[0] as nat));
    lemma_pow_positive(10, t.len());
    let p = pow(10, t.len());
    assert((x[0] as nat) * p >= p) by (nonlinear_arith)
        requires
            x[0] >= 1,
            p > 0,
    ;
}

/// Zeros are worth nothing.
proof fn lemma_val8_zeros(n: nat)
    ensures
        val8(Seq::new(n, |i: int| 0u8)) == 0,
    decreases n,
{
    if n > 0 {
        assert(Seq::new(n, |i: int| 0u8).drop_last() =~= Seq::new((n - 1) as nat, |i: int| 0u8));
        lemma_val8_zeros((n - 1) as nat);
    }
}

/// Of two digit sequences of one length that agree before position `i`,
/// the one with the smaller digit at `i` is worth less.
proof fn lemma_val8_lex(a: Seq<u8>, b: Seq<u8>, i: int)
    requires
        a.len() == b.len(),
        0 <= i < a.len(),
        digits8(a),
        digits8(b),
        a.take(i) == b.take(i),
        a[i] < b[i],
    ensures
        val8(a) < val8(b),
{
    let r = (a.len() - i - 1) as nat;
    assert(a.take(i + 1) + a.skip(i + 1) =~= a);
    assert(b.take(i + 1) + b.skip(i + 1) =~= b);
    lemma_val8_concat(a.take(i + 1), a.skip(i + 1));
    lemma_val8_concat(b.take(i + 1), b.skip(i + 1));
    assert(digits8(a.skip(i + 1)));
    lemma_val8_lt(a.skip(i + 1));
    assert(a.take(i + 1).drop_last() =~= a.take(i));
    assert(b.take(i + 1).drop_last() =~= b.take(i));
    let va = val8(a.take(i + 1));
    let vb = val8(b.take(i + 1));
    assert(va + 1 <= vb);
    lemma_pow_positive(10, r);
    let p = pow(10, r);
    let ra = val8(a.skip(i + 1));
    let rb = val8(b.skip(i + 1));
    assert(va * p + ra < vb * p + rb) by (nonlinear_arith)
        requires
            va + 1 <= vb,
            ra < p,
            rb >= 0,
    ;
}

/// Where `M` (with `s` digits) times 10^x falls against 5^1075 / 10^1075 (a
/// number `P` of `n` digits over 10^1075), by comparing `q = s + x + 1075`
/// with `n`; when they are equal, by comparing `M` and `P` each padded with
/// zeros to `w` digits.
proof fn lemma_tiny_cases(mv: nat, s: nat, x: int, pv: nat, n: nat, w: nat)
    requires
        s >= 1,
        n >= 1,
        pow(10, (s - 1) as nat) <= mv < pow(10, s),
        pow(10, (n - 1) as nat) <= pv < pow(10, n),
        pv == pow(5, 1075),
        w >= s,
        w >= n,
        w == s || w == n,
    ensures
        s + x + 1075 < n ==> scaled_at_most_tiny(mv, x),
        s + x + 1075 > n ==> !scaled_at_most_tiny(mv, x),
        s + x + 1075 == n ==> (scaled_at_most_tiny(mv, x) <==> mv * pow(10, (w - s) as nat) <= pv * pow(
            10,
            (w - n) as nat,
        )),
{
    let a: nat = (1075 + if x > 0 { x } else { 0 }) as nat;
    let b: nat = (if x < 0 { -x } else { 0 }) as nat;
    let q = s + x + 1075;
    assert(s + a == q + b);
    lemma_pow_positive(10, a);
    lemma_pow_positive(10, b);
    let pa = pow(10, a);
    let pb = pow(10, b);
    if q < n {
        // M * 10^a < 10^(s+a) <= 10^(n-1+b) = 10^(n-1) * 10^b <= P * 10^b
        lemma_pow_adds(10, s, a);
        lemma_pow_adds(10, (n - 1) as nat, b);
        lemma_pow_increases(10, s + a, (n - 1 + b) as nat);
        let ps = pow(10, s);
        let pn1 = pow(10, (n - 1) as nat);
        assert(mv * pa < ps * pa) by (nonlinear_arith)
            requires
                mv < ps,
                pa > 0,
        ;
        assert(pn1 * pb <= pv * pb) by (nonlinear_arith)
            requires
                pn1 <= pv,
                pb > 0,
        ;
    }
    if q > n {
        // M * 10^a >= 10^(s-1+a) >= 10^(n+b) = 10^n * 10^b > P * 10^b
        lemma_pow_adds(10, (s - 1) as nat, a);
        lemma_pow_adds(10, n, b);
        lemma_pow_increases(10, n + b, (s - 1 + a) as nat);
        let ps1 = pow(10, (s - 1) as nat);
        let pn = pow(10, n);
        assert(mv * pa >= ps1 * pa) by (nonlinear_arith)
            requires
                mv >= ps1,
                pa > 0,
        ;
        assert(pn * pb > pv * pb) by (nonlinear_arith)
            requires
                pn > pv,
                pb > 0,
        ;
    }
    if q == n {
        // both sides are the padded values times 10^c with c = a + s - w = b + n - w
        assert(a + s >= w);
        let c: nat = (a + s - w) as nat;
        assert(b + n - w == c);
        lemma_pow_adds(10, (w - s) as nat, c);
        lemma_pow_adds(10, (w - n) as nat, c);
        assert((w - s) as nat + c == a);
        assert((w - n) as nat + c == b);
        lemma_pow_positive(10, c);
        let x1 = mv * pow(10, (w - s) as nat);
        let y1 = pv * pow(10, (w - n) as nat);
        let pc = pow(10, c);
        assert(mv * pa == x1 * pc) by (nonlinear_arith)
            requires
                pa == pow(10, (w - s) as nat) * pc,
                x1 == mv * pow(10, (w - s) as nat),
        ;
        assert(pv * pb == y1 * pc) by (nonlinear_arith)
            requires
                pb == pow(10, (w - n) as nat) * pc,
                y1 == pv * pow(10, (w - n) as nat),
        ;
        assert(x1 * pc <= y1 * pc <==> x1 <= y1) by (nonlinear_arith)
            requires
                pc > 0,
        ;
    }
}


/// Dot counts of prefixes never exceed that of the whole.
proof fn lemma_dot_count_prefix(m: Seq<char>, j: int)
    requires
        0 <= j <= m.len(),
    ensures
        dot_count(m.take(j)) <= dot_count(m),
    decreases m.len() - j,
{
    if j < m.len() {
        assert(m.take(j + 1).drop_last() =~= m.take(j));
        lemma_dot_count_prefix(m, j + 1);
    } else {
        assert(m.take(j) =~= m);
    }
}

/// `v` with a zero digit appended, halved: five times `v`.
fn times_five(v: &Vec<u8>) -> (r: Vec<u8>)
    requires
        digits8(v@),
        v@.len() < usize::MAX,
    ensures
        digits8(r@),
        r@.len() == v@.len() + 1,
        val8(r@) == 5 * val8(v@),
{
    let ghost w = v@.push(0u8);
    let mut out: Vec<u8> = Vec::new();
    let mut rem: u8 = 0;
    let mut i: usize = 0;
    let n = v.len();
    assert(w.take(0) =~= Seq::<u8>::empty());
    while i <= n
        invariant
            n == v@.len(),
            n < usize::MAX,
            w == v@.push(0u8),
            digits8(v@),
            i <= n + 1,
            out@.len() == i,
            digits8(out@),
            rem < 2,
            val8(w.take(i as int)) == 2 * val8(out@) + rem,
        decreases n + 1 - i,
    {
        let d: u8 = if i < n {
            v[i]
        } else {
            0
        };
        assert(d == w[i as int]);
        let cur: u8 = rem * 10 + d;
        let ghost old_out = out@;
        out.push(cur / 2);
        rem = cur % 2;
        proof {
            assert(w.take(i + 1).drop_last() =~= w.take(i as int));
            assert(out@.drop_last() =~= old_out);
            assert(digits8(out@)) by {
                assert forall|k: int| 0 <= k < out@.len() implies #[trigger] out@[k] < 10 by {
                    if k < i {
                        assert(out@[k] == old_out[k]);
                    }
                }
            }
        }
        i = i + 1;
    }
    proof {
        assert(w.take(n + 1) =~= w);
        lemma_val8_concat(v@, seq![0u8]);
        assert(seq![0u8].drop_last() =~= Seq::<u8>::empty());
        assert(val8(seq![0u8]) == 0);
        lemma_pow10_step(0);
        vstd::arithmetic::power::lemma_pow0(10);
        assert(v@ + seq![0u8] =~= w);
        let vv = val8(v@);
        let vo = val8(out@);
        assert(vv * 10 == 2 * vo + rem);
        assert(rem == 0 && vo == 5 * vv) by (nonlinear_arith)
            requires
                vv * 10 == 2 * vo + rem,
                rem < 2,
        ;
    }
    out
}

/// The decimal digits of 5^1075, without leading zeros.
fn pow5_digits() -> (r: Vec<u8>)
    ensures
        digits8(r@),
        r@.len() >= 1,
        r@[0] >= 1,
        val8(r@) == pow(5, 1075),
{
    let mut v: Vec<u8> = Vec::new();
    v.push(1);
    let mut k: usize = 0;
    proof {
        assert(v@.drop_last() =~= Seq::<u8>::empty());
        assert(val8(v@.drop_last()) == 0);
        assert(val8(v@) == 1);
        vstd::arithmetic::power::lemma_pow0(5);
    }
    while k < 1075
        invariant
            k <= 1075,
            v@.len() == k + 1,
            digits8(v@),
            val8(v@) == pow(5, k as nat),
        decreases 1075 - k,
    {
        v = times_five(&v);
        proof {
            lemma_pow_adds(5, k as nat, 1);
            vstd::arithmetic::power::lemma_pow1(5);
        }
        k = k + 1;
    }
    let mut z: usize = 0;
    while z < v.len() && v[z] == 0
        invariant
            z <= v@.len(),
            forall|j: int| 0 <= j < z ==> #[trigger] v@[j] == 0,
        decreases v@.len() - z,
    {
        z = z + 1;
    }
    proof {
        assert(v@.take(z as int) =~= Seq::new(z as nat, |i: int| 0u8));
        assert(v@.take(z as int) + v@.skip(z as int) =~= v@);
        lemma_val8_concat(v@.take(z as int), v@.skip(z as int));
        lemma_val8_zeros(z as nat);
        lemma_pow_positive(5, 1075);
        if z == v@.len() {
            assert(v@.take(z as int) =~= v@);
            assert(false);
        }
    }
    let mut r: Vec<u8> = Vec::new();
    let mut j: usize = z;
    while j < v.len()
        invariant
            z <= j <= v@.len(),
            r@ == v@.subrange(z as int, j as int),
            digits8(v@),
        decreases v@.len() - j,
    {
        r.push(v[j]);
        proof {
            assert(r@ =~= v@.subrange(z as int, j + 1));
        }
        j = j + 1;
    }
    proof {
        assert(r@ =~= v@.skip(z as int));
    }
    r
}


/// The bound at which an exponent's value is no longer tracked exactly: any
/// larger exponent decides the test the same way.
pub const EXP_CAP: u128 = 0x1_0000_0000_0000_0000_0000;

/// The mantissa from `sl` up to the first exponent mark.
pub open spec fn mantissa_of(t: Seq<char>, sl: int) -> Seq<char> {
    t.subrange(sl, exp_index(t, sl))
}

/// Reads the mantissa starting at `sl`: `None` when it is malformed, else
/// its significant digits (no leading zero), the number of its fraction
/// digits, and where it ends.
fn scan_mantissa(t: &Vec<char>, sl: usize) -> (r: Option<(Vec<u8>, usize, usize)>)
    requires
        sl <= t@.len(),
    ensures
        sl <= exp_index(t@, sl as int) <= t@.len(),
        match r {
            None => !mant_ok(mantissa_of(t@, sl as int)),
            Some((sig, frac, ei)) => {
                &&& ei == exp_index(t@, sl as int)
                &&& mant_ok(mantissa_of(t@, sl as int))
                &&& frac == frac_len(mantissa_of(t@, sl as int))
                &&& frac <= t@.len()
                &&& val8(sig@) == digits_value(strip_dot(mantissa_of(t@, sl as int)))
                &&& digits8(sig@)
                &&& (sig@.len() == 0 || sig@[0] >= 1)
            },
        },
{
    proof {
        lemma_exp_index_ge(t@, sl as int);
    }
    let n = t.len();
    let mut i: usize = sl;
    let mut sig: Vec<u8> = Vec::new();
    let mut dots: usize = 0;
    let mut frac: usize = 0;
    let mut ndig: usize = 0;
    assert(t@.subrange(sl as int, sl as int) =~= Seq::<char>::empty());
    while i < n && t[i] != 'e' && t[i] != 'E'
        invariant
            n == t@.len(),
            sl <= i <= n,
            exp_index(t@, sl as int) == exp_index(t@, i as int),
            forall|k: int| 0 <= k < i - sl ==> is_digit(#[trigger] t@.subrange(sl as int, i as int)[k])
                || t@.subrange(sl as int, i as int)[k] == '.',
            dots == dot_count(t@.subrange(sl as int, i as int)),
            dots <= 1,
            dots == 0 ==> frac == 0,
            frac == frac_len(t@.subrange(sl as int, i as int)),
            frac <= i,
            ndig == strip_dot(t@.subrange(sl as int, i as int)).len(),
            ndig <= i,
            val8(sig@) == digits_value(strip_dot(t@.subrange(sl as int, i as int))),
            digits8(sig@),
            sig@.len() == 0 || sig@[0] >= 1,
        decreases n - i,
    {
        let c = t[i];
        let ghost m = t@.subrange(sl as int, i as int);
        let ghost m1 = t@.subrange(sl as int, i + 1);
        proof {
            assert(m1.drop_last() =~= m);
            assert(m1.last() == c);
            assert(exp_index(t@, i as int) == exp_index(t@, i + 1));
            lemma_exp_index_ge(t@, i + 1);
        }
        if c == '.' {
            if dots == 1 {
                proof {
                    let mf = mantissa_of(t@, sl as int);
                    assert(mf.take(i + 1 - sl) =~= m1);
                    lemma_dot_count_prefix(mf, i + 1 - sl);
                }
                return None;
            }
            dots = 1;
            proof {
                assert(strip_dot(m1) == strip_dot(m));
            }
        } else if '0' <= c && c <= '9' {
            let d: u8 = ((c as u32) - 48) as u8;
            let ghost old_sig = sig@;
            proof {
                assert(strip_dot(m1).drop_last() =~= strip_dot(m));
                assert(strip_dot(m1).last() == c);
                assert(digit_val(c) == d as nat);
            }
            if !(sig.len() == 0 && d == 0) {
                sig.push(d);
                proof {
                    assert(sig@.drop_last() =~= old_sig);
                    assert forall|k: int| 0 <= k < sig@.len() implies #[trigger] sig@[k] < 10 by {
                        if k < old_sig.len() {
                            assert(sig@[k] == old_sig[k]);
                        }
                    }
                }
            } else {
                assert(sig@.len() == 0);
                assert(val8(sig@) == 0);
            }
            ndig = ndig + 1;
            if dots == 1 {
                frac = frac + 1;
            }
        } else {
            proof {
                let mf = mantissa_of(t@, sl as int);
                assert(mf[i - sl] == c);
            }
            return None;
        }
        proof {
            assert forall|k: int| 0 <= k < i + 1 - sl implies is_digit(#[trigger] m1[k]) || m1[k] == '.' by {
                if k < i - sl {
                    assert(m1[k] == m[k]);
                }
            }
        }
        i = i + 1;
    }
    if ndig == 0 {
        return None;
    }
    Some((sig, frac, i))
}

/// The exponent value, or `EXP_CAP` when it is at least that.
pub open spec fn capped(v: nat) -> nat {
    if v < EXP_CAP {
        v
    } else {
        EXP_CAP as nat
    }
}

/// Reads the exponent part after the mark at `ei`: `None` when it is
/// malformed, else whether it is negative and its capped value.
fn scan_exponent(t: &Vec<char>, ei: usize) -> (r: Option<(bool, u128)>)
    requires
        ei < t@.len(),
    ensures
        match r {
            None => !exp_ok(t@.subrange(ei + 1, t@.len() as int)),
            Some((neg, ev)) => {
                let xs = t@.subrange(ei + 1, t@.len() as int);
                &&& exp_ok(xs)
                &&& neg == (xs.len() > 0 && xs[0] == '-')
                &&& ev == capped(digits_value(exp_digits(xs)))
            },
        },
{
    let n = t.len();
    let ghost xs = t@.subrange(ei + 1, n as int);
    let mut j: usize = ei + 1;
    let mut neg = false;
    if j < n && (t[j] == '+' || t[j] == '-') {
        neg = t[j] == '-';
        j = j + 1;
    }
    let j0 = j;
    assert(exp_digits(xs) =~= t@.subrange(j0 as int, n as int));
    if j == n {
        assert(exp_digits(xs).len() == 0);
        return None;
    }
    let mut ev: u128 = 0;
    assert(t@.subrange(j0 as int, j0 as int) =~= Seq::<char>::empty());
    while j < n
        invariant
            n == t@.len(),
            j0 <= j <= n,
            forall|k: int| j0 <= k < j ==> is_digit(#[trigger] t@[k]),
            ev == capped(digits_value(t@.subrange(j0 as int, j as int))),
            exp_digits(xs) == t@.subrange(j0 as int, n as int),
            xs == t@.subrange(ei + 1, n as int),
        decreases n - j,
    {
        let c = t[j];
        if !('0' <= c && c <= '9') {
            proof {
                assert(exp_digits(xs)[j - j0] == c);
                assert(!is_digit(exp_digits(xs)[j - j0]));
                assert(!exp_ok(xs));
            }
            return None;
        }
        proof {
            assert(t@.subrange(j0 as int, j + 1).drop_last() =~= t@.subrange(j0 as int, j as int));
            assert(t@.subrange(j0 as int, j + 1).last() == c);
        }
        let d: u128 = ((c as u32) - 48) as u128;
        assert(digit_val(c) == d as nat);
        if ev < EXP_CAP {
            ev = ev * 10 + d;
            if ev > EXP_CAP {
                ev = EXP_CAP;
            }
        }
        j = j + 1;
    }
    proof {
        assert(t@.subrange(j0 as int, j as int) =~= exp_digits(xs));
        assert forall|k: int| 0 <= k < exp_digits(xs).len() implies is_digit(
            #[trigger] exp_digits(xs)[k],
        ) by {
            assert(exp_digits(xs)[k] == t@[j0 + k]);
        }
    }
    Some((neg, ev))
}

/// Compares digits `a` and `b`, each padded with zeros to the longer length.
#[verifier::rlimit(50)]
fn padded_at_most(a: &Vec<u8>, b: &Vec<u8>) -> (r: bool)
    requires
        digits8(a@),
        digits8(b@),
    ensures
        ({
            let w = if a@.len() > b@.len() { a@.len() } else { b@.len() };
            r == (val8(a@) * pow(10, (w - a@.len()) as nat) <= val8(b@) * pow(
                10,
                (w - b@.len()) as nat,
            ))
        }),
{
    let s = a.len();
    let pn = b.len();
    let w: usize = if s > pn {
        s
    } else {
        pn
    };
    let ghost aa = a@ + Seq::new((w - s) as nat, |i: int| 0u8);
    let ghost bb = b@ + Seq::new((w - pn) as nat, |i: int| 0u8);
    proof {
        lemma_val8_concat(a@, Seq::new((w - s) as nat, |i: int| 0u8));
        lemma_val8_concat(b@, Seq::new((w - pn) as nat, |i: int| 0u8));
        lemma_val8_zeros((w - s) as nat);
        lemma_val8_zeros((w - pn) as nat);
        assert forall|k: int| 0 <= k < aa.len() implies #[trigger] aa[k] < 10 by {
            if k < s {
                assert(aa[k] == a@[k]);
            }
        }
        assert forall|k: int| 0 <= k < bb.len() implies #[trigger] bb[k] < 10 by {
            if k < pn {
                assert(bb[k] == b@[k]);
            }
        }
        assert(aa.take(0) =~= bb.take(0));
        assert(val8(aa) == val8(a@) * pow(10, (w - s) as nat));
        assert(val8(bb) == val8(b@) * pow(10, (w - pn) as nat));
    }
    let mut k: usize = 0;
    while k < w
        invariant
            k <= w,
            aa.len() == w,
            bb.len() == w,
            s == a@.len(),
            pn == b@.len(),
            aa == a@ + Seq::new((w - s) as nat, |i: int| 0u8),
            bb == b@ + Seq::new((w - pn) as nat, |i: int| 0u8),
            digits8(aa),
            digits8(bb),
            aa.take(k as int) == bb.take(k as int),
            w == (if s > pn { s } else { pn }),
            val8(aa) == val8(a@) * pow(10, (w - s) as nat),
            val8(bb) == val8(b@) * pow(10, (w - pn) as nat),
        decreases w - k,
    {
        let x: u8 = if k < s {
            a[k]
        } else {
            0
        };
        let y: u8 = if k < pn {
            b[k]
        } else {
            0
        };
        assert(x == aa[k as int]);
        assert(y == bb[k as int]);
        if x < y {
            proof {
                lemma_val8_lex(aa, bb, k as int);
                assert(val8(a@) * pow(10, (w - s) as nat) <= val8(b@) * pow(10, (w - pn) as nat));
            }
            return true;
        }
        if x > y {
            proof {
                lemma_val8_lex(bb, aa, k as int);
                assert(!(val8(a@) * pow(10, (w - s) as nat) <= val8(b@) * pow(10, (w - pn) as nat)));
            }
            return false;
        }
        proof {
            assert(aa.take(k + 1) =~= aa.take(k as int).push(x));
            assert(bb.take(k + 1) =~= bb.take(k as int).push(y));
        }
        k = k + 1;
    }
    proof {
        assert(aa =~= aa.take(w as int));
        assert(bb =~= bb.take(w as int));
    }
    true
}

/// Whether the text of a float literal reads as an `f64` equal to zero.
pub fn float_text_is_zero(t: &Vec<char>) -> (r: bool)
    ensures
        r == float_is_zero(t@),
{
    let n = t.len();
    let mut sl: usize = 0;
    if n > 0 && (t[0] == '+' || t[0] == '-') {
        sl = 1;
    }
    assert(sl == sign_len(t@));
    let (sig, frac, ei) = match scan_mantissa(t, sl) {
        None => return false,
        Some(x) => x,
    };
    let ghost m = mantissa_of(t@, sl as int);
    let mut neg = false;
    let mut ev: u128 = 0;
    if ei < n {
        match scan_exponent(t, ei) {
            None => return false,
            Some((ng, v)) => {
                neg = ng;
                ev = v;
            },
        }
    }
    let ghost dv: nat = if ei < n {
        digits_value(exp_digits(t@.subrange(ei + 1, n as int)))
    } else {
        0
    };
    let ghost x: int = (if ei < n {
        exp_value(t@.subrange(ei + 1, n as int))
    } else {
        0
    }) - frac_len(m);
    assert(ev == capped(dv));
    assert(x == (if neg { -dv } else { dv as int }) - frac);
    if sig.len() == 0 {
        proof {
            lemma_pow_positive(5, 1075);
            lemma_pow_positive(10, (if x < 0 { -x } else { 0 }) as nat);
            assert(0 * pow(10, (1075 + if x > 0 { x } else { 0 }) as nat) == 0);
        }
        return true;
    }
    let p = pow5_digits();
    let pn = p.len();
    let s = sig.len();
    let e: i128 = if neg {
        -(ev as i128)
    } else {
        ev as i128
    };
    let q: i128 = s as i128 + e - frac as i128 + 1075;
    let w: usize = if s > pn {
        s
    } else {
        pn
    };
    proof {
        lemma_val8_lead(sig@);
        lemma_val8_lt(sig@);
        lemma_val8_lead(p@);
        lemma_val8_lt(p@);
        lemma_tiny_cases(val8(sig@), s as nat, x, val8(p@), pn as nat, w as nat);
        if ev >= EXP_CAP {
            if neg {
                assert(q < pn as int);
                assert(s + x + 1075 <= q);
            } else {
                assert(q > pn as int);
                assert(s + x + 1075 >= q);
            }
        } else {
            assert(q == s + x + 1075);
        }
    }
    if q < pn as i128 {
        return true;
    }
    if q > pn as i128 {
        return false;
    }
    padded_at_most(&sig, &p)
}

/// The first exponent mark at or after `i` is not before `i`.
proof fn lemma_exp_index_ge(t: Seq<char>, i: int)
    requires
        0 <= i <= t.len(),
    ensures
        i <= exp_index(t, i) <= t.len(),
    decreases t.len() - i,
{
    if i < t.len() && !(t[i] == 'e' || t[i] == 'E') {
        lemma_exp_index_ge(t, i + 1);
    }
}

} // verus!
