//! Decimal numbers written as ASCII text: unsigned integers, signed
//! integers, and fixed-point values counted in thousandths.
use vstd::prelude::*;
use vstd::string::StringSliceAdditionalSpecFns;

use vstd::arithmetic::div_mod::lemma_fundamental_div_mod_converse;

verus! {

/// Above this, a run of digits is only known to be "too large".
pub const DIGITS_CAP: u128 = 0x10_0000_0000_0000_0000_0000_0000;

pub open spec fn is_digit(b: u8) -> bool {
    48 <= b <= 57
}

pub open spec fn all_digits(s: Seq<u8>) -> bool {
    forall|i: int| 0 <= i < s.len() ==> is_digit(#[trigger] s[i])
}

/// The value of a run of decimal digits, most significant first.
pub open spec fn digits_value(s: Seq<u8>) -> nat
    decreases s.len(),
{
    if s.len() == 0 {
        0
    } else {
        digits_value(s.drop_last()) * 10 + (s.last() - 48) as nat
    }
}

pub open spec fn capped(v: nat) -> nat {
    if v > DIGITS_CAP {
        DIGITS_CAP as nat
    } else {
        v
    }
}

pub open spec fn pow10(n: nat) -> nat
    decreases n,
{
    if n == 0 {
        1
    } else {
        10 * pow10((n - 1) as nat)
    }
}

/// Bytes 13 and 10 (carriage return and line feed) at the end are dropped.
pub open spec fn trim_line_end(s: Seq<u8>) -> Seq<u8>
    decreases s.len(),
{
    if s.len() > 0 && (s.last() == 13 || s.last() == 10) {
        trim_line_end(s.drop_last())
    } else {
        s
    }
}

/// `+` followed by one or more digits, or digits alone.
pub open spec fn unsigned_value(s: Seq<u8>) -> Option<nat> {
    let body = if s.len() > 0 && s[0] == 43 { s.drop_first() } else { s };
    if body.len() > 0 && all_digits(body) {
        Some(digits_value(body))
    } else {
        None
    }
}

pub open spec fn sign_len(s: Seq<u8>) -> int {
    if s.len() > 0 && (s[0] == 43 || s[0] == 45) {
        1
    } else {
        0
    }
}

pub open spec fn is_negative(s: Seq<u8>) -> bool {
    s.len() > 0 && s[0] == 45
}

pub open spec fn signed(neg: bool, magnitude: int) -> int {
    if neg {
        -magnitude
    } else {
        magnitude
    }
}

/// An optional `+` or `-` followed by one or more digits.
pub open spec fn integer_value(s: Seq<u8>) -> Option<int> {
    let body = s.skip(sign_len(s));
    if body.len() > 0 && all_digits(body) {
        Some(signed(is_negative(s), digits_value(body) as int))
    } else {
        None
    }
}

/// Index of the first byte of `s` that is `a` or `c`, or `s.len()` when
/// there is none.
pub open spec fn index_of(s: Seq<u8>, a: u8, c: u8) -> int
    decreases s.len(),
{
    if s.len() == 0 {
        0
    } else if s[0] == a || s[0] == c {
        0
    } else {
        1 + index_of(s.drop_first(), a, c)
    }
}

/// `v * 10^k` rounded to the nearest integer, halves away from zero.
pub open spec fn round_scaled(v: nat, k: int) -> nat {
    if k >= 0 {
        v * pow10(k as nat)
    } else {
        (2 * v + pow10((-k) as nat)) / (2 * pow10((-k) as nat))
    }
}

/// A decimal number in the form that `str::parse::<f64>` reads: an optional
/// sign; digits with an optional `.` among or after them, at least one digit
/// in all; then optionally `e` or `E` and an integer exponent. The value is
/// counted in thousandths and rounded to the nearest one, halves away from
/// zero. `inf`, `infinity` and `nan`, which no count of thousandths can
/// hold, are refused.
pub open spec fn thousandths_value(s: Seq<u8>) -> Option<int> {
    let body = s.skip(sign_len(s));
    let x = index_of(body, 101, 69);
    let mant = body.take(x);
    let d = index_of(mant, 46, 46);
    let whole = mant.take(d);
    let frac = if d < mant.len() { mant.skip(d + 1) } else { Seq::empty() };
    let exp = if x < body.len() { integer_value(body.skip(x + 1)) } else { Some(0int) };
    match exp {
        Some(e) => if all_digits(whole) && all_digits(frac) && whole.len() + frac.len() > 0 {
            Some(
                signed(
                    is_negative(s),
                    round_scaled(digits_value(whole + frac), e - frac.len() + 3) as int,
                ),
            )
        } else {
            None
        },
        None => None,
    }
}


pub open spec fn fits_i64(v: int) -> bool {
    i64::MIN <= v <= i64::MAX
}
proof fn lemma_index_of_bounds(s: Seq<u8>, a: u8, c: u8)
    ensures
        0 <= index_of(s, a, c) <= s.len(),
        index_of(s, a, c) < s.len() ==> (s[index_of(s, a, c)] == a || s[index_of(s, a, c)]
            == c),
        forall|i: int| 0 <= i < index_of(s, a, c) ==> s[i] != a && s[i] != c,
    decreases s.len(),
{
    if s.len() > 0 && s[0] != a && s[0] != c {
        lemma_index_of_bounds(s.drop_first(), a, c);
        assert forall|i: int| 0 <= i < index_of(s, a, c) implies s[i] != a && s[i] != c by {
            if i > 0 {
                assert(s[i] == s.drop_first()[i - 1]);
            }
        }
    }
}

proof fn lemma_index_of_at(s: Seq<u8>, a: u8, c: u8, k: int)
    requires
        0 <= k <= s.len(),
        forall|i: int| 0 <= i < k ==> s[i] != a && s[i] != c,
        k == s.len() || s[k] == a || s[k] == c,
    ensures
        index_of(s, a, c) == k,
    decreases s.len(),
{
    if s.len() > 0 && s[0] != a && s[0] != c {
        assert forall|i: int| 0 <= i < k - 1 implies s.drop_first()[i] != a
            && s.drop_first()[i] != c by {
            assert(s.drop_first()[i] == s[i + 1]);
        }
        if k < s.len() {
            assert(s.drop_first()[k - 1] == s[k]);
        }
        lemma_index_of_at(s.drop_first(), a, c, k - 1);
    }
}

proof fn lemma_pow10_grows(a: nat, b: nat)
    requires
        a <= b,
    ensures
        1 <= pow10(a) <= pow10(b),
    decreases b,
{
    if b > a {
        lemma_pow10_grows(a, (b - 1) as nat);
    } else {
        lemma_pow10_positive(b);
    }
}

proof fn lemma_pow10_positive(n: nat)
    ensures
        pow10(n) >= 1,
    decreases n,
{
    if n > 0 {
        lemma_pow10_positive((n - 1) as nat);
    }
}

proof fn lemma_digits_value_bound(s: Seq<u8>)
    requires
        all_digits(s),
    ensures
        digits_value(s) < pow10(s.len()),
    decreases s.len(),
{
    if s.len() > 0 {
        assert(all_digits(s.drop_last())) by {
            assert forall|i: int| 0 <= i < s.len() - 1 implies is_digit(
                #[trigger] s.drop_last()[i],
            ) by {
                assert(s.drop_last()[i] == s[i]);
            }
        }
        lemma_digits_value_bound(s.drop_last());
        assert(is_digit(s[s.len() - 1]));
    }
}

proof fn lemma_digits_split(s: Seq<u8>, m: int)
    requires
        0 <= m <= s.len(),
    ensures
        digits_value(s) == digits_value(s.take(m)) * pow10((s.len() - m) as nat) + digits_value(
            s.skip(m),
        ),
    decreases s.len(),
{
    if m < s.len() {
        let s2 = s.drop_last();
        lemma_digits_split(s2, m);
        assert(s2.take(m) =~= s.take(m));
        assert(s.skip(m).drop_last() =~= s2.skip(m));
        let a = digits_value(s.take(m));
        let p = pow10((s2.len() - m) as nat);
        let t = digits_value(s2.skip(m));
        let l = (s.last() - 48) as nat;
        assert(s.skip(m).last() == s.last());
        assert(digits_value(s) == digits_value(s2) * 10 + l);
        assert(digits_value(s.skip(m)) == t * 10 + l);
        assert(pow10((s.len() - m) as nat) == 10 * p);
        assert((a * p + t) * 10 + l == a * (10 * p) + (t * 10 + l)) by (nonlinear_arith);
        assert(digits_value(s2) == a * p + t);
        assert(digits_value(s) == a * (10 * p) + (t * 10 + l));
        assert(digits_value(s) == digits_value(s.take(m)) * pow10((s.len() - m) as nat)
            + digits_value(s.skip(m)));
    } else {
        assert(s.take(m) =~= s);
        assert(s.skip(m) =~= Seq::<u8>::empty());
        assert(digits_value(Seq::<u8>::empty()) == 0);
        assert(pow10(0) == 1);
        assert(digits_value(s.skip(m)) == 0);
        assert(digits_value(s.take(m)) == digits_value(s));
        let x = digits_value(s);
        assert(x * pow10(0) == x);
    }
}

/// Rounding off the digits from position `m` on: the kept digits, plus one
/// when the first dropped digit is 5 or more.
proof fn lemma_round_by_digit(s: Seq<u8>, m: int)
    requires
        all_digits(s),
        0 <= m < s.len(),
    ensures
        round_scaled(digits_value(s), m - s.len()) == digits_value(s.take(m)) + (if s[m] >= 53 {
            1nat
        } else {
            0nat
        }),
{
    let l = s.len() - m;
    let t = s.skip(m);
    lemma_digits_split(s, m);
    lemma_digits_split(t, 1);
    let a: int = digits_value(s.take(m)) as int;
    let p: int = pow10(l as nat) as int;
    let q: int = pow10((l - 1) as nat) as int;
    assert(p == 10 * q);
    lemma_pow10_grows(0, (l - 1) as nat);
    let rest = t.skip(1);
    assert(all_digits(rest)) by {
        assert forall|i: int| 0 <= i < rest.len() implies is_digit(#[trigger] rest[i]) by {
            assert(rest[i] == s[m + 1 + i]);
        }
    }
    lemma_digits_value_bound(rest);
    let r: int = digits_value(rest) as int;
    assert(t.take(1).drop_last() =~= Seq::<u8>::empty());
    assert(digits_value(Seq::<u8>::empty()) == 0);
    assert(t.take(1).last() == s[m]);
    assert(digits_value(t.take(1)) == digits_value(t.take(1).drop_last()) * 10 + (t.take(1).last()
        - 48) as nat);
    assert(is_digit(s[m]));
    let dg = (s[m] - 48) as int;
    assert(digits_value(t.take(1)) == dg);
    let v: int = digits_value(s) as int;
    assert(v == a * p + dg * q + r);
    if dg >= 5 {
        assert(2 * v + p == (a + 1) * (2 * p) + (2 * (dg - 5) * q + 2 * r)) by (nonlinear_arith)
            requires
                v == a * p + dg * q + r,
                p == 10 * q,
        ;
        assert(0 <= 2 * (dg - 5) * q + 2 * r < 2 * p) by (nonlinear_arith)
            requires
                5 <= dg <= 9,
                0 <= r < q,
                p == 10 * q,
        ;
        lemma_fundamental_div_mod_converse(
            2 * v + p,
            2 * p,
            a + 1,
            2 * (dg - 5) * q + 2 * r,
        );
    } else {
        assert(2 * v + p == a * (2 * p) + (2 * dg * q + 2 * r + p)) by (nonlinear_arith)
            requires
                v == a * p + dg * q + r,
        ;
        assert(0 <= 2 * dg * q + 2 * r + p < 2 * p) by (nonlinear_arith)
            requires
                0 <= dg <= 4,
                0 <= r < q,
                p == 10 * q,
        ;
        lemma_fundamental_div_mod_converse(2 * v + p, 2 * p, a, 2 * dg * q + 2 * r + p);
    }
}

/// When every digit lies below the rounding position the result is zero.
proof fn lemma_round_to_zero(v: nat, n: nat, k: int)
    requires
        v < pow10(n),
        k < 0,
        n + k < 0,
    ensures
        round_scaled(v, k) == 0,
{
    let p: int = pow10((-k) as nat) as int;
    lemma_pow10_grows((n + 1) as nat, (-k) as nat);
    assert(pow10((n + 1) as nat) == 10 * pow10(n));
    lemma_fundamental_div_mod_converse(2 * v + p, 2 * p, 0int, 2 * v + p);
}

proof fn lemma_round_zero(k: int)
    ensures
        round_scaled(0, k) == 0,
{
    if k < 0 {
        let p: int = pow10((-k) as nat) as int;
        lemma_pow10_grows(0, (-k) as nat);
        lemma_fundamental_div_mod_converse(p, 2 * p, 0int, p);
    }
}

proof fn lemma_pow10_nineteen()
    ensures
        pow10(19) == 10_000_000_000_000_000_000,
{
    reveal_with_fuel(pow10, 20);
}

/// Reads the run of digits that starts at `start` and stops at `stop` at
/// the latest. Returns where it ends and its value, capped at `DIGITS_CAP`.
fn scan_digits(b: &[u8], start: usize, stop: usize) -> (r: (usize, u128))
    requires
        start <= stop <= b@.len(),
    ensures
        start <= r.0 <= stop,
        all_digits(b@.subrange(start as int, r.0 as int)),
        r.0 == stop || !is_digit(b@[r.0 as int]),
        r.1 == capped(digits_value(b@.subrange(start as int, r.0 as int))),
{
    let mut i: usize = start;
    let mut acc: u128 = 0;
    while i < stop && 48 <= b[i] && b[i] <= 57
        invariant
            start <= i <= stop <= b@.len(),
            all_digits(b@.subrange(start as int, i as int)),
            acc == capped(digits_value(b@.subrange(start as int, i as int))),
        decreases stop - i,
    {
        let ghost prev = b@.subrange(start as int, i as int);
        let ghost next = b@.subrange(start as int, i + 1);
        assert(next.drop_last() =~= prev);
        let d = (b[i] - 48) as u128;
        let grown = acc * 10 + d;
        acc = if grown > DIGITS_CAP { DIGITS_CAP } else { grown };
        i = i + 1;
        assert(all_digits(next)) by {
            assert forall|k: int| 0 <= k < next.len() implies is_digit(#[trigger] next[k]) by {
                if k < prev.len() {
                    assert(next[k] == prev[k]);
                }
            }
        }
        assert(digits_value(next) == digits_value(prev) * 10 + d);
    }
    (i, acc)
}

/// Reads an unsigned integer: an optional `+`, then digits to the end.
pub fn parse_unsigned(s: &str) -> (r: Option<u64>)
    ensures
        r == (match unsigned_value(s.spec_bytes()) {
            Some(v) => if v <= u64::MAX {
                Some(v as u64)
            } else {
                None
            },
            None => None,
        }),
{
    let b = s.as_bytes();
    let start: usize = if b.len() > 0 && b[0] == 43 { 1 } else { 0 };
    let (end, value) = scan_digits(b, start, b.len());
    proof {
        if start == 1 {
            assert(b@.subrange(1, b@.len() as int) =~= b@.drop_first());
        } else {
            assert(b@.subrange(0, b@.len() as int) =~= b@);
        }
    }
    if end == start || end < b.len() {
        proof {
            if end < b.len() {
                let body = b@.subrange(start as int, b@.len() as int);
                assert(body[end - start] == b@[end as int]);
            }
        }
        None
    } else if value <= u64::MAX as u128 {
        Some(value as u64)
    } else {
        None
    }
}

/// Reads a signed integer from the first `len` bytes of `s`: an optional
/// `+` or `-`, then digits up to `len`.
pub fn parse_integer(s: &[u8], len: usize) -> (r: Option<i64>)
    requires
        len <= s@.len(),
    ensures
        r == (match integer_value(s@.take(len as int)) {
            Some(v) => if fits_i64(v) {
                Some(v as i64)
            } else {
                None
            },
            None => None,
        }),
{
    let ghost t = s@.take(len as int);
    let start: usize = if len > 0 && (s[0] == 43 || s[0] == 45) { 1 } else { 0 };
    let negative = len > 0 && s[0] == 45;
    let (end, value) = scan_digits(s, start, len);
    let ghost body = t.skip(start as int);
    proof {
        assert(body =~= s@.subrange(start as int, len as int));
    }
    if end == start || end < len {
        proof {
            if end < len {
                assert(body[end - start] == s@[end as int]);
            }
        }
        None
    } else if negative {
        if value <= 0x8000_0000_0000_0000 {
            Some((0 - value as i128) as i64)
        } else {
            None
        }
    } else if value <= 0x7fff_ffff_ffff_ffff {
        Some(value as i64)
    } else {
        None
    }
}

/// Where the text of `b` ends once trailing carriage returns and line feeds
/// are dropped.
pub fn line_end(b: &[u8]) -> (r: usize)
    ensures
        r <= b@.len(),
        b@.take(r as int) == trim_line_end(b@),
{
    let mut e: usize = b.len();
    proof {
        assert(b@.take(e as int) =~= b@);
    }
    while e > 0 && (b[e - 1] == 13 || b[e - 1] == 10)
        invariant
            e <= b@.len(),
            trim_line_end(b@.take(e as int)) == trim_line_end(b@),
        decreases e,
    {
        assert(b@.take(e as int).drop_last() =~= b@.take(e - 1));
        e = e - 1;
    }
    e
}

/// The digits of a mantissa: `wl` bytes from `start`, then `fl` from `fs`.
pub open spec fn joined(b: Seq<u8>, start: int, wl: int, fs: int, fl: int) -> Seq<u8> {
    b.subrange(start, start + wl) + b.subrange(fs, fs + fl)
}

fn digit_at(b: &[u8], start: usize, wl: usize, fs: usize, fl: usize, i: usize) -> (r: u8)
    requires
        start + wl <= b@.len(),
        fs + fl <= b@.len(),
        i < wl + fl,
    ensures
        r == joined(b@, start as int, wl as int, fs as int, fl as int)[i as int],
{
    let _len = b.len();
    if i < wl {
        b[start + i]
    } else {
        b[fs + (i - wl)]
    }
}

/// The value of the first `m` digits of a mantissa, capped at `DIGITS_CAP`.
fn prefix_value(b: &[u8], start: usize, wl: usize, fs: usize, fl: usize, m: usize) -> (r: u128)
    requires
        start + wl <= b@.len(),
        fs + fl <= b@.len(),
        m <= wl + fl,
        all_digits(joined(b@, start as int, wl as int, fs as int, fl as int)),
    ensures
        r == capped(
            digits_value(joined(b@, start as int, wl as int, fs as int, fl as int).take(m as int)),
        ),
{
    let ghost d = joined(b@, start as int, wl as int, fs as int, fl as int);
    let mut i: usize = 0;
    let mut acc: u128 = 0;
    assert(d.take(0) =~= Seq::<u8>::empty());
    while i < m
        invariant
            i <= m <= wl + fl,
            start + wl <= b@.len(),
            fs + fl <= b@.len(),
            d == joined(b@, start as int, wl as int, fs as int, fl as int),
            all_digits(d),
            acc == capped(digits_value(d.take(i as int))),
        decreases m - i,
    {
        let c = digit_at(b, start, wl, fs, fl, i);
        assert(is_digit(d[i as int]));
        assert(d.take(i + 1).drop_last() =~= d.take(i as int));
        assert(d.take(i + 1).last() == c);
        let grown = acc * 10 + (c - 48) as u128;
        acc = if grown > DIGITS_CAP { DIGITS_CAP } else { grown };
        i = i + 1;
    }
    acc
}

fn pow10_exec(k: u32) -> (r: u128)
    requires
        k <= 19,
    ensures
        r == pow10(k as nat),
        r <= 10_000_000_000_000_000_000,
{
    let mut r: u128 = 1;
    let mut i: u32 = 0;
    proof {
        lemma_pow10_nineteen();
    }
    while i < k
        invariant
            i <= k <= 19,
            r == pow10(i as nat),
            pow10(19) == 10_000_000_000_000_000_000,
        decreases k - i,
    {
        proof {
            lemma_pow10_grows((i + 1) as nat, 19);
        }
        r = r * 10;
        i = i + 1;
    }
    proof {
        lemma_pow10_grows(k as nat, 19);
    }
    r
}

/// How the bytes that the scans stopped at decide the mantissa of
/// `thousandths_value`.
proof fn lemma_mantissa_shape(
    b: Seq<u8>,
    start: int,
    w_end: int,
    has_dot: bool,
    fs: int,
    p: int,
)
    requires
        start == sign_len(b),
        start <= w_end <= p <= b.len(),
        all_digits(b.subrange(start, w_end)),
        w_end == b.len() || !is_digit(b[w_end]),
        has_dot == (w_end < b.len() && b[w_end] == 46),
        has_dot ==> fs == w_end + 1 && fs <= p && all_digits(b.subrange(fs, p)) && (p == b.len()
            || !is_digit(b[p])),
        !has_dot ==> fs == w_end && p == w_end,
    ensures
        ({
            let body = b.skip(start);
            let x = index_of(body, 101, 69);
            let mant = body.take(x);
            let d = index_of(mant, 46, 46);
            let whole = mant.take(d);
            let frac = if d < mant.len() { mant.skip(d + 1) } else { Seq::empty() };
            &&& (p == b.len() || b[p] == 101 || b[p] == 69) ==> {
                &&& x == p - start
                &&& whole == b.subrange(start, w_end)
                &&& frac == b.subrange(fs, p)
            }
            &&& !(p == b.len() || b[p] == 101 || b[p] == 69) ==> !(all_digits(whole)
                && all_digits(frac))
        }),
{
    let body = b.skip(start);
    let pp = p - start;
    let w = w_end - start;
    assert forall|i: int| 0 <= i < pp implies body[i] != 101 && body[i] != 69 && (body[i]
        == 46 || is_digit(body[i])) && (i != w ==> is_digit(body[i])) by {
        assert(body[i] == b[start + i]);
        if start + i < w_end {
            assert(b.subrange(start, w_end)[i] == b[start + i]);
        } else if start + i > w_end {
            assert(b.subrange(fs, p)[start + i - fs] == b[start + i]);
        }
    }
    if pp < body.len() {
        assert(body[pp] == b[p]);
    }
    lemma_index_of_bounds(body, 101, 69);
    let x = index_of(body, 101, 69);
    let mant = body.take(x);
    if p == b.len() || b[p] == 101 || b[p] == 69 {
        lemma_index_of_at(body, 101, 69, pp);
        if has_dot {
            assert(mant[w] == 46);
            lemma_index_of_at(mant, 46, 46, w);
            assert(mant.take(w) =~= b.subrange(start, w_end));
            assert(mant.skip(w + 1) =~= b.subrange(fs, p));
        } else {
            lemma_index_of_at(mant, 46, 46, mant.len() as int);
            assert(mant.take(mant.len() as int) =~= b.subrange(start, w_end));
            assert(b.subrange(fs, p) =~= Seq::<u8>::empty());
        }
    } else {
        assert(!is_digit(b[p]));
        assert(x > pp);
        assert(mant[pp] == b[p]);
        lemma_index_of_bounds(mant, 46, 46);
        let d = index_of(mant, 46, 46);
        if has_dot {
            assert(mant[w] == 46);
            lemma_index_of_at(mant, 46, 46, w);
            let frac = mant.skip(w + 1);
            assert(frac[pp - w - 1] == b[p]);
        } else {
            assert(b[p] != 46);
            assert(d > pp);
            assert(mant.take(d)[pp] == b[p]);
        }
    }
}

/// An exponent known exactly, or only as beyond `DIGITS_CAP` in size.
pub open spec fn exponent_matches(e: int, et: int) -> bool {
    &&& -DIGITS_CAP <= e <= DIGITS_CAP
    &&& e == et || (e == DIGITS_CAP && et >= DIGITS_CAP) || (e == -DIGITS_CAP && et
        <= -DIGITS_CAP)
}

/// Reads the exponent that follows position `p`: an optional sign, then
/// digits to the end.
fn scan_exponent(b: &[u8], p: usize) -> (r: Option<i128>)
    requires
        p < b@.len(),
    ensures
        r is None <==> integer_value(b@.subrange(p + 1, b@.len() as int)) is None,
        r matches Some(e) ==> exponent_matches(
            e as int,
            integer_value(b@.subrange(p + 1, b@.len() as int))->Some_0,
        ),
{
    let len = b.len();
    let es = p + 1;
    let eneg = es < len && b[es] == 45;
    let ds: usize = if es < len && (b[es] == 43 || b[es] == 45) { es + 1 } else { es };
    let (ee, ev) = scan_digits(b, ds, len);
    let ghost ex = b@.subrange(es as int, len as int);
    assert(ex.skip(sign_len(ex)) =~= b@.subrange(ds as int, len as int));
    if ee == ds || ee < len {
        proof {
            if ee < len {
                assert(ex.skip(sign_len(ex))[ee - ds] == b@[ee as int]);
            }
        }
        return None;
    }
    if eneg {
        Some(0 - ev as i128)
    } else {
        Some(ev as i128)
    }
}

/// The magnitude `round_scaled(v, e - fl + 3)` of a mantissa `v` with `fl`
/// digits after the point, when it is at most 2^63.
fn round_mantissa(
    b: &[u8],
    start: usize,
    wl: usize,
    fs: usize,
    fl: usize,
    e: i128,
    et: Ghost<int>,
) -> (r: Option<u128>)
    requires
        start + wl <= fs,
        fs + fl <= b@.len(),
        wl + fl > 0,
        all_digits(joined(b@, start as int, wl as int, fs as int, fl as int)),
        exponent_matches(e as int, et@),
    ensures
        ({
            let m = round_scaled(
                digits_value(joined(b@, start as int, wl as int, fs as int, fl as int)),
                et@ - fl + 3,
            );
            match r {
                Some(x) => x == m && m <= 0x8000_0000_0000_0000,
                None => m > 0x8000_0000_0000_0000,
            }
        }),
{
    let _len = b.len();
    let ghost dd = joined(b@, start as int, wl as int, fs as int, fl as int);
    let ghost kt: int = et@ - fl + 3;
    let ghost v = digits_value(dd);
    let n = wl + fl;
    let total = prefix_value(b, start, wl, fs, fl, n);
    assert(dd.take(n as int) =~= dd);
    if total == 0 {
        proof {
            lemma_round_zero(kt);
        }
        return Some(0);
    }
    let k: i128 = e - fl as i128 + 3;
    if k > 19 {
        proof {
            lemma_pow10_grows(19, kt as nat);
            lemma_pow10_nineteen();
            assert(v * pow10(kt as nat) >= pow10(kt as nat)) by (nonlinear_arith)
                requires
                    v >= 1,
            ;
        }
        None
    } else if k >= 0 {
        if total > 0x8000_0000_0000_0000 {
            proof {
                lemma_pow10_grows(0, kt as nat);
                assert(v * pow10(kt as nat) >= v) by (nonlinear_arith)
                    requires
                        pow10(kt as nat) >= 1,
                ;
            }
            return None;
        }
        let pw = pow10_exec(k as u32);
        assert(total * pw <= 0x8000_0000_0000_0000 * 10_000_000_000_000_000_000)
            by (nonlinear_arith)
            requires
                total <= 0x8000_0000_0000_0000,
                pw <= 10_000_000_000_000_000_000,
        ;
        let x = total * pw;
        if x > 0x8000_0000_0000_0000 {
            None
        } else {
            Some(x)
        }
    } else {
        let m: i128 = n as i128 + k;
        if m < 0 {
            proof {
                lemma_digits_value_bound(dd);
                lemma_round_to_zero(v, n as nat, kt);
            }
            Some(0)
        } else {
            let a = prefix_value(b, start, wl, fs, fl, m as usize);
            proof {
                lemma_round_by_digit(dd, m as int);
            }
            if a > 0x8000_0000_0000_0000 {
                return None;
            }
            let c = digit_at(b, start, wl, fs, fl, m as usize);
            let x = if c >= 53 { a + 1 } else { a };
            if x > 0x8000_0000_0000_0000 {
                None
            } else {
                Some(x)
            }
        }
    }
}

/// Why a text gives no count of thousandths.
#[derive(Clone, Copy, Debug, PartialEq, Eq)]
pub enum NumberError {
    /// The text is not a decimal number.
    Malformed,
    /// The number is too large for `i64` once counted in thousandths.
    OutOfRange,
}

/// Reads a decimal number, as `thousandths_value` describes, as a count of
/// thousandths: "40.5" gives 40500, "-.25" gives -250, "1e-4" gives 0,
/// "0.0125" gives 13.
#[verifier::rlimit(100)]
pub fn parse_thousandths(s: &str) -> (r: Result<i64, NumberError>)
    ensures
        r == (match thousandths_value(s.spec_bytes()) {
            Some(v) => if fits_i64(v) {
                Ok(v as i64)
            } else {
                Err(NumberError::OutOfRange)
            },
            None => Err(NumberError::Malformed),
        }),
{
    let b = s.as_bytes();
    let len = b.len();
    let start: usize = if len > 0 && (b[0] == 43 || b[0] == 45) { 1 } else { 0 };
    let negative = len > 0 && b[0] == 45;
    let ghost body = b@.skip(start as int);
    let (w_end, _w) = scan_digits(b, start, len);
    let has_dot = w_end < len && b[w_end] == 46;
    let mut p: usize = w_end;
    let mut fs: usize = w_end;
    if has_dot {
        let (fe, _f) = scan_digits(b, w_end + 1, len);
        p = fe;
        fs = w_end + 1;
    }
    proof {
        lemma_mantissa_shape(b@, start as int, w_end as int, has_dot, fs as int, p as int);
    }
    if p < len && b[p] != 101 && b[p] != 69 {
        return Err(NumberError::Malformed);
    }
    let wl = w_end - start;
    let fl = p - fs;
    let ghost whole = b@.subrange(start as int, w_end as int);
    let ghost frac = b@.subrange(fs as int, p as int);
    let ghost dd = joined(b@, start as int, wl as int, fs as int, fl as int);
    assert(dd == whole + frac);
    let mut e: i128 = 0;
    let ghost mut et: int = 0;
    if p < len {
        assert(body.skip(p - start + 1) =~= b@.subrange(p + 1, len as int));
        match scan_exponent(b, p) {
            None => {
                return Err(NumberError::Malformed);
            },
            Some(x) => {
                e = x;
                proof {
                    et = integer_value(b@.subrange(p + 1, len as int))->Some_0;
                }
            },
        }
    }
    if wl + fl == 0 {
        return Err(NumberError::Malformed);
    }
    assert(all_digits(dd)) by {
        assert forall|i: int| 0 <= i < dd.len() implies is_digit(#[trigger] dd[i]) by {
            if i < wl {
                assert(dd[i] == whole[i]);
            } else {
                assert(dd[i] == frac[i - wl]);
            }
        }
    }
    let magnitude = match round_mantissa(b, start, wl, fs, fl, e, Ghost(et)) {
        Some(x) => x,
        None => {
            return Err(NumberError::OutOfRange);
        },
    };
    if negative {
        Ok((0 - magnitude as i128) as i64)
    } else if magnitude <= 0x7fff_ffff_ffff_ffff {
        Ok(magnitude as i64)
    } else {
        Err(NumberError::OutOfRange)
    }
}

} // verus!
