//! Reading a non-negative decimal number, such as `12`, `0.0005`, `+.5` or
//! `2.5e-4`, as a fixed-point quantity.
use vstd::prelude::*;
use vstd::arithmetic::div_mod::{lemma_basic_div, lemma_div_denominator, lemma_fundamental_div_mod_converse};
use vstd::string::StringSliceAdditionalSpecFns;
use crate::fixed::SCALE;

verus! {

/// Whether a byte is an ASCII decimal digit.
pub open spec fn is_digit(c: u8) -> bool {
    48 <= c <= 57
}

/// Whether every byte is a decimal digit.
pub open spec fn all_digits(b: Seq<u8>) -> bool {
    forall|t: int| 0 <= t < b.len() ==> is_digit(#[trigger] b[t])
}

/// The number that a string of digits writes in base ten.
pub open spec fn digits_value(b: Seq<u8>) -> int
    decreases b.len(),
{
    if b.len() == 0 {
        0
    } else {
        digits_value(b.drop_last()) * 10 + (b.last() - 48)
    }
}

pub open spec fn pow10(n: nat) -> int
    decreases n,
{
    if n == 0 {
        1
    } else {
        10 * pow10((n - 1) as nat)
    }
}

/// The text after an optional leading `+`.
pub open spec fn unsigned_part(b: Seq<u8>) -> Seq<u8> {
    if b.len() > 0 && b[0] == 43 {
        b.skip(1)
    } else {
        b
    }
}

/// Whether `body` is digits, a point at `k`, then digits.
pub open spec fn point_at(body: Seq<u8>, k: int) -> bool {
    &&& 0 <= k < body.len()
    &&& body[k] == 46
    &&& all_digits(body.take(k))
    &&& all_digits(body.skip(k + 1))
}

/// Whether a byte marks the exponent: `e` or `E`.
pub open spec fn is_mark(c: u8) -> bool {
    c == 101 || c == 69
}

/// Whether `body` has an exponent mark at `k`.
pub open spec fn mark_at(body: Seq<u8>, k: int) -> bool {
    0 <= k < body.len() && is_mark(body[k])
}

/// Whether `m` is `digits`, `digits.digits`, `digits.` or `.digits`, with
/// at least one digit.
pub open spec fn mantissa_ok(m: Seq<u8>) -> bool {
    (m.len() > 0 && all_digits(m)) || (m.len() >= 2 && exists|k: int| point_at(m, k))
}

/// Where the point of a mantissa stands; its length when it has none.
pub open spec fn point_of(m: Seq<u8>) -> int {
    if all_digits(m) {
        m.len() as int
    } else {
        choose|k: int| point_at(m, k)
    }
}

/// The digits of a mantissa with its point taken out.
pub open spec fn mantissa_digits(m: Seq<u8>) -> Seq<u8> {
    if all_digits(m) {
        m
    } else {
        m.take(point_of(m)) + m.skip(point_of(m) + 1)
    }
}

/// How many digits of a mantissa follow its point.
pub open spec fn fraction_len(m: Seq<u8>) -> int {
    if all_digits(m) {
        0
    } else {
        m.len() - point_of(m) - 1
    }
}

/// The value of an exponent: an optional `+` or `-`, then at least one
/// digit.
pub open spec fn exponent_of(x: Seq<u8>) -> Option<int> {
    let signed = x.len() > 0 && (x[0] == 45 || x[0] == 43);
    let d = if signed { x.skip(1) } else { x };
    if d.len() > 0 && all_digits(d) {
        Some(if signed && x[0] == 45 { -digits_value(d) } else { digits_value(d) })
    } else {
        None
    }
}

/// `v * 10^q`, rounded down.
pub open spec fn shift10(v: int, q: int) -> int {
    if q >= 0 {
        v * pow10(q as nat)
    } else {
        v / pow10((-q) as nat)
    }
}

/// The value in fixed-point units of a mantissa, optionally followed by an
/// exponent mark and an exponent, after an optional leading `+`; `None`
/// for any other text. The value is rounded down to nine decimal places.
pub open spec fn decimal_units(b: Seq<u8>) -> Option<int> {
    let body = unsigned_part(b);
    let has_mark = exists|k: int| mark_at(body, k);
    let k = choose|k: int| mark_at(body, k);
    let m = if has_mark { body.take(k) } else { body };
    let e = if has_mark { exponent_of(body.skip(k + 1)) } else { Some(0int) };
    if mantissa_ok(m) && e is Some {
        Some(shift10(digits_value(mantissa_digits(m)), e->0 + 9 - fraction_len(m)))
    } else {
        None
    }
}

/// The decimal read from `b` when it is well formed and fits in a `u64`.
pub open spec fn decimal_field(b: Seq<u8>) -> Option<u64> {
    match decimal_units(b) {
        Some(v) => if v <= u64::MAX { Some(v as u64) } else { None },
        None => None,
    }
}

proof fn lemma_digits_step(b: Seq<u8>, lo: int, hi: int)
    requires
        0 <= lo <= hi < b.len(),
        forall|t: int| lo <= t <= hi ==> is_digit(#[trigger] b[t]),
    ensures
        digits_value(b.subrange(lo, hi + 1)) == digits_value(b.subrange(lo, hi)) * 10 + (b[hi] - 48),
        digits_value(b.subrange(lo, hi + 1)) >= digits_value(b.subrange(lo, hi)),
{
    assert(b.subrange(lo, hi + 1).drop_last() =~= b.subrange(lo, hi));
    assert(all_digits(b.subrange(lo, hi)));
    lemma_digits_nonneg(b.subrange(lo, hi));
}

proof fn lemma_digits_nonneg(b: Seq<u8>)
    requires
        all_digits(b),
    ensures
        digits_value(b) >= 0,
    decreases b.len(),
{
    if b.len() > 0 {
        assert(all_digits(b.drop_last()));
        lemma_digits_nonneg(b.drop_last());
    }
}

proof fn lemma_pow10_mono(a: nat, b: nat)
    requires
        a <= b,
    ensures
        1 <= pow10(a) <= pow10(b),
    decreases b,
{
    if b > a {
        lemma_pow10_mono(a, (b - 1) as nat);
    } else {
        lemma_pow10_positive(a);
    }
}

proof fn lemma_pow10_positive(n: nat)
    ensures
        pow10(n) >= 1,
    decreases n,
{
    if n > 0 {
        lemma_pow10_positive((n - 1) as nat);
    }
}

proof fn lemma_pow10_twenty()
    ensures
        pow10(20) > u64::MAX,
{
    reveal_with_fuel(pow10, 21);
}

proof fn lemma_pow10_one()
    ensures
        pow10(1) == 10,
{
    reveal_with_fuel(pow10, 2);
}

proof fn lemma_pow10_add(a: nat, b: nat)
    ensures
        pow10(a + b) == pow10(a) * pow10(b),
    decreases b,
{
    if b > 0 {
        lemma_pow10_add(a, (b - 1) as nat);
        assert(pow10(a + b) == 10 * pow10((a + b - 1) as nat));
        assert(pow10(a) * (10 * pow10((b - 1) as nat)) == 10 * (pow10(a) * pow10((b - 1) as nat)))
            by (nonlinear_arith);
    }
}

proof fn lemma_digits_bound(b: Seq<u8>)
    requires
        all_digits(b),
    ensures
        0 <= digits_value(b) < pow10(b.len()),
    decreases b.len(),
{
    if b.len() > 0 {
        assert(all_digits(b.drop_last()));
        lemma_digits_bound(b.drop_last());
        assert(is_digit(b[b.len() - 1]));
    }
}

/// Dropping the last `k` digits divides by `10^k`, rounding down.
proof fn lemma_div_pow10_take(d: Seq<u8>, k: nat)
    requires
        all_digits(d),
        k <= d.len(),
    ensures
        digits_value(d) / pow10(k) == digits_value(d.take(d.len() - k)),
    decreases k,
{
    if k == 0 {
        assert(d.take(d.len() as int) =~= d);
    } else {
        let p = d.drop_last();
        assert(all_digits(p));
        lemma_digits_nonneg(p);
        lemma_pow10_positive((k - 1) as nat);
        let x = d.last() - 48;
        assert(is_digit(d[d.len() - 1]));
        lemma_fundamental_div_mod_converse(digits_value(d), 10, digits_value(p), x);
        lemma_div_denominator(digits_value(d), 10, pow10((k - 1) as nat));
        lemma_div_pow10_take(p, (k - 1) as nat);
        assert(p.take(p.len() - (k - 1)) =~= d.take(d.len() - k));
    }
}

/// A mantissa with a byte that is neither a digit nor a point is not well
/// formed.
proof fn lemma_stray_byte(m: Seq<u8>, j: int)
    requires
        0 <= j < m.len(),
        !is_digit(m[j]),
        m[j] != 46,
    ensures
        !mantissa_ok(m),
{
    assert forall|k: int| !point_at(m, k) by {
        if 0 <= k < m.len() && k < j {
            assert(m.skip(k + 1)[j - k - 1] == m[j]);
        } else if 0 <= k < m.len() && k > j {
            assert(m.take(k)[j] == m[j]);
        }
    }
}

/// A mantissa with two bytes that are not digits is not well formed.
proof fn lemma_two_non_digits(m: Seq<u8>, i: int, j: int)
    requires
        0 <= i < j < m.len(),
        !is_digit(m[i]),
        !is_digit(m[j]),
    ensures
        !mantissa_ok(m),
{
    assert forall|k: int| !point_at(m, k) by {
        if 0 <= k < m.len() && k <= i {
            assert(m.skip(k + 1)[j - k - 1] == m[j]);
        } else if 0 <= k < m.len() && k > i {
            assert(m.take(k)[i] == m[i]);
        }
    }
}

/// No exponent holds an exponent mark.
proof fn lemma_exponent_has_no_mark(x: Seq<u8>, t: int)
    requires
        exponent_of(x) is Some,
        0 <= t < x.len(),
    ensures
        !is_mark(x[t]),
{
    let signed = x.len() > 0 && (x[0] == 45 || x[0] == 43);
    if signed && t > 0 {
        assert(x.skip(1)[t - 1] == x[t]);
    }
}

proof fn lemma_digits_monotone(d: Seq<u8>, i: int, k: int)
    requires
        all_digits(d),
        0 <= i <= k <= d.len(),
    ensures
        digits_value(d.subrange(0, i)) <= digits_value(d.subrange(0, k)),
    decreases k - i,
{
    if i < k {
        lemma_digits_monotone(d, i, k - 1);
        lemma_digits_step(d, 0, k - 1);
    }
}

/// The value of the first `k` digits of `d`; `None` when it does not fit.
fn prefix_value(d: &Vec<u8>, k: usize) -> (r: Option<u64>)
    requires
        all_digits(d@),
        k <= d@.len(),
    ensures
        digits_value(d@.take(k as int)) <= u64::MAX ==> r == Some(
            digits_value(d@.take(k as int)) as u64,
        ),
        digits_value(d@.take(k as int)) > u64::MAX ==> r is None,
{
    let mut acc: u64 = 0;
    let mut i: usize = 0;
    while i < k
        invariant
            all_digits(d@),
            k <= d@.len(),
            i <= k,
            acc == digits_value(d@.subrange(0, i as int)),
        decreases k - i,
    {
        proof {
            lemma_digits_step(d@, 0, i as int);
        }
        let v: u128 = acc as u128 * 10 + (d[i] - 48) as u128;
        if v > u64::MAX as u128 {
            proof {
                lemma_digits_monotone(d@, i + 1, k as int);
                assert(d@.take(k as int) =~= d@.subrange(0, k as int));
            }
            return None;
        }
        acc = v as u64;
        i = i + 1;
    }
    assert(d@.take(k as int) =~= d@.subrange(0, k as int));
    Some(acc)
}

/// `v * 10^q`; `None` when it does not fit.
fn scale_up(v: u64, q: u128) -> (r: Option<u64>)
    ensures
        v * pow10(q as nat) <= u64::MAX ==> r == Some((v * pow10(q as nat)) as u64),
        v * pow10(q as nat) > u64::MAX ==> r is None,
{
    if v == 0 {
        assert(0 * pow10(q as nat) == 0);
        return Some(0);
    }
    let mut acc: u64 = v;
    let mut k: u128 = 0;
    while k < q
        invariant
            k <= q,
            v >= 1,
            acc == v * pow10(k as nat),
        decreases q - k,
    {
        proof {
            lemma_pow10_add(k as nat, (q - k) as nat);
            lemma_pow10_add(k as nat, 1);
            lemma_pow10_mono(1, (q - k) as nat);
            lemma_pow10_one();
        }
        if acc > u64::MAX / 10 {
            proof {
                assert(v * pow10(q as nat) == acc * pow10((q - k) as nat)) by (nonlinear_arith)
                    requires acc == v * pow10(k as nat), pow10(q as nat) == pow10(k as nat) * pow10(
                        (q - k) as nat);
                assert(acc * pow10((q - k) as nat) >= acc * 10) by (nonlinear_arith)
                    requires pow10((q - k) as nat) >= 10, acc >= 0;
            }
            return None;
        }
        proof {
            assert(v * pow10((k + 1) as nat) == acc * 10) by (nonlinear_arith)
                requires acc == v * pow10(k as nat), pow10((k + 1) as nat) == pow10(k as nat) * 10;
        }
        acc = acc * 10;
        k = k + 1;
    }
    Some(acc)
}

/// Splits the mantissa `b[lo..hi]` into its digits and the number of them
/// after the point; `None` when it is not well formed.
fn scan_mantissa(b: &[u8], lo: usize, hi: usize) -> (r: Option<(Vec<u8>, usize)>)
    requires
        lo <= hi <= b@.len(),
    ensures
        r is Some <==> mantissa_ok(b@.subrange(lo as int, hi as int)),
        r matches Some((d, f)) ==> {
            let m = b@.subrange(lo as int, hi as int);
            &&& d@ == mantissa_digits(m)
            &&& f == fraction_len(m)
            &&& all_digits(d@)
            &&& d@.len() <= m.len()
            &&& f <= m.len()
        },
{
    let ghost bs = b@;
    let ghost m = bs.subrange(lo as int, hi as int);
    let mut d: Vec<u8> = Vec::new();
    let mut i: usize = lo;
    while i < hi && 48 <= b[i] && b[i] <= 57
        invariant
            b@ == bs,
            lo <= i <= hi <= bs.len(),
            m == bs.subrange(lo as int, hi as int),
            d@ == bs.subrange(lo as int, i as int),
            all_digits(d@),
        decreases hi - i,
    {
        d.push(b[i]);
        i = i + 1;
        assert(d@ =~= bs.subrange(lo as int, i as int));
    }
    if i == hi {
        assert(d@ =~= m);
        if hi == lo {
            return None;
        }
        return Some((d, 0));
    }
    let point = i;
    let ghost j = i - lo;
    assert(m[j] == bs[i as int]);
    if b[i] != 46 {
        proof {
            lemma_stray_byte(m, j);
        }
        return None;
    }
    let ghost int_part = d@;
    assert(int_part =~= m.take(j));
    i = i + 1;
    assert(d@ =~= int_part + bs.subrange(lo + j + 1, i as int));
    while i < hi && 48 <= b[i] && b[i] <= 57
        invariant
            b@ == bs,
            lo + j + 1 <= i <= hi <= bs.len(),
            0 <= j < m.len(),
            point == lo + j,
            m == bs.subrange(lo as int, hi as int),
            int_part == m.take(j),
            all_digits(int_part),
            d@ == int_part + bs.subrange(lo + j + 1, i as int),
            all_digits(d@),
            forall|t: int| lo + j + 1 <= t < i ==> is_digit(#[trigger] bs[t]),
        decreases hi - i,
    {
        let ghost old_d = d@;
        d.push(b[i]);
        assert(d@ == old_d.push(bs[i as int]));
        assert(bs.subrange(lo + j + 1, i + 1) =~= bs.subrange(lo + j + 1, i as int).push(
            bs[i as int],
        ));
        i = i + 1;
        assert(d@ =~= int_part + bs.subrange(lo + j + 1, i as int));
    }
    if i < hi {
        assert(m[i - lo] == bs[i as int]);
        proof {
            lemma_two_non_digits(m, j, i - lo);
        }
        return None;
    }
    assert(m.skip(j + 1) =~= bs.subrange(lo + j + 1, i as int));
    assert(point_at(m, j));
    assert(!all_digits(m)) by {
        assert(!is_digit(m[j]));
    }
    assert forall|k: int| point_at(m, k) implies k == j by {
        if k > j {
            assert(m.take(k)[j] == m[j]);
        } else if k < j {
            assert(m.skip(k + 1)[j - k - 1] == m[j]);
        }
    }
    if hi - lo < 2 {
        return None;
    }
    Some((d, hi - point - 1))
}

/// Reads the exponent `b[lo..hi]`: whether it is negative, and its
/// magnitude, held at `cap + 1` when larger; `None` when it is not well
/// formed.
fn scan_exponent(b: &[u8], lo: usize, hi: usize, cap: u128) -> (r: Option<(bool, u128)>)
    requires
        lo <= hi <= b@.len(),
        cap < u64::MAX as u128 * 2,
    ensures
        r is Some <==> exponent_of(b@.subrange(lo as int, hi as int)) is Some,
        r matches Some((neg, mag)) ==> {
            let v = exponent_of(b@.subrange(lo as int, hi as int))->0;
            &&& neg ==> v <= 0
            &&& !neg ==> v >= 0
            &&& (if v < 0 { -v } else { v }) <= cap ==> mag == (if v < 0 { -v } else { v })
            &&& (if v < 0 { -v } else { v }) > cap ==> mag == cap + 1
        },
{
    let ghost bs = b@;
    let ghost x = bs.subrange(lo as int, hi as int);
    let signed = lo < hi && (b[lo] == 45 || b[lo] == 43);
    let neg = signed && b[lo] == 45;
    let ds: usize = if signed { lo + 1 } else { lo };
    let ghost dseq = if signed { x.skip(1) } else { x };
    assert(dseq =~= bs.subrange(ds as int, hi as int));
    let mut acc: u128 = 0;
    let mut big = false;
    let mut i: usize = ds;
    while i < hi && 48 <= b[i] && b[i] <= 57
        invariant
            b@ == bs,
            ds <= i <= hi <= bs.len(),
            cap < u64::MAX as u128 * 2,
            forall|t: int| ds <= t < i ==> is_digit(#[trigger] bs[t]),
            !big ==> acc == digits_value(bs.subrange(ds as int, i as int)) && acc <= cap,
            big ==> digits_value(bs.subrange(ds as int, i as int)) > cap && acc == cap + 1,
        decreases hi - i,
    {
        proof {
            lemma_digits_step(bs, ds as int, i as int);
        }
        if !big {
            let v: u128 = acc * 10 + (b[i] - 48) as u128;
            if v > cap {
                big = true;
                acc = cap + 1;
            } else {
                acc = v;
            }
        }
        i = i + 1;
    }
    if i < hi || i == ds {
        if i < hi {
            assert(dseq[i - ds] == bs[i as int]);
        }
        return None;
    }
    assert(all_digits(dseq));
    proof {
        lemma_digits_nonneg(dseq);
    }
    Some((neg, acc))
}

/// The digits' value times `10^(e + 9 - f)`, rounded down, where the
/// exponent `e` has sign `neg` and magnitude `mag`, held at `cap + 1` when
/// larger; `None` when it does not fit.
#[verifier::rlimit(50)]
fn shifted_value(digits: &Vec<u8>, f: usize, neg: bool, mag: u128, cap: u128, ev: Ghost<int>) -> (r: Option<u64>)
    requires
        all_digits(digits@),
        digits@.len() + 20 <= cap,
        f + 20 <= cap,
        cap < u64::MAX as u128 * 2,
        neg ==> ev@ <= 0,
        !neg ==> ev@ >= 0,
        (if ev@ < 0 { -ev@ } else { ev@ }) <= cap ==> mag == (if ev@ < 0 { -ev@ } else { ev@ }),
        (if ev@ < 0 { -ev@ } else { ev@ }) > cap ==> mag == cap + 1,
    ensures
        shift10(digits_value(digits@), ev@ + 9 - f) <= u64::MAX ==> r == Some(
            shift10(digits_value(digits@), ev@ + 9 - f) as u64,
        ),
        shift10(digits_value(digits@), ev@ + 9 - f) > u64::MAX ==> r is None,
{
    let ghost dv = digits_value(digits@);
    let ghost q = ev@ + 9 - f;
    let nd = digits.len();
    proof {
        lemma_digits_bound(digits@);
        lemma_pow10_twenty();
        assert(digits@.take(nd as int) =~= digits@);
    }
    if mag > cap {
        if neg {
            proof {
                lemma_pow10_mono(nd as nat, (-q) as nat);
                lemma_basic_div(dv, pow10((-q) as nat));
            }
            return Some(0);
        }
        return match prefix_value(&digits, nd) {
            Some(v) => {
                if v == 0 {
                    assert(0 * pow10(q as nat) == 0);
                    Some(0)
                } else {
                    proof {
                        lemma_pow10_mono(20, q as nat);
                        assert(dv * pow10(q as nat) >= pow10(q as nat)) by (nonlinear_arith)
                            requires dv >= 1, pow10(q as nat) >= 1;
                    }
                    None
                }
            },
            None => {
                proof {
                    lemma_pow10_positive(q as nat);
                    assert(dv * pow10(q as nat) >= dv) by (nonlinear_arith)
                        requires dv >= 0, pow10(q as nat) >= 1;
                }
                None
            },
        };
    }
    let qi: i128 = (if neg { -(mag as i128) } else { mag as i128 }) + 9 - f as i128;
    assert(qi == q);
    if qi >= 0 {
        match prefix_value(&digits, nd) {
            Some(v) => scale_up(v, qi as u128),
            None => {
                proof {
                    lemma_pow10_positive(q as nat);
                    assert(dv * pow10(q as nat) >= dv) by (nonlinear_arith)
                        requires dv >= 0, pow10(q as nat) >= 1;
                }
                None
            },
        }
    } else {
        let k: u128 = (-qi) as u128;
        if k >= nd as u128 {
            proof {
                lemma_pow10_mono(nd as nat, k as nat);
                lemma_basic_div(dv, pow10(k as nat));
            }
            Some(0)
        } else {
            proof {
                lemma_div_pow10_take(digits@, k as nat);
            }
            prefix_value(&digits, nd - k as usize)
        }
    }
}


/// Reads a non-negative decimal, with an optional exponent, as a
/// fixed-point quantity rounded down to nine places; `None` when the text
/// is not of that form or the value does not fit in a `u64`.
#[verifier::rlimit(50)]
pub fn parse_decimal(s: &str) -> (r: Option<u64>)
    ensures
        r == decimal_field(s.spec_bytes()),
{
    let b = s.as_bytes();
    let n = b.len();
    let ghost bs = b@;
    let start: usize = if n > 0 && b[0] == 43 { 1 } else { 0 };
    let ghost body = unsigned_part(bs);
    assert(body =~= bs.subrange(start as int, n as int));
    let mut e: usize = start;
    while e < n && b[e] != 101 && b[e] != 69
        invariant
            b@ == bs,
            n == bs.len(),
            start <= e <= n,
            forall|t: int| start <= t < e ==> !is_mark(#[trigger] bs[t]),
        decreases n - e,
    {
        e = e + 1;
    }
    let ghost je = e - start;
    let ghost m = bs.subrange(start as int, e as int);
    let ghost has_mark = exists|k: int| mark_at(body, k);
    let ghost kk = choose|k: int| mark_at(body, k);
    if e == n {
        assert(m =~= body);
        assert(!has_mark);
    } else {
        assert(body[je] == bs[e as int]);
        assert(mark_at(body, je));
        assert(m =~= body.take(je));
        assert(forall|k: int| mark_at(body, k) ==> k >= je);
        assert forall|k: int| mark_at(body, k) && k > je implies !mantissa_ok(#[trigger] body.take(k)) by {
            assert(body.take(k)[je] == body[je]);
            lemma_stray_byte(body.take(k), je);
        }
    }
    let (digits, f) = match scan_mantissa(b, start, e) {
        Some(x) => x,
        None => {
            return None;
        },
    };
    let cap: u128 = n as u128 + 20;
    let (neg, mag) = if e < n {
        match scan_exponent(b, e + 1, n, cap) {
            Some(x) => x,
            None => {
                assert(body.skip(je + 1) =~= bs.subrange(e + 1, n as int));
                return None;
            },
        }
    } else {
        (false, 0)
    };
    let ghost ev: int = if has_mark { exponent_of(body.skip(kk + 1))->0 } else { 0 };
    if e < n {
        assert(body.skip(je + 1) =~= bs.subrange(e + 1, n as int));
        assert forall|k: int| mark_at(body, k) implies k == je by {
            if k > je {
                assert(body.skip(je + 1)[k - je - 1] == body[k]);
                lemma_exponent_has_no_mark(body.skip(je + 1), k - je - 1);
            }
        }
        assert(kk == je);
    }
    let ghost dv = digits_value(digits@);
    let ghost q = ev + 9 - f;
    assert(decimal_units(bs) == Some(shift10(dv, q)));
    proof {
        lemma_digits_nonneg(digits@);
    }
    shifted_value(&digits, f, neg, mag, cap, Ghost(ev))
}

} // verus!
