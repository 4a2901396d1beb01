//! Weights written as non-negative decimal numbers, brought to whole numbers
//! over a common power of ten so that their ratios are kept exactly.
use vstd::prelude::*;
use vstd::string::StrSliceExecFns;

use crate::error::RndError;
use crate::text::views;

verus! {

/// Every character is a decimal digit.
pub open spec fn all_digits(d: Seq<char>) -> bool {
    forall|i: int| 0 <= i < d.len() ==> '0' <= #[trigger] d[i] <= '9'
}

/// The number that a string of digits denotes.
pub open spec fn digits_value(d: Seq<char>) -> nat
    decreases d.len(),
{
    if d.len() == 0 {
        0
    } else {
        digits_value(d.drop_last()) * 10 + ((d.last() as int - 48) as nat)
    }
}

/// A decimal number `t` as its digits without the point and the number of
/// digits after the point: digits, optionally a point and more digits, with
/// at least one digit in all.
pub open spec fn decimal_parts(t: Seq<char>) -> Option<(nat, nat)> {
    if exists|p: int| 0 <= p < t.len() && t[p] == '.' {
        let p = choose|p: int| 0 <= p < t.len() && t[p] == '.';
        let a = t.subrange(0, p);
        let b = t.subrange(p + 1, t.len() as int);
        if all_digits(a) && all_digits(b) && a.len() + b.len() > 0 {
            Some((digits_value(a + b), b.len()))
        } else {
            None
        }
    } else if all_digits(t) && t.len() > 0 {
        Some((digits_value(t), 0))
    } else {
        None
    }
}

pub open spec fn pow10(n: nat) -> nat
    decreases n,
{
    if n == 0 {
        1
    } else {
        10 * pow10((n - 1) as nat)
    }
}

proof fn lemma_digits_value_prefix(d: Seq<char>, k: int)
    requires
        0 <= k <= d.len(),
    ensures
        digits_value(d.subrange(0, k)) <= digits_value(d),
    decreases d.len() - k,
{
    if k < d.len() {
        lemma_digits_value_prefix(d, k + 1);
        assert(d.subrange(0, k + 1).drop_last() =~= d.subrange(0, k));
    } else {
        assert(d.subrange(0, k) =~= d);
    }
}

/// The number that the digits denote, if it is at most `u64::MAX`.
fn digits_number(d: &Vec<char>) -> (r: Option<u64>)
    requires
        all_digits(d@),
    ensures
        r matches Some(m) ==> m == digits_value(d@) && m <= u64::MAX,
        r is None ==> digits_value(d@) > u64::MAX,
{
    let mut m: u128 = 0;
    let mut i: usize = 0;
    while i < d.len()
        invariant
            0 <= i <= d.len(),
            all_digits(d@),
            m == digits_value(d@.subrange(0, i as int)),
            m <= u64::MAX,
        decreases d.len() - i,
    {
        assert(d@.subrange(0, i + 1).drop_last() =~= d@.subrange(0, i as int));
        assert('0' <= d@[i as int] <= '9');
        m = m * 10 + (d[i] as u128 - 48);
        i += 1;
        if m > u64::MAX as u128 {
            proof {
                lemma_digits_value_prefix(d@, i as int);
            }
            return None;
        }
    }
    assert(d@.subrange(0, i as int) =~= d@);
    Some(m as u64)
}

} // verus!

verus! {

/// The digits and the scale of a decimal weight, as `decimal_parts` gives
/// them, when its digits without the point denote at most `u64::MAX`.
pub fn parse_decimal(t: &str) -> (r: Result<(u64, usize), RndError>)
    ensures
        decimal_parts(t@) is None <==> r == Err::<(u64, usize), RndError>(RndError::InvalidWeight),
        decimal_parts(t@) matches Some((m, s)) ==> {
            &&& m <= u64::MAX ==> r == Ok::<(u64, usize), RndError>((m as u64, s as usize))
            &&& m > u64::MAX ==> r == Err::<(u64, usize), RndError>(RndError::WeightsTooLarge)
        },
        r matches Ok((m, s)) ==> decimal_parts(t@) == Some((m as nat, s as nat)),
{
    let ghost ts = t@;
    let n = t.unicode_len();
    let mut p: usize = 0;
    while p < n && t.get_char(p) != '.'
        invariant
            0 <= p <= n == ts.len(),
            ts == t@,
            forall|k: int| 0 <= k < p ==> ts[k] != '.',
        decreases n - p,
    {
        p += 1;
    }
    let mut digits: Vec<char> = Vec::new();
    let mut i: usize = 0;
    while i < n
        invariant
            0 <= i <= n == ts.len(),
            ts == t@,
            0 <= p <= n,
            p < n ==> ts[p as int] == '.',
            forall|k: int| 0 <= k < p ==> ts[k] != '.',
            forall|k: int| 0 <= k < i && k != p ==> '0' <= #[trigger] ts[k] <= '9',
            digits@ == if i <= p {
                ts.subrange(0, i as int)
            } else {
                ts.subrange(0, p as int) + ts.subrange(p + 1, i as int)
            },
        decreases n - i,
    {
        if i != p {
            let c = t.get_char(i);
            if !('0' <= c && c <= '9') {
                proof {
                    lemma_stray_char(ts, p as int, i as int);
                }
                return Err(RndError::InvalidWeight);
            }
            digits.push(c);
        }
        i += 1;
        proof {
            if i <= p {
                assert(digits@ =~= ts.subrange(0, i as int));
            } else {
                assert(digits@ =~= ts.subrange(0, p as int) + ts.subrange(p + 1, i as int));
            }
        }
    }
    proof {
        if p < n {
            assert forall|q: int| 0 <= q < ts.len() && ts[q] == '.' implies q == p by {
                if q != p {
                    assert('0' <= ts[q] <= '9');
                }
            }
            let a = ts.subrange(0, p as int);
            let b = ts.subrange(p + 1, n as int);
            assert(all_digits(a));
            assert(all_digits(b)) by {
                assert forall|k: int| 0 <= k < b.len() implies '0' <= #[trigger] b[k] <= '9' by {
                    assert(b[k] == ts[p + 1 + k]);
                }
            }
            assert(digits@ =~= a + b);
        } else {
            assert(digits@ =~= ts);
            assert(all_digits(ts));
        }
    }
    if digits.len() == 0 {
        return Err(RndError::InvalidWeight);
    }
    let scale: usize = if p < n { n - p - 1 } else { 0 };
    match digits_number(&digits) {
        Some(m) => Ok((m as u64, scale)),
        None => Err(RndError::WeightsTooLarge),
    }
}

/// A character that is neither a digit nor the first point leaves a text
/// that is no decimal number.
proof fn lemma_stray_char(ts: Seq<char>, p: int, i: int)
    requires
        0 <= p <= ts.len(),
        p < ts.len() ==> ts[p] == '.',
        forall|k: int| 0 <= k < p ==> ts[k] != '.',
        0 <= i < ts.len(),
        i != p,
        !('0' <= ts[i] <= '9'),
    ensures
        decimal_parts(ts) is None,
{
    if exists|q: int| 0 <= q < ts.len() && ts[q] == '.' {
        let q = choose|q: int| 0 <= q < ts.len() && ts[q] == '.';
        let a = ts.subrange(0, q);
        let b = ts.subrange(q + 1, ts.len() as int);
        assert(q >= p);
        if q == p {
            if i < q {
                assert(!('0' <= a[i] <= '9'));
            } else {
                assert(!('0' <= b[i - q - 1] <= '9'));
            }
        } else {
            assert(a[p] == '.');
        }
    } else {
        assert(!('0' <= ts[i] <= '9'));
    }
}

} // verus!

verus! {

/// Every text is a decimal number.
pub open spec fn all_decimal(ts: Seq<Seq<char>>) -> bool {
    forall|i: int| 0 <= i < ts.len() ==> (#[trigger] decimal_parts(ts[i])) is Some
}

/// The digits and scale of the `i`-th text.
pub open spec fn part(ts: Seq<Seq<char>>, i: int) -> (nat, nat) {
    decimal_parts(ts[i])->Some_0
}

/// The largest scale among the first `n` texts.
pub open spec fn max_scale(ts: Seq<Seq<char>>, n: int) -> nat
    decreases n,
{
    if n <= 0 {
        0
    } else {
        let s = part(ts, n - 1).1;
        let m = max_scale(ts, n - 1);
        if s > m {
            s
        } else {
            m
        }
    }
}

/// The `i`-th weight over the common denominator of all of them.
pub open spec fn scaled(ts: Seq<Seq<char>>, i: int) -> nat {
    part(ts, i).0 * pow10((max_scale(ts, ts.len() as int) - part(ts, i).1) as nat)
}

proof fn lemma_max_scale_bound(ts: Seq<Seq<char>>, n: int, i: int)
    requires
        0 <= i < n,
    ensures
        part(ts, i).1 <= max_scale(ts, n),
    decreases n,
{
    if i < n - 1 {
        lemma_max_scale_bound(ts, n - 1, i);
    }
}

proof fn lemma_pow10_grows(a: nat, b: nat)
    requires
        a <= b,
    ensures
        1 <= pow10(a) <= pow10(b),
    decreases b,
{
    if b > 0 {
        if a < b {
            lemma_pow10_grows(a, (b - 1) as nat);
        } else {
            lemma_pow10_grows((b - 1) as nat, (b - 1) as nat);
        }
    }
}

/// `m` times ten to the `k`, if that is at most `u64::MAX`.
fn scale_up(m: u64, k: usize) -> (r: Option<u64>)
    ensures
        r matches Some(w) ==> w == m * pow10(k as nat),
        r is None <==> m * pow10(k as nat) > u64::MAX,
{
    let mut w: u64 = m;
    let mut j: usize = 0;
    assert(pow10(0) == 1);
    while j < k
        invariant
            0 <= j <= k,
            w == m * pow10(j as nat),
        decreases k - j,
    {
        if w > u64::MAX / 10 {
            proof {
                lemma_pow10_grows((j + 1) as nat, k as nat);
                assert(m * pow10((j + 1) as nat) == w * 10) by (nonlinear_arith)
                    requires
                        w == m * pow10(j as nat),
                        pow10((j + 1) as nat) == 10 * pow10(j as nat),
                ;
                assert(m * pow10(k as nat) >= m * pow10((j + 1) as nat)) by (nonlinear_arith)
                    requires
                        pow10(k as nat) >= pow10((j + 1) as nat),
                ;
            }
            return None;
        }
        proof {
            assert(m * pow10((j + 1) as nat) == w * 10) by (nonlinear_arith)
                requires
                    w == m * pow10(j as nat),
                    pow10((j + 1) as nat) == 10 * pow10(j as nat),
            ;
        }
        w = w * 10;
        j += 1;
    }
    Some(w)
}

/// Whole-number weights from decimal texts: each weight times ten to the
/// largest number of digits after a point among them.
pub fn parse_weights(texts: &Vec<String>) -> (r: Result<Vec<u64>, RndError>)
    ensures
        !all_decimal(views(texts@)) <==> r == Err::<Vec<u64>, RndError>(RndError::InvalidWeight),
        all_decimal(views(texts@)) ==> {
            &&& (r is Ok <==> forall|i: int| 0 <= i < texts.len() ==> #[trigger] scaled(views(texts@), i) <= u64::MAX)
            &&& r is Err ==> r == Err::<Vec<u64>, RndError>(RndError::WeightsTooLarge)
        },
        r matches Ok(v) ==> v.len() == texts.len() && forall|i: int|
            0 <= i < texts.len() ==> v[i] == #[trigger] scaled(views(texts@), i),
{
    let ghost ts = views(texts@);
    let mut parts: Vec<(u64, usize)> = Vec::new();
    let mut too_large = false;
    let mut top: usize = 0;
    let mut i: usize = 0;
    while i < texts.len()
        invariant
            0 <= i <= texts.len(),
            ts == views(texts@),
            parts.len() == i,
            forall|k: int| 0 <= k < i ==> (#[trigger] decimal_parts(ts[k])) is Some,
            !too_large ==> forall|k: int|
                0 <= k < i ==> (#[trigger] parts[k]).0 == part(ts, k).0 && parts[k].1 == part(ts, k).1,
            too_large <==> exists|k: int| 0 <= k < i && (#[trigger] part(ts, k)).0 > u64::MAX,
            !too_large ==> top == max_scale(ts, i as int),
        decreases texts.len() - i,
    {
        let ghost before = parts@;
        match parse_decimal(texts[i].as_str()) {
            Err(e) => {
                if e == RndError::InvalidWeight {
                    proof {
                        assert(!(decimal_parts(ts[i as int]) is Some));
                    }
                    return Err(RndError::InvalidWeight);
                }
                too_large = true;
                assert(part(ts, i as int).0 > u64::MAX);
                parts.push((0, 0));
            },
            Ok((m, s)) => {
                assert(decimal_parts(ts[i as int]) is Some);
                assert(part(ts, i as int) == (m as nat, s as nat));
                parts.push((m, s));
                if s > top {
                    top = s;
                }
            },
        }
        i += 1;
        proof {
            assert forall|k: int| 0 <= k < i - 1 implies #[trigger] parts[k] == before[k] by {}
        }
    }
    if too_large {
        proof {
            let k = choose|k: int| 0 <= k < i && (#[trigger] part(ts, k)).0 > u64::MAX;
            lemma_pow10_grows(0, (max_scale(ts, ts.len() as int) - part(ts, k).1) as nat);
            assert(scaled(ts, k) >= part(ts, k).0) by (nonlinear_arith)
                requires
                    scaled(ts, k) == part(ts, k).0 * pow10((max_scale(ts, ts.len() as int) - part(ts, k).1) as nat),
                    pow10((max_scale(ts, ts.len() as int) - part(ts, k).1) as nat) >= 1,
            ;
        }
        return Err(RndError::WeightsTooLarge);
    }
    let mut v: Vec<u64> = Vec::new();
    let mut j: usize = 0;
    while j < parts.len()
        invariant
            0 <= j <= parts.len() == texts.len() == ts.len(),
            ts == views(texts@),
            forall|k: int| 0 <= k < parts.len() ==> (#[trigger] parts[k]).0 == part(ts, k).0 && parts[k].1 == part(ts, k).1,
            top == max_scale(ts, ts.len() as int),
            all_decimal(ts),
            v.len() == j,
            forall|k: int| 0 <= k < j ==> v[k] == #[trigger] scaled(ts, k),
        decreases parts.len() - j,
    {
        let (m, s) = parts[j];
        proof {
            lemma_max_scale_bound(ts, ts.len() as int, j as int);
        }
        match scale_up(m, top - s) {
            Some(w) => {
                v.push(w);
            },
            None => {
                assert(scaled(ts, j as int) > u64::MAX);
                return Err(RndError::WeightsTooLarge);
            },
        }
        j += 1;
    }
    Ok(v)
}

} // verus!
