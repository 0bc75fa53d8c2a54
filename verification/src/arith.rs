//! Arithmetic on strings of ASCII decimal digits of any length.
use vstd::prelude::*;
use vstd::slice::slice_to_vec;

use crate::digits::{
    all_digits, digit_value, digits_value, is_digit, lemma_digits_value_concat,
    lemma_digits_value_push, pow10,
};

verus! {

/// The value of a digit put in front of a digit string.
proof fn lemma_prepend(d: u8, s: Seq<u8>)
    ensures
        digits_value(seq![d] + s) == digit_value(d) * pow10(s.len()) + digits_value(s),
{
    lemma_digits_value_concat(seq![d], s);
    assert(seq![d] =~= Seq::<u8>::empty().push(d));
    lemma_digits_value_push(Seq::<u8>::empty(), d);
}

/// The digit string of the sum of two digit strings.
#[verifier::rlimit(30)]
pub fn add_digits(x: &[u8], y: &[u8]) -> (r: Vec<u8>)
    requires
        all_digits(x@),
        all_digits(y@),
    ensures
        all_digits(r@),
        digits_value(r@) == digits_value(x@) + digits_value(y@),
        r@.len() >= x@.len(),
        r@.len() >= y@.len(),
{
    let mut out: Vec<u8> = Vec::new();
    let mut i = x.len();
    let mut j = y.len();
    let mut carry: u8 = 0;
    while i > 0 || j > 0 || carry > 0
        invariant
            i <= x@.len(),
            j <= y@.len(),
            carry <= 1,
            all_digits(x@),
            all_digits(y@),
            all_digits(out@),
            x@.len() - i <= out@.len(),
            y@.len() - j <= out@.len(),
            i > 0 ==> x@.len() - i == out@.len(),
            j > 0 ==> y@.len() - j == out@.len(),
            digits_value(x@.skip(i as int)) + digits_value(y@.skip(j as int)) == digits_value(out@)
                + carry * pow10(out@.len()),
        decreases 2 * (i + j) + carry,
    {
        let ghost k = out@.len();
        let ghost xs = x@.skip(i as int);
        let ghost ys = y@.skip(j as int);
        let ghost before = out@;
        let ghost c0 = carry;
        let ghost i0 = i;
        let ghost j0 = j;
        let dx: u8 = if i > 0 {
            assert(is_digit(x@[i - 1]));
            x[i - 1] - 48
        } else {
            0
        };
        let dy: u8 = if j > 0 {
            assert(is_digit(y@[j - 1]));
            y[j - 1] - 48
        } else {
            0
        };
        let sum: u8 = dx + dy + carry;
        let d: u8 = sum % 10 + 48;
        out.insert(0, d);
        carry = sum / 10;
        if i > 0 {
            i = i - 1;
        }
        if j > 0 {
            j = j - 1;
        }
        proof {
            let p = pow10(k);
            let vx = digits_value(x@.skip(i as int));
            let vy = digits_value(y@.skip(j as int));
            assert(vx == dx * p + digits_value(xs)) by {
                if i0 > 0 {
                    assert(x@.skip(i as int) =~= seq![x@[i as int]] + xs);
                    lemma_prepend(x@[i as int], xs);
                }
            }
            assert(vy == dy * p + digits_value(ys)) by {
                if j0 > 0 {
                    assert(y@.skip(j as int) =~= seq![y@[j as int]] + ys);
                    lemma_prepend(y@[j as int], ys);
                }
            }
            assert(out@ =~= seq![d] + before);
            lemma_prepend(d, before);
            assert(all_digits(out@)) by {
                assert forall|t: int| 0 <= t < out@.len() implies is_digit(#[trigger] out@[t]) by {
                    if t > 0 {
                        assert(out@[t] == before[t - 1]);
                    }
                }
            }
            let vo = digits_value(out@);
            let vb = digits_value(before);
            assert(vo == (sum % 10) * p + vb);
            assert(pow10(out@.len()) == 10 * p);
            let q = pow10(out@.len());
            assert(vx + vy == vo + carry * q) by (nonlinear_arith)
                requires
                    vx == dx * p + digits_value(xs),
                    vy == dy * p + digits_value(ys),
                    digits_value(xs) + digits_value(ys) == vb + c0 * p,
                    vo == (sum % 10) * p + vb,
                    q == 10 * p,
                    carry == sum / 10,
                    sum == dx + dy + c0,
            ;
        }
    }
    assert(x@.skip(0) =~= x@);
    assert(y@.skip(0) =~= y@);
    out
}

/// The digits of `x` followed by `n` zeros: the value times `10^n`.
pub fn append_zeros(x: &[u8], n: usize) -> (r: Vec<u8>)
    requires
        all_digits(x@),
    ensures
        all_digits(r@),
        r@.len() == x@.len() + n,
        digits_value(r@) == digits_value(x@) * pow10(n as nat),
{
    let mut out = slice_to_vec(x);
    let mut k: usize = 0;
    assert(pow10(0) == 1);
    assert(digits_value(x@) * 1 == digits_value(x@));
    while k < n
        invariant
            k <= n,
            out@.len() == x@.len() + k,
            all_digits(out@),
            digits_value(out@) == digits_value(x@) * pow10(k as nat),
        decreases n - k,
    {
        let ghost b = out@;
        out.push(48);
        proof {
            lemma_digits_value_push(b, 48);
            assert(out@ == b.push(48));
            assert(pow10((k + 1) as nat) == 10 * pow10(k as nat));
            let v = digits_value(x@);
            let pk = pow10(k as nat);
            assert((v * pk) * 10 == v * (10 * pk)) by (nonlinear_arith);
            assert(all_digits(out@)) by {
                assert forall|t: int| 0 <= t < out@.len() implies is_digit(#[trigger] out@[t]) by {
                    if t < b.len() {
                        assert(out@[t] == b[t]);
                    }
                }
            }
        }
        k = k + 1;
    }
    out
}

/// The digit string of `36` times the value of `x`.
pub fn times_36(x: &[u8]) -> (r: Vec<u8>)
    requires
        all_digits(x@),
    ensures
        all_digits(r@),
        digits_value(r@) == 36 * digits_value(x@),
        r@.len() >= x@.len(),
{
    let x2 = add_digits(x, x);
    let x4 = add_digits(x2.as_slice(), x2.as_slice());
    let x8 = add_digits(x4.as_slice(), x4.as_slice());
    let x16 = add_digits(x8.as_slice(), x8.as_slice());
    let x32 = add_digits(x16.as_slice(), x16.as_slice());
    add_digits(x32.as_slice(), x4.as_slice())
}

/// The digit string of `60` times the value of `x`.
pub fn times_60(x: &[u8]) -> (r: Vec<u8>)
    requires
        all_digits(x@),
    ensures
        all_digits(r@),
        digits_value(r@) == 60 * digits_value(x@),
        r@.len() >= x@.len(),
{
    let x2 = add_digits(x, x);
    let x4 = add_digits(x2.as_slice(), x2.as_slice());
    let x8 = add_digits(x4.as_slice(), x4.as_slice());
    let x16 = add_digits(x8.as_slice(), x8.as_slice());
    let x32 = add_digits(x16.as_slice(), x16.as_slice());
    let a = add_digits(x32.as_slice(), x16.as_slice());
    let b = add_digits(a.as_slice(), x8.as_slice());
    add_digits(b.as_slice(), x4.as_slice())
}

/// Long division of the digit string `v` by a small divisor: the quotient's
/// digits (as many as `v` has) and the remainder.
pub fn div_small(v: &[u8], divisor: u64) -> (r: (Vec<u8>, u64))
    requires
        all_digits(v@),
        1 <= divisor <= 100,
    ensures
        all_digits(r.0@),
        r.0@.len() == v@.len(),
        r.1 < divisor,
        digits_value(v@) == digits_value(r.0@) * divisor + r.1,
{
    let mut q: Vec<u8> = Vec::new();
    let mut rem: u64 = 0;
    let mut i: usize = 0;
    assert(v@.take(0) =~= Seq::<u8>::empty());
    assert(digits_value(q@) == 0);
    assert(0 * divisor == 0);
    while i < v.len()
        invariant
            i <= v@.len(),
            q@.len() == i,
            all_digits(q@),
            all_digits(v@),
            1 <= divisor <= 100,
            rem < divisor,
            digits_value(v@.take(i as int)) == digits_value(q@) * divisor + rem,
        decreases v@.len() - i,
    {
        assert(is_digit(v@[i as int]));
        let d: u64 = (v[i] - 48) as u64;
        let cur: u64 = rem * 10 + d;
        let qd: u64 = cur / divisor;
        let r2: u64 = cur % divisor;
        assert(qd < 10 && cur == qd * divisor + r2) by (nonlinear_arith)
            requires
                cur == rem * 10 + d,
                rem < divisor,
                d <= 9,
                divisor >= 1,
                qd == cur / divisor,
                r2 == cur % divisor,
        ;
        let ghost qb = q@;
        q.push((qd as u8) + 48);
        proof {
            assert(v@.take(i + 1) =~= v@.take(i as int).push(v@[i as int]));
            lemma_digits_value_push(v@.take(i as int), v@[i as int]);
            lemma_digits_value_push(qb, ((qd as u8) + 48) as u8);
            assert(q@ == qb.push(((qd as u8) + 48) as u8));
            let vq = digits_value(qb);
            assert((vq * divisor + rem) * 10 + d == (vq * 10 + qd) * divisor + r2) by (nonlinear_arith)
                requires
                    cur == rem * 10 + d,
                    cur == qd * divisor + r2,
            ;
            assert(all_digits(q@)) by {
                assert forall|t: int| 0 <= t < q@.len() implies is_digit(#[trigger] q@[t]) by {
                    if t < qb.len() {
                        assert(q@[t] == qb[t]);
                    }
                }
            }
        }
        rem = r2;
        i = i + 1;
    }
    assert(v@.take(v@.len() as int) =~= v@);
    (q, rem)
}

} // verus!
