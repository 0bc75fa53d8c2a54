//! ASCII digit strings and their numeric values.
use vstd::prelude::*;

verus! {

/// An ASCII decimal digit `0`–`9`.
pub open spec fn is_digit(b: u8) -> bool {
    48 <= b <= 57
}

/// Every byte of `s` is an ASCII decimal digit.
pub open spec fn all_digits(s: Seq<u8>) -> bool {
    forall|i: int| 0 <= i < s.len() ==> is_digit(#[trigger] s[i])
}

/// Every byte of `s` is the digit `0`.
pub open spec fn all_zero_digits(s: Seq<u8>) -> bool {
    forall|i: int| 0 <= i < s.len() ==> #[trigger] s[i] == 48
}

/// The value of one ASCII digit.
pub open spec fn digit_value(b: u8) -> nat {
    (b - 48) as nat
}

/// The value of a big-endian string of ASCII digits (0 for the empty string).
pub open spec fn digits_value(s: Seq<u8>) -> nat
    decreases s.len(),
{
    if s.len() == 0 {
        0
    } else {
        digits_value(s.drop_last()) * 10 + digit_value(s.last())
    }
}

/// Ten to the power `n`.
pub open spec fn pow10(n: nat) -> nat
    decreases n,
{
    if n == 0 {
        1
    } else {
        10 * pow10((n - 1) as nat)
    }
}

pub proof fn lemma_pow10_positive(n: nat)
    ensures
        pow10(n) >= 1,
    decreases n,
{
    if n > 0 {
        lemma_pow10_positive((n - 1) as nat);
    }
}

pub proof fn lemma_pow10_add(a: nat, b: nat)
    ensures
        pow10(a + b) == pow10(a) * pow10(b),
    decreases b,
{
    if b == 0 {
        assert(pow10(a + b) == pow10(a));
    } else {
        lemma_pow10_add(a, (b - 1) as nat);
        let x = pow10(a);
        let y = pow10((b - 1) as nat);
        assert(pow10(a + b) == 10 * pow10((a + b - 1) as nat));
        assert(pow10(b) == 10 * y);
        assert(10 * (x * y) == x * (10 * y)) by (nonlinear_arith);
    }
}

/// Appending one digit multiplies the value by ten and adds the digit.
pub proof fn lemma_digits_value_push(s: Seq<u8>, d: u8)
    ensures
        digits_value(s.push(d)) == digits_value(s) * 10 + digit_value(d),
{
    assert(s.push(d).drop_last() =~= s);
}

/// The value of a concatenation of digit strings.
pub proof fn lemma_digits_value_concat(a: Seq<u8>, b: Seq<u8>)
    ensures
        digits_value(a + b) == digits_value(a) * pow10(b.len()) + digits_value(b),
    decreases b.len(),
{
    if b.len() == 0 {
        assert(a + b =~= a);
        assert(pow10(0) == 1);
        assert(digits_value(b) == 0);
    } else {
        let b2 = b.drop_last();
        assert((a + b).drop_last() =~= a + b2);
        assert((a + b).last() == b.last());
        lemma_digits_value_concat(a, b2);
        let x = digits_value(a);
        let p = pow10(b2.len());
        let y = digits_value(b2);
        let d = digit_value(b.last());
        assert(pow10(b.len()) == 10 * p);
        assert(digits_value(b) == y * 10 + d);
        assert(digits_value(a + b) == digits_value(a + b2) * 10 + d);
        assert(digits_value(a + b2) == x * p + y);
        assert((x * p + y) * 10 + d == x * (10 * p) + (y * 10 + d)) by (nonlinear_arith);
    }
}

/// A digit string of length `n` has a value below `10^n`.
pub proof fn lemma_digits_value_bound(s: Seq<u8>)
    requires
        all_digits(s),
    ensures
        digits_value(s) < pow10(s.len()),
    decreases s.len(),
{
    if s.len() > 0 {
        let s2 = s.drop_last();
        assert(all_digits(s2)) by {
            assert forall|i: int| 0 <= i < s2.len() implies is_digit(#[trigger] s2[i]) by {
                assert(s2[i] == s[i]);
            }
        }
        lemma_digits_value_bound(s2);
        assert(is_digit(s[s.len() - 1]));
        let v = digits_value(s2);
        let p = pow10(s2.len());
        assert(v + 1 <= p);
        assert(v * 10 + 9 < p * 10) by (nonlinear_arith)
            requires
                v + 1 <= p,
        ;
    }
}

/// A digit string has value zero exactly when all its digits are `0`.
pub proof fn lemma_digits_value_zero(s: Seq<u8>)
    requires
        all_digits(s),
    ensures
        digits_value(s) == 0 <==> all_zero_digits(s),
    decreases s.len(),
{
    if s.len() > 0 {
        let s2 = s.drop_last();
        assert(all_digits(s2)) by {
            assert forall|i: int| 0 <= i < s2.len() implies is_digit(#[trigger] s2[i]) by {
                assert(s2[i] == s[i]);
            }
        }
        lemma_digits_value_zero(s2);
        if all_zero_digits(s) {
            assert(all_zero_digits(s2)) by {
                assert forall|i: int| 0 <= i < s2.len() implies #[trigger] s2[i] == 48 by {
                    assert(s2[i] == s[i]);
                }
            }
            assert(s[s.len() - 1] == 48);
        }
        if digits_value(s) == 0 {
            assert(digit_value(s.last()) == 0);
            assert(digits_value(s2) == 0);
            assert forall|i: int| 0 <= i < s.len() implies #[trigger] s[i] == 48 by {
                if i < s.len() - 1 {
                    assert(s2[i] == s[i]);
                }
            }
        }
    }
}

/// A prefix of a digit string has a value no larger than the whole string.
pub proof fn lemma_digits_value_prefix(s: Seq<u8>, k: int)
    requires
        0 <= k <= s.len(),
    ensures
        digits_value(s.take(k)) <= digits_value(s),
{
    assert(s =~= s.take(k) + s.skip(k));
    lemma_digits_value_concat(s.take(k), s.skip(k));
    lemma_pow10_positive(s.skip(k).len());
    let x = digits_value(s.take(k));
    let p = pow10(s.skip(k).len());
    assert(x <= x * p) by (nonlinear_arith)
        requires
            p >= 1,
    ;
}

/// Leading zeros do not change the value of a digit string.
pub proof fn lemma_digits_value_leading_zeros(z: Seq<u8>, s: Seq<u8>)
    requires
        all_zero_digits(z),
    ensures
        digits_value(z + s) == digits_value(s),
{
    lemma_digits_value_concat(z, s);
    assert(all_digits(z)) by {
        assert forall|i: int| 0 <= i < z.len() implies is_digit(#[trigger] z[i]) by {
            assert(z[i] == 48);
        }
    }
    lemma_digits_value_zero(z);
}

/// The end of the run of ASCII digits that starts at `i`.
pub open spec fn digits_end(s: Seq<u8>, i: int) -> int
    decreases s.len() - i,
{
    if 0 <= i < s.len() && is_digit(s[i]) {
        digits_end(s, i + 1)
    } else {
        i
    }
}

pub proof fn lemma_digits_end(s: Seq<u8>, i: int)
    requires
        0 <= i <= s.len(),
    ensures
        i <= digits_end(s, i) <= s.len(),
        forall|j: int| i <= j < digits_end(s, i) ==> is_digit(#[trigger] s[j]),
        digits_end(s, i) < s.len() ==> !is_digit(s[digits_end(s, i)]),
    decreases s.len() - i,
{
    if i < s.len() && is_digit(s[i]) {
        lemma_digits_end(s, i + 1);
    }
}

/// A run of digits from `i` to `e` that stops at a non-digit (or the end) ends at `e`.
pub proof fn lemma_digits_end_at(s: Seq<u8>, i: int, e: int)
    requires
        0 <= i <= e <= s.len(),
        forall|j: int| i <= j < e ==> is_digit(#[trigger] s[j]),
        e == s.len() || !is_digit(s[e]),
    ensures
        digits_end(s, i) == e,
    decreases e - i,
{
    if i < e {
        lemma_digits_end_at(s, i + 1, e);
    }
}

/// Two digit strings of one length and one value are the same.
pub proof fn lemma_digits_eq(a: Seq<u8>, b: Seq<u8>)
    requires
        all_digits(a),
        all_digits(b),
        a.len() == b.len(),
        digits_value(a) == digits_value(b),
    ensures
        a == b,
    decreases a.len(),
{
    if a.len() > 0 {
        let a0 = a.drop_last();
        let b0 = b.drop_last();
        assert forall|i: int| 0 <= i < a0.len() implies is_digit(#[trigger] a0[i]) by {
            assert(a0[i] == a[i]);
        }
        assert forall|i: int| 0 <= i < b0.len() implies is_digit(#[trigger] b0[i]) by {
            assert(b0[i] == b[i]);
        }
        assert(is_digit(a[a.len() - 1]));
        assert(is_digit(b[b.len() - 1]));
        let x = digits_value(a0);
        let y = digits_value(b0);
        let r = digit_value(a.last());
        let q = digit_value(b.last());
        assert(x == y && r == q) by (nonlinear_arith)
            requires
                x * 10 + r == y * 10 + q,
                r < 10,
                q < 10,
        ;
        lemma_digits_eq(a0, b0);
        assert(a =~= a0.push(a.last()));
        assert(b =~= b0.push(b.last()));
    } else {
        assert(a =~= b);
    }
}

/// `t` reads `DIGITS` or `DIGITS.DIGITS`.
pub open spec fn is_number_text(t: Seq<u8>) -> bool {
    let e = digits_end(t, 0);
    &&& e >= 1
    &&& (e == t.len() || (t[e] == 46 && e + 1 < t.len() && digits_end(t, e + 1) == t.len()))
}

/// Parses exactly two ASCII digits.
pub fn digit2(b: &[u8]) -> (r: u8)
    requires
        b@.len() >= 2,
        is_digit(b@[0]),
        is_digit(b@[1]),
    ensures
        r == digits_value(b@.take(2)),
        r < 100,
{
    let ghost t = b@.take(2);
    proof {
        assert(t =~= Seq::<u8>::empty().push(b@[0]).push(b@[1]));
        lemma_digits_value_push(Seq::<u8>::empty(), b@[0]);
        lemma_digits_value_push(Seq::<u8>::empty().push(b@[0]), b@[1]);
    }
    (b[0] - 48) * 10 + (b[1] - 48)
}

/// Parses exactly three ASCII digits.
pub fn digit3(b: &[u8]) -> (r: u16)
    requires
        b@.len() >= 3,
        is_digit(b@[0]),
        is_digit(b@[1]),
        is_digit(b@[2]),
    ensures
        r == digits_value(b@.take(3)),
        r < 1000,
{
    let ghost t = b@.take(3);
    proof {
        let e = Seq::<u8>::empty();
        assert(t =~= e.push(b@[0]).push(b@[1]).push(b@[2]));
        lemma_digits_value_push(e, b@[0]);
        lemma_digits_value_push(e.push(b@[0]), b@[1]);
        lemma_digits_value_push(e.push(b@[0]).push(b@[1]), b@[2]);
    }
    (b[0] - 48) as u16 * 100 + (b[1] - 48) as u16 * 10 + (b[2] - 48) as u16
}

/// The index of the first `.` in `b`, if any.
pub fn memchr_dot(b: &[u8]) -> (r: Option<usize>)
    ensures
        match r {
            Some(i) => i < b@.len() && b@[i as int] == 46 && forall|j: int|
                0 <= j < i ==> b@[j] != 46,
            None => forall|j: int| 0 <= j < b@.len() ==> b@[j] != 46,
        },
{
    let mut i: usize = 0;
    while i < b.len()
        invariant
            i <= b@.len(),
            forall|j: int| 0 <= j < i ==> b@[j] != 46,
        decreases b@.len() - i,
    {
        if b[i] == 46 {
            return Some(i);
        }
        i = i + 1;
    }
    None
}

} // verus!
