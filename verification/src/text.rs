//! Writing numbers as text: whole numbers, zero padding, fixed-point rounding.
use vstd::arithmetic::div_mod::lemma_fundamental_div_mod_converse;
use vstd::prelude::*;
use vstd::slice::slice_subrange;

use crate::decimal::{
    all_zeros, decimal_of, digits_value_at_most, lemma_decimal_compare, Decimal,
    DecimalV,
};
use crate::digits::{
    all_digits, all_zero_digits, digit_value, digits_value, is_digit, lemma_digits_value_bound,
    lemma_digits_value_concat, lemma_digits_value_leading_zeros, lemma_digits_value_push,
    lemma_digits_value_zero, lemma_pow10_add, lemma_pow10_positive, pow10, is_number_text,
    lemma_digits_end_at,
};

verus! {

/// ASCII bytes read as characters.
pub open spec fn ascii_chars(t: Seq<u8>) -> Seq<char> {
    t.map_values(|b: u8| b as char)
}

/// The character of the decimal digit `d`.
pub open spec fn digit_char(d: nat) -> char {
    (d + 48) as char
}

/// The decimal text of `n`, without leading zeros (`0` for zero).
pub open spec fn nat_text(n: nat) -> Seq<char>
    decreases n,
{
    if n < 10 {
        seq![digit_char(n)]
    } else {
        nat_text(n / 10).push(digit_char(n % 10))
    }
}

/// `n` characters `0`.
pub open spec fn zeros(n: nat) -> Seq<char> {
    Seq::new(n, |i: int| '0')
}

/// `s` with zeros in front, up to at least `width` characters.
pub open spec fn zero_pad(s: Seq<char>, width: nat) -> Seq<char> {
    if s.len() >= width {
        s
    } else {
        zeros((width - s.len()) as nat) + s
    }
}

/// `d` multiplied by `10^prec` and rounded to the nearest whole number,
/// halves rounded to the even neighbour.
pub open spec fn rounded(d: DecimalV, prec: nat) -> nat {
    let n = d.numerator() * pow10(prec);
    let q = n / d.denominator();
    let r = n % d.denominator();
    if 2 * r > d.denominator() || (2 * r == d.denominator() && q % 2 == 1) {
        q + 1
    } else {
        q
    }
}

/// `d` written with `prec` fraction digits (rounded, halves to even) and at
/// least `min_int` integer digits (zero padded), as `format!("{:0w$.prec$}")`
/// writes it for `w = min_int + 1 + prec` whenever `d` is exact as a binary
/// number.
pub open spec fn fixed_text(d: DecimalV, min_int: nat, prec: nat) -> Seq<char> {
    let r = rounded(d, prec);
    zero_pad(nat_text(r / pow10(prec)), min_int) + seq!['.'] + zero_pad(
        nat_text(r % pow10(prec)),
        prec,
    )
}

/// `s` without its trailing `0` digits.
pub open spec fn trim_zeros(s: Seq<u8>) -> Seq<u8>
    decreases s.len(),
{
    if s.len() > 0 && s.last() == 48 {
        trim_zeros(s.drop_last())
    } else {
        s
    }
}

/// The shortest text of the value of `d`: the integer part without leading
/// zeros and, unless the value is whole, a `.` and the fraction digits without
/// trailing zeros.
pub open spec fn plain_text(d: DecimalV) -> Seq<char> {
    if d.frac_value() == 0 {
        nat_text(d.int_value())
    } else {
        nat_text(d.int_value()) + seq!['.'] + ascii_chars(trim_zeros(d.fraction))
    }
}

// ---------------------------------------------------------------------------
// Lemmas
// ---------------------------------------------------------------------------

/// A digit string without leading zeros is the decimal text of its value.
pub proof fn lemma_nat_text_digits(s: Seq<u8>)
    requires
        all_digits(s),
        s.len() >= 1,
        s[0] != 48,
    ensures
        nat_text(digits_value(s)) == ascii_chars(s),
    decreases s.len(),
{
    let n = digits_value(s);
    let d = s.last();
    assert(is_digit(d));
    if s.len() == 1 {
        assert(s =~= Seq::<u8>::empty().push(d));
        lemma_digits_value_push(Seq::<u8>::empty(), d);
        assert(n == digit_value(d));
        assert(ascii_chars(s) =~= seq![d as char]);
    } else {
        let s2 = s.drop_last();
        assert(all_digits(s2)) by {
            assert forall|i: int| 0 <= i < s2.len() implies is_digit(#[trigger] s2[i]) by {
                assert(s2[i] == s[i]);
            }
        }
        lemma_nat_text_digits(s2);
        lemma_digits_value_zero(s2);
        assert(!all_zero_digits(s2)) by {
            assert(s2[0] == s[0]);
        }
        let m = digits_value(s2);
        assert(n == m * 10 + digit_value(d));
        assert(n / 10 == m && n % 10 == digit_value(d)) by {
            lemma_fundamental_div_mod_converse(n as int, 10, m as int, digit_value(d) as int);
        }
        assert(ascii_chars(s) =~= ascii_chars(s2).push(d as char));
    }
}

/// The length of the decimal text of `n` is at least one.
pub proof fn lemma_nat_text_len(n: nat)
    ensures
        nat_text(n).len() >= 1,
    decreases n,
{
    if n >= 10 {
        lemma_nat_text_len(n / 10);
    }
}

/// Splitting a digit string gives the quotient and remainder by a power of ten.
pub proof fn lemma_digits_split(a: Seq<u8>, b: Seq<u8>)
    requires
        all_digits(b),
    ensures
        digits_value(a + b) / pow10(b.len()) == digits_value(a),
        digits_value(a + b) % pow10(b.len()) == digits_value(b),
{
    lemma_digits_value_concat(a, b);
    lemma_digits_value_bound(b);
    lemma_pow10_positive(b.len());
    lemma_fundamental_div_mod_converse(
        digits_value(a + b) as int,
        pow10(b.len()) as int,
        digits_value(a) as int,
        digits_value(b) as int,
    );
}

/// The digit string `9…9` of length `k` is one less than `10^k`.
pub proof fn lemma_nines(s: Seq<u8>)
    requires
        forall|i: int| 0 <= i < s.len() ==> #[trigger] s[i] == 57,
    ensures
        digits_value(s) + 1 == pow10(s.len()),
    decreases s.len(),
{
    if s.len() > 0 {
        let s2 = s.drop_last();
        assert forall|i: int| 0 <= i < s2.len() implies #[trigger] s2[i] == 57 by {
            assert(s2[i] == s[i]);
        }
        lemma_nines(s2);
        assert(s[s.len() - 1] == 57);
    }
}

/// The value of a string of `0` digits.
pub proof fn lemma_zero_digits(s: Seq<u8>)
    requires
        all_zero_digits(s),
    ensures
        digits_value(s) == 0,
        all_digits(s),
{
    assert forall|i: int| 0 <= i < s.len() implies is_digit(#[trigger] s[i]) by {
        assert(s[i] == 48);
    }
    lemma_digits_value_zero(s);
}

/// `trim_zeros(s)` is the prefix of `s` that ends with its last non-zero digit.
pub proof fn lemma_trim_zeros(s: Seq<u8>, k: int)
    requires
        0 <= k <= s.len(),
        forall|i: int| k <= i < s.len() ==> #[trigger] s[i] == 48,
        k == 0 || s[k - 1] != 48,
    ensures
        trim_zeros(s) == s.take(k),
    decreases s.len(),
{
    if s.len() > k {
        let s2 = s.drop_last();
        assert forall|i: int| k <= i < s2.len() implies #[trigger] s2[i] == 48 by {
            assert(s2[i] == s[i]);
        }
        if k > 0 {
            assert(s2[k - 1] == s[k - 1]);
        }
        lemma_trim_zeros(s2, k);
        assert(s2.take(k) =~= s.take(k));
    } else {
        assert(s.take(k) =~= s);
        if k > 0 {
            assert(s.last() == s[k - 1]);
        }
    }
}

// ---------------------------------------------------------------------------
// Writing into a string
// ---------------------------------------------------------------------------

/// Appends `c` to `s` (`String::push`).
#[verifier::external_body]
pub(crate) fn push_char(s: &mut String, c: char)
    ensures
        final(s)@ == old(s)@.push(c),
{
    s.push(c);
}

/// Appends the text of `t` to `s`.
pub fn push_str(s: &mut String, t: &str)
    ensures
        final(s)@ == old(s)@ + t@,
{
    s.append(t);
}

/// Appends the decimal text of `n`.
pub fn push_nat(out: &mut String, n: u64)
    ensures
        final(out)@ == old(out)@ + nat_text(n as nat),
    decreases n,
{
    if n >= 10 {
        push_nat(out, n / 10);
    }
    let c = ((n % 10) as u8 + 48) as char;
    assert(c == digit_char((n % 10) as nat));
    let ghost before = out@;
    push_char(out, c);
    assert(out@ =~= old(out)@ + nat_text(n as nat)) by {
        if n >= 10 {
            assert(before =~= old(out)@ + nat_text((n / 10) as nat));
        } else {
            assert(before =~= old(out)@);
        }
    }
}

/// The number of digits in the decimal text of `n`.
pub fn nat_len(n: u64) -> (r: usize)
    ensures
        r == nat_text(n as nat).len(),
        1 <= r <= 20,
    decreases n,
{
    if n >= 10 {
        let k = nat_len(n / 10);
        proof {
            assert(nat_text(n as nat).len() == nat_text((n / 10) as nat).len() + 1);
            if n / 10 < 10 {
            } else {
                assert(nat_text((n / 10) as nat).len() <= 19) by {
                    lemma_nat_text_len_bound((n / 10) as nat);
                }
            }
        }
        k + 1
    } else {
        1
    }
}

/// The decimal text of a number below `10^k` has at most `k` digits.
proof fn lemma_nat_text_len_bound(n: nat)
    requires
        n < 10_000_000_000_000_000_000,
    ensures
        nat_text(n).len() <= 19,
{
    reveal_with_fuel(pow10, 20);
    assert(pow10(19) == 10_000_000_000_000_000_000);
    lemma_nat_text_len_pow(n, 19);
}

pub proof fn lemma_nat_text_len_pow(n: nat, k: nat)
    requires
        k >= 1,
        n < pow10(k),
    ensures
        nat_text(n).len() <= k,
    decreases k,
{
    reveal_with_fuel(pow10, 20);
    if n >= 10 {
        assert(k >= 2) by {
            if k == 1 {
                assert(pow10(1) == 10);
            }
        }
        assert(pow10(k) == 10 * pow10((k - 1) as nat));
        assert(n / 10 < pow10((k - 1) as nat)) by (nonlinear_arith)
            requires
                n < 10 * pow10((k - 1) as nat),
        ;
        lemma_nat_text_len_pow(n / 10, (k - 1) as nat);
    }
}

/// Appends `n` characters `0`.
pub fn push_zeros(out: &mut String, n: usize)
    ensures
        final(out)@ == old(out)@ + zeros(n as nat),
{
    let mut i: usize = 0;
    while i < n
        invariant
            i <= n,
            out@ == old(out)@ + zeros(i as nat),
        decreases n - i,
    {
        push_char(out, '0');
        i = i + 1;
        assert(out@ =~= old(out)@ + zeros(i as nat));
    }
}

/// Appends the decimal text of `n`, zero padded to at least `width` characters.
pub fn push_nat_padded(out: &mut String, n: u64, width: usize)
    ensures
        final(out)@ == old(out)@ + zero_pad(nat_text(n as nat), width as nat),
{
    let len = nat_len(n);
    let ghost before = out@;
    if len < width {
        push_zeros(out, width - len);
    }
    push_nat(out, n);
    assert(out@ =~= before + zero_pad(nat_text(n as nat), width as nat));
}

/// Appends ASCII bytes as characters.
pub fn push_ascii(out: &mut String, b: &[u8])
    requires
        forall|i: int| 0 <= i < b@.len() ==> #[trigger] b@[i] < 128,
    ensures
        final(out)@ == old(out)@ + ascii_chars(b@),
{
    let mut i: usize = 0;
    while i < b.len()
        invariant
            i <= b@.len(),
            forall|i: int| 0 <= i < b@.len() ==> #[trigger] b@[i] < 128,
            out@ == old(out)@ + ascii_chars(b@.take(i as int)),
        decreases b@.len() - i,
    {
        let c = b[i] as char;
        push_char(out, c);
        i = i + 1;
        assert(ascii_chars(b@.take(i as int)) =~= ascii_chars(b@.take(i - 1)).push(c));
    }
    assert(b@.take(i as int) =~= b@);
}

/// Appends the decimal text of the value of the digit string `s`, zero padded
/// to at least `width` characters.
pub fn push_value_padded(out: &mut String, s: &[u8], width: usize)
    requires
        all_digits(s@),
    ensures
        final(out)@ == old(out)@ + zero_pad(nat_text(digits_value(s@)), width as nat),
{
    let mut k: usize = 0;
    while k < s.len() && s[k] == 48
        invariant
            k <= s@.len(),
            forall|i: int| 0 <= i < k ==> #[trigger] s@[i] == 48,
        decreases s@.len() - k,
    {
        k = k + 1;
    }
    let ghost before = out@;
    if k == s.len() {
        proof {
            lemma_zero_digits(s@);
        }
        assert(nat_text(0) =~= seq!['0']);
        if width > 1 {
            push_zeros(out, width - 1);
        }
        push_char(out, '0');
        assert(out@ =~= before + zero_pad(nat_text(digits_value(s@)), width as nat));
    } else {
        let t = slice_subrange(s, k, s.len());
        proof {
            let z = s@.take(k as int);
            assert(all_zero_digits(z));
            assert(s@ =~= z + t@);
            lemma_digits_value_leading_zeros(z, t@);
            assert(all_digits(t@)) by {
                assert forall|i: int| 0 <= i < t@.len() implies is_digit(#[trigger] t@[i]) by {
                    assert(t@[i] == s@[k + i]);
                }
            }
            lemma_nat_text_digits(t@);
        }
        let tl = t.len();
        if tl < width {
            push_zeros(out, width - tl);
        }
        assert forall|i: int| 0 <= i < t@.len() implies #[trigger] t@[i] < 128 by {
            assert(is_digit(t@[i]));
        }
        push_ascii(out, t);
        assert(out@ =~= before + zero_pad(nat_text(digits_value(s@)), width as nat));
    }
}

// ---------------------------------------------------------------------------
// Fixed-point rounding
// ---------------------------------------------------------------------------

/// `n` digits `0`, as bytes.
pub open spec fn zero_digits(n: nat) -> Seq<u8> {
    Seq::new(n, |i: int| 48u8)
}

/// With no more fraction digits than `prec`, rounding only appends zeros.
proof fn lemma_round_short(d: DecimalV, prec: nat)
    requires
        d.wf(),
        d.fraction.len() <= prec,
    ensures
        rounded(d, prec) == digits_value(d.integer + d.fraction + zero_digits(
            (prec - d.fraction.len()) as nat,
        )),
{
    let f = d.fraction.len();
    let k = (prec - f) as nat;
    let z = zero_digits(k);
    let all = d.integer + d.fraction;
    assert(all_zero_digits(z));
    lemma_zero_digits(z);
    lemma_digits_value_concat(all, z);
    lemma_pow10_add(f, k);
    lemma_pow10_positive(f);
    assert(f + k == prec);
    let num = d.numerator();
    let pf = pow10(f);
    let pk = pow10(k);
    assert(pow10(prec) == pf * pk);
    assert(num * (pf * pk) == (num * pk) * pf) by (nonlinear_arith);
    lemma_fundamental_div_mod_converse((num * pow10(prec)) as int, pf as int, (num * pk) as int, 0);
}

/// With more fraction digits than `prec`, rounding keeps the first `prec`
/// fraction digits and adds one when the rest is more than a half (the next
/// digit is above 5, or 5 followed by a non-zero digit), or exactly a half and
/// the kept digits are odd.
proof fn lemma_round_long(d: DecimalV, prec: nat)
    requires
        d.wf(),
        d.fraction.len() > prec,
    ensures
        ({
            let a = digits_value(d.integer + d.fraction.take(prec as int));
            let next = d.fraction[prec as int];
            let tail = d.fraction.skip(prec + 1 as int);
            let up = next > 53 || (next == 53 && (!all_zero_digits(tail) || a % 2 == 1));
            rounded(d, prec) == a + (if up {
                1nat
            } else {
                0nat
            })
        }),
{
    let f = d.fraction.len();
    let head = d.integer + d.fraction.take(prec as int);
    let rest = d.fraction.skip(prec as int);
    let tail = rest.drop_first();
    assert(tail =~= d.fraction.skip(prec + 1 as int));
    assert(d.integer + d.fraction =~= head + rest);
    assert(all_digits(rest)) by {
        assert forall|i: int| 0 <= i < rest.len() implies is_digit(#[trigger] rest[i]) by {
            assert(rest[i] == d.fraction[prec + i]);
        }
    }
    assert(all_digits(tail)) by {
        assert forall|i: int| 0 <= i < tail.len() implies is_digit(#[trigger] tail[i]) by {
            assert(tail[i] == rest[i + 1]);
        }
    }
    lemma_digits_value_zero(tail);
    lemma_digits_value_concat(head, rest);
    assert(rest =~= seq![rest[0]] + tail);
    lemma_digits_value_concat(seq![rest[0]], tail);
    assert(seq![rest[0]].drop_last() =~= Seq::<u8>::empty());
    lemma_digits_value_bound(tail);
    lemma_digits_value_bound(rest);
    lemma_pow10_positive(tail.len());
    lemma_pow10_positive(prec);
    let m = (f - prec) as nat;
    assert(rest.len() == m);
    assert(tail.len() == m - 1);
    let t = pow10(tail.len());
    let q = pow10(m);
    assert(q == 10 * t);
    lemma_pow10_add(prec, m);
    assert(prec + m == f);
    let pp = pow10(prec);
    let a = digits_value(head);
    let r = digits_value(rest);
    let r0 = digit_value(rest[0]);
    let tv = digits_value(tail);
    assert(digits_value(seq![rest[0]]) == r0) by {
        assert(seq![rest[0]] =~= Seq::<u8>::empty().push(rest[0]));
        lemma_digits_value_push(Seq::<u8>::empty(), rest[0]);
    }
    assert(r == r0 * t + tv);
    assert(rest[0] == d.fraction[prec as int]);
    assert(is_digit(rest[0]));
    let num = d.numerator();
    assert(num == a * q + r);
    assert(pow10(f) == pp * q);
    assert(d.denominator() == pow10(f));
    let n = num * pp;
    assert(n == a * (pp * q) + r * pp) by (nonlinear_arith)
        requires
            n == num * pp,
            num == a * q + r,
    ;
    assert(0 <= r * pp < pp * q) by (nonlinear_arith)
        requires
            r < q,
            pp >= 1,
    ;
    lemma_fundamental_div_mod_converse(n as int, (pp * q) as int, a as int, (r * pp) as int);
    assert(n / (pp * q) == a);
    assert(n % (pp * q) == r * pp);
    // Comparing the rest with a half.
    assert((2 * (r * pp) > pp * q) == (2 * r > q)) by (nonlinear_arith)
        requires
            pp >= 1,
    ;
    assert((2 * (r * pp) == pp * q) == (2 * r == q)) by (nonlinear_arith)
        requires
            pp >= 1,
    ;
    if r0 >= 6 {
        assert(2 * r > q) by (nonlinear_arith)
            requires
                r == r0 * t + tv,
                r0 >= 6,
                q == 10 * t,
                t >= 1,
        ;
    } else if r0 == 5 {
        assert(2 * r == q + 2 * tv) by (nonlinear_arith)
            requires
                r == r0 * t + tv,
                r0 == 5,
                q == 10 * t,
        ;
    } else {
        assert(2 * r < q) by (nonlinear_arith)
            requires
                r == r0 * t + tv,
                r0 <= 4,
                tv < t,
                q == 10 * t,
        ;
    }
}

/// Appends the bytes of `b` to `out`.
fn extend_bytes(out: &mut Vec<u8>, b: &[u8])
    ensures
        final(out)@ == old(out)@ + b@,
{
    let mut i: usize = 0;
    while i < b.len()
        invariant
            i <= b@.len(),
            out@ == old(out)@ + b@.take(i as int),
        decreases b@.len() - i,
    {
        out.push(b[i]);
        i = i + 1;
        assert(b@.take(i as int) =~= b@.take(i - 1).push(b@[i - 1]));
    }
    assert(b@.take(i as int) =~= b@);
}

/// A digit string is odd when its last digit is.
proof fn lemma_last_digit_parity(s: Seq<u8>)
    requires
        all_digits(s),
    ensures
        digits_value(s) % 2 == 1 <==> (s.len() > 0 && s[s.len() - 1] % 2 == 1),
{
    if s.len() > 0 {
        let x = digits_value(s.drop_last());
        let b = s[s.len() - 1];
        assert(is_digit(b));
        let d = digit_value(b);
        assert(d == b - 48);
        assert((x * 10 + d) % 2 == d % 2) by (nonlinear_arith);
        assert((d % 2 == 1) == (b % 2 == 1)) by (nonlinear_arith)
            requires
                d == b - 48,
                b >= 48,
        ;
    }
}

/// Adds one to the value of the digit string `v`.
fn increment(v: &mut Vec<u8>)
    requires
        all_digits(old(v)@),
    ensures
        all_digits(final(v)@),
        digits_value(final(v)@) == digits_value(old(v)@) + 1,
        final(v)@.len() >= old(v)@.len(),
{
    let n = v.len();
    let mut i = n;
    while i > 0 && v[i - 1] == 57
        invariant
            i <= n,
            v@.len() == n,
            all_digits(old(v)@),
            forall|j: int| 0 <= j < i ==> v@[j] == old(v)@[j],
            forall|j: int| i <= j < n ==> v@[j] == 48 && old(v)@[j] == 57,
        decreases i,
    {
        v.set(i - 1, 48);
        i = i - 1;
    }
    let ghost k = (n - i) as nat;
    let ghost p = old(v)@.take(i as int);
    let ghost nines = old(v)@.skip(i as int);
    proof {
        assert(old(v)@ =~= p + nines);
        lemma_digits_value_concat(p, nines);
        assert forall|j: int| 0 <= j < nines.len() implies #[trigger] nines[j] == 57 by {
            assert(nines[j] == old(v)@[i + j]);
        }
        lemma_nines(nines);
        let ov = digits_value(old(v)@);
        let pv = digits_value(p);
        let nv = digits_value(nines);
        let pk = pow10(k);
        assert(ov + 1 == (pv + 1) * pk) by (nonlinear_arith)
            requires
                ov == pv * pk + nv,
                nv + 1 == pk,
        ;
        assert(all_zero_digits(zero_digits(k)));
        lemma_zero_digits(zero_digits(k));
    }
    if i == 0 {
        v.insert(0, 49);
        proof {
            assert(v@ =~= seq![49u8] + zero_digits(k));
            lemma_digits_value_concat(seq![49u8], zero_digits(k));
            assert(seq![49u8].drop_last() =~= Seq::<u8>::empty());
            assert(p =~= Seq::<u8>::empty());
        }
    } else {
        let d = v[i - 1];
        assert(is_digit(d) && d != 57);
        v.set(i - 1, d + 1);
        proof {
            let p2 = p.drop_last();
            assert(v@ =~= p2.push((d + 1) as u8) + zero_digits(k));
            lemma_digits_value_concat(p2.push((d + 1) as u8), zero_digits(k));
            lemma_digits_value_push(p2, (d + 1) as u8);
            assert(p =~= p2.push(d));
            lemma_digits_value_push(p2, d);
        }
    }
    assert(all_digits(v@)) by {
        assert forall|j: int| 0 <= j < v@.len() implies is_digit(#[trigger] v@[j]) by {
            if i > 0 && j < i - 1 {
                assert(v@[j] == old(v)@[j]);
            }
        }
    }
}

/// The digits of `d` multiplied by `10^prec` and rounded, halves to even.
fn rounded_digits(d: &Decimal, prec: usize) -> (r: Vec<u8>)
    ensures
        all_digits(r@),
        digits_value(r@) == rounded(d@, prec as nat),
        r@.len() >= prec,
{
    proof {
        use_type_invariant(d);
    }
    let whole = d.int_digits();
    let frac = d.frac_digits();
    let mut out: Vec<u8> = Vec::new();
    extend_bytes(&mut out, whole);
    if frac.len() <= prec {
        extend_bytes(&mut out, frac);
        let mut i: usize = frac.len();
        while i < prec
            invariant
                frac@.len() <= i <= prec,
                out@ == d@.integer + d@.fraction + zero_digits((i - frac@.len()) as nat),
            decreases prec - i,
        {
            out.push(48);
            i = i + 1;
            assert(out@ =~= d@.integer + d@.fraction + zero_digits((i - frac@.len()) as nat));
        }
        assert(out@ =~= d@.integer + d@.fraction + zero_digits((prec - frac@.len()) as nat));
        proof {
            lemma_round_short(d@, prec as nat);
        }
        assert(all_digits(out@)) by {
            assert forall|j: int| 0 <= j < out@.len() implies is_digit(#[trigger] out@[j]) by {
                let a = d@.integer.len();
                let b = d@.fraction.len();
                if j < a {
                    assert(out@[j] == d@.integer[j]);
                } else if j < a + b {
                    assert(out@[j] == d@.fraction[j - a]);
                }
            }
        }
        out
    } else {
        extend_bytes(&mut out, slice_subrange(frac, 0, prec));
        assert(out@ =~= d@.integer + d@.fraction.take(prec as int));
        proof {
            lemma_round_long(d@, prec as nat);
        }
        assert(all_digits(out@)) by {
            assert forall|j: int| 0 <= j < out@.len() implies is_digit(#[trigger] out@[j]) by {
                let a = d@.integer.len();
                if j < a {
                    assert(out@[j] == d@.integer[j]);
                } else {
                    assert(out@[j] == d@.fraction[j - a]);
                }
            }
        }
        let next = frac[prec];
        let up = if next > 53 {
            true
        } else if next == 53 {
            let tail = slice_subrange(frac, prec + 1, frac.len());
            assert(tail@ =~= d@.fraction.skip(prec + 1 as int));
            !all_zeros(tail) || (out.len() > 0 && out[out.len() - 1] % 2 == 1)
        } else {
            false
        };
        proof {
            lemma_last_digit_parity(out@);
        }
        if up {
            increment(&mut out);
        }
        out
    }
}

/// Appends `d` with `prec` fraction digits (rounded, halves to even) and at least
/// `min_int` integer digits.
pub fn push_fixed(out: &mut String, d: &Decimal, min_int: usize, prec: usize)
    ensures
        final(out)@ == old(out)@ + fixed_text(d@, min_int as nat, prec as nat),
{
    let digits = rounded_digits(d, prec);
    let n = digits.len();
    let hi = slice_subrange(digits.as_slice(), 0, n - prec);
    let lo = slice_subrange(digits.as_slice(), n - prec, n);
    proof {
        assert(digits@ =~= hi@ + lo@);
        assert(all_digits(hi@)) by {
            assert forall|j: int| 0 <= j < hi@.len() implies is_digit(#[trigger] hi@[j]) by {
                assert(hi@[j] == digits@[j]);
            }
        }
        assert(all_digits(lo@)) by {
            assert forall|j: int| 0 <= j < lo@.len() implies is_digit(#[trigger] lo@[j]) by {
                assert(lo@[j] == digits@[n - prec + j]);
            }
        }
        lemma_digits_split(hi@, lo@);
    }
    let ghost before = out@;
    push_value_padded(out, hi, min_int);
    push_char(out, '.');
    push_value_padded(out, lo, prec);
    assert(out@ =~= before + fixed_text(d@, min_int as nat, prec as nat));
}

/// Appends the shortest text of the value of `d`.
pub fn push_plain(out: &mut String, d: &Decimal)
    ensures
        final(out)@ == old(out)@ + plain_text(d@),
{
    proof {
        use_type_invariant(d);
        lemma_digits_value_zero(d@.fraction);
        lemma_nat_text_len(d@.int_value());
    }
    let ghost before = out@;
    let whole = d.int_digits();
    let frac = d.frac_digits();
    push_value_padded(out, whole, 0);
    if !all_zeros(frac) {
        let mut k = frac.len();
        while k > 0 && frac[k - 1] == 48
            invariant
                k <= frac@.len(),
                forall|i: int| k <= i < frac@.len() ==> #[trigger] frac@[i] == 48,
            decreases k,
        {
            k = k - 1;
        }
        proof {
            lemma_trim_zeros(frac@, k as int);
        }
        push_char(out, '.');
        let kept = slice_subrange(frac, 0, k);
        assert forall|i: int| 0 <= i < kept@.len() implies #[trigger] kept@[i] < 128 by {
            assert(kept@[i] == frac@[i]);
            assert(is_digit(frac@[i]));
        }
        push_ascii(out, kept);
        assert(kept@ =~= frac@.take(k as int));
    }
    assert(out@ =~= before + plain_text(d@));
}

/// The text of a minutes or seconds value: two whole digits when it is a
/// whole number that fits a byte; its own digits (its shortest text) when it
/// is below 60 but would round up to 60; otherwise two integer digits and
/// `prec` rounded fraction digits.
#[verifier::opaque]
pub open spec fn part_text(x: DecimalV, prec: nat) -> Seq<char> {
    if x.is_integer() && x.int_value() <= 255 {
        zero_pad(nat_text(x.int_value()), 2)
    } else if !x.at_least(60) && rounded(x, prec) >= 60 * pow10(prec) {
        plain_text(x)
    } else {
        fixed_text(x, 2, prec)
    }
}

/// A value below 60 written with exactly `prec` fraction digits is not
/// rounded up to 60.
pub proof fn lemma_exact_below_sixty(x: DecimalV, prec: nat)
    requires
        x.wf(),
        x.fraction.len() == prec,
        !x.at_least(60),
    ensures
        rounded(x, prec) < 60 * pow10(prec),
{
    lemma_round_short(x, prec);
    assert(x.integer + x.fraction + zero_digits(0) =~= x.integer + x.fraction);
}

/// Whether `x` with `prec` fraction digits rounds to 60 or more.
fn rounds_to_sixty(x: &Decimal, prec: usize) -> (r: bool)
    ensures
        r == (rounded(x@, prec as nat) >= 60 * pow10(prec as nat)),
{
    let digits = rounded_digits(x, prec);
    let n = digits.len();
    let hi = slice_subrange(digits.as_slice(), 0, n - prec);
    let lo = slice_subrange(digits.as_slice(), n - prec, n);
    proof {
        assert(digits@ =~= hi@ + lo@);
        assert(all_digits(hi@)) by {
            assert forall|j: int| 0 <= j < hi@.len() implies is_digit(#[trigger] hi@[j]) by {
                assert(hi@[j] == digits@[j]);
            }
        }
        assert(all_digits(lo@)) by {
            assert forall|j: int| 0 <= j < lo@.len() implies is_digit(#[trigger] lo@[j]) by {
                assert(lo@[j] == digits@[n - prec + j]);
            }
        }
        lemma_digits_split(hi@, lo@);
        lemma_pow10_positive(prec as nat);
        let r = rounded(x@, prec as nat);
        let q = pow10(prec as nat);
        let h = digits_value(hi@);
        let m = r % q;
        vstd::arithmetic::div_mod::lemma_fundamental_div_mod(r as int, q as int);
        vstd::arithmetic::div_mod::lemma_mod_pos_bound(r as int, q as int);
        assert(h == r / q);
        assert((h >= 60) == (r >= 60 * q)) by (nonlinear_arith)
            requires
                r == q * h + m,
                0 <= m < q,
                q > 0,
        ;
    }
    digits_value_at_most(hi, 59).is_none()
}

/// Appends the text of a minutes or seconds value.
pub fn push_part(out: &mut String, x: &Decimal, prec: usize)
    ensures
        final(out)@ == old(out)@ + part_text(x@, prec as nat),
{
    proof {
        use_type_invariant(x);
        lemma_digits_value_zero(x@.fraction);
        lemma_decimal_compare(x@, 60);
        reveal(part_text);
    }
    if all_zeros(x.frac_digits()) {
        match digits_value_at_most(x.int_digits(), 255) {
            Some(v) => push_nat_padded(out, v, 2),
            None => push_fixed(out, x, 2, prec),
        }
    } else if !x.at_least(60) && rounds_to_sixty(x, prec) {
        push_plain(out, x);
    } else {
        push_fixed(out, x, 2, prec);
    }
}

/// `trim_zeros(s)` is a prefix of `s`, empty only when `s` is all zeros.
proof fn lemma_trim_prefix(s: Seq<u8>)
    ensures
        trim_zeros(s).len() <= s.len(),
        trim_zeros(s) == s.take(trim_zeros(s).len() as int),
        !all_zero_digits(s) ==> trim_zeros(s).len() > 0,
    decreases s.len(),
{
    if s.len() > 0 && s.last() == 48 {
        let s2 = s.drop_last();
        lemma_trim_prefix(s2);
        let k = trim_zeros(s2).len() as int;
        assert(s2.take(k) =~= s.take(k));
        if !all_zero_digits(s) && k == 0 {
            assert forall|i: int| 0 <= i < s.len() implies #[trigger] s[i] == 48 by {
                if i < s2.len() {
                    assert(s2[i] == s[i]);
                }
            }
        }
    } else {
        assert(s.take(s.len() as int) =~= s);
    }
}

/// Digits, `.`, digits read as a number with those integer and fraction digits.
pub proof fn lemma_number_parts(a: Seq<u8>, f: Seq<u8>)
    requires
        all_digits(a),
        all_digits(f),
        a.len() >= 1,
        f.len() >= 1,
    ensures
        is_number_text(a + seq![46u8] + f),
        decimal_of(a + seq![46u8] + f) == (DecimalV { integer: a, fraction: f }),
{
    let t = a + seq![46u8] + f;
    let n = a.len() as int;
    assert forall|j: int| 0 <= j < n implies is_digit(#[trigger] t[j]) by {
        assert(t[j] == a[j]);
    }
    assert(t[n] == 46);
    lemma_digits_end_at(t, 0, n);
    assert forall|j: int| n + 1 <= j < t.len() implies is_digit(#[trigger] t[j]) by {
        assert(t[j] == f[j - n - 1]);
    }
    lemma_digits_end_at(t, n + 1, t.len() as int);
    assert(t.take(n) =~= a);
    assert(t.skip(n + 1) =~= f);
}

/// A minutes or seconds value below 60 is written as a number text below 60,
/// so what is written reads back in range.
pub proof fn lemma_part_text_below_sixty(x: DecimalV, prec: nat)
    requires
        x.wf(),
        !x.at_least(60),
    ensures
        is_number_text(ascii_bytes(part_text(x, prec))),
        decimal_of(ascii_bytes(part_text(x, prec))).wf(),
        !decimal_of(ascii_bytes(part_text(x, prec))).at_least(60),
{
    reveal(part_text);
    reveal_with_fuel(pow10, 3);
    lemma_decimal_compare(x, 60);
    let b = ascii_bytes(part_text(x, prec));
    let dot = seq!['.'];
    assert(ascii_bytes(dot) =~= seq![46u8]);
    if x.is_integer() && x.int_value() <= 255 {
        let v = x.int_value();
        lemma_pad_nat(v, 2);
        lemma_digits_end_at(b, 0, b.len() as int);
        assert(b.take(b.len() as int) =~= b);
        assert(decimal_of(b) == (DecimalV { integer: b, fraction: Seq::<u8>::empty() }));
        lemma_digits_value_zero(Seq::<u8>::empty());
        lemma_decimal_compare(decimal_of(b), 60);
    } else if rounded(x, prec) >= 60 * pow10(prec) {
        lemma_digits_value_zero(x.fraction);
        let v = x.int_value();
        let a = ascii_bytes(nat_text(v));
        let tr = trim_zeros(x.fraction);
        lemma_nat_text_value(v);
        lemma_trim_prefix(x.fraction);
        assert forall|j: int| 0 <= j < tr.len() implies is_digit(#[trigger] tr[j]) by {
            assert(tr[j] == x.fraction[j]);
        }
        assert forall|j: int| 0 <= j < tr.len() implies #[trigger] tr[j] < 128 by {
            assert(is_digit(tr[j]));
        }
        lemma_ascii_chars_bytes(tr);
        lemma_ascii_bytes_concat(nat_text(v) + dot, ascii_chars(tr));
        lemma_ascii_bytes_concat(nat_text(v), dot);
        assert(b == a + seq![46u8] + tr);
        lemma_number_parts(a, tr);
        lemma_decimal_compare(decimal_of(b), 60);
    } else {
        let q = pow10(prec);
        let r = rounded(x, prec);
        lemma_pow10_positive(prec);
        let hi = r / q;
        let lo = r % q;
        let ht = zero_pad(nat_text(hi), 2);
        let lt = zero_pad(nat_text(lo), prec);
        assert(hi < 60) by (nonlinear_arith)
            requires
                r < 60 * q,
                q > 0,
                hi == r / q,
        ;
        lemma_pad_nat(hi, 2);
        lemma_nat_text_value(lo);
        let lb = ascii_bytes(lt);
        if prec >= 1 {
            vstd::arithmetic::div_mod::lemma_mod_pos_bound(r as int, q as int);
            lemma_pad_nat(lo, prec);
        } else {
            assert(lt == nat_text(lo));
        }
        assert(all_digits(lb) && lb.len() >= 1);
        lemma_ascii_bytes_concat(ht + dot, lt);
        lemma_ascii_bytes_concat(ht, dot);
        assert(b == ascii_bytes(ht) + seq![46u8] + lb);
        lemma_number_parts(ascii_bytes(ht), lb);
        lemma_decimal_compare(decimal_of(b), 60);
    }
}

// ---------------------------------------------------------------------------
// Reading texts back as bytes
// ---------------------------------------------------------------------------

/// Characters read as bytes (the inverse of [`ascii_chars`] on ASCII).
pub open spec fn ascii_bytes(t: Seq<char>) -> Seq<u8> {
    t.map_values(|c: char| c as u8)
}

pub proof fn lemma_ascii_bytes_concat(a: Seq<char>, b: Seq<char>)
    ensures
        ascii_bytes(a + b) == ascii_bytes(a) + ascii_bytes(b),
{
    assert(ascii_bytes(a + b) =~= ascii_bytes(a) + ascii_bytes(b));
}

/// ASCII bytes survive a trip through characters.
pub proof fn lemma_ascii_chars_bytes(b: Seq<u8>)
    requires
        forall|i: int| 0 <= i < b.len() ==> #[trigger] b[i] < 128,
    ensures
        ascii_bytes(ascii_chars(b)) == b,
        vstd::utf8::is_ascii_chars(ascii_chars(b)),
{
    assert(ascii_bytes(ascii_chars(b)) =~= b);
}

/// The decimal text of `n` is made of ASCII digits whose value is `n`.
pub proof fn lemma_nat_text_value(n: nat)
    ensures
        vstd::utf8::is_ascii_chars(nat_text(n)),
        all_digits(ascii_bytes(nat_text(n))),
        digits_value(ascii_bytes(nat_text(n))) == n,
        ascii_chars(ascii_bytes(nat_text(n))) == nat_text(n),
        nat_text(n).len() >= 1,
    decreases n,
{
    let t = nat_text(n);
    if n < 10 {
        assert(ascii_bytes(t) =~= seq![(n + 48) as u8]);
        assert(seq![(n + 48) as u8] =~= Seq::<u8>::empty().push((n + 48) as u8));
        lemma_digits_value_push(Seq::<u8>::empty(), (n + 48) as u8);
        assert(ascii_chars(ascii_bytes(t)) =~= t);
    } else {
        lemma_nat_text_value(n / 10);
        let t2 = nat_text(n / 10);
        let c = digit_char(n % 10);
        assert(ascii_bytes(t) =~= ascii_bytes(t2).push((n % 10 + 48) as u8));
        lemma_digits_value_push(ascii_bytes(t2), (n % 10 + 48) as u8);
        assert(n == (n / 10) * 10 + n % 10);
        assert(all_digits(ascii_bytes(t))) by {
            assert forall|i: int| 0 <= i < ascii_bytes(t).len() implies is_digit(
                #[trigger] ascii_bytes(t)[i],
            ) by {
                if i < t2.len() {
                    assert(ascii_bytes(t)[i] == ascii_bytes(t2)[i]);
                }
            }
        }
        assert(ascii_chars(ascii_bytes(t)) =~= t) by {
            assert(ascii_chars(ascii_bytes(t2)) == t2);
            assert forall|i: int| 0 <= i < t.len() implies #[trigger] ascii_chars(ascii_bytes(t))[i] == t[i] by {
                if i < t2.len() {
                    assert(ascii_chars(ascii_bytes(t2))[i] == t2[i]);
                }
            }
        }
    }
}

/// A digit string, zero padded to its own length, is its own text.
pub proof fn lemma_pad_digits(s: Seq<u8>)
    requires
        all_digits(s),
        s.len() >= 1,
    ensures
        zero_pad(nat_text(digits_value(s)), s.len()) == ascii_chars(s),
    decreases s.len(),
{
    if s[0] != 48 {
        lemma_nat_text_digits(s);
    } else if s.len() == 1 {
        assert(s =~= Seq::<u8>::empty().push(48u8));
        lemma_digits_value_push(Seq::<u8>::empty(), 48u8);
        assert(digits_value(s) == 0);
        assert(zero_pad(nat_text(0), 1) =~= ascii_chars(s));
    } else {
        let s2 = s.drop_first();
        assert(all_digits(s2)) by {
            assert forall|i: int| 0 <= i < s2.len() implies is_digit(#[trigger] s2[i]) by {
                assert(s2[i] == s[i + 1]);
            }
        }
        lemma_pad_digits(s2);
        assert(s =~= seq![48u8] + s2);
        assert(all_zero_digits(seq![48u8]));
        lemma_digits_value_leading_zeros(seq![48u8], s2);
        let x = nat_text(digits_value(s2));
        assert(zero_pad(x, s2.len()).len() == s2.len());
        assert(zero_pad(x, s.len()) =~= ascii_chars(s)) by {
            assert(ascii_chars(s) =~= seq!['0'] + ascii_chars(s2));
            if x.len() < s2.len() {
                assert(zero_pad(x, s.len()) =~= seq!['0'] + zero_pad(x, s2.len()));
            } else {
                assert(x.len() == s2.len());
                assert(zero_pad(x, s.len()) =~= seq!['0'] + x);
            }
        }
    }
}

/// A number below `10^w`, zero padded to `w` characters, reads back as
/// `w` digits whose value is the number.
pub proof fn lemma_pad_nat(n: nat, w: nat)
    requires
        w >= 1,
        n < pow10(w),
    ensures
        ascii_bytes(zero_pad(nat_text(n), w)).len() == w,
        all_digits(ascii_bytes(zero_pad(nat_text(n), w))),
        digits_value(ascii_bytes(zero_pad(nat_text(n), w))) == n,
        zero_pad(nat_text(n), w) == ascii_chars(ascii_bytes(zero_pad(nat_text(n), w))),
        vstd::utf8::is_ascii_chars(zero_pad(nat_text(n), w)),
{
    lemma_nat_text_len_pow(n, w);
    lemma_nat_text_value(n);
    let t = nat_text(n);
    let z = zero_digits((w - t.len()) as nat);
    let p = zero_pad(t, w);
    assert(ascii_bytes(p) =~= z + ascii_bytes(t));
    assert(all_zero_digits(z));
    lemma_digits_value_leading_zeros(z, ascii_bytes(t));
    lemma_zero_digits(z);
    assert(all_digits(ascii_bytes(p))) by {
        assert forall|i: int| 0 <= i < ascii_bytes(p).len() implies is_digit(
            #[trigger] ascii_bytes(p)[i],
        ) by {
            if i >= z.len() {
                assert(ascii_bytes(p)[i] == ascii_bytes(t)[i - z.len()]);
            }
        }
    }
    assert(p =~= ascii_chars(ascii_bytes(p))) by {
        assert forall|i: int| 0 <= i < p.len() implies #[trigger] ascii_chars(ascii_bytes(p))[i] == p[i] by {
            if i >= z.len() {
                assert(ascii_chars(ascii_bytes(t))[i - z.len()] == t[i - z.len()]);
            }
        }
    }
}

/// A decimal with exactly `w` integer digits and `prec` fraction digits is
/// written as those digits.
pub proof fn lemma_fixed_exact(d: DecimalV, w: nat, prec: nat)
    requires
        d.wf(),
        d.integer.len() == w,
        w >= 1,
        prec >= 1,
        d.fraction.len() == prec,
    ensures
        fixed_text(d, w, prec) == ascii_chars(d.integer) + seq!['.'] + ascii_chars(d.fraction),
{
    lemma_round_short(d, prec);
    assert(d.integer + d.fraction + zero_digits(0) =~= d.integer + d.fraction);
    lemma_digits_split(d.integer, d.fraction);
    lemma_pad_digits(d.integer);
    lemma_pad_digits(d.fraction);
}

/// The shortest text of a decimal.
impl Decimal {
    /// The shortest text of the value: integer part without leading zeros and,
    /// unless the value is whole, `.` and the fraction without trailing zeros.
    pub fn to_string(&self) -> (r: String)
        ensures
            r@ == plain_text(self@),
    {
        let mut out = String::new();
        push_plain(&mut out, self);
        assert(out@ =~= plain_text(self@));
        out
    }
}

} // verus!
