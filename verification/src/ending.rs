//! A coordinate ends at its solidus: bytes after it are refused.
use vstd::prelude::*;

use crate::digits::{digits_end, is_digit, lemma_digits_end, lemma_digits_end_at};
use crate::parser::{
    coordinate_spec, latitude_spec, longitude_spec, parse_spec, solidus_spec, tail_spec, unexpected,
    EXPECT_END,
};
use crate::roundtrip::lemma_alnum_end_at;
use crate::token::{alnum_end, is_alnum, lemma_alnum_end, lex};

verus! {

/// A run of digits that stops inside `s` stops at the same place in `s + t`.
proof fn lemma_digits_end_extend(s: Seq<u8>, t: Seq<u8>, i: int)
    requires
        0 <= i <= s.len(),
        digits_end(s, i) < s.len(),
    ensures
        digits_end(s + t, i) == digits_end(s, i),
{
    lemma_digits_end(s, i);
    let e = digits_end(s, i);
    assert forall|j: int| i <= j < e implies is_digit(#[trigger] (s + t)[j]) by {
        assert((s + t)[j] == s[j]);
    }
    assert((s + t)[e] == s[e]);
    lemma_digits_end_at(s + t, i, e);
}

/// A run of letters and digits that stops inside `s` stops at the same place
/// in `s + t`.
proof fn lemma_alnum_end_extend(s: Seq<u8>, t: Seq<u8>, i: int)
    requires
        0 <= i <= s.len(),
        alnum_end(s, i) < s.len(),
    ensures
        alnum_end(s + t, i) == alnum_end(s, i),
{
    lemma_alnum_end(s, i);
    let e = alnum_end(s, i);
    assert forall|j: int| i <= j < e implies is_alnum(#[trigger] (s + t)[j]) by {
        assert((s + t)[j] == s[j]);
    }
    assert((s + t)[e] == s[e]);
    lemma_alnum_end_at(s + t, i, e);
}

/// A token starts only inside the input, never at a `.`.
proof fn lemma_token_start(s: Seq<u8>, j: int)
    requires
        0 <= j,
        lex(s, j) is Token,
    ensures
        j < s.len(),
        s[j] != 46,
{
}

/// A token that is a solidus, or that another token follows, is found in
/// `s + t` as in `s`.
proof fn lemma_lex_same(s: Seq<u8>, t: Seq<u8>, i: int)
    requires
        0 <= i,
        lex(s, i) is Token,
        lex(s, i)->kind is Solidus || lex(s, lex(s, i)->end) is Token,
    ensures
        lex(s + t, i) == lex(s, i),
        i < lex(s, i)->end <= s.len(),
{
    crate::token::lemma_lex_bounds(s, i);
    let end = lex(s, i)->end;
    let u = s + t;
    assert(u[i] == s[i]);
    if !(lex(s, i)->kind is Solidus) {
        lemma_token_start(s, end);
        assert(u[end] == s[end]);
        if s[i] == 43 || s[i] == 45 {
            lemma_digits_end(s, i + 1);
            let e = digits_end(s, i + 1);
            if e + 1 < s.len() && s[e] == 46 && is_digit(s[e + 1]) {
                lemma_digits_end(s, e + 1);
                lemma_digits_end_extend(s, t, e + 1);
                assert(u[e] == s[e] && u[e + 1] == s[e + 1]);
            }
            lemma_digits_end_extend(s, t, i + 1);
        } else {
            assert(u[i + 1] == s[i + 1] && u[i + 2] == s[i + 2]);
            lemma_alnum_end(s, i + 3);
            lemma_alnum_end_extend(s, t, i + 3);
        }
    }
}

/// The input is a single coordinate: once the bytes `s` hold a whole
/// coordinate, any bytes appended after its solidus are refused, with an
/// `Unexpected` error at the first of them.
pub proof fn law_nothing_after_solidus(s: Seq<u8>, t: Seq<u8>)
    requires
        parse_spec(s) is Ok,
        t.len() > 0,
    ensures
        parse_spec(s + t) == Err::<crate::types::CoordinateV, crate::error::ErrorV>(
            unexpected(s.len() as int, EXPECT_END),
        ),
{
    let p1 = lex(s, 0)->end;
    let p2 = lex(s, p1)->end;
    assert(lex(s, 0) is Token);
    assert(lex(s, p1) is Token);
    assert(lex(s, p2) is Token);
    lemma_lex_same(s, t, 0);
    lemma_lex_same(s, t, p1);
    assert((s + t).subrange(0, p1) == s.subrange(0, p1));
    assert((s + t).subrange(p1, p2) == s.subrange(p1, p2));
    assert(latitude_spec(s + t, 0) == latitude_spec(s, 0));
    assert(longitude_spec(s + t, p1) == longitude_spec(s, p1));
    let p3 = lex(s, p2)->end;
    let k = lex(s, p2)->kind;
    if k is Solidus {
        lemma_lex_same(s, t, p2);
    } else if k is CrsId {
        assert(lex(s, p3) is Token);
        lemma_lex_same(s, t, p2);
        lemma_lex_same(s, t, p3);
        assert((s + t).subrange(p2 + 3, p3) == s.subrange(p2 + 3, p3));
        assert(solidus_spec(s + t, p3) == solidus_spec(s, p3));
    } else {
        assert(lex(s, p3) is Token);
        lemma_lex_same(s, t, p2);
        assert((s + t).subrange(p2, p3) == s.subrange(p2, p3));
        let k2 = lex(s, p3)->kind;
        let p4 = lex(s, p3)->end;
        if k2 is CrsId {
            assert(lex(s, p4) is Token);
            lemma_lex_same(s, t, p3);
            lemma_lex_same(s, t, p4);
            assert((s + t).subrange(p3 + 3, p4) == s.subrange(p3 + 3, p4));
            assert(solidus_spec(s + t, p4) == solidus_spec(s, p4));
        } else {
            lemma_lex_same(s, t, p3);
        }
    }
    assert(tail_spec(s + t, p2) == tail_spec(s, p2));
    assert(coordinate_spec(s + t) == coordinate_spec(s));
    assert((s + t).len() > s.len());
}

} // verus!
