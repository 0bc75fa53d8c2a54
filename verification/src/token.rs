//! The tokens of an ISO 6709 string and the longest-match lexer that finds them.
use core::ops::Range;
use vstd::prelude::*;
use vstd::slice::slice_subrange;

use crate::decimal::scan_digits;
use crate::digits::{digits_end, is_digit, lemma_digits_end};

verus! {

/// The kinds of token. Each `Signed*` kind is a sign (`+`/`-`) followed by a
/// fixed number of integer digits and an optional `.DIGITS` fraction:
///
/// | Kind | Pattern | ISO 6709 meaning (by position) |
/// |------|---------|--------------------------------|
/// | `Signed2` | `±DD[.D+]` | Latitude degrees |
/// | `Signed3` | `±DDD[.D+]` | Longitude degrees |
/// | `Signed4` | `±DDMM[.M+]` | Latitude deg+min |
/// | `Signed5` | `±DDDMM[.M+]` | Longitude deg+min |
/// | `Signed6` | `±DDMMSS[.S+]` | Latitude DMS |
/// | `Signed7` | `±DDDMMSS[.S+]` | Longitude DMS |
/// | `SignedOther` | `±N+[.N+]` | Altitude (catch-all) |
#[derive(Debug, Clone, Copy, PartialEq, Eq, Structural)]
pub enum TokenKind {
    Signed2,
    Signed3,
    Signed4,
    Signed5,
    Signed6,
    Signed7,
    SignedOther,
    /// `CRS` followed by one or more ASCII letters or digits.
    CrsId,
    /// The terminating solidus `/`.
    Solidus,
}

/// What the lexer finds at a position of the input.
pub enum Lexed {
    /// The input is exhausted.
    End,
    /// No token starts here.
    Error,
    /// A token of the given kind that ends (exclusively) at `end`.
    Token { kind: TokenKind, end: int },
}

pub open spec fn is_sign(b: u8) -> bool {
    b == 43 || b == 45
}

/// An ASCII letter or digit.
pub open spec fn is_alnum(b: u8) -> bool {
    (48 <= b <= 57) || (65 <= b <= 90) || (97 <= b <= 122)
}

/// The end of the run of ASCII letters and digits that starts at `i`.
pub open spec fn alnum_end(s: Seq<u8>, i: int) -> int
    decreases s.len() - i,
{
    if 0 <= i < s.len() && is_alnum(s[i]) {
        alnum_end(s, i + 1)
    } else {
        i
    }
}

/// The end of the number `DIGITS[.DIGITS]` whose digits start at `i`
/// (a `.` belongs to the number only when a digit follows it).
pub open spec fn number_end(s: Seq<u8>, i: int) -> int {
    let e = digits_end(s, i);
    if e + 1 < s.len() && s[e] == 46 && is_digit(s[e + 1]) {
        digits_end(s, e + 1)
    } else {
        e
    }
}

/// The kind of a signed number with `n` integer digits.
pub open spec fn signed_kind(n: int) -> TokenKind {
    if n == 2 {
        TokenKind::Signed2
    } else if n == 3 {
        TokenKind::Signed3
    } else if n == 4 {
        TokenKind::Signed4
    } else if n == 5 {
        TokenKind::Signed5
    } else if n == 6 {
        TokenKind::Signed6
    } else if n == 7 {
        TokenKind::Signed7
    } else {
        TokenKind::SignedOther
    }
}

/// The kind is one of the signed numbers.
pub open spec fn is_signed_kind(k: TokenKind) -> bool {
    !(k is CrsId) && !(k is Solidus)
}

/// The longest token that starts at position `i` of `s`.
pub open spec fn lex(s: Seq<u8>, i: int) -> Lexed {
    if i >= s.len() {
        Lexed::End
    } else if s[i] == 47 {
        Lexed::Token { kind: TokenKind::Solidus, end: i + 1 }
    } else if is_sign(s[i]) {
        let e = digits_end(s, i + 1);
        if e == i + 1 {
            Lexed::Error
        } else {
            Lexed::Token { kind: signed_kind(e - (i + 1)), end: number_end(s, i + 1) }
        }
    } else if i + 3 <= s.len() && s[i] == 67 && s[i + 1] == 82 && s[i + 2] == 83 {
        let e = alnum_end(s, i + 3);
        if e == i + 3 {
            Lexed::Error
        } else {
            Lexed::Token { kind: TokenKind::CrsId, end: e }
        }
    } else {
        Lexed::Error
    }
}

pub proof fn lemma_alnum_end(s: Seq<u8>, i: int)
    requires
        0 <= i <= s.len(),
    ensures
        i <= alnum_end(s, i) <= s.len(),
        forall|j: int| i <= j < alnum_end(s, i) ==> is_alnum(#[trigger] s[j]),
        alnum_end(s, i) < s.len() ==> !is_alnum(s[alnum_end(s, i)]),
    decreases s.len() - i,
{
    if i < s.len() && is_alnum(s[i]) {
        lemma_alnum_end(s, i + 1);
    }
}

/// A token found by [`lex`] lies inside the input, after its start.
pub proof fn lemma_lex_bounds(s: Seq<u8>, i: int)
    requires
        0 <= i,
    ensures
        lex(s, i) matches Lexed::Token { end, .. } ==> i < end <= s.len(),
{
    if i < s.len() {
        if is_sign(s[i]) {
            lemma_digits_end(s, i + 1);
            let e = digits_end(s, i + 1);
            if e + 1 < s.len() && s[e] == 46 && is_digit(s[e + 1]) {
                lemma_digits_end(s, e + 1);
            }
        } else if i + 3 <= s.len() && s[i] == 67 && s[i + 1] == 82 && s[i + 2] == 83 {
            lemma_alnum_end(s, i + 3);
        }
    }
}

/// A token of the input, borrowing its text (sign included for numbers,
/// `CRS` prefix included for identifiers).
#[derive(Debug, Clone, Copy, PartialEq)]
pub enum Token<'a> {
    /// `±DD` or `±DD.D+` — latitude degrees, or altitude.
    Signed2(&'a [u8]),
    /// `±DDD` or `±DDD.D+` — longitude degrees, or altitude.
    Signed3(&'a [u8]),
    /// `±DDMM` or `±DDMM.M+` — latitude deg+min, or altitude.
    Signed4(&'a [u8]),
    /// `±DDDMM` or `±DDDMM.M+` — longitude deg+min, or altitude.
    Signed5(&'a [u8]),
    /// `±DDMMSS` or `±DDMMSS.S+` — latitude DMS, or altitude.
    Signed6(&'a [u8]),
    /// `±DDDMMSS` or `±DDDMMSS.S+` — longitude DMS, or altitude.
    Signed7(&'a [u8]),
    /// Signed numbers with digit counts outside 2–7 (altitude only).
    SignedOther(&'a [u8]),
    /// CRS identifier, e.g. `CRSepsg4326`.
    CrsId(&'a [u8]),
    /// Trailing solidus `/` terminator.
    Solidus,
}

impl<'a> Token<'a> {
    /// The kind of the token.
    pub open spec fn kind(&self) -> TokenKind {
        match self {
            Token::Signed2(_) => TokenKind::Signed2,
            Token::Signed3(_) => TokenKind::Signed3,
            Token::Signed4(_) => TokenKind::Signed4,
            Token::Signed5(_) => TokenKind::Signed5,
            Token::Signed6(_) => TokenKind::Signed6,
            Token::Signed7(_) => TokenKind::Signed7,
            Token::SignedOther(_) => TokenKind::SignedOther,
            Token::CrsId(_) => TokenKind::CrsId,
            Token::Solidus => TokenKind::Solidus,
        }
    }

    /// The text of the token.
    pub open spec fn text(&self) -> Seq<u8> {
        match self {
            Token::Signed2(s) => s@,
            Token::Signed3(s) => s@,
            Token::Signed4(s) => s@,
            Token::Signed5(s) => s@,
            Token::Signed6(s) => s@,
            Token::Signed7(s) => s@,
            Token::SignedOther(s) => s@,
            Token::CrsId(s) => s@,
            Token::Solidus => seq![47u8],
        }
    }

    /// Returns the text of any signed numeric token, or `None` for
    /// `CrsId`/`Solidus`.
    pub fn as_signed_str(&self) -> (r: Option<&'a [u8]>)
        ensures
            is_signed_kind(self.kind()) ==> (r matches Some(t) && t@ == self.text()),
            !is_signed_kind(self.kind()) ==> r is None,
    {
        match self {
            Token::Signed2(s) | Token::Signed3(s) | Token::Signed4(s) | Token::Signed5(s)
            | Token::Signed6(s) | Token::Signed7(s) | Token::SignedOther(s) => Some(s),
            _ => None,
        }
    }
}

/// A lexer over the bytes of an input: it hands out one token at a time and
/// remembers the span of the last one.
pub struct Lexer<'a> {
    source: &'a [u8],
    token_start: usize,
    token_end: usize,
}

impl<'a> Lexer<'a> {
    #[verifier::type_invariant]
    spec fn in_bounds(self) -> bool {
        self.token_start <= self.token_end <= self.source@.len()
    }

    /// The input.
    pub closed spec fn src(&self) -> Seq<u8> {
        self.source@
    }

    /// Where the last token started.
    pub closed spec fn start(&self) -> int {
        self.token_start as int
    }

    /// Where the last token ended; the next token starts here.
    pub closed spec fn end(&self) -> int {
        self.token_end as int
    }

    /// Positions are never negative.
    pub proof fn lemma_nonneg(&self)
        ensures
            self.start() >= 0,
            self.end() >= 0,
    {
    }

    /// A lexer at the start of `source`.
    pub fn new(source: &'a [u8]) -> (r: Lexer<'a>)
        ensures
            r.src() == source@,
            r.start() == 0,
            r.end() == 0,
    {
        Lexer { source, token_start: 0, token_end: 0 }
    }

    /// The span of the last token (for the end of the input: the empty span there).
    pub fn span(&self) -> (r: Range<usize>)
        ensures
            r.start == self.start(),
            r.end == self.end(),
    {
        self.token_start..self.token_end
    }

    /// Reads the next token, the longest that starts where the last one ended.
    /// Where no token starts, it answers an error and steps over one byte.
    pub fn next(&mut self) -> (r: Option<Result<Token<'a>, ()>>)
        ensures
            final(self).src() == old(self).src(),
            final(self).start() == old(self).end(),
            match lex(old(self).src(), old(self).end()) {
                Lexed::End => r is None && final(self).end() == old(self).end(),
                Lexed::Error => r == Some(Err::<Token<'a>, ()>(())) && final(self).end() == old(
                    self,
                ).end() + 1,
                Lexed::Token { kind, end } => r matches Some(Ok(t)) && t.kind() == kind
                    && t.text() == old(self).src().subrange(old(self).end(), end)
                    && final(self).end() == end,
            },
    {
        proof {
            use_type_invariant(&*self);
        }
        let s = self.source;
        let i = self.token_end;
        let n = s.len();
        self.token_start = i;
        proof {
            lemma_lex_bounds(s@, i as int);
        }
        if i >= n {
            return None;
        }
        let b = s[i];
        if b == 47 {
            self.token_end = i + 1;
            assert(seq![47u8] =~= s@.subrange(i as int, i + 1));
            return Some(Ok(Token::Solidus));
        }
        if b == 43 || b == 45 {
            let e = scan_digits(s, i + 1);
            if e == i + 1 {
                self.token_end = i + 1;
                return Some(Err(()));
            }
            let count = e - (i + 1);
            let end = if n - e > 1 && s[e] == 46 && 48 <= s[e + 1] && s[e + 1] <= 57 {
                scan_digits(s, e + 1)
            } else {
                e
            };
            self.token_end = end;
            let text = slice_subrange(s, i, end);
            let tok = if count == 2 {
                Token::Signed2(text)
            } else if count == 3 {
                Token::Signed3(text)
            } else if count == 4 {
                Token::Signed4(text)
            } else if count == 5 {
                Token::Signed5(text)
            } else if count == 6 {
                Token::Signed6(text)
            } else if count == 7 {
                Token::Signed7(text)
            } else {
                Token::SignedOther(text)
            };
            return Some(Ok(tok));
        }
        if n - i >= 3 && b == 67 && s[i + 1] == 82 && s[i + 2] == 83 {
            let e = scan_alnum(s, i + 3);
            if e == i + 3 {
                self.token_end = i + 1;
                return Some(Err(()));
            }
            self.token_end = e;
            return Some(Ok(Token::CrsId(slice_subrange(s, i, e))));
        }
        self.token_end = i + 1;
        Some(Err(()))
    }
}

/// The end of the run of ASCII letters and digits in `b` that starts at `i`.
fn scan_alnum(b: &[u8], i: usize) -> (e: usize)
    requires
        i <= b@.len(),
    ensures
        e == alnum_end(b@, i as int),
        i <= e <= b@.len(),
{
    proof {
        lemma_alnum_end(b@, i as int);
    }
    let mut j = i;
    while j < b.len() && ((48 <= b[j] && b[j] <= 57) || (65 <= b[j] && b[j] <= 90) || (97 <= b[j]
        && b[j] <= 122))
        invariant
            i <= j <= b@.len(),
            alnum_end(b@, j as int) == alnum_end(b@, i as int),
        decreases b@.len() - j,
    {
        j = j + 1;
    }
    j
}

} // verus!
