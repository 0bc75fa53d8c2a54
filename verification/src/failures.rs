//! What a refused input is answered.
use vstd::prelude::*;

use crate::error::ErrorV;
use crate::parser::{
    latitude_spec, longitude_spec, parse_spec, tail_spec,
};
use crate::token::{lemma_lex_bounds, lex};

verus! {

/// The error points into the input, or just past its end.
pub open spec fn error_in_input(e: ErrorV, len: nat) -> bool {
    match e {
        ErrorV::Unexpected { position, .. } => position <= len,
        ErrorV::InvalidNumber { .. } => false,
        ErrorV::OutOfRange { .. } => true,
    }
}

/// Every position where a token is looked for lies within the input.
proof fn lemma_token_positions(s: Seq<u8>)
    ensures
        latitude_spec(s, 0) matches Ok((_, p1)) ==> 0 < p1 <= s.len() && (
        longitude_spec(s, p1) matches Ok((_, p2)) ==> p1 < p2 <= s.len()),
{
    lemma_lex_bounds(s, 0);
    let p1 = lex(s, 0)->end;
    if latitude_spec(s, 0) is Ok {
        lemma_lex_bounds(s, p1);
    }
}

/// Refused input is answered with an `Unexpected` error at a byte offset no
/// greater than the input's length, or with an `OutOfRange` error; parsing
/// never answers `InvalidNumber`.
pub proof fn law_errors_point_into_input(s: Seq<u8>)
    ensures
        parse_spec(s) matches Err(e) ==> error_in_input(e, s.len()),
{
    lemma_token_positions(s);
    if let Ok((_, p1)) = latitude_spec(s, 0) {
        if let Ok((_, p2)) = longitude_spec(s, p1) {
            lemma_lex_bounds(s, p2);
            let p3 = lex(s, p2)->end;
            if lex(s, p2) is Token {
                lemma_lex_bounds(s, p3);
                let p4 = lex(s, p3)->end;
                if lex(s, p3) is Token {
                    lemma_lex_bounds(s, p4);
                }
            }
            assert(tail_spec(s, p2) matches Err(e) ==> error_in_input(e, s.len()));
        }
    }
}

} // verus!
