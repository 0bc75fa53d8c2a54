//! ISO 6709 geographic coordinate parser and writer.
//!
//! ```text
//! ±Latitude±Longitude[±Altitude][CRS<id>]/
//! ```
//!
//! Numbers are kept exactly as written ([`Decimal`]); `to_string` writes a
//! coordinate back in the notation it was read in.
use vstd::prelude::*;

pub mod arith;
pub mod closeness;
pub mod complete;
pub mod decimal;
pub mod digits;
pub mod ending;
pub mod equality;
pub mod error;
pub mod failures;
pub mod parser;
pub mod ranges;
pub mod readback;
pub mod roundtrip;
pub mod shapes;
pub mod text;
pub mod token;
pub mod types;
pub mod unwrap;

pub use decimal::Decimal;
pub use error::{Amount, Component, ParseError};
pub use parser::parse;
pub use types::{
    Altitude, Coordinate, CrsId, LatDMS, LatDeg, LatDegMin, Latitude, LonDMS, LonDeg, LonDegMin,
    Longitude, Sign,
};

verus! {

} // verus!
