//! Optimal-parse ("squeeze") engine for a DEFLATE-style compressor.
//!
//! The engine searches for the token sequence (literals and
//! length/distance back-references) with the lowest estimated
//! entropy-coded bit cost.  Bit costs are estimated either from the
//! fixed DEFLATE tree or from live symbol statistics, which are
//! re-derived from the best parse each round and occasionally
//! perturbed by a small deterministic pseudo-random generator to
//! escape local minima.
//!
//! All bit costs are integers in fixed-point form: a cost of one bit
//! is `SCALE` units, so fractional entropy estimates need no floating
//! point anywhere in the engine.

pub mod cost;
pub mod entropy;
pub mod ran;
pub mod squeeze;
pub mod stats;
pub mod symbols;

use vstd::prelude::*;

verus! {

/// Fixed-point scale: one bit of estimated cost is this many units.
pub const SCALE: u64 = 65536;

/// One parsed token: a literal byte or a (length, distance)
/// back-reference.  `dist == 0` is the sentinel meaning "literal, and
/// `litlen` is the byte value"; `dist > 0` means `litlen` is a match
/// length.
#[derive(Clone, Copy, PartialEq, Eq, Structural, Debug)]
pub struct Token {
    pub litlen: u16,
    pub dist: u16,
}

/// The ranges a token's fields may take: a literal is a byte value, a
/// match has an encodable length and distance.
pub open spec fn token_in_range(t: Token) -> bool {
    if t.dist == 0 {
        t.litlen <= 255
    } else {
        3 <= t.litlen <= 258 && 1 <= t.dist <= 32768
    }
}

/// How many input bytes a token covers.
pub open spec fn spec_advance(t: Token) -> int {
    if t.dist == 0 {
        1
    } else {
        t.litlen as int
    }
}

} // verus!
