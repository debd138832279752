//! Mapping from raw match lengths and distances to the DEFLATE
//! alphabet: the symbol index of a length or distance and the number
//! of extra bits needed to encode the residual within that symbol's
//! range.  These mappings must agree exactly with the downstream
//! bitstream encoder, so each one is stated as a closed-form spec
//! function and the executable code is proved to match it.

use vstd::prelude::*;

verus! {

/// Number of literal/length symbols (literals 0..=255, end-of-block 256,
/// length symbols 257..=285).
pub const NUM_LL: usize = 286;

/// Number of distance symbols.
pub const NUM_D: usize = 30;

/// Smallest encodable match length.
pub const MIN_MATCH: u16 = 3;

/// Largest encodable match length.
pub const MAX_MATCH: u16 = 258;

/// Largest encodable distance.
pub const MAX_DIST: u16 = 32768;

/// The literal/length symbol of a match length (valid for 3..=258).
pub open spec fn spec_length_symbol(l: int) -> int {
    if l <= 10 {
        254 + l
    } else if l <= 18 {
        265 + (l - 11) / 2
    } else if l <= 34 {
        269 + (l - 19) / 4
    } else if l <= 66 {
        273 + (l - 35) / 8
    } else if l <= 130 {
        277 + (l - 67) / 16
    } else if l <= 257 {
        281 + (l - 131) / 32
    } else {
        285
    }
}

/// Extra bits carried by a match length (valid for 3..=258).
pub open spec fn spec_length_extra_bits(l: int) -> int {
    if l <= 10 {
        0
    } else if l <= 18 {
        1
    } else if l <= 34 {
        2
    } else if l <= 66 {
        3
    } else if l <= 130 {
        4
    } else if l <= 257 {
        5
    } else {
        0
    }
}

/// The distance symbol of a distance (valid for 1..=32768).
pub open spec fn spec_dist_symbol(d: int) -> int {
    if d <= 4 {
        d - 1
    } else if d <= 8 {
        4 + (d - 5) / 2
    } else if d <= 16 {
        6 + (d - 9) / 4
    } else if d <= 32 {
        8 + (d - 17) / 8
    } else if d <= 64 {
        10 + (d - 33) / 16
    } else if d <= 128 {
        12 + (d - 65) / 32
    } else if d <= 256 {
        14 + (d - 129) / 64
    } else if d <= 512 {
        16 + (d - 257) / 128
    } else if d <= 1024 {
        18 + (d - 513) / 256
    } else if d <= 2048 {
        20 + (d - 1025) / 512
    } else if d <= 4096 {
        22 + (d - 2049) / 1024
    } else if d <= 8192 {
        24 + (d - 4097) / 2048
    } else if d <= 16384 {
        26 + (d - 8193) / 4096
    } else {
        28 + (d - 16385) / 8192
    }
}

/// Extra bits carried by a distance (valid for 1..=32768).
pub open spec fn spec_dist_extra_bits(d: int) -> int {
    if d <= 4 {
        0
    } else if d <= 8 {
        1
    } else if d <= 16 {
        2
    } else if d <= 32 {
        3
    } else if d <= 64 {
        4
    } else if d <= 128 {
        5
    } else if d <= 256 {
        6
    } else if d <= 512 {
        7
    } else if d <= 1024 {
        8
    } else if d <= 2048 {
        9
    } else if d <= 4096 {
        10
    } else if d <= 8192 {
        11
    } else if d <= 16384 {
        12
    } else {
        13
    }
}

/// Executable length-to-symbol mapping.
pub fn get_length_symbol(l: u16) -> (s: u16)
    requires
        MIN_MATCH <= l <= MAX_MATCH,
    ensures
        s == spec_length_symbol(l as int),
        257 <= s <= 285,
{
    if l <= 10 {
        254 + l
    } else if l <= 18 {
        265 + (l - 11) / 2
    } else if l <= 34 {
        269 + (l - 19) / 4
    } else if l <= 66 {
        273 + (l - 35) / 8
    } else if l <= 130 {
        277 + (l - 67) / 16
    } else if l <= 257 {
        281 + (l - 131) / 32
    } else {
        285
    }
}

/// Executable length-to-extra-bits mapping.
pub fn get_length_extra_bits(l: u16) -> (b: u16)
    requires
        MIN_MATCH <= l <= MAX_MATCH,
    ensures
        b == spec_length_extra_bits(l as int),
        b <= 5,
{
    if l <= 10 {
        0
    } else if l <= 18 {
        1
    } else if l <= 34 {
        2
    } else if l <= 66 {
        3
    } else if l <= 130 {
        4
    } else if l <= 257 {
        5
    } else {
        0
    }
}

/// Executable distance-to-symbol mapping.
pub fn get_dist_symbol(d: u16) -> (s: u16)
    requires
        1 <= d <= MAX_DIST,
    ensures
        s == spec_dist_symbol(d as int),
        s <= 29,
{
    if d <= 4 {
        d - 1
    } else if d <= 8 {
        4 + (d - 5) / 2
    } else if d <= 16 {
        6 + (d - 9) / 4
    } else if d <= 32 {
        8 + (d - 17) / 8
    } else if d <= 64 {
        10 + (d - 33) / 16
    } else if d <= 128 {
        12 + (d - 65) / 32
    } else if d <= 256 {
        14 + (d - 129) / 64
    } else if d <= 512 {
        16 + (d - 257) / 128
    } else if d <= 1024 {
        18 + (d - 513) / 256
    } else if d <= 2048 {
        20 + (d - 1025) / 512
    } else if d <= 4096 {
        22 + (d - 2049) / 1024
    } else if d <= 8192 {
        24 + (d - 4097) / 2048
    } else if d <= 16384 {
        26 + (d - 8193) / 4096
    } else {
        28 + (d - 16385) / 8192
    }
}

/// Executable distance-to-extra-bits mapping.
pub fn get_dist_extra_bits(d: u16) -> (b: u16)
    requires
        1 <= d <= MAX_DIST,
    ensures
        b == spec_dist_extra_bits(d as int),
        b <= 13,
{
    if d <= 4 {
        0
    } else if d <= 8 {
        1
    } else if d <= 16 {
        2
    } else if d <= 32 {
        3
    } else if d <= 64 {
        4
    } else if d <= 128 {
        5
    } else if d <= 256 {
        6
    } else if d <= 512 {
        7
    } else if d <= 1024 {
        8
    } else if d <= 2048 {
        9
    } else if d <= 4096 {
        10
    } else if d <= 8192 {
        11
    } else if d <= 16384 {
        12
    } else {
        13
    }
}

} // verus!
