//! Cost models: the estimated bit cost of encoding one token, either
//! against the fixed DEFLATE tree or against live symbol statistics.
//! The fixed model counts whole bits; the model used by the search
//! works in fixed-point units of `SCALE` per bit so that both models
//! and the entropy estimates are directly comparable.

use vstd::prelude::*;
use crate::{token_in_range, Token, SCALE};
use crate::stats::SymbolStats;
use crate::symbols::{
    get_dist_extra_bits,
    get_dist_symbol,
    get_length_extra_bits,
    get_length_symbol,
    spec_dist_extra_bits,
    spec_dist_symbol,
    spec_length_extra_bits,
    spec_length_symbol,
};

verus! {

/// Upper bound (exclusive) on the fixed-point cost of any single token
/// under either model.
pub const COST_MAX: u64 = 0x70_0000;

/// Cost in whole bits of a token under the fixed DEFLATE tree: a
/// literal up to 143 costs 8 bits and a higher literal 9; a match
/// costs its length symbol's code (7 bits up to symbol 279, else 8)
/// plus the length extra bits, plus a 5-bit distance code and the
/// distance extra bits.
pub open spec fn spec_cost_fixed(litlen: int, dist: int) -> int {
    if dist == 0 {
        if litlen <= 143 {
            8
        } else {
            9
        }
    } else {
        let base: int = if spec_length_symbol(litlen) <= 279 {
            7
        } else {
            8
        };
        base + spec_length_extra_bits(litlen) + 5 + spec_dist_extra_bits(dist)
    }
}

/// Fixed-point cost of a token under live symbol statistics: the
/// estimated bit length of its literal/length symbol, plus, for a
/// match, the length extra bits, the distance symbol's estimated bit
/// length and the distance extra bits.
pub open spec fn spec_cost_stat(litlen: int, dist: int, s: SymbolStats) -> int {
    if dist == 0 {
        s.ll_symbols[litlen] as int
    } else {
        s.ll_symbols[spec_length_symbol(litlen)] + spec_length_extra_bits(litlen) * SCALE
            + s.d_symbols[spec_dist_symbol(dist)] + spec_dist_extra_bits(dist) * SCALE
    }
}

/// Fixed-point cost of a token under a cost-model context: absent
/// statistics select the fixed tree, present statistics the dynamic
/// estimate.
pub open spec fn spec_cost_model(t: Token, st: Option<SymbolStats>) -> int {
    match st {
        None => spec_cost_fixed(t.litlen as int, t.dist as int) * SCALE,
        Some(s) => spec_cost_stat(t.litlen as int, t.dist as int, s),
    }
}

/// Cost model that exactly matches the fixed DEFLATE tree, in whole
/// bits.
#[allow(non_snake_case)]
pub fn GetCostFixed(litlen: u16, dist: u16) -> (r: u64)
    requires
        token_in_range(Token { litlen, dist }),
    ensures
        r == spec_cost_fixed(litlen as int, dist as int),
        r <= 31,
{
    if dist == 0 {
        if litlen <= 143 {
            8
        } else {
            9
        }
    } else {
        let lsym = get_length_symbol(litlen);
        let lbits = get_length_extra_bits(litlen);
        let dbits = get_dist_extra_bits(dist);
        let base: u64 = if lsym <= 279 {
            7
        } else {
            8
        };
        base + lbits as u64 + 5 + dbits as u64
    }
}

/// Cost model based on symbol statistics, in fixed-point units.
#[allow(non_snake_case)]
pub fn GetCostStat(litlen: u16, dist: u16, stats: &SymbolStats) -> (r: u64)
    requires
        token_in_range(Token { litlen, dist }),
        stats.wf(),
    ensures
        r == spec_cost_stat(litlen as int, dist as int, *stats),
        r < COST_MAX,
{
    if dist == 0 {
        stats.ll_symbols[litlen as usize]
    } else {
        let lsym = get_length_symbol(litlen) as usize;
        let lbits = get_length_extra_bits(litlen) as u64;
        let dsym = get_dist_symbol(dist) as usize;
        let dbits = get_dist_extra_bits(dist) as u64;
        stats.ll_symbols[lsym] + lbits * SCALE + stats.d_symbols[dsym] + dbits * SCALE
    }
}

/// Fixed-point cost of a token under the selected model: the fixed
/// tree when no statistics are given, the dynamic estimate otherwise.
/// An absent context is the static mode by construction, so no
/// invalid context can reach the dynamic estimate.
pub fn model_cost(litlen: u16, dist: u16, context: Option<&SymbolStats>) -> (r: u64)
    requires
        token_in_range(Token { litlen, dist }),
        context matches Some(s) ==> s.wf(),
    ensures
        context matches Some(s) ==> r == spec_cost_model(
            Token { litlen, dist },
            Some(*s),
        ),
        context is None ==> r == spec_cost_model(Token { litlen, dist }, None::<SymbolStats>),
        r < COST_MAX,
{
    match context {
        None => GetCostFixed(litlen, dist) * SCALE,
        Some(s) => GetCostStat(litlen, dist, s),
    }
}

/// Under the fixed tree, every literal byte value up to 143 costs
/// exactly 8 bits and every higher literal exactly 9.
pub proof fn lemma_fixed_literal_cost(litlen: int)
    requires
        0 <= litlen <= 255,
    ensures
        spec_cost_fixed(litlen, 0) == if litlen <= 143 {
            8int
        } else {
            9int
        },
{
}

/// Under the fixed tree, every valid match costs the closed-form sum
/// of its length symbol's code length (7 bits up to symbol 279, 8
/// above), its length extra bits, the 5-bit distance code, and its
/// distance extra bits.
pub proof fn lemma_fixed_match_cost(litlen: int, dist: int)
    requires
        3 <= litlen <= 258,
        1 <= dist <= 32768,
    ensures
        spec_cost_fixed(litlen, dist) == (if spec_length_symbol(litlen) <= 279 {
            7int
        } else {
            8int
        }) + spec_length_extra_bits(litlen) + 5 + spec_dist_extra_bits(dist),
{
}

} // verus!
