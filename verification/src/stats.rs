//! Symbol statistics: occurrence counters for the literal/length and
//! distance alphabets, the estimated bit lengths derived from them,
//! and the randomized perturbation that kicks the optimizer out of a
//! local minimum.

use vstd::prelude::*;
use crate::{Token, token_in_range, SCALE};
use crate::entropy::{calculate_entropy, spec_entropy_bit};
use crate::ran::{random_marsaglia, spec_next_w, spec_next_z, spec_ran_value, RanState};
use crate::symbols::{
    get_dist_symbol,
    get_length_symbol,
    spec_dist_symbol,
    spec_length_symbol,
    NUM_D,
    NUM_LL,
};

verus! {

/// Upper bound on a single occurrence counter, and on the number of
/// tokens a parse may hold.
pub const COUNT_MAX: u64 = 0x1_0000_0000;

/// Statistics of one completed parse: occurrence counters and the
/// estimated fixed-point bit length of every symbol of both alphabets.
pub struct SymbolStats {
    /// Occurrence counters of the literal/length symbols.
    pub litlens: Vec<u64>,
    /// Occurrence counters of the distance symbols.
    pub dists: Vec<u64>,
    /// Estimated bit length of each literal/length symbol, in fixed point.
    pub ll_symbols: Vec<u64>,
    /// Estimated bit length of each distance symbol, in fixed point.
    pub d_symbols: Vec<u64>,
}

/// How often a token adds to the counter of literal/length symbol `sym`.
pub open spec fn spec_ll_contrib(t: Token, sym: int) -> int {
    if t.dist == 0 {
        if t.litlen == sym {
            1
        } else {
            0
        }
    } else {
        if spec_length_symbol(t.litlen as int) == sym {
            1
        } else {
            0
        }
    }
}

/// How often a token adds to the counter of distance symbol `sym`.
pub open spec fn spec_d_contrib(t: Token, sym: int) -> int {
    if t.dist == 0 {
        0
    } else {
        if spec_dist_symbol(t.dist as int) == sym {
            1
        } else {
            0
        }
    }
}

/// Occurrences of literal/length symbol `sym` in a parse.
pub open spec fn spec_ll_count(p: Seq<Token>, sym: int) -> int
    decreases p.len(),
{
    if p.len() == 0 {
        0
    } else {
        spec_ll_count(p.drop_last(), sym) + spec_ll_contrib(p.last(), sym)
    }
}

/// Occurrences of distance symbol `sym` in a parse.
pub open spec fn spec_d_count(p: Seq<Token>, sym: int) -> int
    decreases p.len(),
{
    if p.len() == 0 {
        0
    } else {
        spec_d_count(p.drop_last(), sym) + spec_d_contrib(p.last(), sym)
    }
}

/// A symbol occurs at most as often as the parse has tokens.
pub proof fn lemma_ll_count_le_len(p: Seq<Token>, sym: int)
    ensures
        0 <= spec_ll_count(p, sym) <= p.len(),
    decreases p.len(),
{
    if p.len() > 0 {
        lemma_ll_count_le_len(p.drop_last(), sym);
    }
}

/// A distance symbol occurs at most as often as the parse has tokens.
pub proof fn lemma_d_count_le_len(p: Seq<Token>, sym: int)
    ensures
        0 <= spec_d_count(p, sym) <= p.len(),
    decreases p.len(),
{
    if p.len() > 0 {
        lemma_d_count_le_len(p.drop_last(), sym);
    }
}

impl SymbolStats {
    /// Well-formedness: both alphabets have their full size and every
    /// entry is within the bounds the engine's arithmetic relies on.
    pub open spec fn wf(self) -> bool {
        &&& self.litlens.len() == NUM_LL
        &&& self.dists.len() == NUM_D
        &&& self.ll_symbols.len() == NUM_LL
        &&& self.d_symbols.len() == NUM_D
        &&& forall|i: int| 0 <= i < NUM_LL ==> self.litlens[i] <= COUNT_MAX
        &&& forall|i: int| 0 <= i < NUM_D ==> self.dists[i] <= COUNT_MAX
        &&& forall|i: int| 0 <= i < NUM_LL ==> self.ll_symbols[i] < 47 * SCALE
        &&& forall|i: int| 0 <= i < NUM_D ==> self.d_symbols[i] < 47 * SCALE
    }

    /// Fresh statistics: all counters and bit lengths zero.
    pub fn new() -> (r: SymbolStats)
        ensures
            r.wf(),
            forall|i: int| 0 <= i < NUM_LL ==> r.litlens[i] == 0,
            forall|i: int| 0 <= i < NUM_D ==> r.dists[i] == 0,
            forall|i: int| 0 <= i < NUM_LL ==> r.ll_symbols[i] == 0,
            forall|i: int| 0 <= i < NUM_D ==> r.d_symbols[i] == 0,
    {
        let mut litlens: Vec<u64> = Vec::new();
        let mut dists: Vec<u64> = Vec::new();
        let mut ll_symbols: Vec<u64> = Vec::new();
        let mut d_symbols: Vec<u64> = Vec::new();
        let mut i: usize = 0;
        while i < NUM_LL
            invariant
                litlens.len() == i,
                ll_symbols.len() == i,
                i <= NUM_LL,
                forall|j: int| 0 <= j < i ==> litlens[j] == 0,
                forall|j: int| 0 <= j < i ==> ll_symbols[j] == 0,
            decreases NUM_LL - i,
        {
            litlens.push(0);
            ll_symbols.push(0);
            i = i + 1;
        }
        let mut i: usize = 0;
        while i < NUM_D
            invariant
                dists.len() == i,
                d_symbols.len() == i,
                i <= NUM_D,
                forall|j: int| 0 <= j < i ==> dists[j] == 0,
                forall|j: int| 0 <= j < i ==> d_symbols[j] == 0,
            decreases NUM_D - i,
        {
            dists.push(0);
            d_symbols.push(0);
            i = i + 1;
        }
        SymbolStats { litlens, dists, ll_symbols, d_symbols }
    }
}

/// The counters a parse gives rise to: every token counted once for
/// each alphabet it touches, and the end-of-block sentinel forced to
/// one occurrence so the end symbol stays encodable.
pub open spec fn counts_match_parse(s: SymbolStats, p: Seq<Token>) -> bool {
    &&& forall|sym: int|
        0 <= sym < NUM_LL && sym != 256 ==> #[trigger] s.litlens[sym] == spec_ll_count(p, sym)
    &&& s.litlens[256] == 1
    &&& forall|sym: int| 0 <= sym < NUM_D ==> #[trigger] s.dists[sym] == spec_d_count(p, sym)
}

/// Full derivation: the counters match the parse and both bit-length
/// tables are the entropy estimate of their counters.
pub open spec fn derived_from(s: SymbolStats, p: Seq<Token>) -> bool {
    &&& s.wf()
    &&& counts_match_parse(s, p)
    &&& forall|i: int| 0 <= i < NUM_LL ==> #[trigger] s.ll_symbols[i] == spec_entropy_bit(s.litlens@, i)
    &&& forall|i: int| 0 <= i < NUM_D ==> #[trigger] s.d_symbols[i] == spec_entropy_bit(s.dists@, i)
}

/// Reset the counters and re-accumulate them from a parse; forces the
/// end-of-block counter to one.  Leaves the bit-length tables alone.
pub fn tally_counts(stats: &mut SymbolStats, parse: &Vec<Token>)
    requires
        old(stats).wf(),
        parse.len() < COUNT_MAX,
        forall|i: int| 0 <= i < parse.len() ==> token_in_range(#[trigger] parse[i]),
    ensures
        final(stats).wf(),
        counts_match_parse(*final(stats), parse@),
        final(stats).ll_symbols == old(stats).ll_symbols,
        final(stats).d_symbols == old(stats).d_symbols,
{
    let mut i: usize = 0;
    while i < NUM_LL
        invariant
            stats.litlens.len() == NUM_LL,
            i <= NUM_LL,
            forall|j: int| 0 <= j < i ==> stats.litlens[j] == 0,
            stats.dists.len() == NUM_D,
            stats.ll_symbols == old(stats).ll_symbols,
            stats.d_symbols == old(stats).d_symbols,
            stats.dists == old(stats).dists,
        decreases NUM_LL - i,
    {
        stats.litlens.set(i, 0);
        i = i + 1;
    }
    let mut i: usize = 0;
    while i < NUM_D
        invariant
            stats.litlens.len() == NUM_LL,
            stats.dists.len() == NUM_D,
            i <= NUM_D,
            forall|j: int| 0 <= j < NUM_LL ==> stats.litlens[j] == 0,
            forall|j: int| 0 <= j < i ==> stats.dists[j] == 0,
            stats.ll_symbols == old(stats).ll_symbols,
            stats.d_symbols == old(stats).d_symbols,
        decreases NUM_D - i,
    {
        stats.dists.set(i, 0);
        i = i + 1;
    }
    let n = parse.len();
    let mut i: usize = 0;
    while i < n
        invariant
            n == parse.len() < COUNT_MAX,
            i <= n,
            stats.litlens.len() == NUM_LL,
            stats.dists.len() == NUM_D,
            forall|t: int| 0 <= t < n ==> token_in_range(#[trigger] parse[t]),
            forall|sym: int|
                0 <= sym < NUM_LL ==> stats.litlens[sym] == spec_ll_count(
                    parse@.take(i as int),
                    sym,
                ),
            forall|sym: int|
                0 <= sym < NUM_D ==> stats.dists[sym] == spec_d_count(parse@.take(i as int), sym),
            stats.ll_symbols == old(stats).ll_symbols,
            stats.d_symbols == old(stats).d_symbols,
        decreases n - i,
    {
        proof {
            assert(parse@.take(i as int + 1).drop_last() =~= parse@.take(i as int));
            assert(parse@.take(i as int + 1).last() == parse@[i as int]);
            lemma_ll_count_le_len(parse@.take(i as int), parse@[i as int].litlen as int);
            lemma_ll_count_le_len(
                parse@.take(i as int),
                spec_length_symbol(parse@[i as int].litlen as int),
            );
            lemma_d_count_le_len(
                parse@.take(i as int),
                spec_dist_symbol(parse@[i as int].dist as int),
            );
        }
        let t = parse[i];
        if t.dist == 0 {
            let idx = t.litlen as usize;
            let c = stats.litlens[idx];
            stats.litlens.set(idx, c + 1);
        } else {
            let lsym = get_length_symbol(t.litlen) as usize;
            let c = stats.litlens[lsym];
            stats.litlens.set(lsym, c + 1);
            let dsym = get_dist_symbol(t.dist) as usize;
            let cd = stats.dists[dsym];
            stats.dists.set(dsym, cd + 1);
        }
        i = i + 1;
    }
    proof {
        assert(parse@.take(n as int) =~= parse@);
        assert forall|sym: int|
            0 <= sym < NUM_LL implies 0 <= #[trigger] spec_ll_count(parse@, sym)
            <= parse@.len() by {
            lemma_ll_count_le_len(parse@, sym);
        }
        assert forall|sym: int|
            0 <= sym < NUM_D implies 0 <= #[trigger] spec_d_count(parse@, sym)
            <= parse@.len() by {
            lemma_d_count_le_len(parse@, sym);
        }
    }
    stats.litlens.set(256, 1);
}

/// Recompute both bit-length tables from the current counters.
pub fn calculate_bit_lengths(stats: &mut SymbolStats)
    requires
        old(stats).wf(),
    ensures
        final(stats).wf(),
        final(stats).litlens == old(stats).litlens,
        final(stats).dists == old(stats).dists,
        forall|i: int|
            0 <= i < NUM_LL ==> final(stats).ll_symbols[i] == spec_entropy_bit(
                old(stats).litlens@,
                i,
            ),
        forall|i: int|
            0 <= i < NUM_D ==> final(stats).d_symbols[i] == spec_entropy_bit(old(stats).dists@, i),
{
    calculate_entropy(&stats.litlens, &mut stats.ll_symbols);
    calculate_entropy(&stats.dists, &mut stats.d_symbols);
}

/// Derive the statistics of a parse: accumulate the counters, then
/// estimate every symbol's bit length.  The result is a function of
/// the parse alone.
pub fn get_statistics(stats: &mut SymbolStats, parse: &Vec<Token>)
    requires
        old(stats).wf(),
        parse.len() < COUNT_MAX,
        forall|i: int| 0 <= i < parse.len() ==> token_in_range(#[trigger] parse[i]),
    ensures
        final(stats).wf(),
        derived_from(*final(stats), parse@),
{
    tally_counts(stats, parse);
    calculate_bit_lengths(stats);
}

/// Statistics derivation is idempotent: two statistics derived from
/// the same parse hold identical counters and identical bit-length
/// tables, no matter what either held before.
pub proof fn lemma_statistics_idempotent(s1: SymbolStats, s2: SymbolStats, p: Seq<Token>)
    requires
        derived_from(s1, p),
        derived_from(s2, p),
    ensures
        s1.litlens@ == s2.litlens@,
        s1.dists@ == s2.dists@,
        s1.ll_symbols@ == s2.ll_symbols@,
        s1.d_symbols@ == s2.d_symbols@,
{
    assert forall|i: int| 0 <= i < NUM_LL implies s1.litlens@[i] == s2.litlens@[i] by {
        if i != 256 {
            assert(s1.litlens[i] == spec_ll_count(p, i));
            assert(s2.litlens[i] == spec_ll_count(p, i));
        }
    }
    assert(s1.litlens@ =~= s2.litlens@);
    assert forall|i: int| 0 <= i < NUM_D implies s1.dists@[i] == s2.dists@[i] by {
        assert(s1.dists[i] == spec_d_count(p, i));
        assert(s2.dists[i] == spec_d_count(p, i));
    }
    assert(s1.dists@ =~= s2.dists@);
    assert forall|i: int| 0 <= i < NUM_LL implies s1.ll_symbols@[i] == s2.ll_symbols@[i] by {
        assert(s1.ll_symbols[i] == spec_entropy_bit(s1.litlens@, i));
        assert(s2.ll_symbols[i] == spec_entropy_bit(s2.litlens@, i));
    }
    assert(s1.ll_symbols@ =~= s2.ll_symbols@);
    assert forall|i: int| 0 <= i < NUM_D implies s1.d_symbols@[i] == s2.d_symbols@[i] by {
        assert(s1.d_symbols[i] == spec_entropy_bit(s1.dists@, i));
        assert(s2.d_symbols[i] == spec_entropy_bit(s2.dists@, i));
    }
    assert(s1.d_symbols@ =~= s2.d_symbols@);
}

/// One full pass of the randomized "smear" over a counter array,
/// stated as a pure function of the starting counters and generator
/// state: at each index the generator decides (with chance one in
/// three) whether to overwrite the entry with that of a uniformly
/// drawn sibling.
pub open spec fn spec_randomize(freqs: Seq<u64>, z: u32, w: u32, i: nat) -> (Seq<u64>, u32, u32)
    decreases freqs.len() - i when i <= freqs.len()
{
    if i >= freqs.len() {
        (freqs, z, w)
    } else {
        let r1 = spec_ran_value(z, w);
        let z1 = spec_next_z(z);
        let w1 = spec_next_w(w);
        if (r1 >> 4) % 3 == 0 {
            let r2 = spec_ran_value(z1, w1);
            let z2 = spec_next_z(z1);
            let w2 = spec_next_w(w1);
            let idx = r2 as int % freqs.len() as int;
            spec_randomize(freqs.update(i as int, freqs[idx]), z2, w2, i + 1)
        } else {
            spec_randomize(freqs, z1, w1, i + 1)
        }
    }
}

/// Replace each counter, with chance one in three, by the value of a
/// randomly chosen counter of the same array.  The outcome is pinned
/// exactly by `spec_randomize`, and every resulting value is a value
/// the array already held.
pub fn randomize_freqs(state: &mut RanState, freqs: &mut Vec<u64>)
    requires
        old(freqs).len() < 0x1_0000_0000,
    ensures
        final(freqs).len() == old(freqs).len(),
        ({
            let r = spec_randomize(old(freqs)@, old(state).z(), old(state).w(), 0);
            final(freqs)@ == r.0 && final(state).z() == r.1 && final(state).w() == r.2
        }),
        forall|k: int|
            0 <= k < final(freqs).len() ==> old(freqs)@.contains(#[trigger] final(freqs)[k]),
{
    let ghost f0 = freqs@;
    let ghost z0 = state.z();
    let ghost w0 = state.w();
    let n = freqs.len();
    proof {
        assert forall|k: int| 0 <= k < n implies f0.contains(#[trigger] freqs[k]) by {
            assert(f0[k] == freqs[k]);
        }
    }
    let mut i: usize = 0;
    while i < n
        invariant
            i <= n,
            n == freqs.len() < 0x1_0000_0000,
            f0.len() == n,
            spec_randomize(freqs@, state.z(), state.w(), i as nat) == spec_randomize(f0, z0, w0, 0),
            forall|k: int| 0 <= k < n ==> f0.contains(#[trigger] freqs[k]),
        decreases n - i,
    {
        let ghost pre = freqs@;
        let r1 = random_marsaglia(state);
        if (r1 >> 4) % 3 == 0 {
            let r2 = random_marsaglia(state);
            let idx = (r2 % (n as u32)) as usize;
            proof {
                assert(idx < n);
            }
            let v = freqs[idx];
            freqs.set(i, v);
            proof {
                assert(freqs@ == pre.update(i as int, pre[idx as int]));
                assert forall|k: int| 0 <= k < n implies f0.contains(#[trigger] freqs[k]) by {
                    if k == i as int {
                        assert(freqs[k] == pre[idx as int]);
                        assert(f0.contains(pre[idx as int]));
                    } else {
                        assert(freqs[k] == pre[k]);
                        assert(f0.contains(pre[k]));
                    }
                }
            }
        }
        i = i + 1;
    }
}

/// Randomize the counters of both alphabets in turn, then force the
/// end-of-block counter back to one.  This runs on counters, before
/// the bit lengths are re-derived, never after.
#[allow(non_snake_case)]
pub fn RandomizeStatFreqs(state: &mut RanState, stats: &mut SymbolStats)
    requires
        old(stats).wf(),
    ensures
        final(stats).wf(),
        ({
            let a = spec_randomize(old(stats).litlens@, old(state).z(), old(state).w(), 0);
            let b = spec_randomize(old(stats).dists@, a.1, a.2, 0);
            final(stats).litlens@ == a.0.update(256, 1u64) && final(stats).dists@ == b.0
                && final(state).z() == b.1 && final(state).w() == b.2
        }),
        final(stats).litlens[256] == 1,
        final(stats).ll_symbols == old(stats).ll_symbols,
        final(stats).d_symbols == old(stats).d_symbols,
{
    randomize_freqs(state, &mut stats.litlens);
    randomize_freqs(state, &mut stats.dists);
    stats.litlens.set(256, 1);
}

} // verus!
