use squeeze::entropy::calculate_entropy;
use squeeze::ran::{random_marsaglia, InitRanState, RanState};
use squeeze::stats::{
    get_statistics, randomize_freqs, tally_counts, RandomizeStatFreqs, SymbolStats,
};
use squeeze::{Token, SCALE};

#[test]
fn generator_golden_sequence() {
    // The first draws from the fixed initial state pin the generator
    // bit for bit across implementations.
    let golden: [u32; 8] = [
        550651472, 2842876160, 2457330511, 338550345, 2305076030, 3880432749, 263216920,
        3187702030,
    ];
    let mut state = RanState::new();
    for g in golden {
        assert_eq!(random_marsaglia(&mut state), g);
    }
    // Resetting the state replays the same sequence.
    InitRanState(&mut state);
    for g in golden {
        assert_eq!(random_marsaglia(&mut state), g);
    }
}

fn sample_parse() -> Vec<Token> {
    vec![
        Token { litlen: 65, dist: 0 },
        Token { litlen: 65, dist: 0 },
        Token { litlen: 66, dist: 0 },
        Token { litlen: 10, dist: 1 },
        Token { litlen: 30, dist: 2 },
        Token { litlen: 258, dist: 32768 },
    ]
}

#[test]
fn statistics_derivation_counts() {
    let parse = sample_parse();
    let mut stats = SymbolStats::new();
    get_statistics(&mut stats, &parse);
    assert_eq!(stats.litlens[65], 2);
    assert_eq!(stats.litlens[66], 1);
    // Length 10 -> symbol 264, length 30 -> symbol 271, length 258 -> 285.
    assert_eq!(stats.litlens[264], 1);
    assert_eq!(stats.litlens[271], 1);
    assert_eq!(stats.litlens[285], 1);
    // Distances 1, 2, 32768 -> symbols 0, 1, 29.
    assert_eq!(stats.dists[0], 1);
    assert_eq!(stats.dists[1], 1);
    assert_eq!(stats.dists[29], 1);
    // The end-of-block sentinel is forced even though no token produced it.
    assert_eq!(stats.litlens[256], 1);
}

#[test]
fn statistics_derivation_idempotent() {
    let parse = sample_parse();
    let mut s1 = SymbolStats::new();
    get_statistics(&mut s1, &parse);
    let mut s2 = SymbolStats::new();
    get_statistics(&mut s2, &parse);
    assert_eq!(s1.litlens, s2.litlens);
    assert_eq!(s1.dists, s2.dists);
    assert_eq!(s1.ll_symbols, s2.ll_symbols);
    assert_eq!(s1.d_symbols, s2.d_symbols);
    // Re-deriving on top of an already derived value changes nothing.
    get_statistics(&mut s1, &parse);
    assert_eq!(s1.litlens, s2.litlens);
    assert_eq!(s1.ll_symbols, s2.ll_symbols);
    assert_eq!(s1.d_symbols, s2.d_symbols);
}

#[test]
fn end_symbol_forced_after_derivation_and_randomization() {
    let parse = sample_parse();
    let mut stats = SymbolStats::new();
    let mut state = RanState::new();
    for _ in 0..20 {
        tally_counts(&mut stats, &parse);
        RandomizeStatFreqs(&mut state, &mut stats);
        assert_eq!(stats.litlens[256], 1);
    }
}

#[test]
fn entropy_exact_values() {
    // Two symbols, one occurrence each: one bit apiece.
    let counts: Vec<u64> = vec![1, 1];
    let mut bits: Vec<u64> = vec![0, 0];
    calculate_entropy(&counts, &mut bits);
    assert_eq!(bits, vec![SCALE, SCALE]);
    // Counts 3 and 1 of 4: log2(4) - log2(3) and log2(4) - log2(1),
    // in fixed point with 16 fractional bits.
    let counts: Vec<u64> = vec![3, 1];
    let mut bits: Vec<u64> = vec![0, 0];
    calculate_entropy(&counts, &mut bits);
    assert_eq!(bits, vec![27200, 2 * SCALE]);
    // All-zero counts fall back to one occurrence per symbol.
    let counts: Vec<u64> = vec![0, 0];
    let mut bits: Vec<u64> = vec![0, 0];
    calculate_entropy(&counts, &mut bits);
    assert_eq!(bits, vec![SCALE, SCALE]);
}

#[test]
fn randomizer_replaces_about_a_third() {
    let n: usize = 10000;
    let orig: Vec<u64> = (0..n as u64).collect();
    let mut freqs = orig.clone();
    let mut state = RanState::new();
    randomize_freqs(&mut state, &mut freqs);
    assert_eq!(freqs.len(), n);
    let mut changed: usize = 0;
    for i in 0..n {
        if freqs[i] != orig[i] {
            changed += 1;
        }
        // Every value still comes from within the same array.
        assert!(freqs[i] < n as u64);
    }
    // With this fixed seed the replacement chance is one in three;
    // allow a generous sampling tolerance around it.
    assert!(changed > n / 4, "only {} entries changed", changed);
    assert!(changed < n * 2 / 5, "{} entries changed", changed);
}

#[test]
fn randomizer_is_reproducible() {
    let orig: Vec<u64> = (0..500u64).map(|x| x * 7 % 101).collect();
    let mut f1 = orig.clone();
    let mut f2 = orig.clone();
    let mut s1 = RanState::new();
    let mut s2 = RanState::new();
    randomize_freqs(&mut s1, &mut f1);
    randomize_freqs(&mut s2, &mut f2);
    assert_eq!(f1, f2);
}
