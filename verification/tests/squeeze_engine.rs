use squeeze::squeeze::{lz77_optimal, optimal_run, SqueezeResult};
use squeeze::stats::{get_statistics, SymbolStats};
use squeeze::cost::GetCostFixed;
use squeeze::{Token, SCALE};

/// A run of `n` copies of one byte, with a single greedy candidate
/// match (distance 1, longest length that fits) at every position
/// after the first.
fn run_input(n: usize, byte: u8) -> (Vec<u8>, Vec<Vec<Token>>) {
    let data = vec![byte; n];
    let mut cands: Vec<Vec<Token>> = Vec::with_capacity(n);
    for i in 0..n {
        let mut row = Vec::new();
        if i >= 1 {
            let maxlen = std::cmp::min(258, n - i);
            if maxlen >= 3 {
                row.push(Token { litlen: maxlen as u16, dist: 1 });
            }
            if maxlen >= 4 {
                // A shorter alternative, so the search has a real choice.
                row.push(Token { litlen: 3, dist: 1 });
            }
        }
        cands.push(row);
    }
    (data, cands)
}

fn check_parse(data: &[u8], cands: &[Vec<Token>], tokens: &[Token]) {
    let mut pos: usize = 0;
    for t in tokens {
        if t.dist == 0 {
            assert_eq!(t.litlen, data[pos] as u16);
            pos += 1;
        } else {
            assert!(cands[pos].contains(t));
            pos += t.litlen as usize;
        }
    }
    assert_eq!(pos, data.len());
}

#[test]
fn search_covers_input_and_beats_literals() {
    let (data, cands) = run_input(1000, b'a');
    let (tokens, cost) = optimal_run(&data, &cands, None);
    check_parse(&data, &cands, &tokens);
    // All-literal cost under the fixed tree: 1000 times 8 bits.
    let literal_cost = 1000 * GetCostFixed(b'a' as u16, 0) * SCALE;
    assert!(cost < literal_cost);
    // The cost is the exact sum of the tokens' fixed-tree costs.
    let mut total: u64 = 0;
    for t in &tokens {
        total += GetCostFixed(t.litlen, t.dist) * SCALE;
    }
    assert_eq!(cost, total);
}

#[test]
fn search_under_statistics_is_exact() {
    let (data, cands) = run_input(400, b'x');
    let (tokens0, _) = optimal_run(&data, &cands, None);
    let mut stats = SymbolStats::new();
    get_statistics(&mut stats, &tokens0);
    let (tokens, cost) = optimal_run(&data, &cands, Some(&stats));
    check_parse(&data, &cands, &tokens);
    let mut total: u64 = 0;
    for t in &tokens {
        if t.dist == 0 {
            total += stats.ll_symbols[t.litlen as usize];
        } else {
            total += squeeze::cost::GetCostStat(t.litlen, t.dist, &stats);
        }
    }
    assert_eq!(cost, total);
}

#[test]
fn squeeze_cost_never_increases_round_over_round() {
    let (data, cands) = run_input(1000, b'z');
    let r: SqueezeResult = lz77_optimal(&data, &cands, 15, 3, 15);
    check_parse(&data, &cands, &r.tokens);
    assert!(!r.round_costs.is_empty());
    for w in r.round_costs.windows(2) {
        assert!(w[1] <= w[0], "round cost increased: {} -> {}", w[0], w[1]);
    }
    // The returned parse is never worse than the fixed-tree round.
    assert_eq!(r.cost, *r.round_costs.last().unwrap());
    assert!(r.cost <= r.round_costs[0]);
}

#[test]
fn squeeze_is_deterministic() {
    let mut data: Vec<u8> = Vec::new();
    for i in 0..800usize {
        data.push((i % 7) as u8 * 31 + (i % 3) as u8);
    }
    // Matches where the period-21 structure repeats.
    let n = data.len();
    let mut cands: Vec<Vec<Token>> = Vec::new();
    for i in 0..n {
        let mut row = Vec::new();
        if i >= 21 {
            let maxlen = std::cmp::min(60, n - i);
            if maxlen >= 3 {
                row.push(Token { litlen: maxlen as u16, dist: 21 });
                row.push(Token { litlen: 3, dist: 21 });
            }
        }
        cands.push(row);
    }
    let r1 = lz77_optimal(&data, &cands, 12, 4, 12);
    let r2 = lz77_optimal(&data, &cands, 12, 4, 12);
    assert_eq!(r1.tokens, r2.tokens);
    assert_eq!(r1.cost, r2.cost);
    assert_eq!(r1.round_costs, r2.round_costs);
    check_parse(&data, &cands, &r1.tokens);
}

#[test]
fn search_finds_the_exact_optimum_on_a_tiny_input() {
    // "aaaa" with one candidate match (length 3, distance 1) at
    // position 1.  Four literals cost 4 * 8 = 32 bits; literal plus
    // match costs 8 + (7 + 0 + 5 + 0) = 20 bits, which is optimal.
    let data = vec![b'a'; 4];
    let cands = vec![
        vec![],
        vec![Token { litlen: 3, dist: 1 }],
        vec![],
        vec![],
    ];
    let (tokens, cost) = optimal_run(&data, &cands, None);
    assert_eq!(cost, 20 * SCALE);
    assert_eq!(
        tokens,
        vec![
            Token { litlen: b'a' as u16, dist: 0 },
            Token { litlen: 3, dist: 1 },
        ]
    );
}

#[test]
fn empty_input_yields_empty_parse() {
    let data: Vec<u8> = Vec::new();
    let cands: Vec<Vec<Token>> = Vec::new();
    let (tokens, cost) = optimal_run(&data, &cands, None);
    assert!(tokens.is_empty());
    assert_eq!(cost, 0);
}
