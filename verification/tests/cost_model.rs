use squeeze::cost::{GetCostFixed, GetCostStat};
use squeeze::stats::SymbolStats;
use squeeze::symbols::{
    get_dist_extra_bits, get_dist_symbol, get_length_extra_bits, get_length_symbol,
};
use squeeze::SCALE;

#[test]
fn fixed_cost_of_every_literal() {
    for litlen in 0u16..=255 {
        let expected = if litlen <= 143 { 8 } else { 9 };
        assert_eq!(GetCostFixed(litlen, 0), expected);
    }
}

#[test]
fn fixed_cost_closed_form_boundaries() {
    // Length 114 is the last value of symbol 279 (7-bit code), 115 the
    // first of symbol 280 (8-bit code); both carry 4 extra bits.
    assert_eq!(get_length_symbol(114), 279);
    assert_eq!(get_length_symbol(115), 280);
    assert_eq!(GetCostFixed(114, 1), 7 + 4 + 5 + 0);
    assert_eq!(GetCostFixed(115, 1), 8 + 4 + 5 + 0);
    // Smallest and largest distances.
    assert_eq!(GetCostFixed(3, 1), 7 + 0 + 5 + 0);
    assert_eq!(GetCostFixed(3, 32768), 7 + 0 + 5 + 13);
    assert_eq!(GetCostFixed(258, 32768), 8 + 0 + 5 + 13);
}

#[test]
fn length_symbol_table() {
    assert_eq!(get_length_symbol(3), 257);
    assert_eq!(get_length_symbol(10), 264);
    assert_eq!(get_length_symbol(11), 265);
    assert_eq!(get_length_symbol(12), 265);
    assert_eq!(get_length_symbol(13), 266);
    assert_eq!(get_length_symbol(130), 280);
    assert_eq!(get_length_symbol(131), 281);
    assert_eq!(get_length_symbol(257), 284);
    assert_eq!(get_length_symbol(258), 285);
    assert_eq!(get_length_extra_bits(3), 0);
    assert_eq!(get_length_extra_bits(10), 0);
    assert_eq!(get_length_extra_bits(11), 1);
    assert_eq!(get_length_extra_bits(19), 2);
    assert_eq!(get_length_extra_bits(35), 3);
    assert_eq!(get_length_extra_bits(67), 4);
    assert_eq!(get_length_extra_bits(131), 5);
    assert_eq!(get_length_extra_bits(257), 5);
    assert_eq!(get_length_extra_bits(258), 0);
}

#[test]
fn dist_symbol_table() {
    assert_eq!(get_dist_symbol(1), 0);
    assert_eq!(get_dist_symbol(2), 1);
    assert_eq!(get_dist_symbol(3), 2);
    assert_eq!(get_dist_symbol(4), 3);
    assert_eq!(get_dist_symbol(5), 4);
    assert_eq!(get_dist_symbol(6), 4);
    assert_eq!(get_dist_symbol(7), 5);
    assert_eq!(get_dist_symbol(8), 5);
    assert_eq!(get_dist_symbol(9), 6);
    assert_eq!(get_dist_symbol(16384), 27);
    assert_eq!(get_dist_symbol(16385), 28);
    assert_eq!(get_dist_symbol(24576), 28);
    assert_eq!(get_dist_symbol(24577), 29);
    assert_eq!(get_dist_symbol(32768), 29);
    assert_eq!(get_dist_extra_bits(1), 0);
    assert_eq!(get_dist_extra_bits(4), 0);
    assert_eq!(get_dist_extra_bits(5), 1);
    assert_eq!(get_dist_extra_bits(9), 2);
    assert_eq!(get_dist_extra_bits(32768), 13);
}

#[test]
fn stat_cost_reads_the_tables() {
    let mut stats = SymbolStats::new();
    stats.ll_symbols[65] = 3 * SCALE;
    stats.ll_symbols[257] = 7 * SCALE;
    stats.d_symbols[0] = 2 * SCALE;
    // A literal costs exactly its table entry.
    assert_eq!(GetCostStat(65, 0, &stats), 3 * SCALE);
    // A match sums length symbol, length extra bits, distance symbol
    // and distance extra bits; length 3 / distance 1 have no extras.
    assert_eq!(GetCostStat(3, 1, &stats), 7 * SCALE + 2 * SCALE);
    // Length 11 carries one extra bit (symbol 265 is still zero).
    assert_eq!(GetCostStat(11, 1, &stats), 1 * SCALE + 2 * SCALE);
}
