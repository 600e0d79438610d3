use chess_engine::bench::white_rook_attack_total;
use chess_engine::bitwalk::{
    add_bits_by_index, add_bits_by_shifted_mask, add_bits_by_table, random_total_by_fresh_table,
    random_total_by_index, random_total_by_shifted_mask, random_total_by_table, single_bits,
};
use chess_engine::fen::Fen;

#[test]
fn bits_by_index() {
    assert_eq!(add_bits_by_index(0, 12345), 12345);
    assert_eq!(add_bits_by_index(7, 0), 7);
    assert_eq!(add_bits_by_index(u64::MAX, 2), 1);
    assert_eq!(add_bits_by_index(1, u64::MAX), 0);
    assert_eq!(add_bits_by_index(0, 1u64 << 63), 1u64 << 63);
}

#[test]
fn bits_by_shifted_mask() {
    assert_eq!(add_bits_by_shifted_mask(0, 0b111), 0b110);
    assert_eq!(add_bits_by_shifted_mask(5, 1), 5);
    assert_eq!(add_bits_by_shifted_mask(0, u64::MAX), u64::MAX - 1);
    assert_eq!(add_bits_by_shifted_mask(3, 1u64 << 63), (1u64 << 63) + 3);
    assert_eq!(add_bits_by_shifted_mask(u64::MAX, 4), 3);
}

#[test]
fn bits_by_table() {
    let table = single_bits();
    assert_eq!(table.len(), 64);
    assert_eq!(table[0], 1);
    assert_eq!(table[10], 1024);
    assert_eq!(table[63], 1u64 << 63);
    assert_eq!(add_bits_by_table(3, 0xff, &table), 258);
    assert_eq!(add_bits_by_table(u64::MAX, u64::MAX, &table), u64::MAX - 1);
}

#[test]
fn ways_agree() {
    let table = single_bits();
    for value in [0u64, 1, 2, 0xdead_beef, u64::MAX, 1u64 << 63, 0x8000_0000_0000_0001] {
        let total = 0x1234_5678_9abc_def0u64;
        let by_index = add_bits_by_index(total, value);
        assert_eq!(by_index, total.wrapping_add(value));
        assert_eq!(add_bits_by_table(total, value, &table), by_index);
        assert_eq!(add_bits_by_shifted_mask(total, value), total.wrapping_add(value & !1));
    }
}

#[test]
fn random_totals() {
    assert_eq!(random_total_by_index(0), 0);
    assert_eq!(random_total_by_shifted_mask(0), 0);
    assert_eq!(random_total_by_fresh_table(0), 0);
    assert_eq!(random_total_by_table(0, &single_bits()), 0);
    for _ in 0..20 {
        assert_eq!(random_total_by_shifted_mask(50) % 2, 0);
    }
    random_total_by_index(100);
    random_total_by_fresh_table(100);
    random_total_by_table(100, &single_bits());
}

#[test]
fn rook_attack_totals() {
    assert_eq!(white_rook_attack_total(&vec![]), 0);
    assert_eq!(white_rook_attack_total(&vec![Fen::new()]), 0);
    let lone = Fen::from_str("4k3/8/8/8/8/8/8/R3K3 w - - 0 1").unwrap();
    let rank: u64 = (1 << 6) | (1 << 5) | (1 << 4);
    let file: u64 = (1 << 15) | (1 << 23) | (1 << 31) | (1 << 39) | (1 << 47) | (1 << 55) | (1 << 63);
    assert_eq!(white_rook_attack_total(&vec![lone.clone()]), rank | file);
    assert_eq!(
        white_rook_attack_total(&vec![lone.clone(), lone]),
        (rank | file).wrapping_add(rank | file)
    );
}
