use anneal_model::{config_bytes, config_spins, config_to_u64, lower_neighbours};

#[test]
fn config_to_u64_packs_low_bit_first() {
    assert_eq!(config_to_u64(vec![true, false, true, true]), vec![13]);
    assert_eq!(config_to_u64(vec![]), Vec::<u64>::new());
    let mut long = vec![false; 70];
    long[0] = true;
    long[63] = true;
    long[64] = true;
    long[69] = true;
    assert_eq!(config_to_u64(long), vec![1 | (1u64 << 63), 1 | (1 << 5)]);
}

#[test]
fn config_to_u64_round_trips_with_config_spins() {
    let spins = vec![false, true, true, false, true, false, false, true, true];
    let words = config_to_u64(spins.clone());
    assert_eq!(words.len(), 1);
    assert_eq!(config_spins(words[0], spins.len()), spins);
}

#[test]
fn config_bytes_keeps_the_bytes_that_hold_spins() {
    let mut spins = vec![false; 10];
    spins[0] = true;
    spins[3] = true;
    spins[9] = true;
    assert_eq!(config_bytes(spins), vec![0x09, 0x02]);
    assert_eq!(config_bytes(vec![true; 8]), vec![0xff]);
    assert_eq!(config_bytes(vec![]), Vec::<u8>::new());
}

#[test]
fn config_spins_reads_bits() {
    assert_eq!(config_spins(6, 4), vec![false, true, true, false]);
    assert_eq!(config_spins(u64::MAX, 64).len(), 64);
    assert_eq!(config_spins(5, 0), Vec::<bool>::new());
}

#[test]
fn lower_neighbours_clear_one_set_bit() {
    assert_eq!(lower_neighbours(0b1011, 4), vec![0b1010, 0b1001, 0b0011]);
    assert_eq!(lower_neighbours(0, 5), Vec::<u64>::new());
    // bits past the model's sites are ignored
    assert_eq!(lower_neighbours(0b100, 2), Vec::<u64>::new());
}
