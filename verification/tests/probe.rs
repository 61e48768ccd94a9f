use typestore::probe::{get_hash_index, QuadraticProbe, HASH_MULTIPLIER};

#[test]
fn hash_is_multiplicative() {
    assert_eq!(get_hash_index(0), 0);
    assert_eq!(get_hash_index(1), HASH_MULTIPLIER);
    assert_eq!(get_hash_index(2), HASH_MULTIPLIER.wrapping_mul(2));
}

#[test]
fn probe_walks_triangular_steps() {
    // Start 5 in a directory of 4 slots: 5 % 4 = 1, then +1, +2, +3.
    let mut probe = QuadraticProbe::new(5, 4);
    assert_eq!(probe.get_index(), 1);
    probe.increment();
    assert_eq!(probe.get_index(), 2);
    probe.increment();
    assert_eq!(probe.get_index(), 0);
    probe.increment();
    assert_eq!(probe.get_index(), 3);
}

#[test]
fn probe_covers_every_slot_of_a_power_of_two() {
    for cap in [4usize, 8, 16] {
        for start in 0..cap {
            let mut seen = vec![false; cap];
            let mut probe = QuadraticProbe::new(start, cap);
            for _ in 0..cap {
                seen[probe.get_index()] = true;
                probe.increment();
            }
            assert!(seen.iter().all(|s| *s));
        }
    }
}
