use eternity_solver::bits::{clear_bit, is_clear, set_bit};

#[test]
fn set_then_clear_round_trip() {
    let mut bits = [0u64; 5];
    assert!(is_clear(&bits, 139));
    set_bit(&mut bits, 139);
    assert!(!is_clear(&bits, 139));
    assert!(is_clear(&bits, 138));
    assert!(is_clear(&bits, 140));
    clear_bit(&mut bits, 139);
    assert!(is_clear(&bits, 139));
    assert_eq!(bits, [0u64; 5]);
}

#[test]
fn set_bit_writes_the_expected_word() {
    let mut bits = [0u64; 5];
    set_bit(&mut bits, 0);
    set_bit(&mut bits, 63);
    set_bit(&mut bits, 64);
    set_bit(&mut bits, 256);
    set_bit(&mut bits, 319);
    assert_eq!(bits, [1u64 | (1u64 << 63), 1, 0, 0, 1u64 | (1u64 << 63)]);
}

#[test]
fn setting_twice_and_clearing_an_absent_bit_change_nothing() {
    let mut bits = [0u64; 5];
    set_bit(&mut bits, 200);
    let once = bits;
    set_bit(&mut bits, 200);
    assert_eq!(bits, once);
    clear_bit(&mut bits, 201);
    assert_eq!(bits, once);
}

#[test]
fn latest_operation_on_an_index_wins() {
    // The same sequence of operations is replayed on a plain array of flags.
    let ops: [(bool, usize); 12] = [
        (true, 5),
        (true, 64),
        (false, 5),
        (true, 319),
        (true, 5),
        (false, 64),
        (true, 128),
        (false, 319),
        (true, 64),
        (false, 7),
        (true, 255),
        (false, 128),
    ];
    let mut bits = [0u64; 5];
    let mut flags = [false; 320];
    for (set, index) in ops {
        if set {
            set_bit(&mut bits, index);
        } else {
            clear_bit(&mut bits, index);
        }
        flags[index] = set;
        for i in 0..320 {
            assert_eq!(is_clear(&bits, i), !flags[i]);
        }
    }
}

#[test]
fn every_index_is_independent_of_every_other() {
    for index in 0..320 {
        let mut bits = [u64::MAX; 5];
        clear_bit(&mut bits, index);
        for other in 0..320 {
            assert_eq!(is_clear(&bits, other), other == index);
        }
    }
}
