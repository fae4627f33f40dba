use primeoxide::bit_vec::BitVec;

#[test]
fn set_true_on_zeroed_array_keeps_others() {
    let mut bits = BitVec::with_capacity(130, false);
    bits.set_bit(5, true);
    bits.set_bit(64, true);
    bits.set_bit(129, true);
    for j in 0..130 {
        assert_eq!(bits.get_bit(j), j == 5 || j == 64 || j == 129);
    }
    assert_eq!(bits.get_population_count(None), 3);
}

#[test]
fn clear_on_full_array_keeps_others() {
    let mut bits = BitVec::with_capacity(100, true);
    bits.set_bit(63, false);
    for j in 0..100 {
        assert_eq!(bits.get_bit(j), j != 63);
    }
    assert_eq!(bits.get_population_count(None), 99);
}

#[test]
fn population_count_by_prefix() {
    let bits = BitVec::with_capacity(128, true);
    assert_eq!(bits.get_population_count(None), 128);
    assert_eq!(bits.get_population_count(Some(0)), 0);
    assert_eq!(bits.get_population_count(Some(1)), 1);
    assert_eq!(bits.get_population_count(Some(64)), 64);
    assert_eq!(bits.get_population_count(Some(100)), 100);
    assert_eq!(bits.get_population_count(Some(500)), 128);
}

#[test]
fn population_count_masks_the_tail() {
    let bits = BitVec::with_capacity(70, true);
    assert_eq!(bits.len(), 70);
    assert_eq!(bits.get_population_count(None), 70);
    let mut sparse = BitVec::with_capacity(70, false);
    sparse.set_bit(69, true);
    sparse.set_bit(2, true);
    assert_eq!(sparse.get_population_count(Some(69)), 1);
    assert_eq!(sparse.get_population_count(None), 2);
}

#[test]
fn resize_keeps_prefix_and_fills() {
    let mut bits = BitVec::with_capacity(70, false);
    bits.set_bit(3, true);
    bits.resize(100, true);
    assert_eq!(bits.len(), 100);
    for j in 0..100 {
        assert_eq!(bits.get_bit(j), j == 3 || j >= 70);
    }
    bits.resize(10, false);
    assert_eq!(bits.len(), 10);
    assert_eq!(bits.get_population_count(None), 1);
    bits.resize(200, false);
    assert_eq!(bits.get_population_count(None), 1);
}

#[test]
fn resize_from_full_to_cleared_growth() {
    let mut bits = BitVec::with_capacity(5, true);
    bits.resize(64, false);
    assert_eq!(bits.get_population_count(None), 5);
    bits.resize(65, true);
    assert!(bits.get_bit(64));
    assert_eq!(bits.get_population_count(None), 6);
}

#[test]
fn empty_array() {
    let bits = BitVec::with_capacity(0, true);
    assert_eq!(bits.len(), 0);
    assert_eq!(bits.get_population_count(None), 0);
}
