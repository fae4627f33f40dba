use primeoxide::wheel::{wheel_increments, Wheel};

fn coprime_to_210(n: u64) -> bool {
    n % 2 != 0 && n % 3 != 0 && n % 5 != 0 && n % 7 != 0
}

#[test]
fn walk_from_eleven_meets_survivors() {
    let incs = wheel_increments();
    let mut wheel = Wheel::new(&incs);
    let mut n: u64 = 11;
    let mut expected: u64 = 11;
    for _ in 0..500 {
        let next = n + wheel.next_inc();
        assert!(next > n);
        expected += 1;
        while !coprime_to_210(expected) {
            expected += 1;
        }
        assert_eq!(next, expected);
        n = next;
    }
}

#[test]
fn one_turn_adds_two_hundred_ten() {
    let incs = wheel_increments();
    let mut wheel = Wheel::new(&incs);
    let mut sum: u64 = 0;
    for _ in 0..48 {
        sum += wheel.next_inc();
    }
    assert_eq!(sum, 210);
    assert_eq!(wheel.next_inc(), 2);
}

#[test]
fn sync_reset_and_clone() {
    let incs = wheel_increments();
    let mut outer = Wheel::new(&incs);
    for _ in 0..45 {
        outer.next_inc();
    }
    let mut inner = Wheel::new(&incs);
    inner.sync(&outer);
    assert_eq!(inner.next_inc(), 10);
    let mut copy = outer.clone();
    assert_eq!(copy.next_inc(), 10);
    assert_eq!(outer.next_inc(), 10);
    outer.reset();
    assert_eq!(outer.next_inc(), 2);
    assert_eq!(outer.next_inc(), 4);
}
