use primeoxide::erat;
use primeoxide::survivors::{index_of, SieveError};

fn count_for(stop: u64) -> u64 {
    let (bits, count) = erat::sieve(stop);
    assert_eq!(bits.get_population_count(None), count);
    count
}

fn bit_of(bits: &primeoxide::bit_vec::BitVec, n: u64) -> bool {
    let index = match n {
        2 => 0,
        3 => 1,
        5 => 2,
        7 => 3,
        _ => index_of(n).unwrap() as usize,
    };
    bits.get_bit(index)
}

#[test]
fn print_primes() {
    let (primes, _count) = erat::sieve(1000000);
    assert_eq!(primes.get_population_count(None), 78498);
}

#[test]
fn counts_on_empty_ranges() {
    assert_eq!(count_for(0), 0);
    assert_eq!(count_for(1), 0);
    assert_eq!(erat::sieve(0).0.len(), 0);
    assert_eq!(erat::sieve(1).0.len(), 0);
}

#[test]
fn counts_below_the_wheel() {
    assert_eq!(count_for(2), 1);
    assert_eq!(count_for(3), 2);
    assert_eq!(count_for(4), 2);
    assert_eq!(count_for(6), 3);
    assert_eq!(count_for(7), 4);
    assert_eq!(count_for(10), 4);
    let (bits, _) = erat::sieve(2);
    assert_eq!(bits.len(), 4);
    assert!(bits.get_bit(0));
    assert!(!bits.get_bit(1));
    assert!(!bits.get_bit(2));
    assert!(!bits.get_bit(3));
}

#[test]
fn counts_at_the_boundaries() {
    assert_eq!(count_for(11), 5);
    assert_eq!(count_for(100), 25);
    assert_eq!(count_for(1000), 168);
    assert_eq!(count_for(1000000), 78498);
}

#[test]
fn counts_up_to_ten_million() {
    assert_eq!(erat::sieve(10000000).1, 664579);
}

#[test]
fn sieve_to_thirty() {
    let (bits, count) = erat::sieve(30);
    assert_eq!(count, 10);
    assert_eq!(bits.len(), 10);
    assert_eq!(bits.get_population_count(None), 10);
    for p in [2u64, 3, 5, 7, 11, 13, 17, 19, 23, 29] {
        assert!(bit_of(&bits, p));
    }
}

#[test]
fn sieve_to_forty_nine() {
    let (bits, count) = erat::sieve(49);
    assert_eq!(count, 15);
    assert_eq!(bits.len(), 15);
    assert_eq!(index_of(49), Err(SieveError::InvalidIndex));
    assert!(bit_of(&bits, 47));
}

#[test]
fn sieve_to_one_hundred_twenty_one() {
    let (bits, count) = erat::sieve(121);
    assert_eq!(count, 30);
    assert_eq!(bits.len(), 31);
    assert_eq!(index_of(121), Ok(30));
    assert!(!bits.get_bit(30));
    assert!(bit_of(&bits, 113));
}

#[test]
fn bits_match_primality() {
    let stop: u64 = 5000;
    let (bits, count) = erat::sieve(stop);
    let mut found: u64 = 0;
    for n in 2..=stop {
        let prime = (2..n).take_while(|d| d * d <= n).all(|d| n % d != 0);
        let listed = match n {
            2 | 3 | 5 | 7 => bit_of(&bits, n),
            _ => match index_of(n) {
                Ok(i) => {
                    assert!((i as usize) < bits.len());
                    bits.get_bit(i as usize)
                }
                Err(_) => false,
            },
        };
        assert_eq!(prime, listed, "n = {}", n);
        if prime {
            found += 1;
        }
    }
    assert_eq!(found, count);
}

#[test]
fn length_counts_survivors() {
    assert_eq!(erat::sieve(11).0.len(), 5);
    assert_eq!(erat::sieve(100).0.len(), 25);
    assert_eq!(erat::sieve(1000).0.len(), 231);
}

#[test]
fn index_mapping() {
    assert_eq!(index_of(11), Ok(4));
    assert_eq!(index_of(209), Ok(50));
    assert_eq!(index_of(211), Ok(51));
    assert_eq!(index_of(221), Ok(52));
    assert_eq!(index_of(1), Err(SieveError::InvalidIndex));
    assert_eq!(index_of(7), Err(SieveError::InvalidIndex));
    assert_eq!(index_of(210), Err(SieveError::InvalidIndex));
    assert_eq!(index_of(77), Err(SieveError::InvalidIndex));
}
