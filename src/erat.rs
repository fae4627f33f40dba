//! The sieve of Eratosthenes over the survivors of the 210-wheel.
use crate::bit_vec::{count_set, lemma_count_agree, BitVec};
use crate::survivors::{
    is_prime, is_survivor, lemma_composite_survivor, lemma_gap_bounds, lemma_increasing,
    lemma_index_of_survivor,
    lemma_prime_is_survivor, lemma_product_not_prime, lemma_product_survivor, lemma_step,
    lemma_value_is_survivor, survivor_index, survivor_value,
};
use crate::wheel::{gaps, residues, wheel_increments, Wheel};
use vstd::arithmetic::div_mod::{lemma_add_mod_noop, lemma_div_is_ordered, lemma_fundamental_div_mod};
use vstd::prelude::*;

verus! {

/// How many survivors lie in `11..=n`.
pub open spec fn survivor_count(n: int) -> nat
    decreases n,
{
    if n < 11 {
        0
    } else {
        survivor_count(n - 1) + if is_survivor(n) {
            1nat
        } else {
            0nat
        }
    }
}

/// How many primes lie in `2..=n`.
pub open spec fn prime_count(n: int) -> nat
    decreases n,
{
    if n < 2 {
        0
    } else {
        prime_count(n - 1) + if is_prime(n) {
            1nat
        } else {
            0nat
        }
    }
}

/// The length of the bit array that the sieve up to `n` returns: the four
/// pre-sieved primes and then one bit per survivor up to `n`; none below 2.
pub open spec fn sieve_len(n: int) -> nat {
    if n < 2 {
        0
    } else {
        4 + survivor_count(n)
    }
}

/// The number of bits the sieve up to `n` allocates before trimming.
pub open spec fn sieve_capacity(n: int) -> int {
    (n / 210) * 48 + n % 210 + 4
}

/// `n` is at most `stop` and is `p * m` for the survivor `p` at index `i`
/// and a survivor `m` at an index in `i..j_end`.
#[verifier::opaque]
pub open spec fn struck_by(n: int, i: int, j_end: int, stop: int) -> bool {
    exists|j: int|
        i <= j < j_end && #[trigger] (survivor_value(i) * survivor_value(j)) == n && n <= stop
}

/// `n` is at most `stop` and is `p * m` for the survivor `p` at index `i`
/// and a survivor `m >= p`.
#[verifier::opaque]
pub open spec fn struck_by_any(n: int, i: int, stop: int) -> bool {
    exists|j: int| i <= j && #[trigger] (survivor_value(i) * survivor_value(j)) == n && n <= stop
}

/// `n` has been struck out by a prime found before index `it`: a prime `p`
/// with `p * p <= stop`, times a survivor `m >= p`, with a product at most
/// `stop`.
#[verifier::opaque]
pub open spec fn struck_before(n: int, it: int, stop: int) -> bool {
    exists|i: int|
        4 <= i < it && is_prime(survivor_value(i)) && survivor_value(i) * survivor_value(i) <= stop
            && #[trigger] struck_by_any(n, i, stop)
}

/// The survivor at index `it` is prime exactly when no earlier prime has
/// struck it out.
proof fn lemma_candidate(it: int, stop: int)
    requires
        it >= 4,
        survivor_value(it) <= stop,
    ensures
        is_prime(survivor_value(it)) <==> !struck_before(survivor_value(it), it, stop),
{
    reveal(struck_before);
    reveal(struck_by_any);
    let n = survivor_value(it);
    lemma_value_is_survivor(it);
    if struck_before(n, it, stop) {
        let i = choose|i: int|
            4 <= i < it && is_prime(survivor_value(i)) && survivor_value(i) * survivor_value(i)
                <= stop && #[trigger] struck_by_any(n, i, stop);
        let j = choose|j: int|
            i <= j && #[trigger] (survivor_value(i) * survivor_value(j)) == n && n <= stop;
        lemma_value_is_survivor(i);
        lemma_value_is_survivor(j);
        lemma_product_not_prime(survivor_value(i), survivor_value(j));
    }
    if !is_prime(n) {
        let (p, m) = lemma_composite_survivor(n);
        lemma_index_of_survivor(p);
        lemma_index_of_survivor(m);
        let i = survivor_index(p);
        let j = survivor_index(m);
        assert(p < n) by (nonlinear_arith)
            requires
                p * m == n,
                p >= 11,
                m >= 11,
        ;
        assert(p * p <= stop) by (nonlinear_arith)
            requires
                p * m == n,
                p >= 11,
                p <= m,
                n <= stop,
        ;
        if i >= it {
            if i > it {
                lemma_increasing(it, i);
            }
        }
        if j < i {
            lemma_increasing(j, i);
        }
        assert(survivor_value(i) * survivor_value(j) == n);
        assert(struck_by_any(n, i, stop));
    }
}

/// Moving past index `it` adds the strikes of the survivor there, if it is a
/// prime whose square is at most `stop`.
proof fn lemma_struck_advance(n: int, it: int, stop: int)
    requires
        it >= 4,
    ensures
        struck_before(n, it + 1, stop) == (struck_before(n, it, stop) || (is_prime(
            survivor_value(it),
        ) && survivor_value(it) * survivor_value(it) <= stop && struck_by_any(n, it, stop))),
{
    reveal(struck_before);
    if struck_before(n, it + 1, stop) {
        let i = choose|i: int|
            4 <= i < it + 1 && is_prime(survivor_value(i)) && survivor_value(i) * survivor_value(i)
                <= stop && #[trigger] struck_by_any(n, i, stop);
        if i < it {
            assert(struck_before(n, it, stop));
        }
    }
    if struck_before(n, it, stop) {
        let i = choose|i: int|
            4 <= i < it && is_prime(survivor_value(i)) && survivor_value(i) * survivor_value(i)
                <= stop && #[trigger] struck_by_any(n, i, stop);
        assert(4 <= i < it + 1);
    }
}

/// Once `p * m` passes `stop`, no larger multiplier strikes anything more.
proof fn lemma_strikes_done(n: int, it: int, j: int, stop: int)
    requires
        4 <= it <= j,
        survivor_value(it) * survivor_value(j) > stop,
    ensures
        struck_by(n, it, j, stop) == struck_by_any(n, it, stop),
{
    reveal(struck_by);
    reveal(struck_by_any);
    if struck_by_any(n, it, stop) {
        let j2 = choose|j2: int|
            it <= j2 && #[trigger] (survivor_value(it) * survivor_value(j2)) == n && n <= stop;
        if j2 >= j {
            if j2 > j {
                lemma_increasing(j, j2);
            }
            let p = survivor_value(it);
            lemma_value_is_survivor(it);
            assert(p * survivor_value(j2) >= p * survivor_value(j)) by (nonlinear_arith)
                requires
                    p >= 11,
                    survivor_value(j2) >= survivor_value(j),
            ;
        }
        assert(struck_by(n, it, j, stop));
    }
}

/// Every survivor up to `stop` has an index below the capacity the sieve
/// allocates.
proof fn lemma_index_below_capacity(n: int, stop: int)
    requires
        is_survivor(n),
        n <= stop,
    ensures
        survivor_index(n) < sieve_capacity(stop),
{
    lemma_index_of_survivor(n);
    let q = n / 210;
    let bq = stop / 210;
    lemma_div_is_ordered(n, stop, 210);
    lemma_fundamental_div_mod(n, 210);
    lemma_fundamental_div_mod(stop, 210);
    let k = crate::survivors::residue_position(n % 210);
    assert(0 <= k < residues().len() && residues()[k] == n % 210);
    crate::survivors::lemma_position_bounded(k);
}

/// The pre-sieved primes are prime, the other integers below 11 are not,
/// and the prime counts there.
proof fn lemma_small_primes()
    ensures
        is_prime(2),
        is_prime(3),
        is_prime(5),
        is_prime(7),
        forall|n: int| 2 <= n <= 10 && is_prime(n) ==> n == 2 || n == 3 || n == 5 || n == 7,
        prime_count(1) == 0,
        prime_count(2) == 1,
        prime_count(3) == 2,
        prime_count(4) == 2,
        prime_count(5) == 3,
        prime_count(6) == 3,
        prime_count(7) == 4,
        prime_count(8) == 4,
        prime_count(9) == 4,
        prime_count(10) == 4,
{
    assert forall|d: int| 2 <= d < 7 implies #[trigger] (7int % d) != 0 by {
        assert(d == 2 || d == 3 || d == 4 || d == 5 || d == 6);
    }
    assert forall|d: int| 2 <= d < 5 implies #[trigger] (5int % d) != 0 by {
        assert(d == 2 || d == 3 || d == 4);
    }
    assert forall|d: int| 2 <= d < 3 implies #[trigger] (3int % d) != 0 by {
        assert(d == 2);
    }
    assert(4int % 2 == 0 && 6int % 2 == 0 && 8int % 2 == 0 && 10int % 2 == 0 && 9int % 3 == 0);
    assert forall|n: int| 2 <= n <= 10 && is_prime(n) implies n == 2 || n == 3 || n == 5 || n
        == 7 by {
        if n == 4 || n == 6 || n == 8 || n == 10 {
            assert(n % 2 == 0);
        } else if n == 9 {
            assert(n % 3 == 0);
        }
    }
    assert(prime_count(1) == 0);
    assert(prime_count(2) == 1);
    assert(prime_count(3) == 2);
    assert(prime_count(4) == 2);
    assert(prime_count(5) == 3);
    assert(prime_count(6) == 3);
    assert(prime_count(7) == 4);
    assert(prime_count(8) == 4);
    assert(prime_count(9) == 4);
    assert(prime_count(10) == 4);
}

/// The indices below `sieve_len(n)` from 4 on stand for integers up to `n`,
/// and the one at `sieve_len(n)` for an integer past `n`.
pub proof fn lemma_len(n: int)
    requires
        n >= 2,
    ensures
        forall|s: int| 4 <= s < sieve_len(n) ==> survivor_value(s) <= n,
        survivor_value(sieve_len(n) as int) > n,
        n >= 11 && is_survivor(n) ==> survivor_value(sieve_len(n) - 1) == n,
    decreases n,
{
    if n <= 10 {
        assert(survivor_count(n) == 0);
        assert(survivor_value(4) == 11) by {
            crate::survivors::lemma_position_bounded(1);
            lemma_step(4);
            lemma_value_is_survivor(4);
        }
    } else {
        lemma_len(n - 1);
        let l = sieve_len(n - 1) as int;
        if is_survivor(n) {
            lemma_index_of_survivor(n);
            let i = survivor_index(n);
            if i < l {
                assert(survivor_value(i) <= n - 1);
            }
            if i > l {
                lemma_increasing(l, i);
            }
            assert(survivor_value(l) == n);
            lemma_increasing(l, l + 1);
        } else {
            lemma_value_is_survivor(l);
            assert(survivor_value(l) != n);
        }
    }
}

/// Counting the set bits of the prime flags up to `n` gives the number of
/// primes up to `n`.
proof fn lemma_prime_count(n: int, b: Seq<bool>)
    requires
        n >= 10,
        sieve_len(n) <= b.len(),
        forall|s: int| 0 <= s < b.len() ==> b[s] == is_prime(survivor_value(s)),
    ensures
        count_set(b, 0, sieve_len(n) as int) == prime_count(n),
    decreases n,
{
    if n == 10 {
        lemma_small_primes();
        assert(survivor_count(10) == 0);
        assert(b[0] && b[1] && b[2] && b[3]);
        assert(count_set(b, 0, 4) == count_set(b, 0, 3) + 1);
        assert(count_set(b, 0, 3) == count_set(b, 0, 2) + 1);
        assert(count_set(b, 0, 2) == count_set(b, 0, 1) + 1);
        assert(count_set(b, 0, 1) == count_set(b, 0, 0) + 1);
    } else {
        lemma_prime_count(n - 1, b);
        lemma_len(n);
        lemma_len(n - 1);
        if !is_survivor(n) {
            if is_prime(n) {
                lemma_prime_is_survivor(n);
            }
        }
    }
}

/// Every prime up to `stop` has a set bit in the sieve's result, and every
/// set bit stands for a prime up to `stop`.
pub proof fn lemma_primes_present(stop: int, b: Seq<bool>)
    requires
        stop >= 2,
        b.len() == sieve_len(stop),
        forall|s: int|
            0 <= s < b.len() ==> b[s] == (survivor_value(s) <= stop && is_prime(
                survivor_value(s),
            )),
    ensures
        forall|n: int|
            2 <= n <= stop ==> (is_prime(n) <==> exists|s: int|
                0 <= s < b.len() && survivor_value(s) == n && b[s]),
{
    lemma_small_primes();
    lemma_len(stop);
    assert forall|n: int| 2 <= n <= stop implies (is_prime(n) <==> exists|s: int|
        0 <= s < b.len() && survivor_value(s) == n && b[s]) by {
        if is_prime(n) {
            if n <= 10 {
                if n == 2 {
                    assert(survivor_value(0) == n && b[0]);
                } else if n == 3 {
                    assert(survivor_value(1) == n && b[1]);
                } else if n == 5 {
                    assert(survivor_value(2) == n && b[2]);
                } else {
                    assert(survivor_value(3) == n && b[3]);
                }
            } else {
                lemma_prime_is_survivor(n);
                lemma_index_of_survivor(n);
                let s = survivor_index(n);
                if s >= b.len() {
                    if s > b.len() {
                        lemma_increasing(b.len() as int, s);
                    }
                }
                assert(survivor_value(s) == n && b[s]);
            }
        }
    }
}

/// Every survivor `n` with `11 <= n <= stop` has an index in
/// `4..sieve_len(stop)`, and that index stands for `n` again.
pub proof fn lemma_index_in_sieve(stop: int, n: int)
    requires
        11 <= n <= stop,
        is_survivor(n),
    ensures
        4 <= survivor_index(n) < sieve_len(stop),
        survivor_value(survivor_index(n)) == n,
{
    lemma_index_of_survivor(n);
    lemma_len(stop);
    let i = survivor_index(n);
    let l = sieve_len(stop) as int;
    if i > l {
        lemma_increasing(l, i);
    }
}

proof fn lemma_next_position(x: int)
    requires
        x >= 0,
    ensures
        ((x % 48) + 1) % 48 == (x + 1) % 48,
{
    lemma_add_mod_noop(x, 1, 48);
}

/// Clearing the bit of `p * m`, for the prime `p` at index `it` and the
/// multiplier `m` at index `j`, extends the strikes of `p` to `j + 1`.
proof fn lemma_strike_one(before: Seq<bool>, after: Seq<bool>, it: int, j: int, stop: int)
    requires
        4 <= it <= j,
        survivor_value(it) * survivor_value(j) <= stop,
        it < survivor_index(survivor_value(it) * survivor_value(j)) < before.len(),
        after == before.update(survivor_index(survivor_value(it) * survivor_value(j)), false),
        forall|s: int|
            it <= s < before.len() ==> before[s] == !(struck_before(survivor_value(s), it, stop)
                || struck_by(survivor_value(s), it, j, stop)),
    ensures
        forall|s: int| 0 <= s <= it ==> after[s] == before[s],
        forall|s: int|
            it <= s < after.len() ==> after[s] == !(struck_before(survivor_value(s), it, stop)
                || struck_by(survivor_value(s), it, j + 1, stop)),
{
    reveal(struck_by);
    let r = survivor_value(it) * survivor_value(j);
    let idx = survivor_index(r);
    lemma_value_is_survivor(it);
    lemma_value_is_survivor(j);
    lemma_product_survivor(survivor_value(it), survivor_value(j));
    lemma_index_of_survivor(r);
    assert forall|s: int| it <= s < after.len() implies after[s] == !(struck_before(
        survivor_value(s),
        it,
        stop,
    ) || struck_by(survivor_value(s), it, j + 1, stop)) by {
        if s == idx {
            assert(survivor_value(it) * survivor_value(j) == survivor_value(s));
        } else {
            lemma_value_is_survivor(s);
            if struck_by(survivor_value(s), it, j + 1, stop) {
                let j2 = choose|j2: int|
                    it <= j2 < j + 1 && #[trigger] (survivor_value(it) * survivor_value(j2))
                        == survivor_value(s) && survivor_value(s) <= stop;
                assert(j2 != j);
                assert(struck_by(survivor_value(s), it, j, stop));
            }
        }
    }
}

proof fn lemma_product_fits(a: int, b: int)
    requires
        0 <= a <= u64::MAX,
        0 <= b <= u64::MAX,
    ensures
        a * b <= u64::MAX * u64::MAX,
{
    assert(a * b <= u64::MAX * u64::MAX) by (nonlinear_arith)
        requires
            0 <= a <= u64::MAX,
            0 <= b <= u64::MAX,
    ;
}

/// What one step of striking out needs: the product of the prime at `it`
/// and the multiplier at `j` is a survivor whose index lies past `it` and
/// below the capacity, and the next multiplier still fits in 64 bits.
proof fn lemma_strike_bounds(it: int, j: int, stop: int)
    requires
        4 <= it <= j,
        survivor_value(it) * survivor_value(j) <= stop,
    ensures
        ({
            let r = survivor_value(it) * survivor_value(j);
            &&& is_survivor(r)
            &&& it < survivor_index(r) < sieve_capacity(stop)
            &&& survivor_value(j + 1) <= survivor_value(j) + 10
            &&& survivor_value(j) * 11 <= stop
        }),
{
    let p = survivor_value(it);
    let m = survivor_value(j);
    let r = p * m;
    lemma_value_is_survivor(it);
    lemma_value_is_survivor(j);
    lemma_product_survivor(p, m);
    lemma_index_below_capacity(r, stop);
    lemma_index_of_survivor(r);
    lemma_gap_bounds(j);
    assert(r > p && m * 11 <= r) by (nonlinear_arith)
        requires
            r == p * m,
            m >= 11,
            p >= 11,
    ;
    let ix = survivor_index(r);
    if ix <= it {
        if ix < it {
            lemma_increasing(ix, it);
        }
    }
}

/// Clears the bit of every `num * m <= stop`, for the prime `num` at index
/// `it` and each survivor `m >= num`, walking the multipliers with `mw`.
fn strike_multiples(numbers: &mut BitVec, mw: &mut Wheel, num: u128, it: usize, stop: u64)
    requires
        11 <= stop < u64::MAX,
        old(numbers).wf(),
        old(numbers)@.len() == sieve_capacity(stop as int),
        sieve_capacity(stop as int) <= usize::MAX,
        4 <= it,
        num == survivor_value(it as int),
        num * num <= stop,
        old(mw).wf(),
        old(mw).incs().len() == 48,
        forall|k: int| 0 <= k < 48 ==> old(mw).incs()[k] == gaps()[k],
        old(mw).pos() == (it - 4) % 48,
        forall|s: int|
            it <= s < old(numbers)@.len() ==> old(numbers)@[s] == !struck_before(
                survivor_value(s),
                it as int,
                stop as int,
            ),
    ensures
        final(numbers).wf(),
        final(numbers)@.len() == old(numbers)@.len(),
        final(mw).wf(),
        final(mw).incs() == old(mw).incs(),
        forall|s: int| 0 <= s <= it ==> final(numbers)@[s] == old(numbers)@[s],
        forall|s: int|
            it <= s < final(numbers)@.len() ==> final(numbers)@[s] == !(struck_before(
                survivor_value(s),
                it as int,
                stop as int,
            ) || struck_by_any(survivor_value(s), it as int, stop as int)),
{
    let ghost cap = numbers@.len();
    let ghost start = numbers@;
    let ghost incs = mw.incs();
    let limit = stop as u128;
    let mut m: u128 = num;
    let mut r: u128 = num * num;
    let ghost mut j: int = it as int;
    proof {
        reveal(struck_by);
        assert(num <= num * num) by (nonlinear_arith)
            requires
                num >= 11,
        ;
    }
    while r <= limit
        invariant
            11 <= stop < u64::MAX,
            limit == stop,
            cap == sieve_capacity(stop as int),
            cap <= usize::MAX,
            numbers.wf(),
            numbers@.len() == cap,
            4 <= it,
            num == survivor_value(it as int),
            num * num <= stop,
            j >= it,
            m == survivor_value(j),
            m <= u64::MAX,
            r == m * num,
            mw.wf(),
            mw.incs() == incs,
            incs.len() == 48,
            forall|k: int| 0 <= k < 48 ==> incs[k] == gaps()[k],
            mw.pos() == (j - 4) % 48,
            forall|s: int| 0 <= s <= it ==> numbers@[s] == start[s],
            forall|s: int|
                it <= s < cap ==> numbers@[s] == !(struck_before(
                    survivor_value(s),
                    it as int,
                    stop as int,
                ) || struck_by(survivor_value(s), it as int, j, stop as int)),
        decreases limit - m,
    {
        proof {
            lemma_strike_bounds(it as int, j, stop as int);
        }
        let idx = crate::survivors::survivor_index_of(r as u64);
        let ghost before = numbers@;
        numbers.set_bit(idx as usize, false);
        proof {
            lemma_strike_one(before, numbers@, it as int, j, stop as int);
        }
        let g = mw.next_inc();
        proof {
            lemma_step(j);
            lemma_next_position(j - 4);
        }
        m = m + g as u128;
        proof {
            lemma_product_fits(m as int, num as int);
        }
        r = m * num;
        proof {
            j = j + 1;
        }
    }
    proof {
        assert forall|s: int| it <= s < cap implies struck_by(
            survivor_value(s),
            it as int,
            j,
            stop as int,
        ) == struck_by_any(survivor_value(s), it as int, stop as int) by {
            lemma_strikes_done(survivor_value(s), it as int, j, stop as int);
        }
    }
}

/// The sieve for `2 <= stop <= 10`, where only the pre-sieved primes count.
fn small_sieve(stop: u64) -> (res: (BitVec, u64))
    requires
        2 <= stop <= 10,
    ensures
        res.0.wf(),
        res.0@.len() == sieve_len(stop as int),
        forall|s: int|
            0 <= s < res.0@.len() ==> res.0@[s] == (survivor_value(s) <= stop && is_prime(
                survivor_value(s),
            )),
        res.1 == count_set(res.0@, 0, res.0@.len() as int),
        res.1 == prime_count(stop as int),
{
    let small: [u64; 4] = [2, 3, 5, 7];
    let mut bits = BitVec::with_capacity(4, false);
    let mut count: u64 = 0;
    let mut s: usize = 0;
    while s < 4
        invariant
            bits.wf(),
            bits@.len() == 4,
            s <= 4,
            small@ == seq![2u64, 3u64, 5u64, 7u64],
            count == count_set(bits@, 0, s as int),
            count <= s,
            forall|k: int| 0 <= k < s ==> bits@[k] == (survivor_value(k) <= stop),
            forall|k: int| s <= k < 4 ==> !bits@[k],
        decreases 4 - s,
    {
        let ghost before = bits@;
        if small[s] <= stop {
            bits.set_bit(s, true);
            count = count + 1;
        }
        proof {
            lemma_count_agree(before, bits@, 0, s as int);
        }
        s = s + 1;
    }
    proof {
        lemma_small_primes();
        assert(survivor_count(stop as int) == 0);
        let b = bits@;
        assert(count_set(b, 0, 4) == count_set(b, 0, 3) + if b[3] {
            1nat
        } else {
            0nat
        });
        assert(count_set(b, 0, 3) == count_set(b, 0, 2) + if b[2] {
            1nat
        } else {
            0nat
        });
        assert(count_set(b, 0, 2) == count_set(b, 0, 1) + if b[1] {
            1nat
        } else {
            0nat
        });
        assert(count_set(b, 0, 1) == count_set(b, 0, 0) + if b[0] {
            1nat
        } else {
            0nat
        });
    }
    (bits, count)
}

/// Sieves the primes in `2..=stop`. Returns one bit per survivor index up
/// to `stop`, set exactly where the integer it stands for is prime, and the
/// number of primes found.
pub fn sieve(stop: u64) -> (res: (BitVec, u64))
    requires
        stop < u64::MAX,
        sieve_capacity(stop as int) <= usize::MAX,
    ensures
        res.0.wf(),
        res.0@.len() == sieve_len(stop as int),
        forall|s: int|
            0 <= s < res.0@.len() ==> res.0@[s] == (survivor_value(s) <= stop && is_prime(
                survivor_value(s),
            )),
        forall|n: int|
            2 <= n <= stop ==> (is_prime(n) <==> exists|s: int|
                0 <= s < res.0@.len() && survivor_value(s) == n && res.0@[s]),
        res.1 == count_set(res.0@, 0, res.0@.len() as int),
        res.1 == prime_count(stop as int),
{
    if stop < 2 {
        let empty = BitVec::with_capacity(0, false);
        proof {
            assert(empty@.len() == 0);
        }
        return (empty, 0);
    }
    if stop < 11 {
        let res = small_sieve(stop);
        proof {
            lemma_primes_present(stop as int, res.0@);
        }
        return res;
    }
    let incs = wheel_increments();
    let mut wheel = Wheel::new(incs.as_slice());
    let mut multiplier_wheel = wheel.clone();
    let cap = ((stop / 210) * 48 + stop % 210 + 4) as usize;
    let mut numbers = BitVec::with_capacity(cap, true);
    let limit = stop as u128;
    let mut num: u128 = 11;
    let mut iterations: usize = 4;
    let mut count: u64 = 4;
    proof {
        reveal(struck_before);
        lemma_small_primes();
        lemma_value_is_survivor(4);
        crate::survivors::lemma_position_bounded(1);
        assert(survivor_value(4) == 11);
        assert(survivor_value(3) == 7);
        let b = numbers@;
        assert(count_set(b, 0, 1) == count_set(b, 0, 0) + 1);
        assert(count_set(b, 0, 2) == count_set(b, 0, 1) + 1);
        assert(count_set(b, 0, 3) == count_set(b, 0, 2) + 1);
        assert(count_set(b, 0, 4) == count_set(b, 0, 3) + 1);
    }
    while num <= limit
        invariant
            11 <= stop < u64::MAX,
            limit == stop,
            cap == sieve_capacity(stop as int),
            forall|k: int| 0 <= k < 48 ==> incs@[k] == gaps()[k],
            numbers.wf(),
            numbers@.len() == cap,
            4 <= iterations <= cap,
            num == survivor_value(iterations as int),
            survivor_value(iterations - 1) <= stop,
            wheel.wf(),
            wheel.incs() == incs@,
            wheel.pos() == (iterations - 4) % 48,
            multiplier_wheel.wf(),
            multiplier_wheel.incs() == incs@,
            count == count_set(numbers@, 0, iterations as int),
            count <= iterations,
            forall|s: int| 0 <= s < 4 ==> numbers@[s],
            forall|s: int| 4 <= s < iterations ==> numbers@[s] == is_prime(survivor_value(s)),
            forall|s: int|
                iterations <= s < cap ==> numbers@[s] == !struck_before(
                    survivor_value(s),
                    iterations as int,
                    stop as int,
                ),
        decreases cap - iterations,
    {
        let ghost it = iterations as int;
        let ghost start = numbers@;
        proof {
            lemma_value_is_survivor(it);
            lemma_index_below_capacity(num as int, stop as int);
            lemma_candidate(it, stop as int);
        }
        // A clear bit means an earlier prime struck `num` out.
        let bit = numbers.get_bit(iterations);
        proof {
            assert(bit == is_prime(num as int));
        }
        // `num <= limit / num` is `num * num <= stop`: `num` is at most the
        // integer square root of `stop`, so its multiples are still to strike.
        if bit && num <= limit / num {
            proof {
                assert(num * num <= limit) by (nonlinear_arith)
                    requires
                        num <= limit / num,
                        num >= 11,
                ;
            }
            multiplier_wheel.sync(&wheel);
            strike_multiples(&mut numbers, &mut multiplier_wheel, num, iterations, stop);
        }
        proof {
            assert(num * num <= limit <==> num <= limit / num) by (nonlinear_arith)
                requires
                    num >= 11,
            ;
        }
        if bit {
            count = count + 1;
        }
        proof {
            assert forall|s: int| 0 <= s <= it implies numbers@[s] == start[s] by {}
            lemma_count_agree(start, numbers@, 0, it + 1);
            assert(numbers@[it] == bit);
            assert forall|s: int| it + 1 <= s < cap implies numbers@[s] == !struck_before(
                survivor_value(s),
                it + 1,
                stop as int,
            ) by {
                lemma_struck_advance(survivor_value(s), it, stop as int);
                if !(bit && num * num <= limit) {
                    assert(numbers@[s] == start[s]);
                    assert(start[s] == !struck_before(survivor_value(s), it, stop as int));
                    assert(!(is_prime(survivor_value(it)) && survivor_value(it) * survivor_value(it)
                        <= stop));
                } else {
                    assert(numbers@[s] == !(struck_before(survivor_value(s), it, stop as int)
                        || struck_by_any(survivor_value(s), it, stop as int)));
                    assert(is_prime(survivor_value(it)));
                    assert(survivor_value(it) * survivor_value(it) <= stop);
                }
            }
        }
        let g = wheel.next_inc();
        proof {
            lemma_step(it);
            lemma_next_position(it - 4);
            lemma_increasing(it, it + 1);
        }
        num = num + g as u128;
        iterations = iterations + 1;
    }
    proof {
        lemma_len(stop as int);
        let l = sieve_len(stop as int) as int;
        let it = iterations as int;
        if it < l {
            assert(survivor_value(it) <= stop);
        }
        if it > l {
            if it - 1 > l {
                lemma_increasing(l, it - 1);
            }
        }
        assert(it == l);
    }
    let ghost full = numbers@;
    numbers.resize(iterations, false);
    proof {
        lemma_count_agree(full, numbers@, 0, iterations as int);
        lemma_small_primes();
        let b = numbers@;
        assert forall|s: int| 0 <= s < b.len() implies b[s] == (survivor_value(s) <= stop
            && is_prime(survivor_value(s))) by {
            if s < 4 {
                assert(survivor_value(s) <= 7);
            }
        }
        lemma_prime_count(stop as int, b);
        lemma_primes_present(stop as int, b);
    }
    (numbers, count)
}

} // verus!
