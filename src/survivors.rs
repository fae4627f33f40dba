//! The integers the sieve tracks: the four pre-sieved primes, then every
//! integer from 11 on whose residue modulo 210 is coprime to 210. Each has a
//! survivor index, and the mapping both ways is exact.
use crate::wheel::{gaps, residue_table, residues};
use vstd::arithmetic::div_mod::{
    lemma_fundamental_div_mod, lemma_mod_mod, lemma_mod_multiples_basic, lemma_mod_self_0,
    lemma_mul_mod_noop,
};
use vstd::arithmetic::mul::lemma_mul_is_commutative;
use vstd::prelude::*;

verus! {

/// `n` is a prime number.
pub open spec fn is_prime(n: int) -> bool {
    n >= 2 && forall|d: int| 2 <= d < n ==> #[trigger] (n % d) != 0
}

/// `n` has none of the pre-sieved primes 2, 3, 5, 7 as a factor.
pub open spec fn coprime_to_wheel(n: int) -> bool {
    n % 2 != 0 && n % 3 != 0 && n % 5 != 0 && n % 7 != 0
}

/// `n` is a wheel survivor: at least 11, with its residue modulo 210 in the
/// residue table.
pub open spec fn is_survivor(n: int) -> bool {
    n >= 11 && residues().contains(n % 210)
}

/// The position of the residue `r` in the residue table.
pub open spec fn residue_position(r: int) -> int {
    residues().index_of(r)
}

/// The integer that survivor index `s` stands for.
pub open spec fn survivor_value(s: int) -> int {
    if s == 0 {
        2
    } else if s == 1 {
        3
    } else if s == 2 {
        5
    } else if s == 3 {
        7
    } else {
        210 * ((s - 3) / 48) + residues()[(s - 3) % 48]
    }
}

/// The survivor index of the survivor `n`.
pub open spec fn survivor_index(n: int) -> int {
    48 * (n / 210) + residue_position(n % 210) + 3
}

proof fn lemma_table_values()
    ensures
        residues().len() == 48,
        gaps().len() == 48,
        residues()[0] == 1,
        residues()[1] == 11,
        residues()[2] == 13,
        residues()[3] == 17,
        residues()[4] == 19,
        residues()[5] == 23,
        residues()[6] == 29,
        residues()[7] == 31,
        residues()[8] == 37,
        residues()[9] == 41,
        residues()[10] == 43,
        residues()[11] == 47,
        residues()[12] == 53,
        residues()[13] == 59,
        residues()[14] == 61,
        residues()[15] == 67,
        residues()[16] == 71,
        residues()[17] == 73,
        residues()[18] == 79,
        residues()[19] == 83,
        residues()[20] == 89,
        residues()[21] == 97,
        residues()[22] == 101,
        residues()[23] == 103,
        residues()[24] == 107,
        residues()[25] == 109,
        residues()[26] == 113,
        residues()[27] == 121,
        residues()[28] == 127,
        residues()[29] == 131,
        residues()[30] == 137,
        residues()[31] == 139,
        residues()[32] == 143,
        residues()[33] == 149,
        residues()[34] == 151,
        residues()[35] == 157,
        residues()[36] == 163,
        residues()[37] == 167,
        residues()[38] == 169,
        residues()[39] == 173,
        residues()[40] == 179,
        residues()[41] == 181,
        residues()[42] == 187,
        residues()[43] == 191,
        residues()[44] == 193,
        residues()[45] == 197,
        residues()[46] == 199,
        residues()[47] == 209,
        gaps()[0] == 2,
        gaps()[1] == 4,
        gaps()[2] == 2,
        gaps()[3] == 4,
        gaps()[4] == 6,
        gaps()[5] == 2,
        gaps()[6] == 6,
        gaps()[7] == 4,
        gaps()[8] == 2,
        gaps()[9] == 4,
        gaps()[10] == 6,
        gaps()[11] == 6,
        gaps()[12] == 2,
        gaps()[13] == 6,
        gaps()[14] == 4,
        gaps()[15] == 2,
        gaps()[16] == 6,
        gaps()[17] == 4,
        gaps()[18] == 6,
        gaps()[19] == 8,
        gaps()[20] == 4,
        gaps()[21] == 2,
        gaps()[22] == 4,
        gaps()[23] == 2,
        gaps()[24] == 4,
        gaps()[25] == 8,
        gaps()[26] == 6,
        gaps()[27] == 4,
        gaps()[28] == 6,
        gaps()[29] == 2,
        gaps()[30] == 4,
        gaps()[31] == 6,
        gaps()[32] == 2,
        gaps()[33] == 6,
        gaps()[34] == 6,
        gaps()[35] == 4,
        gaps()[36] == 2,
        gaps()[37] == 4,
        gaps()[38] == 6,
        gaps()[39] == 2,
        gaps()[40] == 6,
        gaps()[41] == 4,
        gaps()[42] == 2,
        gaps()[43] == 4,
        gaps()[44] == 2,
        gaps()[45] == 10,
        gaps()[46] == 2,
        gaps()[47] == 10,
{
}

proof fn lemma_tables()
    ensures
        forall|k: int|
            0 <= k < 48 ==> {
                &&& coprime_to_wheel(#[trigger] residues()[k])
                &&& 0 < residues()[k] < 210
                &&& k <= residues()[k]
            },
        forall|k: int| 0 <= k < 47 ==> #[trigger] residues()[k] < residues()[k + 1],
        forall|k: int|
            1 <= k < 47 ==> #[trigger] residues()[k + 1] == residues()[k] + gaps()[k - 1],
        forall|k: int| 0 <= k < 48 ==> 2 <= #[trigger] gaps()[k] <= 10,
        residues().len() == 48,
        gaps().len() == 48,
        residues()[0] == 1,
        residues()[1] == 11,
        residues()[47] == 209,
        gaps()[46] == 2,
        gaps()[47] == 10,
{
    lemma_table_values();
    assert forall|k: int| 0 <= k < 48 implies {
        &&& coprime_to_wheel(#[trigger] residues()[k])
        &&& 0 < residues()[k] < 210
        &&& k <= residues()[k]
    } by {
        assert(k == 0 || k == 1 || k == 2 || k == 3 || k == 4 || k == 5 || k == 6 || k == 7 || k == 8 || k == 9 || k == 10 || k == 11 || k == 12 || k == 13 || k == 14 || k == 15 || k == 16 || k == 17 || k == 18 || k == 19 || k == 20 || k == 21 || k == 22 || k == 23 || k == 24 || k == 25 || k == 26 || k == 27 || k == 28 || k == 29 || k == 30 || k == 31 || k == 32 || k == 33 || k == 34 || k == 35 || k == 36 || k == 37 || k == 38 || k == 39 || k == 40 || k == 41 || k == 42 || k == 43 || k == 44 || k == 45 || k == 46 || k == 47);
    }
    assert forall|k: int| 0 <= k < 47 implies #[trigger] residues()[k] < residues()[k + 1] by {
        assert(k == 0 || k == 1 || k == 2 || k == 3 || k == 4 || k == 5 || k == 6 || k == 7 || k == 8 || k == 9 || k == 10 || k == 11 || k == 12 || k == 13 || k == 14 || k == 15 || k == 16 || k == 17 || k == 18 || k == 19 || k == 20 || k == 21 || k == 22 || k == 23 || k == 24 || k == 25 || k == 26 || k == 27 || k == 28 || k == 29 || k == 30 || k == 31 || k == 32 || k == 33 || k == 34 || k == 35 || k == 36 || k == 37 || k == 38 || k == 39 || k == 40 || k == 41 || k == 42 || k == 43 || k == 44 || k == 45 || k == 46 || k == 47);
    }
    assert forall|k: int| 1 <= k < 47 implies #[trigger] residues()[k + 1] == residues()[k]
        + gaps()[k - 1] by {
        assert(k == 0 || k == 1 || k == 2 || k == 3 || k == 4 || k == 5 || k == 6 || k == 7 || k == 8 || k == 9 || k == 10 || k == 11 || k == 12 || k == 13 || k == 14 || k == 15 || k == 16 || k == 17 || k == 18 || k == 19 || k == 20 || k == 21 || k == 22 || k == 23 || k == 24 || k == 25 || k == 26 || k == 27 || k == 28 || k == 29 || k == 30 || k == 31 || k == 32 || k == 33 || k == 34 || k == 35 || k == 36 || k == 37 || k == 38 || k == 39 || k == 40 || k == 41 || k == 42 || k == 43 || k == 44 || k == 45 || k == 46 || k == 47);
    }
    assert forall|k: int| 0 <= k < 48 implies 2 <= #[trigger] gaps()[k] <= 10 by {
        assert(k == 0 || k == 1 || k == 2 || k == 3 || k == 4 || k == 5 || k == 6 || k == 7 || k == 8 || k == 9 || k == 10 || k == 11 || k == 12 || k == 13 || k == 14 || k == 15 || k == 16 || k == 17 || k == 18 || k == 19 || k == 20 || k == 21 || k == 22 || k == 23 || k == 24 || k == 25 || k == 26 || k == 27 || k == 28 || k == 29 || k == 30 || k == 31 || k == 32 || k == 33 || k == 34 || k == 35 || k == 36 || k == 37 || k == 38 || k == 39 || k == 40 || k == 41 || k == 42 || k == 43 || k == 44 || k == 45 || k == 46 || k == 47);
    }
}

proof fn lemma_coprime_residues_listed(r: u8)
    by (bit_vector)
    requires
        r < 210,
        r % 2 != 0,
        r % 3 != 0,
        r % 5 != 0,
        r % 7 != 0,
    ensures
        r == 1 || r == 11 || r == 13 || r == 17 || r == 19 || r == 23 || r == 29 || r == 31 || r == 37 || r == 41 || r == 43 || r == 47 || r == 53 || r == 59 || r == 61 || r == 67 || r == 71 || r == 73 || r == 79 || r == 83 || r == 89 || r == 97 || r == 101 || r == 103 || r == 107 || r == 109 || r == 113 || r == 121 || r == 127 || r == 131 || r == 137 || r == 139 || r == 143 || r == 149 || r == 151 || r == 157 || r == 163 || r == 167 || r == 169 || r == 173 || r == 179 || r == 181 || r == 187 || r == 191 || r == 193 || r == 197 || r == 199 || r == 209,
{
}

/// Every residue below 210 that is coprime to 210 stands in the table.
proof fn lemma_residue_listed(r: int)
    requires
        0 <= r < 210,
        coprime_to_wheel(r),
    ensures
        residues().contains(r),
{
    lemma_coprime_residues_listed(r as u8);
    if r == 1 {
        assert(residues()[0] == r);
    } else if r == 11 {
        assert(residues()[1] == r);
    } else if r == 13 {
        assert(residues()[2] == r);
    } else if r == 17 {
        assert(residues()[3] == r);
    } else if r == 19 {
        assert(residues()[4] == r);
    } else if r == 23 {
        assert(residues()[5] == r);
    } else if r == 29 {
        assert(residues()[6] == r);
    } else if r == 31 {
        assert(residues()[7] == r);
    } else if r == 37 {
        assert(residues()[8] == r);
    } else if r == 41 {
        assert(residues()[9] == r);
    } else if r == 43 {
        assert(residues()[10] == r);
    } else if r == 47 {
        assert(residues()[11] == r);
    } else if r == 53 {
        assert(residues()[12] == r);
    } else if r == 59 {
        assert(residues()[13] == r);
    } else if r == 61 {
        assert(residues()[14] == r);
    } else if r == 67 {
        assert(residues()[15] == r);
    } else if r == 71 {
        assert(residues()[16] == r);
    } else if r == 73 {
        assert(residues()[17] == r);
    } else if r == 79 {
        assert(residues()[18] == r);
    } else if r == 83 {
        assert(residues()[19] == r);
    } else if r == 89 {
        assert(residues()[20] == r);
    } else if r == 97 {
        assert(residues()[21] == r);
    } else if r == 101 {
        assert(residues()[22] == r);
    } else if r == 103 {
        assert(residues()[23] == r);
    } else if r == 107 {
        assert(residues()[24] == r);
    } else if r == 109 {
        assert(residues()[25] == r);
    } else if r == 113 {
        assert(residues()[26] == r);
    } else if r == 121 {
        assert(residues()[27] == r);
    } else if r == 127 {
        assert(residues()[28] == r);
    } else if r == 131 {
        assert(residues()[29] == r);
    } else if r == 137 {
        assert(residues()[30] == r);
    } else if r == 139 {
        assert(residues()[31] == r);
    } else if r == 143 {
        assert(residues()[32] == r);
    } else if r == 149 {
        assert(residues()[33] == r);
    } else if r == 151 {
        assert(residues()[34] == r);
    } else if r == 157 {
        assert(residues()[35] == r);
    } else if r == 163 {
        assert(residues()[36] == r);
    } else if r == 167 {
        assert(residues()[37] == r);
    } else if r == 169 {
        assert(residues()[38] == r);
    } else if r == 173 {
        assert(residues()[39] == r);
    } else if r == 179 {
        assert(residues()[40] == r);
    } else if r == 181 {
        assert(residues()[41] == r);
    } else if r == 187 {
        assert(residues()[42] == r);
    } else if r == 191 {
        assert(residues()[43] == r);
    } else if r == 193 {
        assert(residues()[44] == r);
    } else if r == 197 {
        assert(residues()[45] == r);
    } else if r == 199 {
        assert(residues()[46] == r);
    } else if r == 209 {
        assert(residues()[47] == r);
    }
}

proof fn lemma_residues_ordered(i: int, j: int)
    requires
        0 <= i < j < 48,
    ensures
        residues()[i] < residues()[j],
    decreases j - i,
{
    lemma_tables();
    if j > i + 1 {
        lemma_residues_ordered(i, j - 1);
    }
}

/// A position in the residue table is at most the residue there, which is
/// below 210.
pub proof fn lemma_position_bounded(k: int)
    requires
        0 <= k < 48,
    ensures
        k <= residues()[k] < 210,
{
    lemma_tables();
}

/// A listed residue sits at exactly one position.
proof fn lemma_position(r: int, k: int)
    requires
        0 <= k < 48,
        residues()[k] == r,
    ensures
        residue_position(r) == k,
{
    lemma_tables();
    let p = residue_position(r);
    assert(residues().contains(r));
    assert(0 <= p < 48 && residues()[p] == r);
    if p < k {
        lemma_residues_ordered(p, k);
    } else if k < p {
        lemma_residues_ordered(k, p);
    }
}

/// From 11 on, the survivors are exactly the integers coprime to 210.
pub proof fn lemma_survivor_iff_coprime(n: int)
    requires
        n >= 11,
    ensures
        is_survivor(n) <==> coprime_to_wheel(n),
{
    lemma_tables();
    let r = n % 210;
    lemma_mod_mod(n, 2, 105);
    lemma_mod_mod(n, 3, 70);
    lemma_mod_mod(n, 5, 42);
    lemma_mod_mod(n, 7, 30);
    assert(coprime_to_wheel(n) <==> coprime_to_wheel(r));
    if coprime_to_wheel(r) {
        lemma_residue_listed(r);
    }
    if residues().contains(r) {
        let k = choose|k: int| 0 <= k < residues().len() && residues()[k] == r;
        assert(coprime_to_wheel(residues()[k]));
    }
}

/// Each index from 4 on stands for a survivor, whose index it is.
pub proof fn lemma_value_is_survivor(s: int)
    requires
        s >= 4,
    ensures
        is_survivor(survivor_value(s)),
        survivor_index(survivor_value(s)) == s,
{
    lemma_tables();
    let t = s - 3;
    let q = t / 48;
    let k = t % 48;
    let n = survivor_value(s);
    assert(n == 210 * q + residues()[k]);
    lemma_div_parts(q, residues()[k], 210);
    assert(residues().contains(n % 210));
    if q == 0 {
        assert(k >= 1);
        if k > 1 {
            lemma_residues_ordered(1, k);
        }
        assert(n >= 11);
    }
    lemma_position(residues()[k], k);
}

/// Each survivor has an index from 4 on, which stands for it.
pub proof fn lemma_index_of_survivor(n: int)
    requires
        is_survivor(n),
    ensures
        survivor_index(n) >= 4,
        survivor_value(survivor_index(n)) == n,
{
    let q = n / 210;
    let r = n % 210;
    let k = residue_position(r);
    assert(0 <= k < residues().len() && residues()[k] == r);
    lemma_table_values();
    lemma_fundamental_div_mod(n, 210);
    assert(n == 210 * q + r);
    let s = survivor_index(n);
    assert(s == 48 * q + k + 3);
    if k == 0 {
        assert(q >= 1);
    }
    assert(s >= 4);
    lemma_div_parts(q, k, 48);
    assert((s - 3) / 48 == q && (s - 3) % 48 == k);
    assert(survivor_value(s) == 210 * q + residues()[k]);
}

proof fn lemma_div_parts(q: int, k: int, d: int)
    requires
        0 <= k < d,
        d > 0,
    ensures
        (d * q + k) / d == q,
        (d * q + k) % d == k,
{
    lemma_mul_is_commutative(d, q);
    vstd::arithmetic::div_mod::lemma_fundamental_div_mod_converse(d * q + k, d, q, k);
}

proof fn lemma_div_next(t: int)
    requires
        t >= 1,
    ensures
        t % 48 == 47 ==> (t + 1) / 48 == t / 48 + 1 && (t + 1) % 48 == 0 && (t - 1) % 48 == 46,
        t % 48 == 0 ==> (t + 1) / 48 == t / 48 && (t + 1) % 48 == 1 && (t - 1) % 48 == 47,
        0 < t % 48 < 47 ==> (t + 1) / 48 == t / 48 && (t + 1) % 48 == t % 48 + 1 && (t - 1) % 48
            == t % 48 - 1,
{
    let q = t / 48;
    let k = t % 48;
    lemma_fundamental_div_mod(t, 48);
    if k == 47 {
        lemma_div_parts(q + 1, 0, 48);
        lemma_div_parts(q, 46, 48);
        assert(t + 1 == 48 * (q + 1) + 0);
    } else if k == 0 {
        lemma_div_parts(q, 1, 48);
        lemma_div_parts(q - 1, 47, 48);
        assert(t - 1 == 48 * (q - 1) + 47);
    } else {
        lemma_div_parts(q, k + 1, 48);
        lemma_div_parts(q, k - 1, 48);
    }
}

/// The survivor after index `s` lies one gap of the wheel further on.
pub proof fn lemma_step(s: int)
    requires
        s >= 4,
    ensures
        survivor_value(s + 1) == survivor_value(s) + gaps()[(s - 4) % 48],
{
    let t = s - 3;
    let k = t % 48;
    let q = t / 48;
    lemma_div_next(t);
    lemma_tables();
    assert(survivor_value(s) == 210 * q + residues()[k]);
    if k == 47 {
        assert(survivor_value(s + 1) == 210 * (q + 1) + residues()[0]);
    } else if k == 0 {
        assert(survivor_value(s + 1) == 210 * q + residues()[1]);
    } else {
        assert(survivor_value(s + 1) == 210 * q + residues()[k + 1]);
    }
}

/// Successive survivors from index 4 on lie between 2 and 10 apart.
pub proof fn lemma_gap_bounds(s: int)
    requires
        s >= 4,
    ensures
        survivor_value(s) + 2 <= survivor_value(s + 1) <= survivor_value(s) + 10,
{
    lemma_step(s);
    lemma_tables();
    assert(0 <= (s - 4) % 48 < 48);
}

proof fn lemma_value_grows(s: int)
    requires
        s >= 0,
    ensures
        survivor_value(s) < survivor_value(s + 1),
{
    if s >= 4 {
        lemma_step(s);
        lemma_tables();
        assert(0 <= (s - 4) % 48 < 48);
    } else {
        lemma_table_values();
        assert(survivor_value(4) == 11);
    }
}

/// Survivor indices list the integers they stand for in ascending order.
pub proof fn lemma_increasing(s: int, t: int)
    requires
        0 <= s < t,
    ensures
        survivor_value(s) < survivor_value(t),
    decreases t - s,
{
    lemma_value_grows(t - 1);
    if t - 1 > s {
        lemma_increasing(s, t - 1);
    }
}

proof fn lemma_divides_through(a: int, b: int, c: int)
    requires
        a >= 0,
        b > 0,
        c > 0,
        a % b == 0,
        b % c == 0,
    ensures
        a % c == 0,
{
    lemma_fundamental_div_mod(a, b);
    lemma_fundamental_div_mod(b, c);
    let x = a / b;
    let y = b / c;
    assert(a == c * (y * x)) by (nonlinear_arith)
        requires
            a == b * x,
            b == c * y,
    ;
    lemma_mod_multiples_basic(y * x, c);
    lemma_mul_is_commutative(c, y * x);
}

/// The least divisor of `n` from `k` on, where none below `k` divides it.
proof fn lemma_least_divisor(n: int, k: int) -> (d: int)
    requires
        2 <= k <= n,
        forall|j: int| 2 <= j < k ==> #[trigger] (n % j) != 0,
    ensures
        k <= d <= n,
        n % d == 0,
        forall|j: int| 2 <= j < d ==> #[trigger] (n % j) != 0,
    decreases n - k,
{
    if n % k == 0 {
        k
    } else {
        if k == n {
            lemma_mod_self_0(n);
        }
        lemma_least_divisor(n, k + 1)
    }
}

proof fn lemma_survivor_split(n: int, a: int, b: int)
    requires
        n == a * b,
        a >= 11,
        b >= 11,
        coprime_to_wheel(n),
    ensures
        is_survivor(a),
        is_survivor(b),
{
    lemma_mod_multiples_basic(b, a);
    lemma_mod_multiples_basic(a, b);
    lemma_mul_is_commutative(a, b);
    assert(n >= 0) by (nonlinear_arith)
        requires
            n == a * b,
            a >= 11,
            b >= 11,
    ;
    assert(coprime_to_wheel(a)) by {
        if a % 2 == 0 {
            lemma_divides_through(n, a, 2);
        }
        if a % 3 == 0 {
            lemma_divides_through(n, a, 3);
        }
        if a % 5 == 0 {
            lemma_divides_through(n, a, 5);
        }
        if a % 7 == 0 {
            lemma_divides_through(n, a, 7);
        }
    }
    assert(coprime_to_wheel(b)) by {
        if b % 2 == 0 {
            lemma_divides_through(n, b, 2);
        }
        if b % 3 == 0 {
            lemma_divides_through(n, b, 3);
        }
        if b % 5 == 0 {
            lemma_divides_through(n, b, 5);
        }
        if b % 7 == 0 {
            lemma_divides_through(n, b, 7);
        }
    }
    lemma_survivor_iff_coprime(a);
    lemma_survivor_iff_coprime(b);
}

/// A survivor that is not prime is `p * m` for a prime survivor `p` and a
/// survivor `m` no smaller than `p`.
pub proof fn lemma_composite_survivor(n: int) -> (pm: (int, int))
    requires
        is_survivor(n),
        !is_prime(n),
    ensures
        is_prime(pm.0),
        is_survivor(pm.0),
        is_survivor(pm.1),
        pm.0 <= pm.1,
        pm.0 * pm.1 == n,
{
    lemma_survivor_iff_coprime(n);
    let e = choose|e: int| 2 <= e < n && #[trigger] (n % e) == 0;
    let p = lemma_least_divisor(n, 2);
    assert(p <= e);
    assert(is_prime(p)) by {
        assert forall|j: int| 2 <= j < p implies #[trigger] (p % j) != 0 by {
            if p % j == 0 {
                lemma_divides_through(n, p, j);
            }
        }
    }
    if p <= 10 {
        if p % 2 == 0 {
            lemma_divides_through(n, p, 2);
        } else if p % 3 == 0 {
            lemma_divides_through(n, p, 3);
        }
        assert(p == 5 || p == 7);
    }
    lemma_fundamental_div_mod(n, p);
    let m = n / p;
    assert(n == p * m);
    assert(m >= 2) by (nonlinear_arith)
        requires
            n == p * m,
            2 <= p < n,
    ;
    lemma_mod_multiples_basic(p, m);
    lemma_mul_is_commutative(p, m);
    assert(n % m == 0);
    if m < p {
        assert(n % m != 0);
    }
    lemma_survivor_split(n, p, m);
    (p, m)
}

/// A product of two factors from 2 on is not prime.
pub proof fn lemma_product_not_prime(a: int, b: int)
    requires
        a >= 2,
        b >= 2,
    ensures
        !is_prime(a * b),
{
    assert(a < a * b) by (nonlinear_arith)
        requires
            a >= 2,
            b >= 2,
    ;
    lemma_mod_multiples_basic(b, a);
    lemma_mul_is_commutative(a, b);
    assert((a * b) % a == 0);
}

proof fn lemma_small_products(x: u8, y: u8)
    by (bit_vector)
    requires
        x < 7,
        y < 7,
    ensures
        x % 2 != 0 && y % 2 != 0 ==> (x * y) % 2 != 0,
        x % 3 != 0 && y % 3 != 0 ==> (x * y) % 3 != 0,
        x % 5 != 0 && y % 5 != 0 && x < 5 && y < 5 ==> (x * y) % 5 != 0,
        x % 7 != 0 && y % 7 != 0 ==> (x * y) % 7 != 0,
{
}

proof fn lemma_product_coprime(a: int, b: int, q: int)
    requires
        a >= 0,
        b >= 0,
        q == 2 || q == 3 || q == 5 || q == 7,
        a % q != 0,
        b % q != 0,
    ensures
        (a * b) % q != 0,
{
    lemma_mul_mod_noop(a, b, q);
    let x = a % q;
    let y = b % q;
    lemma_small_products(x as u8, y as u8);
}

/// A product of two survivors is a survivor.
pub proof fn lemma_product_survivor(a: int, b: int)
    requires
        is_survivor(a),
        is_survivor(b),
    ensures
        is_survivor(a * b),
{
    lemma_survivor_iff_coprime(a);
    lemma_survivor_iff_coprime(b);
    lemma_product_coprime(a, b, 2);
    lemma_product_coprime(a, b, 3);
    lemma_product_coprime(a, b, 5);
    lemma_product_coprime(a, b, 7);
    assert(a * b >= 11) by (nonlinear_arith)
        requires
            a >= 11,
            b >= 11,
    ;
    lemma_survivor_iff_coprime(a * b);
}

/// A prime from 11 on is a survivor.
pub proof fn lemma_prime_is_survivor(n: int)
    requires
        is_prime(n),
        n >= 11,
    ensures
        is_survivor(n),
{
    assert(n % 2 != 0 && n % 3 != 0 && n % 5 != 0 && n % 7 != 0);
    lemma_survivor_iff_coprime(n);
}

/// 11 plus the first `k` increments of the wheel, taken cyclically from
/// the start of the gap table.
pub open spec fn wheel_walk(k: nat) -> int
    decreases k,
{
    if k == 0 {
        11
    } else {
        wheel_walk((k - 1) as nat) + gaps()[(k - 1) % 48]
    }
}

/// Walking the wheel from 11 meets the survivors one after another in
/// strictly increasing order, and any 48 steps add exactly 210.
pub proof fn lemma_wheel_walk(k: nat)
    ensures
        wheel_walk(k) == survivor_value(4 + k as int),
        is_survivor(wheel_walk(k)),
        wheel_walk(k) < wheel_walk(k + 1),
        wheel_walk(k + 48) == wheel_walk(k) + 210,
    decreases k,
{
    if k == 0 {
        lemma_table_values();
        assert(survivor_value(4) == 11);
    } else {
        lemma_wheel_walk((k - 1) as nat);
        lemma_step(3 + k as int);
    }
    lemma_value_is_survivor(4 + k as int);
    lemma_increasing(4 + k as int, 5 + k as int);
    lemma_step(4 + k as int);
    lemma_walk_period(k);
    lemma_walk_is_value((k + 48) as nat);
}

proof fn lemma_walk_is_value(k: nat)
    ensures
        wheel_walk(k) == survivor_value(4 + k as int),
    decreases k,
{
    if k == 0 {
        lemma_table_values();
        assert(survivor_value(4) == 11);
    } else {
        lemma_walk_is_value((k - 1) as nat);
        lemma_step(3 + k as int);
    }
}

proof fn lemma_walk_period(k: nat)
    ensures
        survivor_value(4 + k as int + 48) == survivor_value(4 + k as int) + 210,
{
    let t = k as int + 1;
    lemma_fundamental_div_mod(t, 48);
    lemma_div_parts(t / 48 + 1, t % 48, 48);
    assert(t + 48 == 48 * (t / 48 + 1) + t % 48);
}

/// Why survivor mapping failed.
#[derive(Debug, Clone, Copy, PartialEq, Eq, Structural)]
pub enum SieveError {
    /// The integer asked about is not a wheel survivor.
    InvalidIndex,
}

fn residue_position_of(r: u64) -> (k: usize)
    requires
        residues().contains(r as int),
    ensures
        k < 48,
        residues()[k as int] == r,
{
    let table = residue_table();
    let mut k: usize = 0;
    proof {
        lemma_table_values();
    }
    while table[k] != r
        invariant
            k < 48,
            residues().contains(r as int),
            residues().len() == 48,
            forall|j: int| 0 <= j < 48 ==> table@[j] == residues()[j],
            forall|j: int| 0 <= j < k ==> residues()[j] != r,
        decreases 48 - k,
    {
        proof {
            let w = choose|w: int| 0 <= w < residues().len() && residues()[w] == r;
            assert(w != k);
            assert(w > k);
        }
        k = k + 1;
    }
    k
}

pub(crate) fn survivor_index_of(n: u64) -> (r: u64)
    requires
        is_survivor(n as int),
    ensures
        r == survivor_index(n as int),
{
    let q = n / 210;
    let k = residue_position_of(n % 210);
    proof {
        lemma_position((n % 210) as int, k as int);
    }
    48 * q + k as u64 + 3
}

/// The survivor index of `n`: `48 * (n / 210)` plus the position of
/// `n % 210` in the residue table plus 3; `InvalidIndex` where `n` is not a
/// wheel survivor.
pub fn index_of(n: u64) -> (r: Result<u64, SieveError>)
    ensures
        match r {
            Ok(i) => is_survivor(n as int) && i == survivor_index(n as int),
            Err(e) => !is_survivor(n as int) && e == SieveError::InvalidIndex,
        },
{
    if n < 11 || n % 2 == 0 || n % 3 == 0 || n % 5 == 0 || n % 7 == 0 {
        proof {
            if n >= 11 {
                lemma_survivor_iff_coprime(n as int);
            }
        }
        Err(SieveError::InvalidIndex)
    } else {
        proof {
            lemma_survivor_iff_coprime(n as int);
        }
        Ok(survivor_index_of(n))
    }
}

} // verus!
