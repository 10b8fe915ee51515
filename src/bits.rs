//! Index arithmetic of a state vector: which bit of a basis index belongs
//! to a qubit, and which index differs from it in exactly that bit.

use vstd::arithmetic::div_mod::lemma_fundamental_div_mod_converse;
use vstd::prelude::*;

verus! {

/// The largest number of qubits a register may hold.
pub const MAX_QUBITS: usize = 30;

/// `2^k`.
pub open spec fn two_pow(k: nat) -> nat
    decreases k,
{
    if k == 0 {
        1
    } else {
        2 * two_pow((k - 1) as nat)
    }
}

/// The value (0 or 1) of qubit `q` in basis index `i`.
pub open spec fn bit_of(i: int, q: nat) -> int {
    (i / (two_pow(q) as int)) % 2
}

/// The basis index that differs from `i` in the bit of qubit `q` only.
pub open spec fn flip(i: int, q: nat) -> int {
    if bit_of(i, q) == 0 {
        i + two_pow(q)
    } else {
        i - two_pow(q)
    }
}

pub proof fn lemma_two_pow_pos(k: nat)
    ensures
        two_pow(k) >= 1,
    decreases k,
{
    if k > 0 {
        lemma_two_pow_pos((k - 1) as nat);
    }
}

pub proof fn lemma_two_pow_add(a: nat, b: nat)
    ensures
        two_pow(a + b) == two_pow(a) * two_pow(b),
    decreases b,
{
    if b == 0 {
        assert(two_pow(0) == 1);
        assert(two_pow(a) * 1 == two_pow(a));
    } else {
        lemma_two_pow_add(a, (b - 1) as nat);
        assert(two_pow(a + b) == 2 * two_pow((a + b - 1) as nat));
        assert(two_pow(a) * two_pow(b) == two_pow(a) * (2 * two_pow((b - 1) as nat)));
        assert(two_pow(a) * (2 * two_pow((b - 1) as nat)) == 2 * (two_pow(a) * two_pow(
            (b - 1) as nat,
        ))) by (nonlinear_arith);
    }
}

pub proof fn lemma_two_pow_mono(a: nat, b: nat)
    requires
        a <= b,
    ensures
        two_pow(a) <= two_pow(b),
    decreases b,
{
    if a < b {
        lemma_two_pow_mono(a, (b - 1) as nat);
    }
}

/// A bit is 0 or 1, and flipping it stays inside the register and can be undone.
pub proof fn lemma_flip(i: int, q: nat, n: nat)
    requires
        q < n,
        0 <= i < two_pow(n),
    ensures
        bit_of(i, q) == 0 || bit_of(i, q) == 1,
        0 <= flip(i, q) < two_pow(n),
        bit_of(flip(i, q), q) == 1 - bit_of(i, q),
        flip(flip(i, q), q) == i,
{
    let m = two_pow(q) as int;
    lemma_two_pow_pos(q);
    let p = two_pow((n - q) as nat) as int;
    lemma_two_pow_add(q, (n - q) as nat);
    assert(two_pow(n) as int == m * p);
    assert(p == 2 * two_pow((n - q - 1) as nat));
    let d = i / m;
    let r = i % m;
    assert(i == d * m + r) by {
        vstd::arithmetic::div_mod::lemma_fundamental_div_mod(i, m);
        assert(i == m * d + r);
    }
    assert(0 <= r < m) by {
        vstd::arithmetic::div_mod::lemma_mod_bound(i, m);
    }
    assert(d >= 0) by {
        assert(d * m + r >= 0);
        if d < 0 {
            assert(d * m <= -m) by (nonlinear_arith)
                requires
                    d < 0,
                    m >= 1,
            ;
        }
    }
    assert(d < p) by {
        if d >= p {
            assert(d * m >= p * m) by (nonlinear_arith)
                requires
                    d >= p,
                    m >= 1,
            ;
        }
    }
    let dd = d % 2;
    vstd::arithmetic::div_mod::lemma_fundamental_div_mod(d, 2);
    assert(0 <= dd < 2) by {
        vstd::arithmetic::div_mod::lemma_mod_bound(d, 2);
    }
    if dd == 0 {
        assert(bit_of(i, q) == 0);
        let j = i + m;
        assert(j == (d + 1) * m + r) by (nonlinear_arith)
            requires
                i == d * m + r,
                j == i + m,
        ;
        lemma_fundamental_div_mod_converse(j, m, d + 1, r);
        lemma_fundamental_div_mod_converse(d + 1, 2, d / 2, 1);
        assert(bit_of(j, q) == 1);
        assert(d + 2 <= p);
        assert((d + 2) * m <= p * m) by (nonlinear_arith)
            requires
                d + 2 <= p,
                m >= 1,
        ;
        assert(j < (d + 2) * m) by (nonlinear_arith)
            requires
                j == (d + 1) * m + r,
                r < m,
        ;
        assert(flip(j, q) == i);
    } else {
        assert(bit_of(i, q) == 1);
        let j = i - m;
        assert(d >= 1);
        assert(j == (d - 1) * m + r) by (nonlinear_arith)
            requires
                i == d * m + r,
                j == i - m,
        ;
        assert(j >= 0) by (nonlinear_arith)
            requires
                j == (d - 1) * m + r,
                d >= 1,
                r >= 0,
                m >= 1,
        ;
        lemma_fundamental_div_mod_converse(j, m, d - 1, r);
        lemma_fundamental_div_mod_converse(d - 1, 2, d / 2, 0);
        assert(bit_of(j, q) == 0);
        assert(flip(j, q) == i);
    }
}

pub proof fn lemma_two_pow_30()
    ensures
        two_pow(30) == 0x40000000,
{
    reveal_with_fuel(two_pow, 31);
}

pub proof fn lemma_two_pow_20()
    ensures
        two_pow(20) == 0x100000,
{
    reveal_with_fuel(two_pow, 21);
}

pub proof fn lemma_two_pow_64()
    ensures
        two_pow(64) == 0x1_0000_0000_0000_0000,
{
    lemma_two_pow_30();
    lemma_two_pow_add(30, 30);
    reveal_with_fuel(two_pow, 5);
    assert(two_pow(64) == 16 * two_pow(60));
}

/// `2^q` as a machine word.
pub fn qubit_mask(q: usize) -> (m: usize)
    requires
        q <= MAX_QUBITS,
    ensures
        m as nat == two_pow(q as nat),
{
    let mut m: usize = 1;
    let mut k: usize = 0;
    while k < q
        invariant
            k <= q <= MAX_QUBITS,
            m as nat == two_pow(k as nat),
        decreases q - k,
    {
        proof {
            lemma_two_pow_mono((k + 1) as nat, 30);
            lemma_two_pow_30();
        }
        m = m * 2;
        k = k + 1;
    }
    m
}

/// The value of qubit `q` in basis index `i`.
pub fn bit_at(i: usize, q: usize) -> (b: usize)
    requires
        q <= MAX_QUBITS,
    ensures
        b as int == bit_of(i as int, q as nat),
        b == 0 || b == 1,
{
    let m = qubit_mask(q);
    proof {
        lemma_two_pow_pos(q as nat);
    }
    (i / m) % 2
}

/// The basis index that differs from `i` in the bit of qubit `q` only.
pub fn flip_index(i: usize, q: usize, n: usize) -> (j: usize)
    requires
        q < n <= MAX_QUBITS,
        i < two_pow(n as nat),
    ensures
        j as int == flip(i as int, q as nat),
        j < two_pow(n as nat),
{
    proof {
        lemma_flip(i as int, q as nat, n as nat);
        lemma_two_pow_mono(n as nat, 30);
        lemma_two_pow_30();
    }
    let m = qubit_mask(q);
    if bit_at(i, q) == 0 {
        i + m
    } else {
        i - m
    }
}

} // verus!

verus! {

proof fn lemma_div_shift(x: int, m: int, k: int)
    requires
        m > 0,
    ensures
        (x + m * k) / m == x / m + k,
        (x + m * k) % m == x % m,
{
    vstd::arithmetic::div_mod::lemma_fundamental_div_mod(x, m);
    vstd::arithmetic::div_mod::lemma_mod_bound(x, m);
    let q = x / m;
    let r = x % m;
    assert(x + m * k == (q + k) * m + r) by (nonlinear_arith)
        requires
            x == m * q + r,
    ;
    lemma_fundamental_div_mod_converse(x + m * k, m, q + k, r);
}

/// Flipping the bit of qubit `t` leaves the bit of every other qubit alone.
pub proof fn lemma_flip_keeps_other_bit(i: int, t: nat, c: nat, n: nat)
    requires
        t < n,
        c < n,
        t != c,
        0 <= i < two_pow(n),
    ensures
        bit_of(flip(i, t), c) == bit_of(i, c),
{
    lemma_flip(i, t, n);
    if c < t {
        let m = two_pow(c) as int;
        lemma_two_pow_pos(c);
        lemma_two_pow_add(c, (t - c) as nat);
        let k = two_pow((t - c) as nat) as int;
        let l = two_pow((t - c - 1) as nat) as int;
        assert(k == 2 * l);
        let sgn: int = if bit_of(i, t) == 0 {
            1
        } else {
            -1
        };
        assert(flip(i, t) == i + m * (sgn * k)) by (nonlinear_arith)
            requires
                two_pow(t) == m * k,
                flip(i, t) == i + sgn * two_pow(t),
        ;
        lemma_div_shift(i, m, sgn * k);
        lemma_div_shift(i / m, 2, sgn * l);
        assert(2 * (sgn * l) == sgn * k) by (nonlinear_arith)
            requires
                k == 2 * l,
        ;
    } else {
        let tt = two_pow(t) as int;
        let m = two_pow(c) as int;
        lemma_two_pow_pos(t);
        lemma_two_pow_pos(c);
        lemma_two_pow_add(t, (c - t) as nat);
        let p = two_pow((c - t) as nat) as int;
        let p_half = two_pow((c - t - 1) as nat) as int;
        assert(p == 2 * p_half);
        let q = i / m;
        let r = i % m;
        vstd::arithmetic::div_mod::lemma_fundamental_div_mod(i, m);
        vstd::arithmetic::div_mod::lemma_mod_bound(i, m);
        assert(i == r + tt * (p * q)) by (nonlinear_arith)
            requires
                i == m * q + r,
                m == tt * p,
        ;
        lemma_div_shift(r, tt, p * q);
        assert(p * q == 2 * (p_half * q)) by (nonlinear_arith)
            requires
                p == 2 * p_half,
        ;
        lemma_div_shift(r / tt, 2, p_half * q);
        assert(bit_of(i, t) == bit_of(r, t));
        lemma_flip(r, t, c);
        let j = flip(i, t);
        assert(j == m * q + flip(r, t));
        assert(j == q * m + flip(r, t)) by (nonlinear_arith)
            requires
                j == m * q + flip(r, t),
        ;
        lemma_fundamental_div_mod_converse(j, m, q, flip(r, t));
    }
}

} // verus!
