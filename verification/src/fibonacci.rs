//! Fibonacci numbers modulo 7919.
//!
//! Two algorithms compute the pair `(F(n) mod 7919, F(n+1) mod 7919)`: the
//! linear recurrence (`fib`, `linear`) and fast doubling (`fast_doubling`).
//! Both contracts state the same pair, so the two journals agree.
use vstd::arithmetic::div_mod::*;
use vstd::prelude::*;

verus! {

/// The modulus of every computation in this module.
pub const MODULUS: u32 = 7919;

/// The modulus as a 64-bit word, for the products of fast doubling.
const M: u64 = 7919;

/// The Fibonacci numbers: F(0) = 0, F(1) = 1, F(n + 2) = F(n) + F(n + 1).
pub open spec fn fibonacci(n: nat) -> nat
    decreases n,
{
    if n == 0 {
        0
    } else if n == 1 {
        1
    } else {
        fibonacci((n - 2) as nat) + fibonacci((n - 1) as nat)
    }
}

/// F(n) reduced modulo 7919.
pub open spec fn fib_mod(n: nat) -> nat {
    fibonacci(n) % (MODULUS as nat)
}

/// The recurrence, stated for every index.
pub proof fn lemma_fibonacci_step(k: nat)
    ensures
        fibonacci(k + 2) == fibonacci(k) + fibonacci(k + 1),
{
    assert(((k + 2) - 2) as nat == k);
    assert(((k + 2) - 1) as nat == k + 1);
}

/// The doubling identities over the integers:
/// F(2k) = F(k) * (2 F(k+1) - F(k)) and F(2k+1) = F(k)^2 + F(k+1)^2.
pub proof fn lemma_fibonacci_doubling(k: nat)
    ensures
        fibonacci(2 * k) == fibonacci(k) * (2 * fibonacci(k + 1) - fibonacci(k)),
        fibonacci(2 * k + 1) == fibonacci(k) * fibonacci(k) + fibonacci(k + 1) * fibonacci(k + 1),
    decreases k,
{
    if k == 0 {
        assert(fibonacci(0) == 0);
        assert(fibonacci(1) == 1);
        assert(2 * k == 0 && 2 * k + 1 == 1 && k + 1 == 1);
    } else {
        let j = (k - 1) as nat;
        lemma_fibonacci_doubling(j);
        lemma_fibonacci_step(j);
        lemma_fibonacci_step(2 * j);
        lemma_fibonacci_step(2 * j + 1);
        assert(2 * k == 2 * j + 2);
        assert(k + 1 == j + 2);
        assert(k == j + 1);
        let f0 = fibonacci(j) as int;
        let f1 = fibonacci(j + 1) as int;
        let f2 = fibonacci(j + 2) as int;
        let e0 = fibonacci(2 * j) as int;
        let e1 = fibonacci(2 * j + 1) as int;
        let e2 = fibonacci(2 * j + 2) as int;
        let e3 = fibonacci(2 * j + 3) as int;
        assert(e2 == f1 * (2 * f2 - f1) && e3 == f1 * f1 + f2 * f2) by (nonlinear_arith)
            requires
                e0 == f0 * (2 * f1 - f0),
                e1 == f0 * f0 + f1 * f1,
                f2 == f0 + f1,
                e2 == e0 + e1,
                e3 == e1 + e2,
        ;
        assert(fibonacci(2 * k) == e2);
        assert(fibonacci(2 * k + 1) == e3);
        assert(fibonacci(k) == f1);
        assert(fibonacci(k + 1) == f2);
    }
}

/// One round of fast doubling, computed on residues, gives the residues of
/// F(2k) and F(2k+1).
proof fn lemma_doubling_round(fk: int, fk1: int, a: int, b: int)
    requires
        fk >= 0,
        fk1 >= 0,
        a == fk % 7919,
        b == fk1 % 7919,
    ensures
        (a * ((2 * b + 7919 - a) % 7919)) % 7919 == (fk * (2 * fk1 - fk)) % 7919,
        (a * a + b * b) % 7919 == (fk * fk + fk1 * fk1) % 7919,
{
    let m: int = 7919;
    lemma_fundamental_div_mod(fk, m);
    lemma_fundamental_div_mod(fk1, m);
    let q0 = fk / m;
    let q1 = fk1 / m;
    let x = 2 * fk1 - fk;
    assert(x == m * (2 * q1 - q0 - 1) + (2 * b + m - a)) by (nonlinear_arith)
        requires
            fk == m * q0 + a,
            fk1 == m * q1 + b,
            x == 2 * fk1 - fk,
    ;
    lemma_mod_multiples_vanish(2 * q1 - q0 - 1, 2 * b + m - a, m);
    lemma_mul_mod_noop_general(fk, x, m);
    lemma_mul_mod_noop_general(fk, fk, m);
    lemma_mul_mod_noop_general(fk1, fk1, m);
    lemma_mul_mod_noop_general(a, a, m);
    lemma_mul_mod_noop_general(b, b, m);
    lemma_add_mod_noop(a * a, b * b, m);
    lemma_add_mod_noop(fk * fk, fk1 * fk1, m);
}

/// Adding two residues and reducing gives the residue of the sum.
proof fn lemma_residue_sum(x: nat, y: nat)
    ensures
        ((x % 7919) + (y % 7919)) % 7919 == (x + y) % 7919,
{
    lemma_add_mod_noop(x as int, y as int, 7919);
}

/// The linear recurrence: n additions modulo 7919.
/// Returns `(F(n) mod 7919, F(n+1) mod 7919)`.
pub fn fib(n: u32) -> (r: (u32, u32))
    ensures
        r.0 == fib_mod(n as nat),
        r.1 == fib_mod(n as nat + 1),
{
    let mut a: u32 = 0;
    let mut b: u32 = 1;
    for i in 0..n
        invariant
            a == fib_mod(i as nat),
            b == fib_mod(i as nat + 1),
    {
        proof {
            lemma_fibonacci_step(i as nat);
            lemma_residue_sum(fibonacci(i as nat), fibonacci(i as nat + 1));
        }
        let c = (a + b) % MODULUS;
        a = b;
        b = c;
    }
    (a, b)
}

/// The linear recurrence of the RISC Zero and SP1 guests: n additions modulo 7919.
/// Returns `(F(n) mod 7919, F(n+1) mod 7919)`.
pub fn linear(n: u32) -> (r: (u32, u32))
    ensures
        r.0 == fib_mod(n as nat),
        r.1 == fib_mod(n as nat + 1),
{
    let mut a: u32 = 0;
    let mut b: u32 = 1;
    for i in 0..n
        invariant
            a == fib_mod(i as nat),
            b == fib_mod(i as nat + 1),
    {
        proof {
            lemma_fibonacci_step(i as nat);
            lemma_residue_sum(fibonacci(i as nat), fibonacci(i as nat + 1));
        }
        let mut c = a + b;
        c %= 7919;
        a = b;
        b = c;
    }
    (a, b)
}

/// The bits of `n` above position `i`: `n >> i`, and 0 once `i` reaches 32.
pub open spec fn high_bits(n: u32, i: u32) -> u32 {
    if i >= 32 {
        0
    } else {
        n >> i
    }
}

/// Taking one more bit doubles the prefix and adds that bit.
proof fn lemma_high_bits_step(n: u32, j: u32)
    requires
        j < 32,
    ensures
        high_bits(n, j) == 2 * high_bits(n, (j + 1) as u32) + ((n >> j) & 1),
        (n >> j) & 1 <= 1,
{
    assert((n >> j) & 1 <= 1) by (bit_vector);
    if j == 31 {
        assert(n >> 31u32 == (n >> 31u32) & 1) by (bit_vector);
    } else {
        assert(n >> j == 2 * (n >> ((j + 1) as u32)) + ((n >> j) & 1)) by (bit_vector)
            requires
                j < 31,
        ;
    }
}

/// Fast doubling: 32 rounds, one per bit of n from the top, of
///   F(2k)   = F(k) * (2*F(k+1) - F(k))
///   F(2k+1) = F(k)^2 + F(k+1)^2
/// all modulo 7919. Returns `(F(n) mod 7919, F(n+1) mod 7919)`, the same pair
/// as the linear recurrence.
pub fn fast_doubling(n: u32) -> (r: (u32, u32))
    ensures
        r.0 == fib_mod(n as nat),
        r.1 == fib_mod(n as nat + 1),
{
    let mut a: u64 = 0;
    let mut b: u64 = 1;
    let mut i: u32 = 32;
    while i > 0
        invariant
            i <= 32,
            a < M,
            b < M,
            a == fib_mod(high_bits(n, i) as nat),
            b == fib_mod(high_bits(n, i) as nat + 1),
        decreases i,
    {
        i = i - 1;
        let ghost k = high_bits(n, (i + 1) as u32) as nat;
        proof {
            lemma_high_bits_step(n, i);
            lemma_fibonacci_doubling(k);
            lemma_fibonacci_step(2 * k);
            lemma_doubling_round(fibonacci(k) as int, fibonacci(k + 1) as int, a as int, b as int);
            lemma_residue_sum(fibonacci(2 * k), fibonacci(2 * k + 1));
        }
        let t = (2 * b + M - a) % M;
        assert(a * t < M * M && a * a + b * b < 2 * M * M) by (nonlinear_arith)
            requires
                a < M,
                b < M,
                t < M,
        ;
        let c = (a * t) % M;
        let d = (a * a + b * b) % M;
        if (n >> i) & 1 == 0 {
            a = c;
            b = d;
        } else {
            a = d;
            b = (c + d) % M;
        }
    }
    assert(n >> 0u32 == n) by (bit_vector);
    (a as u32, b as u32)
}

/// The computation of the Fibonacci guests: `algo == 0` selects the linear
/// recurrence, any other value fast doubling. Either way the pair committed is
/// `(F(n) mod 7919, F(n+1) mod 7919)`.
pub fn fib_by_algorithm(n: u32, algo: u32) -> (r: (u32, u32))
    ensures
        r.0 == fib_mod(n as nat),
        r.1 == fib_mod(n as nat + 1),
{
    if algo == 0 {
        linear(n)
    } else {
        fast_doubling(n)
    }
}

/// The claim of the bounds-check guest: `10 <= x <= 100`. A guest given an `x`
/// outside the range panics, so no proof of it exists.
pub fn in_bounds(x: u32) -> (r: bool)
    ensures
        r == (10 <= x && x <= 100),
{
    10 <= x && x <= 100
}

} // verus!
