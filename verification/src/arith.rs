//! Integer groundwork for the unit-fraction algebra: divisibility, greatest
//! common divisors (with the facts needed to show that a fraction in lowest
//! terms is unique), powers of the base, and the value of a digit sequence.
use vstd::prelude::*;

use vstd::arithmetic::div_mod::lemma_fundamental_div_mod;
use vstd::arithmetic::div_mod::lemma_small_mod;
use vstd::arithmetic::power::lemma_pow_adds;
use vstd::arithmetic::power::lemma_pow_increases;
use vstd::arithmetic::power::lemma_pow_positive;
use vstd::arithmetic::power::pow;

verus! {

/// `d` divides `a`.
pub open spec fn divides(d: int, a: int) -> bool {
    exists|k: int| a == #[trigger] (d * k)
}

/// Greatest common divisor by Euclid's recursion; `gcd(a, 0) == a`.
pub open spec fn gcd(a: nat, b: nat) -> nat
    decreases b,
{
    if b == 0 {
        a
    } else {
        gcd(b, a % b)
    }
}

/// `a` and `b` have no common factor, i.e. `a / b` is in lowest terms.
pub open spec fn coprime(a: nat, b: nat) -> bool {
    gcd(a, b) == 1
}

pub proof fn lemma_bezout(a: nat, b: nat)
    ensures
        exists|x: int, y: int| #[trigger] (a as int * x) + #[trigger] (b as int * y) == gcd(a, b) as int,
    decreases b,
{
    if b == 0 {
        assert(a as int * 1 + b as int * 0 == gcd(a, b) as int);
    } else {
        lemma_bezout(b, a % b);
        let g = gcd(b, a % b) as int;
        let (x, y) = choose|x: int, y: int| #[trigger] (b as int * x) + #[trigger] ((a % b) as int * y) == g;
        lemma_fundamental_div_mod(a as int, b as int);
        let q = a as int / b as int;
        assert((a % b) as int == a as int - b as int * q);
        assert(b as int * x + (a as int - b as int * q) * y == a as int * y + b as int * (x - q
            * y)) by (nonlinear_arith);
        assert(a as int * y + b as int * (x - q * y) == gcd(a, b) as int);
        assert(exists|xx: int, yy: int| #[trigger] (a as int * xx) + #[trigger] (b as int * yy) == gcd(a, b) as int) by {
            assert(a as int * y + b as int * (x - q * y) == gcd(a, b) as int);
        }
    }
}

pub proof fn lemma_gcd_comm(a: nat, b: nat)
    ensures
        gcd(a, b) == gcd(b, a),
{
    if a == 0 && b == 0 {
    } else if b == 0 {
        // gcd(a, 0) == a and gcd(0, a) == gcd(a, 0nat % a) == gcd(a, 0) == a
        lemma_small_mod(0, a);
        assert(gcd(0, a) == gcd(a, 0nat % a));
    } else if a == 0 {
        lemma_small_mod(0, b);
        assert(gcd(0, b) == gcd(b, 0nat % b));
    } else if a == b {
        assert(a % b == 0) by {
            lemma_fundamental_div_mod(a as int, b as int);
            vstd::arithmetic::div_mod::lemma_mod_self_0(a as int);
        }
        assert(gcd(a, b) == gcd(b, 0));
        assert(gcd(b, a) == gcd(a, 0));
    } else if a < b {
        lemma_small_mod(a, b);
        assert(gcd(b, a) == gcd(a, b % a));
        assert(gcd(a, b) == gcd(b, a % b));
        assert(a % b == a);
    } else {
        lemma_small_mod(b, a);
        assert(gcd(a, b) == gcd(b, a % b));
        assert(gcd(b, a) == gcd(a, b % a));
        assert(b % a == b);
    }
}

/// Gauss's lemma: a number coprime to `a` that divides `a * b` divides `b`.
pub proof fn lemma_coprime_divides(c: nat, a: nat, b: nat)
    requires
        coprime(c, a),
        divides(c as int, a as int * b as int),
    ensures
        divides(c as int, b as int),
{
    lemma_bezout(c, a);
    let (x, y) = choose|x: int, y: int| #[trigger] (c as int * x) + #[trigger] (a as int * y) == gcd(c, a) as int;
    let k = choose|k: int| a as int * b as int == #[trigger] (c as int * k);
    // b == b * (c*x + a*y) == c*x*b + (a*b)*y == c*x*b + c*k*y == c * (x*b + k*y)
    assert(b as int == c as int * (x * b as int + k * y)) by (nonlinear_arith)
        requires
            c as int * x + a as int * y == 1,
            a as int * b as int == c as int * k,
    ;
}

pub proof fn lemma_divides_antisym(a: int, b: int)
    requires
        a >= 1,
        b >= 1,
        divides(a, b),
        divides(b, a),
    ensures
        a == b,
{
    let k = choose|k: int| b == #[trigger] (a * k);
    let j = choose|j: int| a == #[trigger] (b * j);
    assert(k >= 1) by (nonlinear_arith)
        requires
            a >= 1,
            b >= 1,
            b == a * k,
    ;
    assert(j >= 1) by (nonlinear_arith)
        requires
            a >= 1,
            b >= 1,
            a == b * j,
    ;
    assert(a == b) by (nonlinear_arith)
        requires
            a >= 1,
            b >= 1,
            k >= 1,
            j >= 1,
            b == a * k,
            a == b * j,
    ;
}

/// A rational in `[0, 1)` has exactly one representation in lowest terms:
/// equal cross products force equal numerators and denominators.
pub proof fn lemma_lowest_terms_unique(n1: nat, d1: nat, n2: nat, d2: nat)
    requires
        d1 >= 1,
        d2 >= 1,
        coprime(n1, d1),
        coprime(n2, d2),
        n1 * d2 == n2 * d1,
    ensures
        n1 == n2,
        d1 == d2,
{
    // d1 divides n1 * d2 (it equals n2 * d1), and d1 is coprime to n1, so d1 | d2.
    lemma_gcd_comm(n1, d1);
    assert(n1 as int * d2 as int == d1 as int * n2 as int) by (nonlinear_arith)
        requires
            n1 * d2 == n2 * d1,
    ;
    assert(divides(d1 as int, n1 as int * d2 as int));
    lemma_coprime_divides(d1, n1, d2);
    lemma_gcd_comm(n2, d2);
    assert(n2 as int * d1 as int == d2 as int * n1 as int) by (nonlinear_arith)
        requires
            n1 * d2 == n2 * d1,
    ;
    assert(divides(d2 as int, n2 as int * d1 as int));
    lemma_coprime_divides(d2, n2, d1);
    lemma_divides_antisym(d1 as int, d2 as int);
    assert(n1 == n2) by (nonlinear_arith)
        requires
            d1 >= 1,
            d1 == d2,
            n1 * d2 == n2 * d1,
    ;
}

/// The integer a digit sequence denotes, most significant digit first.
pub open spec fn digits_value(base: int, ds: Seq<u8>) -> int
    decreases ds.len(),
{
    if ds.len() == 0 {
        0
    } else {
        digits_value(base, ds.drop_last()) * base + ds.last()
    }
}

pub proof fn lemma_digits_value_bound(base: int, ds: Seq<u8>)
    requires
        base >= 2,
        forall|i: int| 0 <= i < ds.len() ==> ds[i] < base,
    ensures
        0 <= digits_value(base, ds) < pow(base, ds.len() as nat),
    decreases ds.len(),
{
    if ds.len() == 0 {
        vstd::arithmetic::power::lemma_pow0(base);
    } else {
        let prefix = ds.drop_last();
        lemma_digits_value_bound(base, prefix);
        let v = digits_value(base, prefix);
        let p = pow(base, prefix.len() as nat);
        assert(pow(base, ds.len() as nat) == p * base) by {
            lemma_pow_adds(base, prefix.len() as nat, 1);
            vstd::arithmetic::power::lemma_pow1(base);
        }
        assert(0 <= ds.last() < base);
        let d0 = ds.last() as int;
        assert(0 <= v * base + d0 < p * base) by (nonlinear_arith)
            requires
                0 <= v < p,
                base >= 2,
                0 <= d0 < base,
        ;
        assert(digits_value(base, ds) == v * base + d0);
    }
}

/// `base` raised to `exp`, proved against the mathematical power function.
pub fn pow_u128(base: u128, exp: usize) -> (r: u128)
    requires
        base >= 2,
        pow(base as int, exp as nat) <= u128::MAX,
    ensures
        r as int == pow(base as int, exp as nat),
{
    let mut acc: u128 = 1;
    let mut i: usize = 0;
    proof {
        vstd::arithmetic::power::lemma_pow0(base as int);
    }
    while i < exp
        invariant
            0 <= i <= exp,
            base >= 2,
            pow(base as int, exp as nat) <= u128::MAX,
            acc as int == pow(base as int, i as nat),
        decreases exp - i,
    {
        proof {
            lemma_pow_adds(base as int, i as nat, 1);
            vstd::arithmetic::power::lemma_pow1(base as int);
            lemma_pow_increases(base as nat, (i + 1) as nat, exp as nat);
            lemma_pow_positive(base as int, i as nat);
        }
        acc = acc * base;
        i = i + 1;
    }
    acc
}

/// `(a * b) % m`, computed without overflow by repeated modular addition.
pub fn mul_mod(a: u128, b: u8, m: u128) -> (r: u128)
    requires
        m >= 1,
        a < m,
    ensures
        r as int == (a as int * b as int) % (m as int),
        r < m,
{
    let mut acc: u128 = 0;
    let mut j: u8 = 0;
    proof {
        assert(a as int * 0 == 0);
        lemma_small_mod(0, m as nat);
    }
    while j < b
        invariant
            0 <= j <= b,
            m >= 1,
            a < m,
            acc < m,
            acc as int == (a as int * j as int) % (m as int),
        decreases b - j,
    {
        let rest = m - a;
        if acc >= rest {
            acc = acc - rest;
        } else {
            acc = acc + a;
        }
        proof {
            let old_val = (a as int * j as int) % (m as int);
            vstd::arithmetic::div_mod::lemma_add_mod_noop(a as int * j as int, a as int, m as int);
            assert(a as int * j as int + a as int == a as int * (j as int + 1)) by (nonlinear_arith);
            assert((a as int % m as int) == a as int) by {
                lemma_small_mod(a as nat, m as nat);
            }
            if old_val + a as int >= m as int {
                assert((old_val + a as int) % m as int == old_val + a as int - m as int) by {
                    vstd::arithmetic::div_mod::lemma_mod_sub_multiples_vanish(
                        old_val + a as int,
                        m as int,
                    );
                    lemma_small_mod((old_val + a as int - m as int) as nat, m as nat);
                }
            } else {
                lemma_small_mod((old_val + a as int) as nat, m as nat);
            }
            assert((old_val % m as int) == old_val) by {
                lemma_small_mod(old_val as nat, m as nat);
            }
        }
        j = j + 1;
    }
    acc
}

} // verus!
