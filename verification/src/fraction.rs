//! The unit-fraction algebra.
//!
//! A `UnitFraction` is the canonical form of a rational on the unit circle:
//! a reduced fraction `numer / denom` with `0 <= numer < denom`.  Every
//! constructor wraps its argument into `[0, 1)` by reducing the numerator
//! modulo the denominator and then puts the fraction into lowest terms, so
//! two values are equal exactly when they denote the same real number.
use vstd::prelude::*;

use vstd::arithmetic::power::lemma_pow0;
use vstd::arithmetic::power::lemma_pow1;
use vstd::arithmetic::power::lemma_pow_adds;
use vstd::arithmetic::power::lemma_pow_increases;
use vstd::arithmetic::power::lemma_pow_positive;
use vstd::arithmetic::power::pow;

use crate::arith::coprime;
use crate::arith::digits_value;
use crate::arith::mul_mod;
use crate::arith::pow_u128;
use crate::parse::exact_part;
use crate::parse::offending_token;
use crate::parse::parse_digit_parts;
use crate::parse::part_digits;
use crate::parse::part_ok;
use crate::parse::rep_part;
use crate::parse::sep_count;
use crate::parse::ParseError;

verus! {

/// The outcome of comparing two unit fractions.
#[derive(Clone, Copy, Debug, PartialEq, Eq, Structural)]
pub enum Comparison {
    Less,
    Equal,
    Greater,
}

/// A rational in `[0, 1)`, in lowest terms.
#[derive(Clone, Copy, Debug, PartialEq, Eq, Structural)]
pub struct UnitFraction {
    pub numer: u128,
    pub denom: u128,
}

/// Denominator contributed by a repeating block of length `k`: `base^k - 1`,
/// clamped to `1` when there is no repeating part.
pub open spec fn rep_denominator(base: int, k: nat) -> int {
    if k == 0 {
        1
    } else {
        pow(base, k) - 1
    }
}

/// Numerator of the raw fraction an expansion denotes.
pub open spec fn expansion_numer(base: int, exact_value: int, rep_value: int, k: nat) -> int {
    rep_denominator(base, k) * exact_value + rep_value
}

/// Denominator of the raw fraction an expansion denotes.
pub open spec fn expansion_denom(base: int, m: nat, k: nat) -> int {
    rep_denominator(base, k) * pow(base, m)
}

/// Digits of the exact part of an input.
pub open spec fn exact_digits(base: int, s: Seq<char>) -> Seq<u8> {
    part_digits(base, exact_part(s))
}

/// Digits of the repeating part of an input.
pub open spec fn rep_digits(base: int, s: Seq<char>) -> Seq<u8> {
    part_digits(base, rep_part(s))
}

/// The input has valid syntax and all its digits fit the base.
pub open spec fn parse_ok(base: int, s: Seq<char>) -> bool {
    &&& sep_count(s) <= 1
    &&& part_ok(base, exact_part(s))
    &&& part_ok(base, rep_part(s))
}

/// Numerator of the raw fraction a valid input denotes.
pub open spec fn parsed_numer(base: int, s: Seq<char>) -> int {
    expansion_numer(
        base,
        digits_value(base, exact_digits(base, s)),
        digits_value(base, rep_digits(base, s)),
        rep_digits(base, s).len(),
    )
}

/// Denominator of the raw fraction a valid input denotes.
pub open spec fn parsed_denom(base: int, s: Seq<char>) -> int {
    expansion_denom(base, exact_digits(base, s).len(), rep_digits(base, s).len())
}

/// What parsing an input promises, for every outcome.
pub open spec fn parse_post(base: int, s: Seq<char>, r: Result<UnitFraction, ParseError>) -> bool {
    match r {
        Ok(u) => {
            &&& parse_ok(base, s)
            &&& u.represents(parsed_numer(base, s), parsed_denom(base, s))
        },
        Err(ParseError::TooManySeparators(inp)) => inp@ == s && sep_count(s) >= 2,
        Err(ParseError::InvalidDigit(inp, tok)) => {
            &&& inp@ == s
            &&& sep_count(s) <= 1
            &&& (offending_token(base, exact_part(s), tok@) || offending_token(
                base,
                rep_part(s),
                tok@,
            ))
            &&& !(part_ok(base, exact_part(s)) && part_ok(base, rep_part(s)))
        },
    }
}

/// `a` is strictly below `b` as a rational value.
pub open spec fn frac_lt(a: UnitFraction, b: UnitFraction) -> bool {
    (a.numer as int * b.denom as int) < (b.numer as int * a.denom as int)
}

/// Relies on num::rational::Ratio::new (and the numer/denom accessors):
/// given a positive denominator it reduces the fraction to lowest terms,
/// keeping its value and a positive denominator.
#[verifier::external_body]
fn reduce_ratio(n: u128, d: u128) -> (r: (u128, u128))
    requires
        d >= 1,
    ensures
        r.1 >= 1,
        r.0 as int * d as int == n as int * r.1 as int,
        coprime(r.0 as nat, r.1 as nat),
{
    let ratio = num::rational::Ratio::new(n, d);
    (*ratio.numer(), *ratio.denom())
}

/// Relies on the Ord impl of num::rational::Ratio, which compares two
/// fractions with nonzero denominators by value without overflowing
/// (num::rational::Ratio::new_raw only packs the two numbers up).
#[verifier::external_body]
fn compare_ratios(n1: u128, d1: u128, n2: u128, d2: u128) -> (r: Comparison)
    requires
        d1 >= 1,
        d2 >= 1,
    ensures
        (r == Comparison::Less <==> (n1 as int * d2 as int) < (n2 as int * d1 as int)),
        (r == Comparison::Equal <==> n1 as int * d2 as int == n2 as int * d1 as int),
        (r == Comparison::Greater <==> (n1 as int * d2 as int) > (n2 as int * d1 as int)),
{
    let a = num::rational::Ratio::new_raw(n1, d1);
    let b = num::rational::Ratio::new_raw(n2, d2);
    match core::cmp::Ord::cmp(&a, &b) {
        core::cmp::Ordering::Less => Comparison::Less,
        core::cmp::Ordering::Equal => Comparison::Equal,
        core::cmp::Ordering::Greater => Comparison::Greater,
    }
}

impl UnitFraction {
    /// Canonical form: positive denominator, value in `[0, 1)`, lowest terms.
    pub open spec fn wf(&self) -> bool {
        &&& self.denom >= 1
        &&& self.numer < self.denom
        &&& coprime(self.numer as nat, self.denom as nat)
    }

    /// `self` is the canonical form of the rational `n / d` wrapped into
    /// the unit interval (for `n >= 0` and `d >= 1`).
    pub open spec fn represents(&self, n: int, d: int) -> bool {
        &&& self.wf()
        &&& self.numer as int * d == (n % d) * self.denom as int
    }

    /// The canonical unit fraction of `numerator / denominator`: the raw
    /// fraction is wrapped into `[0, 1)` modulo one and fully reduced.
    pub fn new(numerator: u128, denominator: u128) -> (r: UnitFraction)
        requires
            denominator >= 1,
        ensures
            r.represents(numerator as int, denominator as int),
    {
        let w = numerator % denominator;
        let (n, d) = reduce_ratio(w, denominator);
        proof {
            assert(n < d) by (nonlinear_arith)
                requires
                    n as int * denominator as int == w as int * d as int,
                    w < denominator,
                    d >= 1,
                    denominator >= 1,
            ;
        }
        UnitFraction { numer: n, denom: d }
    }

    /// The canonical value of the expansion with the given exact and
    /// repeating digit-block values and lengths.
    pub fn from_expansion(
        base: u8,
        exact_num: u128,
        exact_len: usize,
        repeating_num: u128,
        repeating_len: usize,
    ) -> (r: UnitFraction)
        requires
            base >= 2,
            pow(base as int, (exact_len + repeating_len) as nat) <= u128::MAX,
            (exact_num as int) < pow(base as int, exact_len as nat),
            (repeating_num as int) < pow(base as int, repeating_len as nat),
        ensures
            r.represents(
                expansion_numer(base as int, exact_num as int, repeating_num as int, repeating_len as nat),
                expansion_denom(base as int, exact_len as nat, repeating_len as nat),
            ),
    {
        proof {
            lemma_pow0(base as int);
            lemma_pow_increases(base as nat, exact_len as nat, (exact_len + repeating_len) as nat);
            lemma_pow_increases(base as nat, repeating_len as nat, (exact_len + repeating_len) as nat);
            lemma_pow_positive(base as int, exact_len as nat);
            lemma_pow_positive(base as int, repeating_len as nat);
        }
        let bm = pow_u128(base as u128, exact_len);
        let bk = pow_u128(base as u128, repeating_len);
        let rd: u128 = if repeating_len == 0 {
            1
        } else {
            proof {
                lemma_pow1(base as int);
                lemma_pow_increases(base as nat, 1, repeating_len as nat);
            }
            bk - 1
        };
        proof {
            lemma_pow_adds(base as int, exact_len as nat, repeating_len as nat);
            let pm = pow(base as int, exact_len as nat);
            let pk = pow(base as int, repeating_len as nat);
            assert(1 <= rd as int && rd as int <= pk - 1 || repeating_len == 0);
            assert(rd as int * bm as int <= u128::MAX && rd as int * bm as int >= 1)
                by (nonlinear_arith)
                requires
                    1 <= rd as int,
                    rd as int <= pk,
                    rd as int * pk <= pk * pk || true,
                    bm as int == pm,
                    1 <= pm,
                    rd as int <= (if repeating_len == 0 { 1int } else { pk - 1 }),
                    pm * pk <= u128::MAX,
                    1 <= pk,
            ;
            assert(rd as int * exact_num as int + repeating_num as int <= rd as int * pm)
                by (nonlinear_arith)
                requires
                    exact_num as int <= pm - 1,
                    repeating_num as int <= (if repeating_len == 0 { 0int } else { pk - 1 }),
                    rd as int == (if repeating_len == 0 { 1int } else { pk - 1 }),
                    1 <= pm,
                    1 <= pk,
            ;
            assert(rd as int * pm <= u128::MAX) by (nonlinear_arith)
                requires
                    rd as int <= (if repeating_len == 0 { 1int } else { pk - 1 }),
                    1 <= rd as int,
                    1 <= pm,
                    1 <= pk,
                    pm * pk <= u128::MAX,
            ;
            assert(rd as int * exact_num as int >= 0) by (nonlinear_arith)
                requires
                    rd as int >= 1,
                    exact_num as int >= 0,
            ;
        }
        let denominator = rd * bm;
        let numerator = rd * exact_num + repeating_num;
        let r = UnitFraction::new(numerator, denominator);
        proof {
            assert(rep_denominator(base as int, repeating_len as nat) == rd as int);
            assert(expansion_denom(base as int, exact_len as nat, repeating_len as nat)
                == denominator as int);
            assert(expansion_numer(
                base as int,
                exact_num as int,
                repeating_num as int,
                repeating_len as nat,
            ) == numerator as int);
        }
        r
    }

    /// Parses a digit expansion in the given base into its canonical value.
    pub fn parse_nary(base: u8, s: &str) -> (r: Result<UnitFraction, ParseError>)
        requires
            base >= 2,
            pow(base as int, s@.len() as nat) <= u128::MAX,
        ensures
            parse_post(base as int, s@, r),
    {
        let (e, rp) = match parse_digit_parts(base, s) {
            Ok(parts) => parts,
            Err(err) => {
                return Err(err);
            },
        };
        proof {
            lemma_pow_increases(
                base as nat,
                (e@.len() + rp@.len()) as nat,
                s@.len() as nat,
            );
            lemma_pow_increases(base as nat, e@.len() as nat, (e@.len() + rp@.len()) as nat);
            lemma_pow_increases(base as nat, rp@.len() as nat, (e@.len() + rp@.len()) as nat);
        }
        let ev = crate::parse::value_from_digits(base, e.as_slice());
        let rv = crate::parse::value_from_digits(base, rp.as_slice());
        let u = UnitFraction::from_expansion(base, ev, e.len(), rv, rp.len());
        Ok(u)
    }

    /// The reduced rational this value denotes; the authoritative projection.
    pub fn to_rational(&self) -> (r: (u128, u128))
        ensures
            r.0 == self.numer,
            r.1 == self.denom,
    {
        (self.numer, self.denom)
    }

    /// Orders two canonical values by the rationals they denote.
    pub fn compare(&self, other: &UnitFraction) -> (r: Comparison)
        requires
            self.denom >= 1,
            other.denom >= 1,
        ensures
            (r == Comparison::Less <==> frac_lt(*self, *other)),
            (r == Comparison::Greater <==> frac_lt(*other, *self)),
            (r == Comparison::Equal <==> self.numer as int * other.denom as int == other.numer
                as int * self.denom as int),
    {
        compare_ratios(self.numer, self.denom, other.numer, other.denom)
    }

    /// The forward (shift) map: multiplies the value by the base and wraps
    /// it back into `[0, 1)`, advancing the expansion by one digit.
    pub fn map_forward(&self, base: u8) -> (r: UnitFraction)
        requires
            base >= 2,
            self.wf(),
        ensures
            r.represents(self.numer as int * base as int, self.denom as int),
    {
        let m = mul_mod(self.numer, base, self.denom);
        let (n, d) = reduce_ratio(m, self.denom);
        proof {
            assert(n < d) by (nonlinear_arith)
                requires
                    n as int * self.denom as int == m as int * d as int,
                    m < self.denom,
                    d >= 1,
                    self.denom >= 1,
            ;
        }
        UnitFraction { numer: n, denom: d }
    }
}

} // verus!
