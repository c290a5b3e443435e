//! The algebra's laws, stated over the contracts of the library and proved
//! once and for all: canonical equivalence (the canonical form of a rational
//! is unique), the exact round trip for purely exact expansions, shift
//! correctness (the forward map drops the leading digit), and the strict
//! total order on unit fractions.
use vstd::prelude::*;

use vstd::arithmetic::div_mod::lemma_fundamental_div_mod_converse;
use vstd::arithmetic::div_mod::lemma_small_mod;
use vstd::arithmetic::power::lemma_pow1;
use vstd::arithmetic::power::lemma_pow_adds;
use vstd::arithmetic::power::lemma_pow_positive;
use vstd::arithmetic::power::pow;

use crate::arith::digits_value;
use crate::arith::lemma_digits_value_bound;
use crate::arith::lemma_lowest_terms_unique;
use crate::fraction::exact_digits;
use crate::fraction::frac_lt;
use crate::fraction::parse_ok;
use crate::fraction::parsed_denom;
use crate::fraction::parsed_numer;
use crate::fraction::rep_digits;
use crate::fraction::UnitFraction;
use crate::parse::char_ok;
use crate::parse::char_val;
use crate::parse::comma_tokens;
use crate::parse::exact_part;
use crate::parse::lemma_token_value_nonneg;
use crate::parse::part_digits;
use crate::parse::part_ok;
use crate::parse::small_digits;
use crate::parse::token_ok;
use crate::parse::token_value;
use crate::parse::toks_digits;

verus! {

proof fn lemma_small_digits_ok(base: int, p: Seq<char>)
    requires
        2 <= base,
        forall|i: int| 0 <= i < p.len() ==> char_ok(base, #[trigger] p[i]),
    ensures
        forall|j: int|
            0 <= j < small_digits(p).len() ==> (#[trigger] small_digits(p)[j] as int) < base,
    decreases p.len(),
{
    if p.len() > 0 {
        lemma_small_digits_ok(base, p.drop_last());
        assert(char_ok(base, p.last()));
        assert forall|j: int|
            0 <= j < small_digits(p).len() implies (#[trigger] small_digits(p)[j] as int)
            < base by {
            if j < small_digits(p).len() - 1 {
                assert(small_digits(p)[j] == small_digits(p.drop_last())[j]);
            } else {
                assert(small_digits(p)[j] == char_val(p.last()) as u8);
            }
        }
    }
}

proof fn lemma_toks_digits_ok(base: int, ts: Seq<Seq<char>>)
    requires
        2 <= base <= 256,
        forall|i: int|
            0 <= i < ts.len() ==> ((#[trigger] ts[i]).len() > 0 ==> token_ok(base, ts[i])),
    ensures
        forall|j: int|
            0 <= j < toks_digits(ts).len() ==> (#[trigger] toks_digits(ts)[j] as int) < base,
    decreases ts.len(),
{
    if ts.len() > 0 {
        lemma_toks_digits_ok(base, ts.drop_last());
        let head = toks_digits(ts.drop_last());
        if ts.last().len() > 0 {
            assert(token_ok(base, ts.last()));
            lemma_token_value_nonneg(ts.last());
            assert(0 <= token_value(ts.last()) < base);
        }
        assert forall|j: int|
            0 <= j < toks_digits(ts).len() implies (#[trigger] toks_digits(ts)[j] as int)
            < base by {
            if j < head.len() {
                assert(toks_digits(ts)[j] == head[j]);
            } else {
                assert(toks_digits(ts)[j] == token_value(ts.last()) as u8);
            }
        }
    }
}

/// Every digit a valid part denotes lies below the base.
pub proof fn lemma_part_digits_ok(base: int, p: Seq<char>)
    requires
        2 <= base <= 256,
        part_ok(base, p),
    ensures
        forall|j: int|
            0 <= j < part_digits(base, p).len() ==> (#[trigger] part_digits(base, p)[j] as int)
                < base,
{
    if base < 10 {
        lemma_small_digits_ok(base, p);
    } else {
        lemma_toks_digits_ok(base, comma_tokens(p));
    }
}

/// A digit sequence splits into its leading digit and its tail.
proof fn lemma_digits_value_front(base: int, ds: Seq<u8>)
    requires
        ds.len() >= 1,
    ensures
        digits_value(base, ds) == ds[0] * pow(base, (ds.len() - 1) as nat) + digits_value(
            base,
            ds.drop_first(),
        ),
    decreases ds.len(),
{
    vstd::arithmetic::power::lemma_pow0(base);
    if ds.len() == 1 {
        assert(ds.drop_last() =~= Seq::<u8>::empty());
        assert(ds.drop_first() =~= Seq::<u8>::empty());
        assert(ds.last() == ds[0]);
        assert(pow(base, 0nat) == 1);
        assert((ds.len() - 1) as nat == 0nat);
        assert(digits_value(base, ds.drop_first()) == 0);
        assert(digits_value(base, ds.drop_last()) == 0);
        assert(digits_value(base, ds) == digits_value(base, ds.drop_last()) * base + ds.last());
        assert(digits_value(base, ds) == ds[0]);
    } else {
        let head = ds.drop_last();
        lemma_digits_value_front(base, head);
        assert(head.drop_first() =~= ds.drop_first().drop_last());
        assert(ds.drop_first().last() == ds.last());
        let m1 = (ds.len() - 2) as nat;
        lemma_pow_adds(base, m1, 1);
        lemma_pow1(base);
        let t = digits_value(base, ds.drop_first().drop_last());
        let d0 = ds[0] as int;
        let p1 = pow(base, m1);
        assert(head[0] == ds[0]);
        assert(digits_value(base, head) == d0 * p1 + t);
        assert(digits_value(base, ds) == (d0 * p1 + t) * base + ds.last());
        assert((d0 * p1 + t) * base + ds.last() == d0 * (p1 * base) + (t * base + ds.last()))
            by (nonlinear_arith);
        assert(pow(base, (ds.len() - 1) as nat) == p1 * base);
        assert(digits_value(base, ds.drop_first()) == t * base + ds.last());
    }
}

/// Canonical equivalence: two canonical values that represent rationals
/// equal modulo one are the very same value, whatever raw fractions (and so
/// whatever textual expansions) they were built from.
pub proof fn lemma_canonical_equivalence(
    a: UnitFraction,
    b: UnitFraction,
    n1: int,
    d1: int,
    n2: int,
    d2: int,
)
    requires
        d1 >= 1,
        d2 >= 1,
        a.represents(n1, d1),
        b.represents(n2, d2),
        (n1 % d1) * d2 == (n2 % d2) * d1,
    ensures
        a == b,
{
    let w1 = n1 % d1;
    let w2 = n2 % d2;
    let an = a.numer as int;
    let ad = a.denom as int;
    let bn = b.numer as int;
    let bd = b.denom as int;
    assert(an * d1 == w1 * ad);
    assert(bn * d2 == w2 * bd);
    assert((an * bd) * (d1 * d2) == (bn * ad) * (d1 * d2)) by (nonlinear_arith)
        requires
            an * d1 == w1 * ad,
            bn * d2 == w2 * bd,
            w1 * d2 == w2 * d1,
    ;
    assert(an * bd == bn * ad) by (nonlinear_arith)
        requires
            (an * bd) * (d1 * d2) == (bn * ad) * (d1 * d2),
            d1 >= 1,
            d2 >= 1,
    ;
    assert(a.numer as nat * b.denom as nat == b.numer as nat * a.denom as nat);
    lemma_lowest_terms_unique(a.numer as nat, a.denom as nat, b.numer as nat, b.denom as nat);
}

/// Round trip: a purely exact expansion of `m` digits denotes exactly its
/// digit value over `base ^ m` — the parsed value's cross products agree.
pub proof fn lemma_round_trip(base: int, s: Seq<char>, u: UnitFraction)
    requires
        2 <= base <= 255,
        parse_ok(base, s),
        rep_digits(base, s).len() == 0,
        u.represents(parsed_numer(base, s), parsed_denom(base, s)),
    ensures
        u.numer as int * pow(base, exact_digits(base, s).len() as nat) == digits_value(
            base,
            exact_digits(base, s),
        ) * u.denom as int,
{
    let ds = exact_digits(base, s);
    let m = ds.len() as nat;
    lemma_part_digits_ok(base, exact_part(s));
    lemma_digits_value_bound(base, ds);
    let v = digits_value(base, ds);
    assert(digits_value(base, rep_digits(base, s)) == 0);
    assert(parsed_numer(base, s) == 1 * v + 0);
    assert(parsed_denom(base, s) == 1 * pow(base, m));
    lemma_pow_positive(base, m);
    lemma_small_mod(v as nat, pow(base, m) as nat);
    assert(u.numer as int * pow(base, m) == (v % pow(base, m)) * u.denom as int);
}

/// Shift correctness: if `u` is the canonical value of a purely exact digit
/// sequence and `v` is `u` mapped forward, then `v` is the canonical value
/// of the same sequence with its leading digit dropped.
pub proof fn lemma_shift_drops_digit(base: int, ds: Seq<u8>, u: UnitFraction, v: UnitFraction)
    requires
        2 <= base,
        1 <= ds.len(),
        forall|i: int| 0 <= i < ds.len() ==> (#[trigger] ds[i] as int) < base,
        u.represents(digits_value(base, ds), pow(base, ds.len() as nat)),
        v.represents(u.numer as int * base, u.denom as int),
    ensures
        v.represents(
            digits_value(base, ds.drop_first()),
            pow(base, (ds.len() - 1) as nat),
        ),
{
    let m = ds.len() as nat;
    let m1 = (ds.len() - 1) as nat;
    let big = pow(base, m);
    let p = pow(base, m1);
    let a = u.numer as int;
    let d = u.denom as int;
    let tail = ds.drop_first();
    let big_v = digits_value(base, ds);
    let t = digits_value(base, tail);
    let d0 = ds[0] as int;
    lemma_pow_positive(base, m);
    lemma_pow_positive(base, m1);
    lemma_pow_adds(base, m1, 1);
    lemma_pow1(base);
    assert(big == p * base);
    lemma_digits_value_bound(base, ds);
    assert forall|i: int| 0 <= i < tail.len() implies (#[trigger] tail[i] as int) < base by {
        assert(tail[i] == ds[i + 1]);
    }
    lemma_digits_value_bound(base, tail);
    lemma_digits_value_front(base, ds);
    // u: a * big == big_v * d  (the raw value is already within [0, 1))
    lemma_small_mod(big_v as nat, big as nat);
    assert(a * big == big_v * d);
    // r is the numerator of the shifted value before wrapping
    let r = a * base - d0 * d;
    assert(r * big == t * base * d) by (nonlinear_arith)
        requires
            r == a * base - d0 * d,
            a * big == big_v * d,
            big_v == d0 * p + t,
            big == p * base,
    ;
    assert(r >= 0) by (nonlinear_arith)
        requires
            r * big == t * base * d,
            t >= 0,
            base >= 2,
            d >= 1,
            big >= 1,
    ;
    assert(r < d) by (nonlinear_arith)
        requires
            r * big == t * base * d,
            t < p,
            big == p * base,
            base >= 2,
            d >= 1,
            big >= 1,
            p >= 1,
    ;
    lemma_fundamental_div_mod_converse(a * base, d, d0, r);
    assert((a * base) % d == r);
    // v: v.numer * d == r * v.denom; turn it into the tail's cross identity
    assert(r * p == t * d) by (nonlinear_arith)
        requires
            r * big == t * base * d,
            big == p * base,
            base >= 2,
    ;
    lemma_small_mod(t as nat, p as nat);
    assert(v.numer as int * p == (t % p) * v.denom as int) by (nonlinear_arith)
        requires
            v.numer as int * d == r * v.denom as int,
            r * p == t * d,
            t % p == t,
            d >= 1,
    ;
}

/// Ordering totality: of two canonical values, exactly one of `x < y`,
/// `x == y`, `y < x` holds.
pub proof fn lemma_order_trichotomy(x: UnitFraction, y: UnitFraction)
    requires
        x.wf(),
        y.wf(),
    ensures
        frac_lt(x, y) || x == y || frac_lt(y, x),
        frac_lt(x, y) ==> x != y && !frac_lt(y, x),
        x == y ==> !frac_lt(x, y) && !frac_lt(y, x),
        frac_lt(y, x) ==> x != y && !frac_lt(x, y),
{
    if x.numer as int * y.denom as int == y.numer as int * x.denom as int {
        assert(x.numer as nat * y.denom as nat == y.numer as nat * x.denom as nat);
        lemma_lowest_terms_unique(x.numer as nat, x.denom as nat, y.numer as nat, y.denom as nat);
        assert(x == y);
    }
}

/// The order on canonical values is transitive.
pub proof fn lemma_order_transitive(x: UnitFraction, y: UnitFraction, z: UnitFraction)
    requires
        x.wf(),
        y.wf(),
        z.wf(),
        frac_lt(x, y),
        frac_lt(y, z),
    ensures
        frac_lt(x, z),
{
    let a = x.numer as int;
    let b = x.denom as int;
    let c = y.numer as int;
    let d = y.denom as int;
    let e = z.numer as int;
    let f = z.denom as int;
    assert(a * d * f < c * b * f) by (nonlinear_arith)
        requires
            a * d < c * b,
            f >= 1,
    ;
    assert(c * f * b < e * d * b) by (nonlinear_arith)
        requires
            c * f < e * d,
            b >= 1,
    ;
    assert(a * f * d < e * b * d) by (nonlinear_arith)
        requires
            a * d * f < c * b * f,
            c * f * b < e * d * b,
    ;
    assert(a * f < e * b) by (nonlinear_arith)
        requires
            a * f * d < e * b * d,
            d >= 1,
    ;
}

} // verus!
