//! The `f64` arithmetic that parsing a scaled numeral goes through, done
//! exactly on integers: rounding to the nearest `f64` (53 significant bits,
//! ties to even), and the binade that a positive rational number falls in.

use vstd::prelude::*;
use vstd::arithmetic::div_mod::lemma_fundamental_div_mod;
use vstd::arithmetic::div_mod::lemma_fundamental_div_mod_converse;

verus! {

/// `num / den` rounded to the nearest integer, halves to the even one.
pub open spec fn round_half_even(num: nat, den: nat) -> nat {
    let q = num / den;
    let r = num % den;
    if 2 * r > den {
        q + 1
    } else if 2 * r < den {
        q
    } else if q % 2 == 0 {
        q
    } else {
        q + 1
    }
}

/// The gap between neighbouring `f64` values around `n`: 1 below 2^53,
/// doubling with every further binary digit of `n`.
pub open spec fn f64_spacing(n: nat) -> nat
    decreases n,
{
    if n < 0x20_0000_0000_0000 {
        1
    } else {
        2 * f64_spacing(n / 2)
    }
}

/// The value of `n as f64`: the nearest `f64`, ties to the even one.
pub open spec fn nearest_f64(n: nat) -> nat {
    round_half_even(n, f64_spacing(n)) * f64_spacing(n)
}

pub fn round_half_even_exec(num: u128, den: u128) -> (q: u128)
    requires
        den > 0,
        num / den < u128::MAX,
    ensures
        q == round_half_even(num as nat, den as nat),
{
    let q = num / den;
    let r = num % den;
    if r > den - r {
        q + 1
    } else if r < den - r {
        q
    } else if q % 2 == 0 {
        q
    } else {
        q + 1
    }
}

/// The value of `n as f64`, computed on integers.
pub fn nearest_f64_exec(n: u128) -> (v: u128)
    requires
        n < 0x40_0000_0000_0000_0000_0000_0000_0000,
    ensures
        v == nearest_f64(n as nat),
        v <= n + 0x1_0000_0000_0000_0000_0000u128,
{
    let mut spacing: u128 = 1;
    let mut t: u128 = n;
    while t >= 0x20_0000_0000_0000
        invariant
            spacing > 0,
            spacing <= 0x1_0000_0000_0000_0000_0000u128,
            n < 0x40_0000_0000_0000_0000_0000_0000_0000,
            t == (n as nat) / (spacing as nat),
            f64_spacing(n as nat) == spacing * f64_spacing(t as nat),
        decreases t,
    {
        proof {
            assert(n >= spacing * 0x20_0000_0000_0000) by (nonlinear_arith)
                requires t == (n as nat) / (spacing as nat), t >= 0x20_0000_0000_0000, spacing > 0;
            assert(spacing < 0x8000_0000_0000_0000_0000u128) by (nonlinear_arith)
                requires n >= spacing * 0x20_0000_0000_0000, n < 0x40_0000_0000_0000_0000_0000_0000_0000;
            vstd::arithmetic::div_mod::lemma_div_denominator(n as int, spacing as int, 2);
            assert(spacing * (2 * f64_spacing((t / 2) as nat)) == (spacing * 2) * f64_spacing(
                (t / 2) as nat,
            )) by (nonlinear_arith);
        }
        t = t / 2;
        spacing = spacing * 2;
    }
    assert(f64_spacing(t as nat) == 1);
    assert(f64_spacing(n as nat) == spacing) by (nonlinear_arith)
        requires f64_spacing(n as nat) == spacing * f64_spacing(t as nat), f64_spacing(t as nat) == 1;
    assert(n as nat / spacing as nat <= n) by (nonlinear_arith) requires spacing > 0;
    let q = round_half_even_exec(n, spacing);
    assert(q * spacing <= n + spacing) by (nonlinear_arith)
        requires q <= n as nat / spacing as nat + 1, spacing > 0;
    q * spacing
}

pub open spec fn two_pow(e: nat) -> nat
    decreases e,
{
    if e == 0 {
        1
    } else {
        2 * two_pow((e - 1) as nat)
    }
}

pub proof fn lemma_two_pow(a: nat, b: nat)
    ensures
        two_pow(a) > 0,
        two_pow(a + b) == two_pow(a) * two_pow(b),
    decreases a,
{
    if a == 0 {
        assert(two_pow(0) == 1);
        assert(a + b == b);
    } else {
        lemma_two_pow((a - 1) as nat, b);
        assert((a + b) as nat - 1 == (a - 1 + b) as nat);
        assert(two_pow(a + b) == 2 * two_pow((a - 1 + b) as nat));
        assert(two_pow(a) == 2 * two_pow((a - 1) as nat));
        assert(2 * (two_pow((a - 1) as nat) * two_pow(b)) == (2 * two_pow((a - 1) as nat))
            * two_pow(b)) by (nonlinear_arith);
    }
}

pub proof fn lemma_two_pow_values()
    ensures
        two_pow(52) == 0x10_0000_0000_0000,
        two_pow(53) == 0x20_0000_0000_0000,
        two_pow(60) == 0x1000_0000_0000_0000,
        two_pow(62) == 0x4000_0000_0000_0000,
        two_pow(65) == 0x2_0000_0000_0000_0000,
        two_pow(120) == 0x100_0000_0000_0000_0000_0000_0000_0000,
{
    assert(two_pow(1) == 2 && two_pow(2) == 4 && two_pow(4) == 16) by {
        reveal_with_fuel(two_pow, 5);
    }
    lemma_two_pow(4, 4);
    assert(two_pow(8) == 256);
    lemma_two_pow(8, 8);
    assert(two_pow(16) == 65536);
    lemma_two_pow(16, 16);
    assert(two_pow(32) == 4294967296);
    lemma_two_pow(32, 32);
    assert(two_pow(64) == 18446744073709551616);
    lemma_two_pow(32, 16);
    assert(two_pow(48) == 281474976710656);
    lemma_two_pow(48, 4);
    assert(two_pow(52) == 4503599627370496);
    lemma_two_pow(52, 1);
    assert(two_pow(53) == 9007199254740992);
    lemma_two_pow(48, 8);
    assert(two_pow(56) == 72057594037927936);
    lemma_two_pow(56, 4);
    assert(two_pow(60) == 1152921504606846976);
    lemma_two_pow(60, 2);
    assert(two_pow(62) == 4611686018427387904);
    lemma_two_pow(64, 1);
    assert(two_pow(65) == 36893488147419103232);
    lemma_two_pow(64, 32);
    assert(two_pow(96) == 79228162514264337593543950336);
    lemma_two_pow(96, 16);
    assert(two_pow(112) == 5192296858534827628530496329220096);
    lemma_two_pow(112, 8);
    assert(two_pow(120) == 1329227995784915872903807060280344576);
}

/// `num / den` lies in `[2^(52 + t), 2^(53 + t))`: an `f64` near it has
/// the exponent `t` for its 53-bit significand.
pub open spec fn in_binade(num: nat, den: nat, t: int) -> bool {
    if t >= 0 {
        two_pow(52) * den * two_pow(t as nat) <= num && num < two_pow(53) * den * two_pow(
            t as nat,
        )
    } else {
        two_pow(52) * den <= num * two_pow((-t) as nat) && num * two_pow((-t) as nat) < two_pow(53)
            * den
    }
}

/// The exponent `t` of the binade that `num / den` lies in.
pub open spec fn binade_of(num: nat, den: nat) -> int {
    choose|t: int| in_binade(num, den, t)
}

/// `num / den` over `2^t`, rounded to the nearest integer, ties to even:
/// the significand of the nearest `f64` when `t` is its binade.
pub open spec fn round_even_at(num: nat, den: nat, t: int) -> nat {
    if t >= 0 {
        round_half_even(num, den * two_pow(t as nat))
    } else {
        round_half_even(num * two_pow((-t) as nat), den)
    }
}

/// `y * 2^t` rounded to the nearest integer, halves away from zero (as
/// `f64::round` does).
pub open spec fn round_half_up_at(y: nat, t: int) -> nat {
    if t >= 0 {
        y * two_pow(t as nat)
    } else {
        ((2 * y + two_pow((-t) as nat)) / (2 * two_pow((-t) as nat))) as nat
    }
}

/// The binade test with both sides scaled by `2^c`.
pub proof fn lemma_binade_shift(num: nat, den: nat, t: int, c: nat)
    requires
        t + c >= 0,
    ensures
        in_binade(num, den, t) <==> (two_pow(52) * den * two_pow((t + c) as nat) <= num * two_pow(c)
            && num * two_pow(c) < two_pow(53) * den * two_pow((t + c) as nat)),
{
    let a = two_pow(52);
    let b = two_pow(53);
    lemma_two_pow(c, 0);
    if t >= 0 {
        lemma_two_pow(t as nat, c);
        let pt = two_pow(t as nat);
        let pc = two_pow(c);
        assert(two_pow((t + c) as nat) == pt * pc);
        assert((a * den * pt <= num) <==> (a * den * (pt * pc) <= num * pc)) by (nonlinear_arith)
            requires pc > 0;
        assert((num < b * den * pt) <==> (num * pc < b * den * (pt * pc))) by (nonlinear_arith)
            requires pc > 0;
    } else {
        let u = (-t) as nat;
        let v = (t + c) as nat;
        lemma_two_pow(u, v);
        lemma_two_pow(v, 0);
        assert(c == u + v);
        let pu = two_pow(u);
        let pv = two_pow(v);
        assert(two_pow(c) == pu * pv);
        assert((a * den <= num * pu) <==> (a * den * pv <= num * (pu * pv))) by (nonlinear_arith)
            requires pv > 0;
        assert((num * pu < b * den) <==> (num * (pu * pv) < b * den * pv)) by (nonlinear_arith)
            requires pv > 0;
    }
}

/// A positive number lies in one binade only.
pub proof fn lemma_binade_unique(num: nat, den: nat, t1: int, t2: int)
    requires
        in_binade(num, den, t1),
        in_binade(num, den, t2),
    ensures
        t1 == t2,
{
    if t1 != t2 {
        let lo = if t1 < t2 { t1 } else { t2 };
        let hi = if t1 < t2 { t2 } else { t1 };
        let c: nat = if lo < 0 { (-lo) as nat } else { 0 };
        lemma_binade_shift(num, den, lo, c);
        lemma_binade_shift(num, den, hi, c);
        let plo = two_pow((lo + c) as nat);
        lemma_two_pow((lo + c) as nat, (hi - lo) as nat);
        lemma_two_pow((hi - lo) as nat, 0);
        assert(two_pow((hi - lo) as nat) >= 2) by {
            assert(two_pow((hi - lo) as nat) == 2 * two_pow((hi - lo - 1) as nat));
            lemma_two_pow((hi - lo - 1) as nat, 0);
        }
        let phi = two_pow((hi + c) as nat);
        assert(phi >= 2 * plo) by (nonlinear_arith)
            requires phi == plo * two_pow((hi - lo) as nat), two_pow((hi - lo) as nat) >= 2, plo > 0;
        assert(two_pow(53) == 2 * two_pow(52));
        let x = num * two_pow(c);
        assert(two_pow(53) * den * plo <= two_pow(52) * den * phi) by (nonlinear_arith)
            requires phi >= 2 * plo, two_pow(53) == 2 * two_pow(52);
    }
}

/// Doubling the numerator moves a number one binade up.
pub proof fn lemma_binade_double(num: nat, den: nat, t: int)
    requires
        in_binade(2 * num, den, t + 1),
    ensures
        in_binade(num, den, t),
{
    let c: nat = if t < 0 { (-t) as nat } else { 0 };
    lemma_binade_shift(2 * num, den, t + 1, c);
    lemma_binade_shift(num, den, t, c);
    let p = two_pow((t + c) as nat);
    assert(two_pow((t + 1 + c) as nat) == 2 * p);
    let a = two_pow(52);
    let b = two_pow(53);
    let pc = two_pow(c);
    assert(a * den * p <= num * pc && num * pc < b * den * p) by (nonlinear_arith)
        requires a * den * (2 * p) <= (2 * num) * pc, (2 * num) * pc < b * den * (2 * p);
}

/// Doubling the denominator moves a number one binade down.
pub proof fn lemma_binade_halve(num: nat, den: nat, t: int)
    requires
        in_binade(num, 2 * den, t),
    ensures
        in_binade(num, den, t + 1),
{
    let c: nat = if t < 0 { (-t) as nat } else { 0 };
    lemma_binade_shift(num, 2 * den, t, c);
    lemma_binade_shift(num, den, t + 1, c);
    let p = two_pow((t + c) as nat);
    assert(two_pow((t + 1 + c) as nat) == 2 * p);
    let a = two_pow(52);
    let b = two_pow(53);
    assert(a * (2 * den) * p == a * den * (2 * p)) by (nonlinear_arith);
    assert(b * (2 * den) * p == b * den * (2 * p)) by (nonlinear_arith);
}

proof fn lemma_binade_up(num: nat, den: nat) -> (t: int)
    requires
        num > 0,
        den > 0,
        num < two_pow(53) * den,
    ensures
        in_binade(num, den, t),
    decreases two_pow(53) * den - num,
{
    let a = two_pow(52);
    let b = two_pow(53);
    assert(b == 2 * a);
    lemma_two_pow_values();
    if num < a * den {
        assert(2 * num < b * den) by (nonlinear_arith) requires num < a * den, b == 2 * a;
        let t = lemma_binade_up(2 * num, den);
        lemma_binade_double(num, den, t - 1);
        t - 1
    } else {
        assert(two_pow(0) == 1);
        assert(a * den * 1 == a * den && b * den * 1 == b * den);
        0
    }
}

proof fn lemma_binade_down(num: nat, den: nat) -> (t: int)
    requires
        den > 0,
        num >= two_pow(52) * den,
    ensures
        in_binade(num, den, t),
    decreases num - den,
{
    let a = two_pow(52);
    let b = two_pow(53);
    assert(b == 2 * a);
    lemma_two_pow_values();
    if num >= b * den {
        assert(num >= 2 * den) by (nonlinear_arith) requires num >= b * den, b >= 2;
        assert(a * (2 * den) == b * den) by (nonlinear_arith) requires b == 2 * a;
        let t = lemma_binade_down(num, 2 * den);
        lemma_binade_halve(num, den, t);
        t + 1
    } else {
        assert(two_pow(0) == 1);
        assert(a * den * 1 == a * den && b * den * 1 == b * den);
        0
    }
}

/// Every positive number lies in some binade.
pub proof fn lemma_binade_exists(num: nat, den: nat)
    requires
        num > 0,
        den > 0,
    ensures
        in_binade(num, den, binade_of(num, den)),
{
    lemma_two_pow(52, 0);
    let t = if num < two_pow(53) * den {
        lemma_binade_up(num, den)
    } else {
        assert(two_pow(53) * den >= two_pow(52) * den) by (nonlinear_arith)
            requires two_pow(53) == 2 * two_pow(52);
        lemma_binade_down(num, den)
    };
    assert(in_binade(num, den, t));
}

/// Rounding half to even gives the quotient or the one above it.
pub proof fn lemma_round_half_even_bounds(num: nat, den: nat)
    requires
        den > 0,
    ensures
        num / den <= round_half_even(num, den) <= num / den + 1,
{
}

/// Scaling both sides leaves the rounding unchanged.
pub proof fn lemma_round_half_even_scale(a: nat, b: nat, k: nat)
    requires
        b > 0,
        k > 0,
    ensures
        round_half_even(a * k, b * k) == round_half_even(a, b),
{
    lemma_fundamental_div_mod(a as int, b as int);
    let q = a / b;
    let r = a % b;
    assert(a * k == q * (b * k) + r * k) by (nonlinear_arith) requires a == b * q + r;
    assert(r * k < b * k) by (nonlinear_arith) requires r < b, k > 0;
    lemma_fundamental_div_mod_converse((a * k) as int, (b * k) as int, q as int, (r * k) as int);
    assert((2 * (r * k) > b * k) <==> (2 * r > b)) by (nonlinear_arith) requires k > 0;
    assert((2 * (r * k) < b * k) <==> (2 * r < b)) by (nonlinear_arith) requires k > 0;
}

/// `round_even_at` with both sides scaled by `2^c`.
pub proof fn lemma_round_even_at_shift(num: nat, den: nat, t: int, c: nat)
    requires
        t + c >= 0,
        den > 0,
    ensures
        round_even_at(num, den, t) == round_half_even(
            num * two_pow(c),
            den * two_pow((t + c) as nat),
        ),
{
    lemma_two_pow(c, 0);
    if t >= 0 {
        lemma_two_pow(t as nat, c);
        lemma_two_pow((t + c) as nat, 0);
        assert(den * two_pow(t as nat) > 0) by (nonlinear_arith)
            requires den > 0, two_pow(t as nat) > 0;
        lemma_round_half_even_scale(num, den * two_pow(t as nat), two_pow(c));
        assert(den * two_pow(t as nat) * two_pow(c) == den * two_pow((t + c) as nat))
            by (nonlinear_arith) requires two_pow((t + c) as nat) == two_pow(t as nat) * two_pow(c);
    } else {
        let u = (-t) as nat;
        let v = (t + c) as nat;
        lemma_two_pow(u, v);
        lemma_two_pow(v, 0);
        lemma_round_half_even_scale(num * two_pow(u), den, two_pow(v));
        assert(num * two_pow(u) * two_pow(v) == num * two_pow(c)) by (nonlinear_arith)
            requires two_pow(c) == two_pow(u) * two_pow(v);
    }
}

/// Rounding `a / (den * sp)` to even for an even `sp`, where
/// `a = x * den + rho`: `x / sp`, `x % sp` and whether `rho` is zero decide it.
#[verifier::spinoff_prover]
proof fn lemma_round_split(a: nat, den: nat, sp: nat, x: nat, rho: nat)
    requires
        sp >= 2,
        sp % 2 == 0,
        den > 0,
        rho < den,
        a == x * den + rho,
    ensures
        ({
            let q = x / sp;
            let rx = x % sp;
            let h = sp / 2;
            round_half_even(a, den * sp) == if rx > h || (rx == h && (rho > 0 || q % 2 == 1)) {
                q + 1
            } else {
                q
            }
        }),
{
    let h = sp / 2;
    let q = x / sp;
    let rx = x % sp;
    lemma_fundamental_div_mod(x as int, sp as int);
    let r = rx * den + rho;
    assert(a == q * (den * sp) + r) by (nonlinear_arith)
        requires a == x * den + rho, x == sp * q + rx, r == rx * den + rho;
    assert(r < den * sp) by (nonlinear_arith) requires rx < sp, rho < den, r == rx * den + rho;
    lemma_fundamental_div_mod_converse(a as int, (den * sp) as int, q as int, r as int);
    assert(a / (den * sp) == q && a % (den * sp) == r);
    if rx > h {
        assert(2 * r > den * sp) by (nonlinear_arith)
            requires rx >= h + 1, sp == 2 * h, r == rx * den + rho, den > 0;
    } else if rx < h {
        assert(2 * r < den * sp) by (nonlinear_arith)
            requires rx + 1 <= h, sp == 2 * h, r == rx * den + rho, rho < den;
    } else {
        assert(2 * r == den * sp + 2 * rho) by (nonlinear_arith)
            requires rx == h, sp == 2 * h, r == rx * den + rho;
    }
}

/// Rounding `A / (den * 2^s)` to even, where `A = X * den + rho`: the bits
/// of `X` below `2^s` and whether `rho` is zero decide it.
pub proof fn lemma_round_from_bits(a: nat, den: nat, s: nat, x: nat, rho: nat)
    requires
        s >= 1,
        den > 0,
        rho < den,
        a == x * den + rho,
    ensures
        ({
            let sp = two_pow(s);
            let q = x / sp;
            let rx = x % sp;
            let h = sp / 2;
            round_half_even(a, den * sp) == if rx > h || (rx == h && (rho > 0 || q % 2 == 1)) {
                q + 1
            } else {
                q
            }
        }),
{
    lemma_two_pow((s - 1) as nat, 0);
    assert(two_pow(s) == 2 * two_pow((s - 1) as nat));
    lemma_round_split(a, den, two_pow(s), x, rho);
}

/// The bits `X` of `num * 2^L / den` place `num / den` in a binade.
pub proof fn lemma_binade_from_bits(num: nat, den: nat, l: nat, s: nat, x: nat, rho: nat)
    requires
        den > 0,
        rho < den,
        num * two_pow(l) == x * den + rho,
        two_pow(52) * two_pow(s) <= x,
        x < two_pow(53) * two_pow(s),
    ensures
        in_binade(num, den, s - l),
{
    lemma_binade_shift(num, den, s - l, l);
    assert((s - l + l) as nat == s);
    let ps = two_pow(s);
    assert(two_pow(52) * den * ps <= num * two_pow(l)) by (nonlinear_arith)
        requires two_pow(52) * ps <= x, num * two_pow(l) == x * den + rho;
    assert(num * two_pow(l) < two_pow(53) * den * ps) by (nonlinear_arith)
        requires x + 1 <= two_pow(53) * ps, num * two_pow(l) == x * den + rho, rho < den;
}

/// The nearest `f64` to a count of at least 2^52 is at least 2^52.
pub proof fn lemma_nearest_f64_large(n: nat)
    requires
        n >= 0x10_0000_0000_0000,
    ensures
        nearest_f64(n) >= 0x10_0000_0000_0000,
{
    lemma_spacing_quotient(n);
    let sp = f64_spacing(n);
    lemma_round_half_even_bounds(n, sp);
    assert(round_half_even(n, sp) * sp >= 0x10_0000_0000_0000) by (nonlinear_arith)
        requires round_half_even(n, sp) >= n / sp, n / sp >= 0x10_0000_0000_0000, sp >= 1;
}

proof fn lemma_spacing_quotient(n: nat)
    requires
        n >= 0x10_0000_0000_0000,
    ensures
        f64_spacing(n) >= 1,
        n / f64_spacing(n) >= 0x10_0000_0000_0000,
    decreases n,
{
    if n >= 0x20_0000_0000_0000 {
        lemma_spacing_quotient(n / 2);
        let sp = f64_spacing(n / 2);
        vstd::arithmetic::div_mod::lemma_div_denominator(n as int, 2, sp as int);
        assert(2 * sp == f64_spacing(n));
        assert((n as int / 2) / (sp as int) == n as int / (2 * sp as int));
        assert(n / f64_spacing(n) == (n / 2) / sp);
    } else {
        assert(f64_spacing(n) == 1);
        assert(n / 1 == n);
    }
}

/// Nothing times anything, rounded, is nothing.
pub proof fn lemma_zero_rounds_to_zero(t: int)
    ensures
        nearest_f64(0) == 0,
        round_half_up_at(0, t) == 0,
{
    assert(f64_spacing(0) == 1);
    assert(round_half_even(0, 1) == 0);
    if t < 0 {
        lemma_two_pow((-t) as nat, 0);
        let d = two_pow((-t) as nat);
        assert((2 * 0 + d) / (2 * d) == 0) by (nonlinear_arith) requires d > 0;
    } else {
        assert(0 * two_pow(t as nat) == 0);
    }
}

/// A count below 2^53, times a power of two, is an `f64` already.
pub proof fn lemma_nearest_f64_exact(z: nat, j: nat)
    requires
        z < 0x20_0000_0000_0000,
    ensures
        nearest_f64(z * two_pow(j)) == z * two_pow(j),
{
    lemma_spacing_divides(z, j);
    let y = z * two_pow(j);
    let sp = f64_spacing(y);
    lemma_fundamental_div_mod(y as int, sp as int);
    assert(y == sp * (y / sp));
    assert(round_half_even(y, sp) == y / sp);
    assert((y / sp) * sp == y) by (nonlinear_arith) requires y == sp * (y / sp);
}

proof fn lemma_spacing_divides(z: nat, j: nat)
    requires
        z < 0x20_0000_0000_0000,
    ensures
        f64_spacing(z * two_pow(j)) > 0,
        (z * two_pow(j)) % f64_spacing(z * two_pow(j)) == 0,
    decreases j,
{
    let y = z * two_pow(j);
    if j == 0 {
        assert(two_pow(0) == 1);
        assert(y == z) by (nonlinear_arith) requires y == z * two_pow(0), two_pow(0) == 1;
        assert(f64_spacing(y) == 1);
    } else if y < 0x20_0000_0000_0000 {
        assert(f64_spacing(y) == 1);
    } else {
        lemma_spacing_divides(z, (j - 1) as nat);
        let y2 = z * two_pow((j - 1) as nat);
        assert(two_pow(j) == 2 * two_pow((j - 1) as nat));
        assert(y == 2 * y2) by (nonlinear_arith) requires y == z * two_pow(j), y2 == z * two_pow((j - 1) as nat), two_pow(j) == 2 * two_pow((j - 1) as nat);
        assert(y / 2 == y2);
        let sp2 = f64_spacing(y2);
        assert(f64_spacing(y) == 2 * sp2);
        lemma_fundamental_div_mod(y2 as int, sp2 as int);
        let k = y2 / sp2;
        assert(y == k * (2 * sp2)) by (nonlinear_arith) requires y == 2 * y2, y2 == sp2 * k + 0;
        vstd::arithmetic::div_mod::lemma_mod_multiples_basic(k as int, (2 * sp2) as int);
    }
}

/// Rounding half to even is off by at most half the denominator:
/// `|round_half_even(num, den) * den - num| <= den / 2`.
pub proof fn lemma_round_half_even_error(num: nat, den: nat)
    requires
        den > 0,
    ensures
        2 * (round_half_even(num, den) * den) <= 2 * num + den,
        2 * num <= 2 * (round_half_even(num, den) * den) + den,
{
    lemma_fundamental_div_mod(num as int, den as int);
    let q = num / den;
    let r = num % den;
    assert((q + 1) * den == q * den + den) by (nonlinear_arith);
    assert(q * den == den * q) by (nonlinear_arith);
}

/// The spacing of `f64` values around `n`: 1 below 2^53, and at most
/// `n / 2^52` above.
pub proof fn lemma_spacing_bound(n: nat)
    ensures
        f64_spacing(n) >= 1,
        n < 0x20_0000_0000_0000 ==> f64_spacing(n) == 1,
        n >= 0x20_0000_0000_0000 ==> f64_spacing(n) * 0x10_0000_0000_0000 <= n,
    decreases n,
{
    if n >= 0x20_0000_0000_0000 {
        lemma_spacing_bound(n / 2);
        assert(f64_spacing(n) == 2 * f64_spacing(n / 2));
    }
}

/// Rounding `y / 2^(-t)` half up, for a negative `t`, is off by at most one
/// half: `|m * 2^(-t) - y| <= 2^(-t) / 2`.
pub proof fn lemma_round_half_up_at_error(y: nat, t: int)
    requires
        t < 0,
    ensures
        2 * (round_half_up_at(y, t) * two_pow((-t) as nat)) <= 2 * y + two_pow((-t) as nat),
        2 * y < 2 * (round_half_up_at(y, t) * two_pow((-t) as nat)) + two_pow((-t) as nat),
{
    let p = two_pow((-t) as nat);
    lemma_two_pow((-t) as nat, 0);
    let a = 2 * y + p;
    let b = 2 * p;
    lemma_fundamental_div_mod(a as int, b as int);
    let m = a / b;
    assert(round_half_up_at(y, t) == m);
    assert(b * m == 2 * (m * p)) by (nonlinear_arith) requires b == 2 * p;
}

} // verus!
