//! Decimal numerals: the strict grammar that both parsers accept for a
//! number (digits and at most one `.`), their exact value, and that value
//! scaled by an integer factor, both exactly and as `f64` arithmetic
//! computes it.

use vstd::prelude::*;
use vstd::arithmetic::div_mod::lemma_fundamental_div_mod;
use vstd::arithmetic::div_mod::lemma_fundamental_div_mod_converse;
use crate::float::{
    lemma_nearest_f64_exact, lemma_round_half_even_error, lemma_round_half_up_at_error,
    round_half_even,
    binade_of, in_binade, lemma_binade_exists, lemma_binade_from_bits, lemma_binade_unique,
    lemma_nearest_f64_large, lemma_round_even_at_shift, lemma_round_from_bits,
    lemma_round_half_even_bounds, lemma_two_pow, lemma_two_pow_values, lemma_zero_rounds_to_zero,
    nearest_f64, nearest_f64_exec, round_even_at, round_half_up_at, two_pow,
};

verus! {

pub open spec fn is_digit(c: char) -> bool {
    '0' <= c && c <= '9'
}

/// The value of a decimal digit character.
pub open spec fn digit_value(c: char) -> nat {
    ((c as u32) - ('0' as u32)) as nat
}

/// The character of the decimal digit `d`.
pub open spec fn digit_char(d: nat) -> char {
    (d + ('0' as u32)) as char
}

/// The number that a string of decimal digits spells (0 for no digits).
pub open spec fn digits_value(s: Seq<char>) -> nat
    decreases s.len(),
{
    if s.len() == 0 {
        0
    } else {
        digits_value(s.drop_last()) * 10 + digit_value(s.last())
    }
}

pub open spec fn pow10(k: nat) -> nat
    decreases k,
{
    if k == 0 {
        1
    } else {
        10 * pow10((k - 1) as nat)
    }
}

/// `num / den` rounded to the nearest integer, halves rounded up.
pub open spec fn round_half_up(num: nat, den: nat) -> nat {
    ((2 * num + den) / (2 * den)) as nat
}

/// A numeral made only of digits and at most one `.`, with at least one
/// digit: `5`, `1.5`, `.5` and `5.` are numerals; ``, `.`, `1.2.3`, `-1`,
/// `+1`, `1e3`, `inf` are not.
pub open spec fn is_strict_numeral(s: Seq<char>) -> bool {
    &&& forall|i: int| 0 <= i < s.len() ==> is_digit(#[trigger] s[i]) || s[i] == '.'
    &&& forall|i: int, j: int|
        0 <= i < j < s.len() && #[trigger] s[i] == '.' ==> #[trigger] s[j] != '.'
    &&& exists|i: int| 0 <= i < s.len() && is_digit(#[trigger] s[i])
}

/// Where the `.` of `s` stands, or `s.len()` when it has none.
pub open spec fn dot_position(s: Seq<char>) -> int {
    if exists|i: int| 0 <= i < s.len() && #[trigger] s[i] == '.' {
        choose|i: int| 0 <= i < s.len() && #[trigger] s[i] == '.'
    } else {
        s.len() as int
    }
}

/// The digits of a numeral before its `.`.
pub open spec fn whole_digits(s: Seq<char>) -> Seq<char> {
    s.take(dot_position(s))
}

/// The digits of a numeral after its `.`.
pub open spec fn fraction_digits(s: Seq<char>) -> Seq<char> {
    if dot_position(s) < s.len() {
        s.skip(dot_position(s) + 1)
    } else {
        Seq::empty()
    }
}

/// `whole.fraction * factor`, rounded to the nearest integer (halves up).
pub open spec fn scaled_value(whole: Seq<char>, fraction: Seq<char>, factor: nat) -> nat {
    let k = fraction.len();
    round_half_up(
        (digits_value(whole) * pow10(k) + digits_value(fraction)) * factor,
        pow10(k),
    )
}

/// The value of the numeral `s` times `factor`, rounded to the nearest
/// integer (halves up).
pub open spec fn scaled_numeral(s: Seq<char>, factor: nat) -> nat {
    scaled_value(whole_digits(s), fraction_digits(s), factor)
}

/// The numerator of `whole.fraction` over `10^fraction.len()`.
pub open spec fn numeral_num(whole: Seq<char>, fraction: Seq<char>) -> nat {
    digits_value(whole) * pow10(fraction.len()) + digits_value(fraction)
}

/// `whole.fraction * factor` as it comes out of `f64` arithmetic: the
/// numeral read as the nearest `f64` (as `str::parse::<f64>` does), the
/// product rounded to the nearest `f64`, that rounded to an integer with
/// halves away from zero (as `f64::round` does). A numeral below 2^-60
/// comes to 0 whatever the factor (the product stays below one half).
pub open spec fn float_scaled(whole: Seq<char>, fraction: Seq<char>, factor: nat) -> nat {
    let num = numeral_num(whole, fraction);
    let den = pow10(fraction.len());
    if num * two_pow(60) < den {
        0
    } else {
        let t = binade_of(num, den);
        round_half_up_at(nearest_f64(round_even_at(num, den, t) * factor), t)
    }
}

/// The numeral `s` times `factor`, computed in `f64`.
pub open spec fn float_scaled_numeral(s: Seq<char>, factor: nat) -> nat {
    float_scaled(whole_digits(s), fraction_digits(s), factor)
}

/// A number of at least 2^65, times a factor of at least 1 and computed in
/// `f64`, does not fit in a `u64`.
proof fn lemma_float_large(num: nat, den: nat, factor: nat)
    requires
        den > 0,
        num >= two_pow(65) * den,
        factor >= 1,
    ensures
        !(num * two_pow(60) < den),
        round_half_up_at(
            nearest_f64(round_even_at(num, den, binade_of(num, den)) * factor),
            binade_of(num, den),
        ) > u64::MAX,
{
    lemma_two_pow_values();
    assert(num * two_pow(60) >= den) by (nonlinear_arith)
        requires num >= two_pow(65) * den, two_pow(65) >= 1, two_pow(60) >= 1;
    assert(num > 0) by (nonlinear_arith) requires num >= two_pow(65) * den, den > 0, two_pow(65) > 0;
    lemma_binade_exists(num, den);
    let t = binade_of(num, den);
    let a = two_pow(52);
    if t < 0 {
        lemma_two_pow((-t) as nat, 0);
        assert(num * two_pow((-t) as nat) < two_pow(53) * den);
        assert(false) by (nonlinear_arith)
            requires num * two_pow((-t) as nat) < two_pow(53) * den, two_pow((-t) as nat) >= 1,
                num >= two_pow(65) * den, two_pow(53) < two_pow(65), den > 0;
    }
    if t <= 12 {
        lemma_two_pow(t as nat, (12 - t) as nat);
        lemma_two_pow((12 - t) as nat, 0);
        assert(two_pow(12) == 4096) by {
            lemma_two_pow(4, 8);
            lemma_two_pow(4, 4);
            reveal_with_fuel(two_pow, 5);
        }
        assert(false) by (nonlinear_arith)
            requires num < two_pow(53) * den * two_pow(t as nat),
                two_pow(t as nat) * two_pow((12 - t) as nat) == 4096,
                two_pow((12 - t) as nat) >= 1, num >= two_pow(65) * den, two_pow(53) * 4096 == two_pow(65),
                den > 0;
    }
    let pt = two_pow(t as nat);
    lemma_two_pow(13, (t - 13) as nat);
    lemma_two_pow((t - 13) as nat, 0);
    assert(two_pow(13) == 8192) by {
        lemma_two_pow(4, 8);
        lemma_two_pow(12, 1);
        lemma_two_pow(4, 4);
        reveal_with_fuel(two_pow, 5);
    }
    assert(pt >= 8192) by (nonlinear_arith)
        requires pt == two_pow(13) * two_pow((t - 13) as nat), two_pow((t - 13) as nat) >= 1, two_pow(13) == 8192;
    lemma_two_pow(t as nat, 0);
    let d = den * pt;
    assert(d > 0) by (nonlinear_arith) requires den > 0, pt > 0, d == den * pt;
    assert(num / d >= a) by (nonlinear_arith) requires a * den * pt <= num, d == den * pt, d > 0;
    lemma_round_half_even_bounds(num, d);
    let m = round_even_at(num, den, t);
    assert(m >= a);
    assert(m * factor >= a) by (nonlinear_arith) requires m >= a, factor >= 1;
    lemma_nearest_f64_large(m * factor);
    let y = nearest_f64(m * factor);
    assert(y * pt >= a * 8192) by (nonlinear_arith) requires y >= a, pt >= 8192;
}

/// A numeral split at its `.`: the digits before it and the digits after.
pub struct Decimal {
    pub whole: Vec<char>,
    pub fraction: Vec<char>,
}

pub open spec fn all_digits(s: Seq<char>) -> bool {
    forall|i: int| 0 <= i < s.len() ==> is_digit(#[trigger] s[i])
}

impl Decimal {
    /// Both parts hold decimal digits only.
    pub open spec fn wf(&self) -> bool {
        all_digits(self.whole@) && all_digits(self.fraction@)
    }

    /// The numeral's value times `factor`, rounded to the nearest integer
    /// (halves up); `None` when that does not fit in a `u64`.
    pub fn scale(&self, factor: u64) -> (res: Option<u64>)
        requires
            self.wf(),
        ensures
            match res {
                Some(v) => v == scaled_value(self.whole@, self.fraction@, factor as nat),
                None => scaled_value(self.whole@, self.fraction@, factor as nat) > u64::MAX,
            },
    {
        let ghost whole = self.whole@;
        let ghost frac = self.fraction@;
        let k = self.fraction.len();
        let ghost p = pow10(k as nat);
        let ghost f = digits_value(frac);
        proof {
            lemma_pow10_positive(k as nat);
        }
        if factor == 0 {
            proof {
                assert((digits_value(whole) * p + f) * 0 == 0) by (nonlinear_arith);
                lemma_round_half_up(0, p);
                assert(0nat % p == 0) by (nonlinear_arith) requires p > 0;
                assert(0nat / p == 0) by (nonlinear_arith) requires p > 0;
            }
            return Some(0);
        }
        // The whole part, saturated at 2^64.

        let cap: u128 = 0x1_0000_0000_0000_0000;
        let mut w: u128 = 0;
        let mut i: usize = 0;
        let nw = self.whole.len();
        while i < nw
            invariant
                i <= nw == whole.len(),
                whole == self.whole@,
                all_digits(whole),
                cap == 0x1_0000_0000_0000_0000u128,
                digits_value(whole.take(i as int)) < cap ==> w == digits_value(
                    whole.take(i as int),
                ),
                digits_value(whole.take(i as int)) >= cap ==> w == cap,
            decreases nw - i,
        {
            let c = self.whole[i];
            assert(is_digit(whole[i as int]));
            let d = ((c as u32) - ('0' as u32)) as u128;
            proof {
                assert(whole.take(i + 1).drop_last() =~= whole.take(i as int));
                assert(whole.take(i + 1).last() == c);
            }
            if w < cap {
                let x = w * 10 + d;
                if x >= cap {
                    w = cap;
                } else {
                    w = x;
                }
            }
            i = i + 1;
        }
        assert(whole.take(nw as int) =~= whole);
        // The fraction part times `factor`, from its last digit to its first.

        let m = factor as u128;
        let mut r: u128 = 0;
        if k > 0 {
            let mut q: u128 = 0;
            let mut j: usize = k;
            proof {
                assert(frac.subrange(k as int, k as int) =~= Seq::<char>::empty());
                assert(0nat * (m as nat) == 0) by (nonlinear_arith);
                assert(0nat / pow10(0) == 0);
            }
            while j > 1
                invariant
                    1 <= j <= k == frac.len(),
                    frac == self.fraction@,
                    all_digits(frac),
                    m == factor,
                    m > 0,
                    q == (digits_value(frac.subrange(j as int, k as int)) * (m as nat)) / pow10(
                        (k - j) as nat,
                    ),
                    q < m,
                decreases j,
            {
                let c = self.fraction[j - 1];
                assert(is_digit(frac[j - 1]));
                let d = ((c as u32) - ('0' as u32)) as u128;
                assert(m * d <= 9 * m) by (nonlinear_arith) requires d <= 9;
                let n = m * d + q;
                proof {
                    lemma_suffix_step(frac, j as int - 1, k as int, m as nat);
                }
                q = n / 10;
                j = j - 1;
            }
            let c = self.fraction[0];
            assert(is_digit(frac[0]));
            let d = ((c as u32) - ('0' as u32)) as u128;
            assert(m * d <= 9 * m) by (nonlinear_arith) requires d <= 9;
            let n = m * d + q;
            proof {
                lemma_suffix_step(frac, 0, k as int, m as nat);
                assert(frac.subrange(0, k as int) =~= frac);
            }
            r = n / 10;
            if n % 10 >= 5 {
                r = r + 1;
            }
            assert(r <= m);
        } else {
            proof {
                assert(frac =~= Seq::<char>::empty());
                lemma_round_half_up(0, 1);
            }
        }
        // Here r == round_half_up(f * factor, p).

        if w == cap {
            proof {
                let wv = digits_value(whole);
                assert(wv >= cap);
                lemma_round_whole(wv * (m as nat), f * (m as nat), p);
                assert((wv * p + f) * (m as nat) == (wv * (m as nat)) * p + f * (m as nat))
                    by (nonlinear_arith);
                assert(wv * (m as nat) >= wv) by (nonlinear_arith) requires m >= 1;
            }
            return None;
        }
        assert(w * m <= 0xffff_ffff_ffff_ffffu128 * 0xffff_ffff_ffff_ffffu128) by (nonlinear_arith)
            requires w < 0x1_0000_0000_0000_0000u128, m <= 0xffff_ffff_ffff_ffffu128;
        let total = w * m + r;
        proof {
            let wv = digits_value(whole);
            lemma_round_whole(wv * (m as nat), f * (m as nat), p);
            assert((wv * p + f) * (m as nat) == (wv * (m as nat)) * p + f * (m as nat))
                by (nonlinear_arith);
        }
        if total > 0xffff_ffff_ffff_ffffu128 {
            None
        } else {
            Some(total as u64)
        }
    }
}

impl Decimal {
    /// The numeral's value times `factor` as `f64` arithmetic computes it
    /// (see `float_scaled`); `None` when that does not fit in a `u64`.
    pub fn scale_as_f64(&self, factor: u64) -> (res: Option<u64>)
        requires
            self.wf(),
        ensures
            match res {
                Some(v) => v == float_scaled(self.whole@, self.fraction@, factor as nat),
                None => float_scaled(self.whole@, self.fraction@, factor as nat) > u64::MAX,
            },
    {
        let ghost whole = self.whole@;
        let ghost frac = self.fraction@;
        let ghost den = pow10(frac.len());
        let ghost num = numeral_num(whole, frac);
        let ghost wv = digits_value(whole);
        let ghost f = digits_value(frac);
        proof {
            lemma_pow10_positive(frac.len());
            lemma_two_pow_values();
            lemma_digits_bound(frac);
        }
        if factor == 0 {
            proof {
                if !(num * two_pow(60) < den) {
                    lemma_zero_rounds_to_zero(binade_of(num, den));
                    assert(round_even_at(num, den, binade_of(num, den)) * 0 == 0);
                }
            }
            return Some(0);
        }
        // The whole part, saturated at 2^65.

        let cap: u128 = 0x2_0000_0000_0000_0000;
        let mut w: u128 = 0;
        let mut i: usize = 0;
        let nw = self.whole.len();
        while i < nw
            invariant
                i <= nw == whole.len(),
                whole == self.whole@,
                all_digits(whole),
                cap == 0x2_0000_0000_0000_0000u128,
                digits_value(whole.take(i as int)) < cap ==> w == digits_value(
                    whole.take(i as int),
                ),
                digits_value(whole.take(i as int)) >= cap ==> w == cap,
            decreases nw - i,
        {
            let c = self.whole[i];
            assert(is_digit(whole[i as int]));
            let d = ((c as u32) - ('0' as u32)) as u128;
            proof {
                assert(whole.take(i + 1).drop_last() =~= whole.take(i as int));
                assert(whole.take(i + 1).last() == c);
            }
            if w < cap {
                let x = w * 10 + d;
                if x >= cap {
                    w = cap;
                } else {
                    w = x;
                }
            }
            i = i + 1;
        }
        assert(whole.take(nw as int) =~= whole);
        if w == cap {
            proof {
                assert(num >= two_pow(65) * den) by (nonlinear_arith)
                    requires num == wv * den + f, wv >= two_pow(65), two_pow(65) == cap;
                lemma_float_large(num, den, factor as nat);
            }
            return None;
        }
        // The bits of num * 2^l / den, and whether anything is left over.

        let l: u32;
        let x: u128;
        let exact: bool;
        let ghost rho: nat;
        if w > 0 {
            let (fq, ex) = fraction_times(&self.fraction, 0x4000_0000_0000_0000);
            l = 62;
            x = w * 0x4000_0000_0000_0000 + fq;
            exact = ex;
            proof {
                let p = two_pow(62);
                rho = (f * p) % den;
                lemma_fundamental_div_mod((f * p) as int, den as int);
                assert(num * p == x * den + rho) by (nonlinear_arith)
                    requires num == wv * den + f, f * p == den * fq + rho, x == wv * p + fq, wv == w;
            }
        } else {
            let (fq, ex) = fraction_times(&self.fraction, 0x100_0000_0000_0000_0000_0000_0000_0000);
            proof {
                assert(wv == 0);
                assert(num == f) by (nonlinear_arith) requires num == wv * den + f, wv == 0;
            }
            if fq < 0x1000_0000_0000_0000 {
                proof {
                    let p = two_pow(120);
                    lemma_fundamental_div_mod((f * p) as int, den as int);
                    assert(num * two_pow(60) < den) by (nonlinear_arith)
                        requires f * p == den * fq + (f * p) % den, (f * p) % den < den,
                            fq + 1 <= two_pow(60), p == two_pow(60) * two_pow(60), num == f,
                            two_pow(60) > 0;
                }
                return Some(0);
            }
            l = 120;
            x = fq;
            exact = ex;
            proof {
                let p = two_pow(120);
                rho = (f * p) % den;
                lemma_fundamental_div_mod((f * p) as int, den as int);
                assert(num * p == x * den + rho) by (nonlinear_arith)
                    requires f * p == den * fq + rho, x == fq, num == f;
            }
        }
        proof {
            assert(rho < den);
            assert(exact == (rho == 0));
            assert(x >= two_pow(60));
        }
        // Halve until 53 bits are left.

        let mut t: u128 = x;
        let mut sp: u128 = 1;
        let mut s: u32 = 0;
        proof {
            assert(two_pow(0) == 1);
        }
        while t >= 0x20_0000_0000_0000
            invariant
                sp == two_pow(s as nat),
                sp > 0,
                t == x / sp,
                x < 0x8000_0000_0000_0000_0000_0000_0000_0000u128,
                x >= 0x10_0000_0000_0000,
                t >= 0x10_0000_0000_0000,
                s <= 75,
            decreases t,
        {
            proof {
                lemma_two_pow_values();
                lemma_two_pow(s as nat, 1);
                assert(two_pow(1) == 2) by {
                    reveal_with_fuel(two_pow, 2);
                }
                vstd::arithmetic::div_mod::lemma_div_denominator(x as int, sp as int, 2);
                assert(x >= sp * 0x20_0000_0000_0000) by (nonlinear_arith)
                    requires t == x / sp, t >= 0x20_0000_0000_0000, sp > 0;
                assert(sp < 0x400_0000_0000_0000_0000u128) by (nonlinear_arith)
                    requires x >= sp * 0x20_0000_0000_0000, x < 0x8000_0000_0000_0000_0000_0000_0000_0000u128;
                assert(s < 75) by {
                    if s >= 75 {
                        lemma_two_pow(75, (s - 75) as nat);
                        lemma_two_pow((s - 75) as nat, 0);
                        lemma_two_pow(65, 10);
                        assert(two_pow(10) == 1024) by {
                            lemma_two_pow(8, 2);
                            lemma_two_pow(4, 4);
                            reveal_with_fuel(two_pow, 5);
                        }
                        assert(false) by (nonlinear_arith)
                            requires sp == two_pow(75) * two_pow((s - 75) as nat),
                                two_pow((s - 75) as nat) >= 1, two_pow(75) == two_pow(65) * 1024,
                                two_pow(65) == 0x2_0000_0000_0000_0000,
                                sp < 0x400_0000_0000_0000_0000u128;
                    }
                }
            }
            t = t / 2;
            sp = sp * 2;
            s = s + 1;
        }
        proof {
            assert(sp < 0x800_0000_0000_0000_0000u128) by (nonlinear_arith)
                requires t == x / sp, t >= 0x10_0000_0000_0000, sp > 0,
                    x < 0x8000_0000_0000_0000_0000_0000_0000_0000u128;
            assert(s >= 1) by {
                if s == 0 {
                    assert(x / 1 == x);
                }
            }
            lemma_fundamental_div_mod(x as int, sp as int);
            assert(two_pow(52) * sp <= x && x < two_pow(53) * sp) by (nonlinear_arith)
                requires t == x / sp, t >= two_pow(52), t < two_pow(53), sp > 0,
                    x == sp * t + x % sp, x % sp < sp;
            lemma_binade_from_bits(num, den, l as nat, s as nat, x as nat, rho);
            assert(num > 0) by (nonlinear_arith)
                requires num * two_pow(l as nat) == x * den + rho, x > 0, den > 0;
            lemma_binade_exists(num, den);
            lemma_binade_unique(num, den, binade_of(num, den), s - l);
            lemma_round_even_at_shift(num, den, s - l, l as nat);
            lemma_round_from_bits(num * two_pow(l as nat), den, s as nat, x as nat, rho);
            assert(!(num * two_pow(60) < den)) by {
                if w > 0 {
                    assert(num * two_pow(60) >= den) by (nonlinear_arith)
                        requires num == wv * den + f, wv >= 1, two_pow(60) >= 1;
                } else {
                    assert(num * two_pow(60) >= den) by (nonlinear_arith)
                        requires num * two_pow(120) == x * den + rho, x >= two_pow(60),
                            two_pow(120) == two_pow(60) * two_pow(60), two_pow(60) > 0;
                }
            }
        }
        // Round the significand to even, multiply, round again.

        let rx = x % sp;
        let h = sp / 2;
        let m = if rx > h || (rx == h && (!exact || t % 2 == 1)) {
            t + 1
        } else {
            t
        };
        assert(m * (factor as u128) <= 0x20_0000_0000_0000u128 * 0xffff_ffff_ffff_ffffu128)
            by (nonlinear_arith) requires m <= 0x20_0000_0000_0000u128, factor <= 0xffff_ffff_ffff_ffffu64;
        let prod = m * (factor as u128);
        let y = nearest_f64_exec(prod);
        let ghost e = s - l;
        if s >= l {
            // Only with l == 62: the result is y * 2^(s - 62).
            let scale = sp / 0x4000_0000_0000_0000;
            proof {
                lemma_two_pow(62, (s - 62) as nat);
                lemma_two_pow((s - 62) as nat, 0);
                vstd::arithmetic::div_mod::lemma_div_multiples_vanish(
                    two_pow((s - 62) as nat) as int,
                    two_pow(62) as int,
                );
                assert(scale == two_pow((s - 62) as nat));
                assert((62 + (s - 62) as nat) as nat == s as nat);
                assert(sp == two_pow(62) * scale);
            }
            if y > 0xffff_ffff_ffff_ffffu128 {
                assert(y * scale >= y) by (nonlinear_arith) requires scale >= 1;
                return None;
            }
            assert(scale <= 0x2000) by {
                lemma_two_pow_values();
                if scale > 0x2000 {
                    assert(false) by (nonlinear_arith)
                        requires scale > 0x2000, sp == two_pow(62) * scale, two_pow(62) == 0x4000_0000_0000_0000,
                            sp < 0x800_0000_0000_0000_0000u128;
                }
            }
            assert(y * scale <= 0xffff_ffff_ffff_ffffu128 * 0x2000) by (nonlinear_arith)
                requires y <= 0xffff_ffff_ffff_ffffu128, scale <= 0x2000;
            let v = y * scale;
            if v > 0xffff_ffff_ffff_ffffu128 {
                None
            } else {
                Some(v as u64)
            }
        } else {
            let big: u128 = if l == 62 {
                0x4000_0000_0000_0000
            } else {
                0x100_0000_0000_0000_0000_0000_0000_0000
            };
            let d = big / sp;
            proof {
                lemma_two_pow(s as nat, (l - s) as nat);
                lemma_two_pow((l - s) as nat, 0);
                vstd::arithmetic::div_mod::lemma_div_multiples_vanish(
                    two_pow((l - s) as nat) as int,
                    two_pow(s as nat) as int,
                );
                assert(big == two_pow(l as nat));
                assert(d == two_pow((l - s) as nat));
                assert(d <= big) by (nonlinear_arith) requires big == sp * d, sp >= 1;
            }
            let v = (2 * y + d) / (2 * d);
            if v > 0xffff_ffff_ffff_ffffu128 {
                None
            } else {
                Some(v as u64)
            }
        }
    }
}

pub proof fn lemma_pow10_positive(k: nat)
    ensures
        pow10(k) > 0,
    decreases k,
{
    if k > 0 {
        lemma_pow10_positive((k - 1) as nat);
    }
}

/// A digit string spells less than `10^len`.
pub proof fn lemma_digits_bound(s: Seq<char>)
    requires
        all_digits(s),
    ensures
        digits_value(s) < pow10(s.len()),
    decreases s.len(),
{
    if s.len() > 0 {
        assert(is_digit(s[s.len() - 1]));
        lemma_digits_bound(s.drop_last());
    }
}

/// The first digit of a digit string weighs `10^(len - 1)`.
pub proof fn lemma_digits_prepend(s: Seq<char>)
    requires
        s.len() > 0,
    ensures
        digits_value(s) == digit_value(s[0]) * pow10((s.len() - 1) as nat) + digits_value(
            s.drop_first(),
        ),
    decreases s.len(),
{
    if s.len() == 1 {
        assert(s.drop_last() =~= Seq::<char>::empty());
        assert(s.drop_first() =~= Seq::<char>::empty());
        assert(digits_value(Seq::<char>::empty()) == 0);
        assert(pow10(0) == 1);
        assert(digits_value(s) == digit_value(s[0]));
        assert(digit_value(s[0]) * 1 == digit_value(s[0]));
    } else {
        let init = s.drop_last();
        let tail = s.drop_first();
        lemma_digits_prepend(init);
        assert(init.drop_first() =~= tail.drop_last());
        assert(init[0] == s[0]);
        assert(tail.last() == s.last());
        let a = digit_value(s[0]);
        let p = pow10((s.len() - 2) as nat);
        let t = digits_value(tail.drop_last());
        let e = digit_value(s.last());
        assert(digits_value(s) == digits_value(init) * 10 + e);
        assert(digits_value(init) == a * p + t);
        assert(digits_value(tail) == t * 10 + e);
        assert(pow10((s.len() - 1) as nat) == 10 * p);
        assert((a * p + t) * 10 + e == a * (10 * p) + (t * 10 + e)) by (nonlinear_arith);
        assert(digits_value(s) == a * pow10((s.len() - 1) as nat) + digits_value(tail));
    }
}

/// `round_half_up` is the quotient, plus one when the remainder is at least
/// half the divisor.
pub proof fn lemma_round_half_up(x: nat, d: nat)
    requires
        d > 0,
    ensures
        round_half_up(x, d) == x / d + (if 2 * (x % d) >= d { 1nat } else { 0nat }),
{
    let q = x / d;
    let r = x % d;
    lemma_fundamental_div_mod(x as int, d as int);
    assert(2 * x + d == q * (2 * d) + (2 * r + d)) by (nonlinear_arith)
        requires x == d * q + r;
    if 2 * r >= d {
        assert(2 * x + d == (q + 1) * (2 * d) + (2 * r - d)) by (nonlinear_arith)
            requires 2 * x + d == q * (2 * d) + (2 * r + d);
        lemma_fundamental_div_mod_converse(
            (2 * x + d) as int,
            (2 * d) as int,
            (q + 1) as int,
            (2 * r - d) as int,
        );
    } else {
        lemma_fundamental_div_mod_converse(
            (2 * x + d) as int,
            (2 * d) as int,
            q as int,
            (2 * r + d) as int,
        );
    }
}

/// Dividing `a * p + v` by `10 * p` only needs `v / p`; the rounded quotient
/// rounds up exactly when the last digit of `a + v / p` is 5 or more.
pub proof fn lemma_shift_digit(a: nat, v: nat, p: nat)
    requires
        p > 0,
    ensures
        (a * p + v) / (10 * p) == (a + v / p) / 10,
        round_half_up(a * p + v, 10 * p) == (a + v / p) / 10 + (if (a + v / p) % 10 >= 5 {
            1nat
        } else {
            0nat
        }),
        (a * p + v) % (10 * p) == ((a + v / p) % 10) * p + v % p,
{
    let q = v / p;
    let rr = v % p;
    lemma_fundamental_div_mod(v as int, p as int);
    let n = a + q;
    let q2 = n / 10;
    let c = n % 10;
    lemma_fundamental_div_mod(n as int, 10);
    assert(a * p + v == q2 * (10 * p) + (c * p + rr)) by (nonlinear_arith)
        requires v == p * q + rr, n == a + q, n == 10 * q2 + c;
    assert(c * p + rr < 10 * p) by (nonlinear_arith) requires c < 10, rr < p;
    lemma_fundamental_div_mod_converse(
        (a * p + v) as int,
        (10 * p) as int,
        q2 as int,
        (c * p + rr) as int,
    );
    lemma_round_half_up(a * p + v, 10 * p);
    if c >= 5 {
        assert(2 * (c * p + rr) >= 10 * p) by (nonlinear_arith) requires c >= 5;
    } else {
        assert(2 * (c * p + rr) < 10 * p) by (nonlinear_arith) requires c <= 4, rr < p;
    }
}

/// A whole multiple of the divisor passes through the rounding unchanged.
pub proof fn lemma_round_whole(x: nat, y: nat, p: nat)
    requires
        p > 0,
    ensures
        round_half_up(x * p + y, p) == x + round_half_up(y, p),
{
    lemma_fundamental_div_mod(y as int, p as int);
    let q = y / p;
    let rr = y % p;
    assert(x * p + y == (x + q) * p + rr) by (nonlinear_arith) requires y == p * q + rr;
    lemma_fundamental_div_mod_converse((x * p + y) as int, p as int, (x + q) as int, rr as int);
    lemma_round_half_up(x * p + y, p);
    lemma_round_half_up(y, p);
}

/// One step of scaling a digit string from its end: knowing the scaled
/// suffix `s[j+1..k]`, the digit `s[j]` gives the scaled suffix `s[j..k]`.
pub proof fn lemma_suffix_step(s: Seq<char>, j: int, k: int, m: nat)
    requires
        0 <= j < k == s.len(),
        all_digits(s),
        m > 0,
    ensures
        ({
            let q = (digits_value(s.subrange(j + 1, k)) * m) / pow10((k - j - 1) as nat);
            let n = m * digit_value(s[j]) + q;
            &&& q < m
            &&& (digits_value(s.subrange(j, k)) * m) / pow10((k - j) as nat) == n / 10
            &&& round_half_up(digits_value(s.subrange(j, k)) * m, pow10((k - j) as nat)) == n / 10
                + (if n % 10 >= 5 { 1nat } else { 0nat })
            &&& n / 10 < m
            &&& ((digits_value(s.subrange(j, k)) * m) % pow10((k - j) as nat) == 0 <==> (n % 10
                == 0 && (digits_value(s.subrange(j + 1, k)) * m) % pow10((k - j - 1) as nat) == 0))
        }),
{
    let t = s.subrange(j, k);
    let u = s.subrange(j + 1, k);
    assert(t.drop_first() =~= u);
    lemma_digits_prepend(t);
    let p = pow10((k - j - 1) as nat);
    lemma_pow10_positive((k - j - 1) as nat);
    let d = digit_value(s[j]);
    assert(is_digit(s[j]));
    assert(d <= 9);
    let sv = digits_value(u);
    assert(all_digits(u));
    lemma_digits_bound(u);
    assert(digits_value(t) * m == (m * d) * p + sv * m) by (nonlinear_arith)
        requires digits_value(t) == d * p + sv;
    lemma_shift_digit(m * d, sv * m, p);
    assert(pow10((k - j) as nat) == 10 * p);
    assert(sv * m < p * m) by (nonlinear_arith) requires sv < p, m > 0;
    assert((sv * m) / p < m) by (nonlinear_arith) requires sv * m < p * m, p > 0;
    let q = (sv * m) / p;
    let n = m * d + q;
    assert(n < 10 * m) by (nonlinear_arith) requires d <= 9, q < m, n == m * d + q;
    assert(n / 10 < m) by (nonlinear_arith) requires n < 10 * m;
    let rr = (sv * m) % p;
    let c = n % 10;
    assert((c * p + rr == 0) <==> (c == 0 && rr == 0)) by (nonlinear_arith) requires p > 0;
}

/// The digits `frac` as a fraction `0.frac`, times `m`: the quotient rounded
/// down, and whether nothing was left over.
pub fn fraction_times(frac: &Vec<char>, m: u128) -> (res: (u128, bool))
    requires
        all_digits(frac@),
        0 < m <= 0x100_0000_0000_0000_0000_0000_0000_0000u128,
    ensures
        res.0 == (digits_value(frac@) * (m as nat)) / pow10(frac@.len()),
        res.1 == ((digits_value(frac@) * (m as nat)) % pow10(frac@.len()) == 0),
        res.0 < m,
{
    let ghost f = frac@;
    let k = frac.len();
    let mut q: u128 = 0;
    let mut exact = true;
    let mut j: usize = k;
    proof {
        assert(f.subrange(k as int, k as int) =~= Seq::<char>::empty());
        assert(0nat * (m as nat) == 0) by (nonlinear_arith);
        assert(pow10(0) == 1);
        assert(0nat / 1 == 0 && 0nat % 1 == 0);
    }
    while j > 0
        invariant
            j <= k == f.len(),
            f == frac@,
            all_digits(f),
            0 < m <= 0x100_0000_0000_0000_0000_0000_0000_0000u128,
            q == (digits_value(f.subrange(j as int, k as int)) * (m as nat)) / pow10(
                (k - j) as nat,
            ),
            exact == ((digits_value(f.subrange(j as int, k as int)) * (m as nat)) % pow10(
                (k - j) as nat,
            ) == 0),
            q < m,
        decreases j,
    {
        let c = frac[j - 1];
        assert(is_digit(f[j - 1]));
        let d = ((c as u32) - ('0' as u32)) as u128;
        assert(m * d <= 9 * m) by (nonlinear_arith) requires d <= 9;
        let n = m * d + q;
        proof {
            lemma_suffix_step(f, j as int - 1, k as int, m as nat);
        }
        exact = exact && n % 10 == 0;
        q = n / 10;
        j = j - 1;
    }
    assert(f.subrange(0, k as int) =~= f);
    (q, exact)
}

/// Checks that `s` is a strict numeral and splits it at its `.`.
pub fn parse_strict_number(s: &[char]) -> (res: Option<Decimal>)
    ensures
        res is Some <==> is_strict_numeral(s@),
        res matches Some(d) ==> d.whole@ == whole_digits(s@) && d.fraction@ == fraction_digits(
            s@,
        ) && d.wf(),
{
    let n = s.len();
    if n == 0 {
        return None;
    }
    let mut dot_seen = false;
    let mut dot: usize = 0;
    let mut digit_seen = false;
    let mut i: usize = 0;
    while i < n
        invariant
            i <= n == s@.len(),
            dot_seen ==> dot < i && s@[dot as int] == '.',
            forall|j: int| 0 <= j < i ==> is_digit(#[trigger] s@[j]) || s@[j] == '.',
            forall|j: int| 0 <= j < i && #[trigger] s@[j] == '.' ==> dot_seen && j == dot,
            digit_seen <==> exists|j: int| 0 <= j < i && is_digit(#[trigger] s@[j]),
        decreases n - i,
    {
        let c = s[i];
        if '0' <= c && c <= '9' {
            digit_seen = true;
        } else if c == '.' && !dot_seen {
            dot_seen = true;
            dot = i;
        } else {
            proof {
                if c == '.' {
                    assert(s@[dot as int] == '.' && s@[i as int] == '.');
                }
            }
            return None;
        }
        i = i + 1;
    }
    if !digit_seen {
        return None;
    }
    proof {
        if dot_seen {
            assert(s@[dot as int] == '.');
            assert(dot_position(s@) == dot);
            assert(all_digits(s@.take(dot as int))) by {
                assert forall|j: int| 0 <= j < dot implies is_digit(#[trigger] s@.take(dot as int)[j]) by {
                    assert(s@.take(dot as int)[j] == s@[j]);
                }
            }
            assert(all_digits(s@.skip(dot + 1))) by {
                assert forall|j: int| 0 <= j < n - dot - 1 implies is_digit(#[trigger] s@.skip(dot + 1)[j]) by {
                    assert(s@.skip(dot + 1)[j] == s@[j + dot + 1]);
                }
            }
        } else {
            assert(!exists|j: int| 0 <= j < s@.len() && #[trigger] s@[j] == '.');
        }
    }
    if dot_seen {
        Some(Decimal { whole: crate::text::copy_range(s, 0, dot), fraction: crate::text::copy_range(s, dot + 1, n) })
    } else {
        Some(Decimal { whole: crate::text::copy_range(s, 0, n), fraction: Vec::new() })
    }
}

/// The decimal digits of `n`, without leading zeros (`0` for zero).
pub open spec fn decimal(n: nat) -> Seq<char>
    decreases n,
{
    if n < 10 {
        seq![digit_char(n)]
    } else {
        decimal(n / 10).push(digit_char(n % 10))
    }
}

/// Appends the decimal digits of `n` to `out`.
pub fn push_decimal(out: &mut Vec<char>, n: u128)
    ensures
        final(out)@ == old(out)@ + decimal(n as nat),
    decreases n,
{
    if n >= 10 {
        push_decimal(out, n / 10);
    }
    let d = (n % 10) as u8;
    out.push((d + 48) as char);
    proof {
        if n < 10 {
            assert(old(out)@ + decimal(n as nat) =~= old(out)@.push(digit_char(n as nat)));
        } else {
            assert(old(out)@ + decimal(n as nat) =~= (old(out)@ + decimal((n / 10) as nat)).push(
                digit_char((n % 10) as nat),
            ));
        }
    }
}

/// The decimal digits of `n` are digits and spell `n`.
pub proof fn lemma_decimal(n: nat)
    ensures
        all_digits(decimal(n)),
        digits_value(decimal(n)) == n,
        decimal(n).len() >= 1,
    decreases n,
{
    assert(digit_value(digit_char(n % 10)) == n % 10);
    if n < 10 {
        assert(decimal(n).drop_last() =~= Seq::<char>::empty());
        assert(n % 10 == n);
        assert(decimal(n).last() == digit_char(n));
        assert(digits_value(decimal(n)) == digits_value(Seq::<char>::empty()) * 10 + digit_value(digit_char(n)));
    } else {
        lemma_decimal(n / 10);
        let s = decimal(n);
        assert(s.drop_last() =~= decimal(n / 10));
        assert(n == (n / 10) * 10 + n % 10);
        assert(s.last() == digit_char(n % 10));
        assert(digits_value(s) == digits_value(decimal(n / 10)) * 10 + digit_value(digit_char(n % 10)));
        assert forall|i: int| 0 <= i < s.len() implies is_digit(#[trigger] s[i]) by {
            if i < s.len() - 1 {
                assert(s[i] == decimal(n / 10)[i]);
            }
        }
    }
}

/// A numeral has at least one character, and each is a digit or a `.`.
pub proof fn lemma_strict_numeral_not_empty(s: Seq<char>)
    requires
        is_strict_numeral(s),
    ensures
        s.len() > 0,
        forall|i: int| 0 <= i < s.len() ==> is_digit(#[trigger] s[i]) || s[i] == '.',
{
}

/// The numeral `decimal(c)` scaled by `per` is exactly `c * per`.
pub proof fn lemma_decimal_numeral(c: nat, per: nat)
    ensures
        whole_digits(decimal(c)) == decimal(c),
        fraction_digits(decimal(c)) == Seq::<char>::empty(),
        is_strict_numeral(decimal(c)),
        scaled_numeral(decimal(c), per) == c * per,
{
    let s = decimal(c);
    lemma_decimal(c);
    assert(is_digit(s[0]));
    assert(!exists|i: int| 0 <= i < s.len() && #[trigger] s[i] == '.') by {
        assert forall|i: int| 0 <= i < s.len() implies #[trigger] s[i] != '.' by {
            assert(is_digit(s[i]));
        }
    }
    assert(whole_digits(s) =~= s);
    assert(fraction_digits(s) =~= Seq::<char>::empty());
    assert(digits_value(Seq::<char>::empty()) == 0);
    assert(pow10(0) == 1);
    assert((c * 1 + 0) * per == c * per) by (nonlinear_arith);
    assert((2 * (c * per) + 1) / 2 == c * per);
}

/// The integer numeral `decimal(c)` times `per`, computed in `f64`, is
/// exactly `c * per` while that stays below 2^53.
pub proof fn lemma_float_integer(c: nat, per: nat)
    requires
        c * per < 0x20_0000_0000_0000,
    ensures
        float_scaled_numeral(decimal(c), per) == c * per,
{
    lemma_decimal_numeral(c, per);
    let s = decimal(c);
    assert(whole_digits(s) =~= s);
    assert(fraction_digits(s) =~= Seq::<char>::empty());
    lemma_decimal(c);
    let num = numeral_num(s, Seq::<char>::empty());
    assert(pow10(0) == 1);
    assert(digits_value(Seq::<char>::empty()) == 0);
    assert(num == c * 1 + 0);
    assert(num == c);
    lemma_two_pow_values();
    if c == 0 {
        assert(0 * per == 0);
        assert(num * two_pow(60) < 1);
    } else {
        assert(num * two_pow(60) >= 1) by (nonlinear_arith) requires num >= 1, two_pow(60) >= 1;
        lemma_binade_exists(c, 1);
        let t = binade_of(c, 1);
        if per == 0 {
            lemma_zero_rounds_to_zero(t);
            assert(round_even_at(c, 1, t) * 0 == 0);
            assert(c * per == 0);
        } else {
            assert(c < 0x20_0000_0000_0000) by (nonlinear_arith)
                requires c * per < 0x20_0000_0000_0000, per >= 1;
            if t >= 1 {
                lemma_two_pow(1, (t - 1) as nat);
                lemma_two_pow((t - 1) as nat, 0);
                assert(two_pow(1) == 2) by {
                    reveal_with_fuel(two_pow, 2);
                }
                assert(false) by (nonlinear_arith)
                    requires two_pow(52) * 1 * two_pow(t as nat) <= c, c < 0x20_0000_0000_0000,
                        two_pow(52) == 0x10_0000_0000_0000,
                        two_pow(t as nat) == two_pow(1) * two_pow((t - 1) as nat),
                        two_pow(1) == 2, two_pow((t - 1) as nat) >= 1;
            }
            if t == 0 {
                assert(two_pow(0) == 1);
                assert(round_half_even(c, 1 * 1) == c);
                lemma_nearest_f64_exact(c * per, 0);
                assert((c * per) * two_pow(0) == c * per) by (nonlinear_arith) requires two_pow(0) == 1;
                assert(round_even_at(c, 1, t) == c);
                assert(nearest_f64(c * per) * 1 == c * per);
            } else {
                let u = (-t) as nat;
                lemma_two_pow(u, 0);
                let pu = two_pow(u);
                assert(round_half_even(c * pu, 1) == c * pu);
                let m = c * pu;
                assert(m * per == (c * per) * pu) by (nonlinear_arith) requires m == c * pu;
                lemma_nearest_f64_exact(c * per, u);
                let y = (c * per) * pu;
                assert((2 * y + pu) / (2 * pu) == c * per) by (nonlinear_arith)
                    requires y == (c * per) * pu, pu > 0;
            }
        }
    }
}

/// A numeral worth `h / 100` (with `1 <= h <= 2^30`) times a power of two
/// `2^k` in `f64`: the result is within one half plus a relative error of
/// 2^-53 of the exact product, that is
/// `|200 * m - 2 * h * 2^k| <= 100 + h * 2^k / 2^52`.
pub proof fn lemma_float_scaled_power(whole: Seq<char>, fraction: Seq<char>, k: nat, h: nat)
    requires
        numeral_num(whole, fraction) * 100 == h * pow10(fraction.len()),
        1 <= h <= 0x4000_0000,
    ensures
        ({
            let m = float_scaled(whole, fraction, two_pow(k));
            let sz = two_pow(k);
            &&& 0x10_0000_0000_0000 * (200 * m) <= 0x10_0000_0000_0000 * (2 * h * sz + 100) + sz * h
            &&& 0x10_0000_0000_0000 * (2 * h * sz) <= 0x10_0000_0000_0000 * (200 * m + 100) + sz
                * h
        }),
{
    let num = numeral_num(whole, fraction);
    let den = pow10(fraction.len());
    let sz = two_pow(k);
    let e52: nat = 0x10_0000_0000_0000;
    lemma_pow10_positive(fraction.len());
    lemma_two_pow_values();
    lemma_two_pow(k, 0);
    assert(num * 100 >= den) by (nonlinear_arith) requires num * 100 == h * den, h >= 1;
    assert(num > 0);
    assert(num * two_pow(60) >= den) by (nonlinear_arith)
        requires num * 100 >= den, two_pow(60) >= 100;
    lemma_binade_exists(num, den);
    let t = binade_of(num, den);
    if t >= 0 {
        lemma_two_pow(t as nat, 0);
        assert(false) by (nonlinear_arith)
            requires
                two_pow(52) * den * two_pow(t as nat) <= num,
                two_pow(t as nat) >= 1,
                num * 100 == h * den,
                den > 0,
                h <= 0x4000_0000,
                two_pow(52) == 0x10_0000_0000_0000;
    }
    let p = two_pow((-t) as nat);
    lemma_two_pow((-t) as nat, 0);
    let big = num * p;
    assert(e52 * den <= big && big < 2 * e52 * den);
    let mm = round_even_at(num, den, t);
    assert(mm == round_half_even(big, den));
    lemma_round_half_even_error(big, den);
    assert(mm <= 2 * e52) by (nonlinear_arith)
        requires 2 * (mm * den) <= 2 * big + den, big < 2 * e52 * den, den > 0;
    if mm < 2 * e52 {
        lemma_nearest_f64_exact(mm, k);
    } else {
        lemma_two_pow(53, k);
        lemma_nearest_f64_exact(1, 53 + k);
        assert(mm * sz == 1 * two_pow(53 + k));
    }
    let prod = mm * sz;
    assert(nearest_f64(prod) == prod);
    let m = round_half_up_at(prod, t);
    assert(float_scaled(whole, fraction, sz) == m);
    lemma_round_half_up_at_error(prod, t);
    // The significand is within one half of `h / 100` at this exponent.
    assert(200 * mm <= 2 * h * p + 100) by (nonlinear_arith)
        requires 2 * (mm * den) <= 2 * big + den, big == num * p, num * 100 == h * den, den > 0;
    assert(2 * h * p <= 200 * mm + 100) by (nonlinear_arith)
        requires 2 * big <= 2 * (mm * den) + den, big == num * p, num * 100 == h * den, den > 0;
    assert(e52 * 100 <= h * p) by (nonlinear_arith)
        requires e52 * den <= big, big == num * p, num * 100 == h * den, den > 0;
    // The rounded product, times `p`, is within `p / 2` of `mm * sz`.
    assert(200 * m * p <= 2 * h * sz * p + 100 * sz + 100 * p) by (nonlinear_arith)
        requires 2 * (m * p) <= 2 * prod + p, prod == mm * sz, 200 * mm <= 2 * h * p + 100;
    assert(2 * h * sz * p <= 200 * m * p + 100 * sz + 100 * p) by (nonlinear_arith)
        requires 2 * prod < 2 * (m * p) + p, prod == mm * sz, 2 * h * p <= 200 * mm + 100;
    assert(e52 * (200 * m) * p <= (e52 * (2 * h * sz + 100) + sz * h) * p) by (nonlinear_arith)
        requires 200 * m * p <= 2 * h * sz * p + 100 * sz + 100 * p, e52 * 100 <= h * p;
    assert(e52 * (2 * h * sz) * p <= (e52 * (200 * m + 100) + sz * h) * p) by (nonlinear_arith)
        requires 2 * h * sz * p <= 200 * m * p + 100 * sz + 100 * p, e52 * 100 <= h * p;
    assert(e52 * (200 * m) <= e52 * (2 * h * sz + 100) + sz * h) by (nonlinear_arith)
        requires e52 * (200 * m) * p <= (e52 * (2 * h * sz + 100) + sz * h) * p, p > 0;
    assert(e52 * (2 * h * sz) <= e52 * (200 * m + 100) + sz * h) by (nonlinear_arith)
        requires e52 * (2 * h * sz) * p <= (e52 * (200 * m + 100) + sz * h) * p, p > 0;
}

} // verus!
