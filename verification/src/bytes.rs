//! Byte sizes: parsing strings like `1.5 MiB` or `2000`, and writing a
//! byte count back out in a human-readable form.
//!
//! Binary units (`KiB` = 1024, `MiB` = 1024^2, ...) and decimal units
//! (`kB` = 1000, `MB` = 1000^2, ...) are accepted, matched
//! case-insensitively. A bare number with no unit counts bytes. `b`/`B`
//! always means bytes, never bits.

use vstd::prelude::*;
use crate::text::{
    chars_of, copy_range, debug_quote, debug_quoted, is_white_space, lower, lower_all, lower_char,
    string_from_chars, trim, trimmed,
};
use crate::float::{
    f64_spacing, lemma_round_half_even_error, lemma_spacing_bound, lemma_two_pow, nearest_f64,
    nearest_f64_exec, round_half_even, round_half_even_exec, two_pow,
};
use vstd::arithmetic::div_mod::lemma_fundamental_div_mod;
use crate::numeral::{
    decimal, digit_char, digit_value, digits_value, dot_position, float_scaled_numeral, is_digit,
    is_strict_numeral, numeral_num, parse_strict_number, pow10, push_decimal, scaled_numeral,
    fraction_digits, whole_digits,
};

verus! {

/// A number of bytes.
#[derive(Debug, Clone, Copy, PartialEq, Eq, Structural, PartialOrd, Ord)]
pub struct ByteSize(u64);

impl View for ByteSize {
    type V = nat;

    closed spec fn view(&self) -> nat {
        self.0 as nat
    }
}

/// A size is its count of bytes: two sizes with the same count are the same
/// value, and every count fits in a `u64`.
pub proof fn lemma_size_is_its_count(a: ByteSize, b: ByteSize)
    ensures
        a@ == b@ <==> a == b,
        a@ <= u64::MAX,
{
}

/// Why a string is not a byte size.
#[derive(Debug, Clone, PartialEq, Eq)]
pub enum ByteSizeError {
    Empty,
    InvalidNumber(String),
    UnknownUnit(String),
    Overflow,
}

/// `ByteSizeError` with its texts taken as character sequences.
pub enum ByteSizeFault {
    Empty,
    InvalidNumber(Seq<char>),
    UnknownUnit(Seq<char>),
    Overflow,
}

impl View for ByteSizeError {
    type V = ByteSizeFault;

    open spec fn view(&self) -> ByteSizeFault {
        match self {
            ByteSizeError::Empty => ByteSizeFault::Empty,
            ByteSizeError::InvalidNumber(s) => ByteSizeFault::InvalidNumber(s@),
            ByteSizeError::UnknownUnit(s) => ByteSizeFault::UnknownUnit(s@),
            ByteSizeError::Overflow => ByteSizeFault::Overflow,
        }
    }
}

/// The message for a refused byte size.
pub open spec fn size_error_text(f: ByteSizeFault) -> Seq<char> {
    match f {
        ByteSizeFault::Empty => "input is empty"@,
        ByteSizeFault::InvalidNumber(s) => "invalid number: "@ + debug_quoted(s),
        ByteSizeFault::UnknownUnit(s) => "unrecognized size or unit: "@ + debug_quoted(s),
        ByteSizeFault::Overflow => "value is too large to represent"@,
    }
}

impl ByteSizeError {
    /// The message that tells a user why the text is not a size.
    pub fn message(&self) -> (text: String)
        ensures
            text@ == size_error_text(self@),
    {
        match self {
            ByteSizeError::Empty => String::from_str("input is empty"),
            ByteSizeError::InvalidNumber(s) => {
                let mut m = String::from_str("invalid number: ");
                let q = debug_quote(s.as_str());
                m.append(q.as_str());
                m
            },
            ByteSizeError::UnknownUnit(s) => {
                let mut m = String::from_str("unrecognized size or unit: ");
                let q = debug_quote(s.as_str());
                m.append(q.as_str());
                m
            },
            ByteSizeError::Overflow => String::from_str("value is too large to represent"),
        }
    }
}

/// How many units the parser knows.
pub open spec fn unit_count() -> int {
    11
}

/// The units in the order they are tried, each before any unit that is a
/// suffix of it ("kib" before "b", "kb" before "b").
pub open spec fn unit_name(i: int) -> Seq<char> {
    if i == 0 {
        seq!['p', 'i', 'b']
    } else if i == 1 {
        seq!['t', 'i', 'b']
    } else if i == 2 {
        seq!['g', 'i', 'b']
    } else if i == 3 {
        seq!['m', 'i', 'b']
    } else if i == 4 {
        seq!['k', 'i', 'b']
    } else if i == 5 {
        seq!['p', 'b']
    } else if i == 6 {
        seq!['t', 'b']
    } else if i == 7 {
        seq!['g', 'b']
    } else if i == 8 {
        seq!['m', 'b']
    } else if i == 9 {
        seq!['k', 'b']
    } else {
        seq!['b']
    }
}

/// Bytes per unit: 1024^5 down to 1024, then 1000^5 down to 1000, then 1.
pub open spec fn unit_factor(i: int) -> nat {
    if i == 0 {
        1125899906842624
    } else if i == 1 {
        1099511627776
    } else if i == 2 {
        1073741824
    } else if i == 3 {
        1048576
    } else if i == 4 {
        1024
    } else if i == 5 {
        1000000000000000
    } else if i == 6 {
        1000000000000
    } else if i == 7 {
        1000000000
    } else if i == 8 {
        1000000
    } else if i == 9 {
        1000
    } else {
        1
    }
}

/// `t`, lower-cased, ends with unit `i`.
pub open spec fn ends_with_unit(t: Seq<char>, i: int) -> bool {
    let u = unit_name(i);
    &&& u.len() <= t.len()
    &&& lower_all(t).subrange(t.len() - u.len(), t.len() as int) == u
}

/// The first unit, from `i` on, that `t` ends with (`unit_count()` if none).
pub open spec fn first_unit(t: Seq<char>, i: int) -> int
    decreases unit_count() - i,
{
    if i >= unit_count() {
        unit_count()
    } else if ends_with_unit(t, i) {
        i
    } else {
        first_unit(t, i + 1)
    }
}

/// The numeral of a byte size and the factor that its unit stands for.
pub open spec fn split_unit(t: Seq<char>) -> (Seq<char>, nat) {
    let u = first_unit(t, 0);
    if u < unit_count() {
        (trim(t.subrange(0, t.len() - unit_name(u).len())), unit_factor(u))
    } else {
        (t, 1)
    }
}

/// The byte count that a numeral and its unit's factor give: `Overflow`
/// when the exact value does not fit in a `u64`, else the value computed in
/// `f64` (numeral read as an `f64`, times the factor, rounded), which can
/// only exceed `u64::MAX` by rounding up to 2^64 and then stands at
/// `u64::MAX`.
pub open spec fn size_of_numeral(x: Seq<char>, factor: nat) -> Result<nat, ByteSizeFault> {
    if scaled_numeral(x, factor) > u64::MAX {
        Err(ByteSizeFault::Overflow)
    } else if float_scaled_numeral(x, factor) > u64::MAX {
        Ok(u64::MAX as nat)
    } else {
        Ok(float_scaled_numeral(x, factor))
    }
}

/// What `s` means as a byte size: the numeral (with white space trimmed
/// around it and between it and its unit) times the unit, as
/// `size_of_numeral` computes it.
pub open spec fn parse_byte_size(s: Seq<char>) -> Result<nat, ByteSizeFault> {
    let t = trim(s);
    if t.len() == 0 {
        Err(ByteSizeFault::Empty)
    } else {
        let (num, factor) = split_unit(t);
        if !is_strict_numeral(num) {
            Err(ByteSizeFault::InvalidNumber(num))
        } else {
            size_of_numeral(num, factor)
        }
    }
}

/// Unit `i`: its name and its factor.
fn unit_entry(i: usize) -> (entry: (Vec<char>, u64))
    requires
        i < unit_count(),
    ensures
        entry.0@ == unit_name(i as int),
        entry.1 == unit_factor(i as int),
{
    if i == 0 {
        (vec!['p', 'i', 'b'], 1125899906842624)
    } else if i == 1 {
        (vec!['t', 'i', 'b'], 1099511627776)
    } else if i == 2 {
        (vec!['g', 'i', 'b'], 1073741824)
    } else if i == 3 {
        (vec!['m', 'i', 'b'], 1048576)
    } else if i == 4 {
        (vec!['k', 'i', 'b'], 1024)
    } else if i == 5 {
        (vec!['p', 'b'], 1000000000000000)
    } else if i == 6 {
        (vec!['t', 'b'], 1000000000000)
    } else if i == 7 {
        (vec!['g', 'b'], 1000000000)
    } else if i == 8 {
        (vec!['m', 'b'], 1000000)
    } else if i == 9 {
        (vec!['k', 'b'], 1000)
    } else {
        (vec!['b'], 1)
    }
}

/// `t`, lower-cased, ends with `u`.
fn ends_with_lowered(t: &[char], u: &[char]) -> (b: bool)
    ensures
        b == (u@.len() <= t@.len() && lower_all(t@).subrange(
            t@.len() - u@.len(),
            t@.len() as int,
        ) == u@),
{
    let n = t.len();
    let ul = u.len();
    if ul > n {
        return false;
    }
    let start = n - ul;
    let mut j: usize = 0;
    while j < ul
        invariant
            j <= ul <= n == t@.len(),
            start == n - ul,
            ul == u@.len(),
            forall|k: int| 0 <= k < j ==> lower(t@[start + k]) == u@[k],
        decreases ul - j,
    {
        if lower_char(t[start + j]) != u[j] {
            assert(lower_all(t@).subrange(start as int, n as int)[j as int] != u@[j as int]);
            return false;
        }
        j = j + 1;
    }
    assert(lower_all(t@).subrange(start as int, n as int) =~= u@);
    true
}

/// `t`, lower-cased, ends with unit `i`.
fn unit_matches(t: &[char], i: usize) -> (b: bool)
    requires
        i < unit_count(),
    ensures
        b == ends_with_unit(t@, i as int),
{
    let (name, _) = unit_entry(i);
    ends_with_lowered(t, name.as_slice())
}

/// The binary steps that `to_string` tries, largest first.
pub open spec fn step_size(i: int) -> nat {
    if i == 0 {
        1125899906842624
    } else if i == 1 {
        1099511627776
    } else if i == 2 {
        1073741824
    } else if i == 3 {
        1048576
    } else {
        1024
    }
}

pub open spec fn step_name(i: int) -> Seq<char> {
    if i == 0 {
        seq!['P', 'i', 'B']
    } else if i == 1 {
        seq!['T', 'i', 'B']
    } else if i == 2 {
        seq!['G', 'i', 'B']
    } else if i == 3 {
        seq!['M', 'i', 'B']
    } else {
        seq!['K', 'i', 'B']
    }
}

/// The first step, from `i` on, that `n` reaches (5 if none).
pub open spec fn first_step(n: nat, i: int) -> int
    decreases 5 - i,
{
    if i >= 5 {
        5
    } else if n >= step_size(i) {
        i
    } else {
        first_step(n, i + 1)
    }
}

/// A number of hundredths written with two decimals, then without its
/// trailing zeros and without a `.` that ends it: `150` is `1.5`, `100` is
/// `1`, `105` is `1.05`.
pub open spec fn hundredths_text(h: nat) -> Seq<char> {
    let f = h % 100;
    decimal(h / 100) + if f == 0 {
        Seq::empty()
    } else if f % 10 == 0 {
        seq!['.', digit_char(f / 10)]
    } else {
        seq!['.', digit_char(f / 10), digit_char(f % 10)]
    }
}

/// How `to_string` writes `n` bytes: in the largest binary unit that `n`
/// reaches, as the `f64` nearest to `n` over that unit rounded to two
/// decimals and trimmed (`1.5 KiB`, `1 MiB`), or as a plain count of bytes
/// below 1 KiB (`1023 B`).
pub open spec fn size_text(n: nat) -> Seq<char> {
    let i = first_step(n, 0);
    if i >= 5 {
        decimal(n) + seq![' ', 'B']
    } else {
        hundredths_text(round_half_even(nearest_f64(n) * 100, step_size(i))) + seq![' ']
            + step_name(i)
    }
}

fn step_size_exec(i: usize) -> (size: u128)
    requires
        i < 5,
    ensures
        size == step_size(i as int),
{
    if i == 0 {
        1125899906842624
    } else if i == 1 {
        1099511627776
    } else if i == 2 {
        1073741824
    } else if i == 3 {
        1048576
    } else {
        1024
    }
}

/// The first letter of step `i`'s name (the rest is `iB`).
fn step_name_exec(i: usize) -> (name: (char,))
    requires
        i < 5,
    ensures
        step_name(i as int) == seq![name.0, 'i', 'B'],
{
    if i == 0 {
        ('P',)
    } else if i == 1 {
        ('T',)
    } else if i == 2 {
        ('G',)
    } else if i == 3 {
        ('M',)
    } else {
        ('K',)
    }
}

impl ByteSize {
    pub fn from_bytes(bytes: u64) -> (size: ByteSize)
        ensures
            size@ == bytes,
    {
        ByteSize(bytes)
    }

    pub fn as_bytes(self) -> (bytes: u64)
        ensures
            bytes == self@,
    {
        self.0
    }

    /// Parses a byte size such as `1.5 MiB`, `2000`, `1kb` or `.5KiB`.
    pub fn from_str(s: &str) -> (res: Result<ByteSize, ByteSizeError>)
        ensures
            match res {
                Ok(size) => parse_byte_size(s@) == Ok::<nat, ByteSizeFault>(size@),
                Err(e) => parse_byte_size(s@) == Err::<nat, ByteSizeFault>(e@),
            },
    {
        let chars = chars_of(s);
        let t = trimmed(chars.as_slice());
        if t.len() == 0 {
            return Err(ByteSizeError::Empty);
        }
        let mut u: usize = 0;
        while u < 11 && !unit_matches(t.as_slice(), u)
            invariant
                u <= 11,
                first_unit(t@, 0) == first_unit(t@, u as int),
            decreases 11 - u,
        {
            u = u + 1;
        }
        let (num, factor) = if u < 11 {
            let (name, factor) = unit_entry(u);
            let head = copy_range(t.as_slice(), 0, t.len() - name.len());
            (trimmed(head.as_slice()), factor)
        } else {
            (t, 1u64)
        };
        assert(split_unit(t@) == (num@, factor as nat));
        match parse_strict_number(num.as_slice()) {
            None => Err(ByteSizeError::InvalidNumber(string_from_chars(num))),
            Some(d) => match d.scale(factor) {
                None => Err(ByteSizeError::Overflow),
                Some(_) => match d.scale_as_f64(factor) {
                    Some(v) => Ok(ByteSize(v)),
                    None => Ok(ByteSize(0xffff_ffff_ffff_ffff)),
                },
            },
        }
    }

    /// Writes the size for people: `0 B`, `1023 B`, `1 KiB`, `1.5 MiB`.
    pub fn to_string(&self) -> (text: String)
        ensures
            text@ == size_text(self@),
    {
        let n = self.0;
        let mut i: usize = 0;
        while i < 5 && (n as u128) < step_size_exec(i)
            invariant
                i <= 5,
                first_step(n as nat, 0) == first_step(n as nat, i as int),
            decreases 5 - i,
        {
            i = i + 1;
        }
        let mut out: Vec<char> = Vec::new();
        if i >= 5 {
            push_decimal(&mut out, n as u128);
            out.push(' ');
            out.push('B');
            proof {
                assert(out@ =~= size_text(n as nat));
            }
            return string_from_chars(out);
        }
        let size = step_size_exec(i);
        let v = nearest_f64_exec(n as u128);
        let h = round_half_even_exec(v * 100, size);
        push_decimal(&mut out, h / 100);
        let f = h % 100;
        if f != 0 {
            out.push('.');
            out.push(((f / 10) as u8 + 48) as char);
            if f % 10 != 0 {
                out.push(((f % 10) as u8 + 48) as char);
            }
        }
        out.push(' ');
        let name = step_name_exec(i);
        out.push(name.0);
        out.push('i');
        out.push('B');
        proof {
            assert(out@ =~= size_text(n as nat));
        }
        string_from_chars(out)
    }
}

/// The unit names are lower-case letters ending in `b`; an earlier unit is
/// never shorter than a later one, and of two units of one length the
/// earlier has another first letter.
proof fn lemma_unit_table(j: int, i: int)
    requires
        0 <= j <= i < unit_count(),
    ensures
        unit_name(i).len() >= 1,
        unit_name(i).last() == 'b',
        forall|k: int|
            0 <= k < unit_name(j).len() ==> 'a' <= #[trigger] unit_name(j)[k] && unit_name(j)[k]
                <= 'z',
        forall|k: int|
            0 <= k < unit_name(i).len() ==> 'a' <= #[trigger] unit_name(i)[k] && unit_name(i)[k]
                <= 'z',
        unit_name(j).len() >= unit_name(i).len(),
        j < i && unit_name(j).len() == unit_name(i).len() ==> unit_name(j)[0] != unit_name(i)[0],
{
}

/// No unit before `i` is a suffix of `x` + `v`, where `v` lower-cased is
/// `unit_name(i)` (or nothing, for `i == unit_count()`), when `x` ends with
/// a numeral character or a space.
proof fn lemma_earlier_units_miss(x: Seq<char>, v: Seq<char>, i: int, j: int)
    requires
        0 <= j < i <= unit_count(),
        x.len() > 0,
        is_digit(x.last()) || x.last() == '.' || is_white_space(x.last()),
        lower_all(v) == (if i < unit_count() { unit_name(i) } else { Seq::empty() }),
    ensures
        !ends_with_unit(x + v, j),
{
    let u = lower_all(v);
    let t = x + v;
    let n = t.len() as int;
    let uj = unit_name(j);
    if i < unit_count() {
        lemma_unit_table(j, i);
    } else {
        lemma_unit_table(j, unit_count() - 1);
    }
    if ends_with_unit(t, j) {
        let low = lower_all(t);
        assert(low.subrange(n - uj.len(), n) == uj);
        if uj.len() > u.len() {
            let k = uj.len() - u.len() - 1;
            assert(low.subrange(n - uj.len(), n)[k] == low[n - u.len() - 1]);
            assert(t[n - u.len() - 1] == x.last());
            assert('a' <= uj[k] && uj[k] <= 'z');
        } else {
            assert(low.subrange(n - uj.len(), n)[0] == low[n - u.len()]);
            assert(t[n - u.len()] == v[0]);
            assert(u[0] == lower(v[0]));
            assert('a' <= u[0] && u[0] <= 'z');
        }
    }
}

proof fn lemma_first_unit_from(t: Seq<char>, i: int, found: int)
    requires
        0 <= i <= found <= unit_count(),
        forall|j: int| i <= j < found ==> !#[trigger] ends_with_unit(t, j),
        found < unit_count() ==> ends_with_unit(t, found),
    ensures
        first_unit(t, i) == found,
    decreases found - i,
{
    if i < found {
        lemma_first_unit_from(t, i + 1, found);
    }
}

/// A numeral followed by a unit is read as the numeral times the unit's
/// factor: `1.5MiB` is 1.5 * 1024^2 bytes, `1kb` is 1000.
pub proof fn numeral_with_unit(x: Seq<char>, i: int)
    requires
        is_strict_numeral(x),
        0 <= i < unit_count(),
    ensures
        parse_byte_size(x + unit_name(i)) == size_of_numeral(x, unit_factor(i)),
{
    let u = unit_name(i);
    let t = x + u;
    crate::numeral::lemma_strict_numeral_not_empty(x);
    lemma_unit_table(0, i);
    assert(is_digit(x.last()) || x.last() == '.');
    assert(t[0] == x[0]);
    assert(is_digit(x[0]) || x[0] == '.');
    assert(t.last() == 'b');
    crate::text::lemma_trim_unchanged(t);
    assert(lower_all(u) =~= u) by {
        assert forall|k: int| 0 <= k < u.len() implies 'a' <= #[trigger] u[k] && u[k] <= 'z' by {
            lemma_unit_table(0, i);
        }
    }
    assert forall|j: int| 0 <= j < i implies !#[trigger] ends_with_unit(t, j) by {
        lemma_earlier_units_miss(x, u, i, j);
    }
    assert(ends_with_unit(t, i)) by {
        assert(lower_all(t).subrange(t.len() - u.len(), t.len() as int) =~= u) by {
            assert forall|k: int| 0 <= k < u.len() implies #[trigger] lower_all(t).subrange(
                t.len() - u.len(),
                t.len() as int,
            )[k] == u[k] by {
                assert(t[x.len() + k] == u[k]);
                assert('a' <= u[k] && u[k] <= 'z');
            }
        }
    }
    lemma_first_unit_from(t, 0, i);
    assert(t.subrange(0, t.len() - u.len()) =~= x);
    crate::text::lemma_trim_unchanged(x);
}

/// A bare number, with no unit, counts bytes.
pub proof fn bare_number_counts_bytes(x: Seq<char>)
    requires
        is_strict_numeral(x),
    ensures
        parse_byte_size(x) == size_of_numeral(x, 1),
{
    crate::numeral::lemma_strict_numeral_not_empty(x);
    assert(is_digit(x.last()) || x.last() == '.');
    assert(is_digit(x[0]) || x[0] == '.');
    crate::text::lemma_trim_unchanged(x);
    assert(x + Seq::<char>::empty() =~= x);
    assert(lower_all(Seq::<char>::empty()) =~= Seq::<char>::empty());
    assert forall|j: int| 0 <= j < unit_count() implies !#[trigger] ends_with_unit(x, j) by {
        lemma_earlier_units_miss(x, Seq::<char>::empty(), unit_count(), j);
    }
    lemma_first_unit_from(x, 0, unit_count());
}

/// A numeral followed by a unit overflows exactly when its exact value
/// times the unit's factor, `num * f / den`, rounds past `u64::MAX`
/// (`2 * num * f >= (2 * u64::MAX + 1) * den`); below that it is a size:
/// the value computed in `f64`, capped at `u64::MAX`. Whatever the unit,
/// no smaller limit applies.
pub proof fn overflow_only_past_u64(x: Seq<char>, i: int)
    requires
        is_strict_numeral(x),
        0 <= i < unit_count(),
    ensures
        ({
            let num = numeral_num(whole_digits(x), fraction_digits(x));
            let den = pow10(fraction_digits(x).len());
            let f = unit_factor(i);
            let r = parse_byte_size(x + unit_name(i));
            &&& (r == Err::<nat, ByteSizeFault>(ByteSizeFault::Overflow)) <==> 2 * (num * f) >= (2
                * (u64::MAX as nat) + 1) * den
            &&& r is Ok <==> 2 * (num * f) < (2 * (u64::MAX as nat) + 1) * den
            &&& r is Ok ==> r->Ok_0 == if float_scaled_numeral(x, f) > u64::MAX {
                u64::MAX as nat
            } else {
                float_scaled_numeral(x, f)
            }
        }),
{
    numeral_with_unit(x, i);
    let num = numeral_num(whole_digits(x), fraction_digits(x));
    let den = pow10(fraction_digits(x).len());
    let f = unit_factor(i);
    crate::numeral::lemma_pow10_positive(fraction_digits(x).len());
    let a = 2 * (num * f) + den;
    let b = 2 * den;
    let r = scaled_numeral(x, f);
    assert(r == a / b);
    lemma_fundamental_div_mod(a as int, b as int);
    let mx = u64::MAX as nat;
    if 2 * (num * f) >= (2 * mx + 1) * den {
        assert(a >= b * (mx + 1)) by (nonlinear_arith)
            requires a == 2 * (num * f) + den, b == 2 * den, 2 * (num * f) >= (2 * mx + 1) * den;
        assert(r >= mx + 1) by (nonlinear_arith)
            requires a == b * r + a % b, a % b < b, a >= b * (mx + 1), b > 0;
    } else {
        assert(a < b * (mx + 1)) by (nonlinear_arith)
            requires a == 2 * (num * f) + den, b == 2 * den, 2 * (num * f) < (2 * mx + 1) * den;
        assert(r <= mx) by (nonlinear_arith)
            requires a == b * r + a % b, a < b * (mx + 1), b > 0;
    }
}

/// A whole count `c` of the `i`-th unit is `c` times its factor.
proof fn lemma_whole_count(c: nat, i: int)
    requires
        0 <= i < unit_count(),
        c * unit_factor(i) < 0x20_0000_0000_0000,
    ensures
        parse_byte_size(decimal(c) + unit_name(i)) == Ok::<nat, ByteSizeFault>(c * unit_factor(i)),
{
    crate::numeral::lemma_decimal_numeral(c, unit_factor(i));
    crate::numeral::lemma_float_integer(c, unit_factor(i));
    numeral_with_unit(decimal(c), i);
}

/// What each unit means: a whole count of `kib`, `mib`, `gib`, `tib`, `pib`
/// is that many powers of 1024 bytes, of `kb`, `mb`, `gb`, `tb`, `pb` that
/// many powers of 1000, and of `b` that many bytes (while the product is
/// below 2^53, where `f64` holds it exactly).
#[verifier::spinoff_prover]
#[verifier::rlimit(60)]
pub proof fn each_unit_counts_bytes(c: nat)
    ensures
        c * 1125899906842624 < 0x20_0000_0000_0000 ==> parse_byte_size(decimal(c) + seq!['p','i','b'])
            == Ok::<nat, ByteSizeFault>(c * 1125899906842624),
        c * 1099511627776 < 0x20_0000_0000_0000 ==> parse_byte_size(decimal(c) + seq!['t','i','b'])
            == Ok::<nat, ByteSizeFault>(c * 1099511627776),
        c * 1073741824 < 0x20_0000_0000_0000 ==> parse_byte_size(decimal(c) + seq!['g','i','b'])
            == Ok::<nat, ByteSizeFault>(c * 1073741824),
        c * 1048576 < 0x20_0000_0000_0000 ==> parse_byte_size(decimal(c) + seq!['m','i','b'])
            == Ok::<nat, ByteSizeFault>(c * 1048576),
        c * 1024 < 0x20_0000_0000_0000 ==> parse_byte_size(decimal(c) + seq!['k','i','b'])
            == Ok::<nat, ByteSizeFault>(c * 1024),
        c * 1000000000000000 < 0x20_0000_0000_0000 ==> parse_byte_size(decimal(c) + seq!['p','b'])
            == Ok::<nat, ByteSizeFault>(c * 1000000000000000),
        c * 1000000000000 < 0x20_0000_0000_0000 ==> parse_byte_size(decimal(c) + seq!['t','b'])
            == Ok::<nat, ByteSizeFault>(c * 1000000000000),
        c * 1000000000 < 0x20_0000_0000_0000 ==> parse_byte_size(decimal(c) + seq!['g','b'])
            == Ok::<nat, ByteSizeFault>(c * 1000000000),
        c * 1000000 < 0x20_0000_0000_0000 ==> parse_byte_size(decimal(c) + seq!['m','b'])
            == Ok::<nat, ByteSizeFault>(c * 1000000),
        c * 1000 < 0x20_0000_0000_0000 ==> parse_byte_size(decimal(c) + seq!['k','b'])
            == Ok::<nat, ByteSizeFault>(c * 1000),
        c * 1 < 0x20_0000_0000_0000 ==> parse_byte_size(decimal(c) + seq!['b'])
            == Ok::<nat, ByteSizeFault>(c * 1),
{
    assert(c * 1125899906842624 < 0x20_0000_0000_0000 ==> parse_byte_size(decimal(c) + seq!['p','i','b'])
        == Ok::<nat, ByteSizeFault>(c * 1125899906842624)) by {
        if c * 1125899906842624 < 0x20_0000_0000_0000 {
            lemma_whole_count(c, 0);
            assert(unit_name(0) =~= seq!['p','i','b']);
        }
    }
    assert(c * 1099511627776 < 0x20_0000_0000_0000 ==> parse_byte_size(decimal(c) + seq!['t','i','b'])
        == Ok::<nat, ByteSizeFault>(c * 1099511627776)) by {
        if c * 1099511627776 < 0x20_0000_0000_0000 {
            lemma_whole_count(c, 1);
            assert(unit_name(1) =~= seq!['t','i','b']);
        }
    }
    assert(c * 1073741824 < 0x20_0000_0000_0000 ==> parse_byte_size(decimal(c) + seq!['g','i','b'])
        == Ok::<nat, ByteSizeFault>(c * 1073741824)) by {
        if c * 1073741824 < 0x20_0000_0000_0000 {
            lemma_whole_count(c, 2);
            assert(unit_name(2) =~= seq!['g','i','b']);
        }
    }
    assert(c * 1048576 < 0x20_0000_0000_0000 ==> parse_byte_size(decimal(c) + seq!['m','i','b'])
        == Ok::<nat, ByteSizeFault>(c * 1048576)) by {
        if c * 1048576 < 0x20_0000_0000_0000 {
            lemma_whole_count(c, 3);
            assert(unit_name(3) =~= seq!['m','i','b']);
        }
    }
    assert(c * 1024 < 0x20_0000_0000_0000 ==> parse_byte_size(decimal(c) + seq!['k','i','b'])
        == Ok::<nat, ByteSizeFault>(c * 1024)) by {
        if c * 1024 < 0x20_0000_0000_0000 {
            lemma_whole_count(c, 4);
            assert(unit_name(4) =~= seq!['k','i','b']);
        }
    }
    assert(c * 1000000000000000 < 0x20_0000_0000_0000 ==> parse_byte_size(decimal(c) + seq!['p','b'])
        == Ok::<nat, ByteSizeFault>(c * 1000000000000000)) by {
        if c * 1000000000000000 < 0x20_0000_0000_0000 {
            lemma_whole_count(c, 5);
            assert(unit_name(5) =~= seq!['p','b']);
        }
    }
    assert(c * 1000000000000 < 0x20_0000_0000_0000 ==> parse_byte_size(decimal(c) + seq!['t','b'])
        == Ok::<nat, ByteSizeFault>(c * 1000000000000)) by {
        if c * 1000000000000 < 0x20_0000_0000_0000 {
            lemma_whole_count(c, 6);
            assert(unit_name(6) =~= seq!['t','b']);
        }
    }
    assert(c * 1000000000 < 0x20_0000_0000_0000 ==> parse_byte_size(decimal(c) + seq!['g','b'])
        == Ok::<nat, ByteSizeFault>(c * 1000000000)) by {
        if c * 1000000000 < 0x20_0000_0000_0000 {
            lemma_whole_count(c, 7);
            assert(unit_name(7) =~= seq!['g','b']);
        }
    }
    assert(c * 1000000 < 0x20_0000_0000_0000 ==> parse_byte_size(decimal(c) + seq!['m','b'])
        == Ok::<nat, ByteSizeFault>(c * 1000000)) by {
        if c * 1000000 < 0x20_0000_0000_0000 {
            lemma_whole_count(c, 8);
            assert(unit_name(8) =~= seq!['m','b']);
        }
    }
    assert(c * 1000 < 0x20_0000_0000_0000 ==> parse_byte_size(decimal(c) + seq!['k','b'])
        == Ok::<nat, ByteSizeFault>(c * 1000)) by {
        if c * 1000 < 0x20_0000_0000_0000 {
            lemma_whole_count(c, 9);
            assert(unit_name(9) =~= seq!['k','b']);
        }
    }
    assert(c * 1 < 0x20_0000_0000_0000 ==> parse_byte_size(decimal(c) + seq!['b'])
        == Ok::<nat, ByteSizeFault>(c * 1)) by {
        if c * 1 < 0x20_0000_0000_0000 {
            lemma_whole_count(c, 10);
            assert(unit_name(10) =~= seq!['b']);
        }
    }
}

/// White space around a size, and between its numeral and its unit, and
/// the letter case of the unit, do not change it: `" 1.5 MiB\t"` is read
/// as `1.5mib`.
pub proof fn spacing_and_case_of_units(
    x: Seq<char>,
    i: int,
    v: Seq<char>,
    w: Seq<char>,
    w1: Seq<char>,
    w2: Seq<char>,
)
    requires
        is_strict_numeral(x),
        0 <= i < unit_count(),
        lower_all(v) == unit_name(i),
        forall|k: int| 0 <= k < w.len() ==> is_white_space(#[trigger] w[k]),
        forall|k: int| 0 <= k < w1.len() ==> is_white_space(#[trigger] w1[k]),
        forall|k: int| 0 <= k < w2.len() ==> is_white_space(#[trigger] w2[k]),
    ensures
        parse_byte_size(w1 + (x + w + v) + w2) == parse_byte_size(x + unit_name(i)),
{
    numeral_with_unit(x, i);
    let xw = x + w;
    let t = xw + v;
    let u = unit_name(i);
    crate::numeral::lemma_strict_numeral_not_empty(x);
    lemma_unit_table(0, i);
    assert(v.len() == u.len());
    crate::text::lemma_trim_padded(w1, t, w2);
    assert(t[0] == x[0]);
    assert(is_digit(x[0]) || x[0] == '.');
    assert(lower_all(v)[v.len() - 1] == lower(v[v.len() - 1]));
    assert(t.last() == v.last());
    assert(u.last() == 'b');
    crate::text::lemma_trim_unchanged(t);
    assert(xw.last() == if w.len() > 0 { w.last() } else { x.last() });
    assert(is_digit(x.last()) || x.last() == '.');
    assert forall|j: int| 0 <= j < i implies !#[trigger] ends_with_unit(t, j) by {
        lemma_earlier_units_miss(xw, v, i, j);
    }
    assert(ends_with_unit(t, i)) by {
        assert(lower_all(t).subrange(t.len() - u.len(), t.len() as int) =~= u) by {
            assert forall|k: int| 0 <= k < u.len() implies #[trigger] lower_all(t).subrange(
                t.len() - u.len(),
                t.len() as int,
            )[k] == u[k] by {
                assert(t[xw.len() + k] == v[k]);
                assert(lower_all(v)[k] == lower(v[k]));
            }
        }
    }
    lemma_first_unit_from(t, 0, i);
    assert(t.subrange(0, t.len() - u.len()) =~= xw);
    crate::text::lemma_trim_padded(Seq::<char>::empty(), x, w);
    assert(Seq::<char>::empty() + x + w =~= xw);
    crate::text::lemma_trim_unchanged(x);
}

/// Counts below 1 KiB come back unchanged from formatting and parsing.
pub proof fn small_sizes_survive_formatting(n: nat)
    requires
        n < 1024,
    ensures
        parse_byte_size(size_text(n)) == Ok::<nat, ByteSizeFault>(n),
{
    assert(first_step(n, 5) == 5);
    assert(first_step(n, 4) == 5);
    assert(first_step(n, 3) == 5);
    assert(first_step(n, 2) == 5);
    assert(first_step(n, 1) == 5);
    assert(first_step(n, 0) == 5);
    let d = decimal(n);
    let x = d + seq![' '];
    let t = size_text(n);
    crate::numeral::lemma_decimal(n);
    crate::numeral::lemma_decimal_numeral(n, 1);
    crate::numeral::lemma_float_integer(n, 1);
    assert(t =~= x + seq!['B']);
    assert(lower_all(seq!['B']) =~= unit_name(10));
    assert(is_digit(d[0]));
    assert(t[0] == d[0]);
    crate::text::lemma_trim_unchanged(t);
    assert forall|j: int| 0 <= j < 10 implies !#[trigger] ends_with_unit(t, j) by {
        lemma_earlier_units_miss(x, seq!['B'], 10, j);
    }
    assert(ends_with_unit(t, 10)) by {
        assert(lower_all(t).subrange(t.len() - 1, t.len() as int) =~= seq!['b']);
    }
    lemma_first_unit_from(t, 0, 10);
    assert(t.subrange(0, t.len() - 1) =~= x);
    assert(is_digit(d.last()));
    assert(crate::text::skip_white_space(x, 0) == 0);
    assert(crate::text::drop_white_space_end(x, x.len() - 1) == x.len() - 1);
    assert(crate::text::drop_white_space_end(x, x.len() as int) == x.len() - 1);
    assert(x.subrange(0, x.len() - 1) =~= d);
    assert(n * 1 == n);
}

proof fn lemma_first_unit_found(t: Seq<char>, i: int)
    requires
        0 <= i <= unit_count(),
    ensures
        i <= first_unit(t, i) <= unit_count(),
        first_unit(t, i) < unit_count() ==> ends_with_unit(t, first_unit(t, i)),
    decreases unit_count() - i,
{
    if i < unit_count() {
        lemma_first_unit_found(t, i + 1);
    }
}

proof fn lemma_first_unit_lowered(t: Seq<char>, i: int)
    requires
        0 <= i <= unit_count(),
    ensures
        first_unit(lower_all(t), i) == first_unit(t, i),
    decreases unit_count() - i,
{
    crate::text::lemma_lower_twice(t);
    if i < unit_count() {
        lemma_first_unit_lowered(t, i + 1);
    }
}

/// A lower-cased text is a numeral exactly when the text is, and then the
/// two are the same.
proof fn lemma_numeral_lowered(y: Seq<char>)
    ensures
        is_strict_numeral(lower_all(y)) == is_strict_numeral(y),
        is_strict_numeral(y) ==> lower_all(y) == y,
{
    let ly = lower_all(y);
    if is_strict_numeral(y) {
        assert(ly =~= y);
    }
    if is_strict_numeral(ly) {
        assert forall|k: int| 0 <= k < y.len() implies ly[k] == y[k] by {
            assert(is_digit(ly[k]) || ly[k] == '.');
        }
        assert(ly =~= y);
    }
}

/// Letter case does not matter: lower-casing the text changes neither
/// whether it is a byte size nor the size it gives.
pub proof fn case_does_not_matter(s: Seq<char>)
    ensures
        parse_byte_size(lower_all(s)) is Ok <==> parse_byte_size(s) is Ok,
        parse_byte_size(s) is Ok ==> parse_byte_size(lower_all(s)) == parse_byte_size(s),
{
    let t = trim(s);
    let lt = trim(lower_all(s));
    crate::text::lemma_trim_lowered(s);
    assert(lt == lower_all(t));
    if t.len() > 0 {
        lemma_first_unit_lowered(t, 0);
        lemma_first_unit_found(t, 0);
        let u = first_unit(t, 0);
        let (num, factor) = split_unit(t);
        let (lnum, lfactor) = split_unit(lt);
        if u < unit_count() {
            let head = t.subrange(0, t.len() - unit_name(u).len());
            assert(lt.subrange(0, lt.len() - unit_name(u).len()) =~= lower_all(head));
            crate::text::lemma_trim_lowered(head);
        }
        assert(lnum == lower_all(num));
        assert(lfactor == factor);
        lemma_numeral_lowered(num);
    }
}

/// `decimal(q)` followed by a `.` and the digits `ds`: its `.` is the one
/// after `decimal(q)`.
proof fn lemma_dotted_numeral(q: nat, ds: Seq<char>)
    requires
        ds.len() >= 1,
        forall|k: int| 0 <= k < ds.len() ==> is_digit(#[trigger] ds[k]),
    ensures
        ({
            let x = decimal(q) + seq!['.'] + ds;
            &&& is_strict_numeral(x)
            &&& whole_digits(x) == decimal(q)
            &&& fraction_digits(x) == ds
            &&& is_digit(x[0])
            &&& is_digit(x.last())
        }),
{
    let d = decimal(q);
    crate::numeral::lemma_decimal(q);
    let x = d + seq!['.'] + ds;
    let p = d.len() as int;
    assert forall|k: int| 0 <= k < x.len() && k != p implies #[trigger] x[k] != '.' && is_digit(x[k]) by {
        if k < p {
            assert(x[k] == d[k]);
        } else {
            assert(x[k] == ds[k - p - 1]);
        }
    }
    assert(x[p] == '.');
    assert(x[0] == d[0]);
    assert(exists|k: int| 0 <= k < x.len() && #[trigger] x[k] == '.');
    let c = choose|k: int| 0 <= k < x.len() && #[trigger] x[k] == '.';
    assert(c == p);
    assert(dot_position(x) == p);
    assert(x.take(p) =~= d);
    assert(x.skip(p + 1) =~= ds);
    assert(x.last() == ds.last());
}

/// The numeral that `to_string` writes for `h` hundredths: a numeral worth
/// exactly `h / 100`.
#[verifier::spinoff_prover]
proof fn lemma_hundredths_numeral(h: nat)
    ensures
        ({
            let x = hundredths_text(h);
            &&& is_strict_numeral(x)
            &&& numeral_num(whole_digits(x), fraction_digits(x)) * 100 == h * pow10(
                fraction_digits(x).len(),
            )
            &&& is_digit(x[0])
            &&& is_digit(x.last())
        }),
{
    let q = h / 100;
    let f = h % 100;
    let d = decimal(q);
    let x = hundredths_text(h);
    crate::numeral::lemma_decimal(q);
    assert(digit_value(digit_char(f / 10)) == f / 10);
    assert(digit_value(digit_char(f % 10)) == f % 10);
    if f == 0 {
        assert(x =~= d);
        crate::numeral::lemma_decimal_numeral(q, 1);
        assert(pow10(0) == 1);
        assert(digits_value(Seq::<char>::empty()) == 0);
        assert(d.last() == d[d.len() - 1]);
    } else if f % 10 == 0 {
        let ds = seq![digit_char(f / 10)];
        assert(x =~= d + seq!['.'] + ds);
        lemma_dotted_numeral(q, ds);
        assert(ds.drop_last() =~= Seq::<char>::empty());
        assert(digits_value(Seq::<char>::empty()) == 0);
        assert(ds.last() == digit_char(f / 10));
        assert(digits_value(ds) == digits_value(ds.drop_last()) * 10 + digit_value(ds.last()));
        assert(digits_value(ds) == f / 10);
        assert(pow10(1) == 10) by {
            reveal_with_fuel(pow10, 2);
        }
        assert((q * 10 + f / 10) * 100 == h * 10);
    } else {
        let ds = seq![digit_char(f / 10), digit_char(f % 10)];
        assert(x =~= d + seq!['.'] + ds);
        lemma_dotted_numeral(q, ds);
        assert(ds.drop_last() =~= seq![digit_char(f / 10)]);
        let d1 = seq![digit_char(f / 10)];
        assert(d1.drop_last() =~= Seq::<char>::empty());
        assert(digits_value(Seq::<char>::empty()) == 0);
        assert(d1.last() == digit_char(f / 10));
        assert(digits_value(d1) == digits_value(d1.drop_last()) * 10 + digit_value(d1.last()));
        assert(digits_value(d1) == f / 10);
        assert(ds.last() == digit_char(f % 10));
        assert(digits_value(ds) == digits_value(ds.drop_last()) * 10 + digit_value(ds.last()));
        assert(digits_value(ds) == (f / 10) * 10 + f % 10);
        assert(pow10(2) == 100) by {
            reveal_with_fuel(pow10, 3);
        }
        assert((q * 100 + f) * 100 == h * 100);
    }
}

proof fn lemma_first_step_props(n: nat, j: int)
    requires
        0 <= j <= 5,
    ensures
        j <= first_step(n, j) <= 5,
        forall|k: int| j <= k < first_step(n, j) ==> n < #[trigger] step_size(k),
        first_step(n, j) < 5 ==> n >= step_size(first_step(n, j)),
    decreases 5 - j,
{
    if j < 5 && n < step_size(j) {
        lemma_first_step_props(n, j + 1);
    }
}

/// The steps are powers of two: `step_size(i) == 2^(50 - 10 i)`.
proof fn lemma_step_powers(i: int)
    requires
        0 <= i < 5,
    ensures
        step_size(i) == two_pow((50 - 10 * i) as nat),
        i > 0 ==> step_size(i - 1) == 1024 * step_size(i),
{
    assert(two_pow(10) == 1024) by {
        reveal_with_fuel(two_pow, 11);
    }
    lemma_two_pow(10, 10);
    lemma_two_pow(20, 10);
    lemma_two_pow(30, 10);
    lemma_two_pow(40, 10);
}

/// A size of at least 1 KiB is written as a numeral, a space and a binary
/// unit, and read back as that numeral times the unit.
#[verifier::spinoff_prover]
proof fn lemma_size_text_parse(n: nat)
    requires
        n >= 1024,
    ensures
        first_step(n, 0) < 5,
        parse_byte_size(size_text(n)) == size_of_numeral(
            hundredths_text(round_half_even(nearest_f64(n) * 100, step_size(first_step(n, 0)))),
            step_size(first_step(n, 0)),
        ),
{
    lemma_first_step_props(n, 0);
    if first_step(n, 0) == 5 {
        assert(n < step_size(4));
    }
    let i = first_step(n, 0);
    let h = round_half_even(nearest_f64(n) * 100, step_size(i));
    let x = hundredths_text(h);
    lemma_hundredths_numeral(h);
    let x1 = x + seq![' '];
    let v = step_name(i);
    let t = size_text(n);
    assert(t =~= x1 + v);
    assert(lower_all(v) =~= unit_name(i));
    assert(unit_factor(i) == step_size(i));
    assert(t[0] == x[0]);
    assert(t.last() == 'B');
    crate::text::lemma_trim_unchanged(t);
    assert(x1.last() == ' ');
    assert forall|j: int| 0 <= j < i implies !#[trigger] ends_with_unit(t, j) by {
        lemma_earlier_units_miss(x1, v, i, j);
    }
    let u = unit_name(i);
    assert(ends_with_unit(t, i)) by {
        assert(lower_all(t).subrange(t.len() - u.len(), t.len() as int) =~= u) by {
            assert forall|k: int| 0 <= k < u.len() implies #[trigger] lower_all(t).subrange(
                t.len() - u.len(),
                t.len() as int,
            )[k] == u[k] by {
                assert(t[x1.len() + k] == v[k]);
                assert(lower_all(v)[k] == lower(v[k]));
            }
        }
    }
    lemma_first_unit_from(t, 0, i);
    assert(t.subrange(0, t.len() - u.len()) =~= x1);
    assert(crate::text::skip_white_space(x1, 0) == 0);
    assert(x1[x1.len() - 2] == x.last());
    assert(crate::text::drop_white_space_end(x1, x1.len() - 1) == x1.len() - 1);
    assert(crate::text::drop_white_space_end(x1, x1.len() as int) == x1.len() - 1);
    assert(x1.subrange(0, x1.len() - 1) =~= x);
}

/// The three roundings of formatting then parsing, added up: the count as
/// an `f64` (`nf`, off by `sp / 2`), over the unit `sz` to two decimals
/// (`hs` for hundredths times `sz`, off by `sz / 2`), and the numeral read
/// back and scaled in `f64` (`m`).
proof fn lemma_close_arith(n: nat, nf: nat, sp: nat, sz: nat, hs: nat, m: nat)
    requires
        sz >= 1024,
        n <= 16384 * sz,
        2 * nf <= 2 * n + sp,
        2 * n <= 2 * nf + sp,
        sp == 1 || 0x10_0000_0000_0000 * sp <= n,
        2 * hs <= 200 * nf + sz,
        200 * nf <= 2 * hs + sz,
        hs <= 2097152 * sz,
        0x10_0000_0000_0000 * (200 * m) <= 0x10_0000_0000_0000 * (2 * hs + 100) + hs,
        0x10_0000_0000_0000 * (2 * hs) <= 0x10_0000_0000_0000 * (200 * m + 100) + hs,
    ensures
        100 * m <= 100 * n + sz,
        100 * n <= 100 * m + sz,
{
}

/// Bounds on the hundredths that `to_string` writes for a count `n` of at
/// least the unit `sz`.
proof fn lemma_hundredths_bounds(n: nat, nf: nat, sp: nat, sz: nat, h: nat)
    requires
        sz >= 1024,
        sz <= n <= 16384 * sz,
        2 * nf <= 2 * n + sp,
        2 * n <= 2 * nf + sp,
        sp == 1 || 0x10_0000_0000_0000 * sp <= n,
        2 * (h * sz) <= 200 * nf + sz,
        200 * nf <= 2 * (h * sz) + sz,
    ensures
        1 <= h <= 2097152,
        h * sz <= 2097152 * sz,
{
    let hs = h * sz;
    assert(hs <= 2097152 * sz && hs >= 1);
    assert(h <= 2097152) by (nonlinear_arith) requires h * sz <= 2097152 * sz, sz > 0;
    assert(h >= 1) by (nonlinear_arith) requires h * sz >= 1;
}

/// The exact value of the numeral for `h` hundredths, times `sz`, rounded:
/// at most `h * sz / 100` plus one half.
proof fn lemma_exact_hundredths(x: Seq<char>, h: nat, sz: nat)
    requires
        numeral_num(whole_digits(x), fraction_digits(x)) * 100 == h * pow10(
            fraction_digits(x).len(),
        ),
    ensures
        200 * scaled_numeral(x, sz) <= 2 * (h * sz) + 100,
{
    let num = numeral_num(whole_digits(x), fraction_digits(x));
    let den = pow10(fraction_digits(x).len());
    crate::numeral::lemma_pow10_positive(fraction_digits(x).len());
    let r = scaled_numeral(x, sz);
    assert(r == ((2 * (num * sz) + den) / (2 * den)) as nat);
    lemma_fundamental_div_mod((2 * (num * sz) + den) as int, (2 * den) as int);
    assert(200 * r <= 2 * (h * sz) + 100) by (nonlinear_arith)
        requires
            (2 * den) * r <= 2 * (num * sz) + den,
            num * 100 == h * den,
            den > 0;
}

/// A size of at least 1 KiB (and below 16384 PiB) written by `to_string`
/// and parsed back is within a hundredth of the unit that it was written
/// in: `to_string` keeps two decimals of that unit.
#[verifier::spinoff_prover]
pub proof fn formatting_then_parsing_is_close(n: nat)
    requires
        1024 <= n <= 16383 * 1125899906842624,
    ensures
        parse_byte_size(size_text(n)) is Ok,
        ({
            let m = parse_byte_size(size_text(n))->Ok_0;
            let unit = step_size(first_step(n, 0));
            100 * m <= 100 * n + unit && 100 * n <= 100 * m + unit
        }),
{
    lemma_size_text_parse(n);
    lemma_first_step_props(n, 0);
    let i = first_step(n, 0);
    lemma_step_powers(i);
    let sz = step_size(i);
    let k = (50 - 10 * i) as nat;
    assert(n <= 16384 * sz) by {
        if i > 0 {
            assert(n < step_size(i - 1));
        }
    }
    let sp = f64_spacing(n);
    let nf = nearest_f64(n);
    lemma_spacing_bound(n);
    lemma_round_half_even_error(n, sp);
    let h = round_half_even(nf * 100, sz);
    lemma_round_half_even_error(nf * 100, sz);
    lemma_hundredths_bounds(n, nf, sp, sz, h);
    let x = hundredths_text(h);
    lemma_hundredths_numeral(h);
    crate::numeral::lemma_float_scaled_power(whole_digits(x), fraction_digits(x), k, h);
    let m = float_scaled_numeral(x, sz);
    assert(two_pow(k) == sz);
    assert(m == crate::numeral::float_scaled(whole_digits(x), fraction_digits(x), two_pow(k)));
    let hs = h * sz;
    assert(sz * h == hs && 2 * h * sz == 2 * hs) by (nonlinear_arith) requires hs == h * sz;
    assert(0x10_0000_0000_0000 * (200 * m) <= 0x10_0000_0000_0000 * (2 * hs + 100) + hs);
    assert(0x10_0000_0000_0000 * (2 * hs) <= 0x10_0000_0000_0000 * (200 * m + 100) + hs);
    lemma_close_arith(n, nf, sp, sz, hs, m);
    lemma_exact_hundredths(x, h, sz);
}

impl std::str::FromStr for ByteSize {
    type Err = ByteSizeError;

    fn from_str(s: &str) -> (res: Result<ByteSize, ByteSizeError>)
        ensures
            match res {
                Ok(size) => parse_byte_size(s@) == Ok::<nat, ByteSizeFault>(size@),
                Err(e) => parse_byte_size(s@) == Err::<nat, ByteSizeFault>(e@),
            },
    {
        ByteSize::from_str(s)
    }
}

} // verus!
