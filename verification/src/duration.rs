//! Durations: parsing strings like `1h30m` or `500ms`, and writing a
//! `std::time::Duration` back out the same way.
//!
//! A unit is always required (`"100"` is refused). Units (`d`, `h`, `m`,
//! `s`, `ms`) go from largest to smallest, each at most once, with no
//! white space between components: `1d2h3m4s5ms` parses, `1h1h` and `1m1h`
//! do not.

use vstd::prelude::*;
use std::time::Duration;
use crate::text::{
    chars_of, copy_range, debug_quote, debug_quoted, is_white_space, lower, lower_all, lowered,
    string_from_chars, trim, trimmed,
};
use crate::numeral::{
    decimal, digits_value, float_scaled_numeral, is_digit, is_strict_numeral, parse_strict_number,
    push_decimal,
};

verus! {

/// The nanoseconds in a duration, as `Duration::as_nanos` counts them.
pub uninterp spec fn duration_nanos(d: Duration) -> nat;

/// The whole milliseconds in a duration: its nanoseconds over a million,
/// rounded down.
pub open spec fn duration_millis(d: Duration) -> nat {
    duration_nanos(d) / 1_000_000
}

/// Wraps `Duration::as_millis`: the total number of whole milliseconds in
/// `d`, that is its nanoseconds over a million, rounded down.
#[verifier::external_body]
fn millis_of(d: &Duration) -> (ms: u128)
    ensures
        ms == duration_nanos(*d) / 1_000_000,
{
    d.as_millis()
}

/// Wraps `Duration::from_millis`: a duration of exactly `ms` milliseconds,
/// with no nanoseconds beyond them.
#[verifier::external_body]
fn duration_from_millis(ms: u64) -> (d: Duration)
    ensures
        duration_nanos(d) == ms * 1_000_000,
{
    Duration::from_millis(ms)
}

/// Why a string is not a duration.
#[derive(Debug, Clone, PartialEq, Eq)]
pub enum DurationError {
    Empty,
    MissingNumber(String),
    MissingUnit(String),
    UnknownUnit(String),
    InvalidNumber(String),
    DuplicateUnit(String),
    OutOfOrder(String),
    Overflow,
}

/// `DurationError` with its texts taken as character sequences.
pub enum DurationFault {
    Empty,
    MissingNumber(Seq<char>),
    MissingUnit(Seq<char>),
    UnknownUnit(Seq<char>),
    InvalidNumber(Seq<char>),
    DuplicateUnit(Seq<char>),
    OutOfOrder(Seq<char>),
    Overflow,
}

impl View for DurationError {
    type V = DurationFault;

    open spec fn view(&self) -> DurationFault {
        match self {
            DurationError::Empty => DurationFault::Empty,
            DurationError::MissingNumber(s) => DurationFault::MissingNumber(s@),
            DurationError::MissingUnit(s) => DurationFault::MissingUnit(s@),
            DurationError::UnknownUnit(s) => DurationFault::UnknownUnit(s@),
            DurationError::InvalidNumber(s) => DurationFault::InvalidNumber(s@),
            DurationError::DuplicateUnit(s) => DurationFault::DuplicateUnit(s@),
            DurationError::OutOfOrder(s) => DurationFault::OutOfOrder(s@),
            DurationError::Overflow => DurationFault::Overflow,
        }
    }
}

/// The message for a refused duration.
pub open spec fn duration_error_text(f: DurationFault) -> Seq<char> {
    match f {
        DurationFault::Empty => "input is empty"@,
        DurationFault::MissingNumber(s) => "expected a number, found: "@ + debug_quoted(s),
        DurationFault::MissingUnit(s) => "missing unit after "@ + debug_quoted(s) + " (expected d, h, m, s, or ms)"@,
        DurationFault::UnknownUnit(s) => "unrecognized duration unit: "@ + debug_quoted(s),
        DurationFault::InvalidNumber(s) => "invalid number: "@ + debug_quoted(s),
        DurationFault::DuplicateUnit(s) => "unit "@ + debug_quoted(s) + " used more than once"@,
        DurationFault::OutOfOrder(s) => "unit "@ + debug_quoted(s) + " is out of order (units must go from largest to smallest: d, h, m, s, ms)"@,
        DurationFault::Overflow => "duration is too large to represent"@,
    }
}

impl DurationError {
    /// The message that tells a user why the text is not a duration.
    pub fn message(&self) -> (text: String)
        ensures
            text@ == duration_error_text(self@),
    {
        match self {
            DurationError::Empty => String::from_str("input is empty"),
            DurationError::MissingNumber(s) => {
                let mut m = String::from_str("expected a number, found: ");
                let q = debug_quote(s.as_str());
                m.append(q.as_str());
                m
            },
            DurationError::MissingUnit(s) => {
                let mut m = String::from_str("missing unit after ");
                let q = debug_quote(s.as_str());
                m.append(q.as_str());
                m.append(" (expected d, h, m, s, or ms)");
                m
            },
            DurationError::UnknownUnit(s) => {
                let mut m = String::from_str("unrecognized duration unit: ");
                let q = debug_quote(s.as_str());
                m.append(q.as_str());
                m
            },
            DurationError::InvalidNumber(s) => {
                let mut m = String::from_str("invalid number: ");
                let q = debug_quote(s.as_str());
                m.append(q.as_str());
                m
            },
            DurationError::DuplicateUnit(s) => {
                let mut m = String::from_str("unit ");
                let q = debug_quote(s.as_str());
                m.append(q.as_str());
                m.append(" used more than once");
                m
            },
            DurationError::OutOfOrder(s) => {
                let mut m = String::from_str("unit ");
                let q = debug_quote(s.as_str());
                m.append(q.as_str());
                m.append(" is out of order (units must go from largest to smallest: d, h, m, s, ms)");
                m
            },
            DurationError::Overflow => String::from_str("duration is too large to represent"),
        }
    }
}

/// A lower-case unit's rank and its length in milliseconds. Ranks must
/// strictly increase from one component to the next.
pub open spec fn duration_unit(u: Seq<char>) -> Option<(nat, nat)> {
    if u == seq!['d'] {
        Some((0, 86_400_000))
    } else if u == seq!['h'] {
        Some((1, 3_600_000))
    } else if u == seq!['m'] {
        Some((2, 60_000))
    } else if u == seq!['s'] {
        Some((3, 1_000))
    } else if u == seq!['m', 's'] {
        Some((4, 1))
    } else {
        None
    }
}

/// The rank and milliseconds of a lower-case unit.
pub fn unit_info(unit: &[char]) -> (info: Option<(u8, u64)>)
    ensures
        match info {
            Some((rank, ms)) => duration_unit(unit@) == Some((rank as nat, ms as nat)),
            None => duration_unit(unit@) is None,
        },
{
    if unit.len() == 1 {
        let c = unit[0];
        if c == 'd' {
            assert(unit@ =~= seq!['d']);
            Some((0, 86_400_000))
        } else if c == 'h' {
            assert(unit@ =~= seq!['h']);
            Some((1, 3_600_000))
        } else if c == 'm' {
            assert(unit@ =~= seq!['m']);
            Some((2, 60_000))
        } else if c == 's' {
            assert(unit@ =~= seq!['s']);
            Some((3, 1_000))
        } else {
            None
        }
    } else if unit.len() == 2 && unit[0] == 'm' && unit[1] == 's' {
        assert(unit@ =~= seq!['m', 's']);
        Some((4, 1))
    } else {
        None
    }
}

/// A character that can stand in a numeral.
pub open spec fn is_number_char(c: char) -> bool {
    is_digit(c) || c == '.'
}

pub open spec fn is_ascii_letter(c: char) -> bool {
    ('a' <= c && c <= 'z') || ('A' <= c && c <= 'Z')
}

/// The end of the run of numeral characters that starts at `i`.
pub open spec fn number_end(t: Seq<char>, i: int) -> int
    decreases t.len() - i,
{
    if 0 <= i < t.len() && is_number_char(t[i]) {
        number_end(t, i + 1)
    } else {
        i
    }
}

/// The end of the run of ASCII letters that starts at `i`.
pub open spec fn letters_end(t: Seq<char>, i: int) -> int
    decreases t.len() - i,
{
    if 0 <= i < t.len() && is_ascii_letter(t[i]) {
        letters_end(t, i + 1)
    } else {
        i
    }
}

pub proof fn lemma_number_end(t: Seq<char>, i: int)
    requires
        0 <= i,
    ensures
        i <= number_end(t, i),
        i <= t.len() ==> number_end(t, i) <= t.len(),
    decreases t.len() - i,
{
    if 0 <= i < t.len() && is_number_char(t[i]) {
        lemma_number_end(t, i + 1);
    }
}

pub proof fn lemma_letters_end(t: Seq<char>, i: int)
    requires
        0 <= i,
    ensures
        i <= letters_end(t, i),
        i <= t.len() ==> letters_end(t, i) <= t.len(),
    decreases t.len() - i,
{
    if 0 <= i < t.len() && is_ascii_letter(t[i]) {
        lemma_letters_end(t, i + 1);
    }
}

/// The milliseconds that the components of `t` from `i` on add to `total`,
/// given the rank of the unit before `i`, or why they are not a duration.
pub open spec fn parse_components(
    t: Seq<char>,
    i: int,
    last: Option<nat>,
    total: nat,
) -> Result<nat, DurationFault>
    decreases t.len() - i,
{
    if i < 0 || i >= t.len() {
        if total > u64::MAX {
            Err(DurationFault::Overflow)
        } else {
            Ok(total)
        }
    } else {
        let j = number_end(t, i);
        if j == i {
            Err(DurationFault::MissingNumber(t.subrange(i, t.len() as int)))
        } else {
            let num = t.subrange(i, j);
            if !is_strict_numeral(num) {
                Err(DurationFault::InvalidNumber(num))
            } else {
                let k = letters_end(t, j);
                if k == j {
                    Err(DurationFault::MissingUnit(num))
                } else {
                    let unit = t.subrange(j, k);
                    match duration_unit(lower_all(unit)) {
                        None => Err(DurationFault::UnknownUnit(unit)),
                        Some((rank, per)) => {
                            if last is Some && rank == last->0 {
                                Err(DurationFault::DuplicateUnit(unit))
                            } else if last is Some && rank < last->0 {
                                Err(DurationFault::OutOfOrder(unit))
                            } else {
                                proof {
                                    lemma_number_end(t, i);
                                    lemma_letters_end(t, j);
                                }
                                parse_components(
                                    t,
                                    k,
                                    Some(rank),
                                    total + float_scaled_numeral(num, per),
                                )
                            }
                        },
                    }
                }
            }
        }
    }
}

/// What `s` means as a duration, in milliseconds: the sum over its
/// components (white space trimmed around the whole) of the numeral times
/// its unit, each computed in `f64` and rounded to a whole millisecond
/// (see `float_scaled`).
pub open spec fn parse_duration_millis(s: Seq<char>) -> Result<nat, DurationFault> {
    let t = trim(s);
    if t.len() == 0 {
        Err(DurationFault::Empty)
    } else {
        parse_components(t, 0, None, 0)
    }
}

/// Parses a duration such as `1h30m`, `1.5h`, `500ms` or `1d2h3m4s5ms`.
pub fn parse_duration(s: &str) -> (res: Result<Duration, DurationError>)
    ensures
        match res {
            Ok(d) => parse_duration_millis(s@) == Ok::<nat, DurationFault>(duration_millis(d))
                && duration_nanos(d) == duration_millis(d) * 1_000_000,
            Err(e) => parse_duration_millis(s@) == Err::<nat, DurationFault>(e@),
        },
{
    let chars = chars_of(s);
    let t = trimmed(chars.as_slice());
    if t.len() == 0 {
        return Err(DurationError::Empty);
    }
    let n = t.len();
    let mut i: usize = 0;
    let mut total: u64 = 0;
    let mut overflow = false;
    let mut last: Option<u8> = None;
    let ghost mut total_ms: nat = 0;
    let ghost mut last_rank: Option<nat> = None;
    while i < n
        invariant
            i <= n == t@.len(),
            parse_duration_millis(s@) == parse_components(t@, i as int, last_rank, total_ms),
            overflow <==> total_ms > u64::MAX,
            !overflow ==> total == total_ms,
            match last {
                Some(r) => last_rank == Some(r as nat),
                None => last_rank is None,
            },
        decreases n - i,
    {
        let num_start = i;
        while i < n && (('0' <= t[i] && t[i] <= '9') || t[i] == '.')
            invariant
                num_start <= i <= n == t@.len(),
                number_end(t@, num_start as int) == number_end(t@, i as int),
            decreases n - i,
        {
            i = i + 1;
        }
        if i == num_start {
            return Err(DurationError::MissingNumber(string_from_chars(copy_range(t.as_slice(), i, n))));
        }
        let num = copy_range(t.as_slice(), num_start, i);
        let d = match parse_strict_number(num.as_slice()) {
            Some(d) => d,
            None => return Err(DurationError::InvalidNumber(string_from_chars(num))),
        };
        let unit_start = i;
        while i < n && (('a' <= t[i] && t[i] <= 'z') || ('A' <= t[i] && t[i] <= 'Z'))
            invariant
                unit_start <= i <= n == t@.len(),
                letters_end(t@, unit_start as int) == letters_end(t@, i as int),
            decreases n - i,
        {
            i = i + 1;
        }
        if i == unit_start {
            return Err(DurationError::MissingUnit(string_from_chars(num)));
        }
        let unit = copy_range(t.as_slice(), unit_start, i);
        let unit_lower = lowered(unit.as_slice());
        let (rank, ms_per_unit) = match unit_info(unit_lower.as_slice()) {
            Some(info) => info,
            None => return Err(DurationError::UnknownUnit(string_from_chars(unit))),
        };
        if let Some(prev) = last {
            if rank == prev {
                return Err(DurationError::DuplicateUnit(string_from_chars(unit)));
            }
            if rank < prev {
                return Err(DurationError::OutOfOrder(string_from_chars(unit)));
            }
        }
        last = Some(rank);
        match d.scale_as_f64(ms_per_unit) {
            None => {
                overflow = true;
            },
            Some(v) => {
                if !overflow {
                    match total.checked_add(v) {
                        Some(x) => {
                            total = x;
                        },
                        None => {
                            overflow = true;
                        },
                    }
                }
            },
        }
        proof {
            total_ms = total_ms + float_scaled_numeral(num@, ms_per_unit as nat);
            last_rank = Some(rank as nat);
        }
    }
    if overflow {
        Err(DurationError::Overflow)
    } else {
        Ok(duration_from_millis(total))
    }
}

/// `count` followed by the unit `name`, or nothing when `count` is 0.
pub open spec fn component_text(count: nat, name: Seq<char>) -> Seq<char> {
    if count > 0 {
        decimal(count) + name
    } else {
        Seq::empty()
    }
}

/// How `format_duration` writes `ms` milliseconds: whole days, hours,
/// minutes, seconds and the milliseconds left over, each only when it is
/// not 0; `0s` for no time at all.
pub open spec fn duration_text(ms: nat) -> Seq<char> {
    if ms == 0 {
        seq!['0', 's']
    } else {
        component_text(ms / 86_400_000, seq!['d']) + component_text(
            (ms % 86_400_000) / 3_600_000,
            seq!['h'],
        ) + component_text((ms % 3_600_000) / 60_000, seq!['m']) + component_text(
            (ms % 60_000) / 1_000,
            seq!['s'],
        ) + component_text(ms % 1_000, seq!['m', 's'])
    }
}

/// Appends `count` and the unit `name` to `out` when `count` is not 0.
fn push_component(out: &mut Vec<char>, count: u128, name: &[char])
    ensures
        final(out)@ == old(out)@ + component_text(count as nat, name@),
{
    if count > 0 {
        push_decimal(out, count);
        let mut j: usize = 0;
        let ghost mid = out@;
        while j < name.len()
            invariant
                j <= name@.len(),
                out@ == mid + name@.take(j as int),
                mid == old(out)@ + decimal(count as nat),
            decreases name.len() - j,
        {
            out.push(name[j]);
            proof {
                assert(name@.take(j + 1) =~= name@.take(j as int).push(name@[j as int]));
            }
            j = j + 1;
        }
        assert(name@.take(name.len() as int) =~= name@);
        assert(out@ =~= old(out)@ + component_text(count as nat, name@));
    } else {
        assert(old(out)@ + component_text(count as nat, name@) =~= old(out)@);
    }
}

/// Writes a duration as `format_duration` promises: `1h30m`, `500ms`,
/// `1d2h3m4s5ms`, or `0s`.
pub fn format_duration(d: Duration) -> (text: String)
    ensures
        text@ == duration_text(duration_millis(d)),
{
    let ms = millis_of(&d);
    if ms == 0 {
        return string_from_chars(vec!['0', 's']);
    }
    let mut out: Vec<char> = Vec::new();
    let mut remaining = ms;
    push_component(&mut out, remaining / 86_400_000, &['d']);
    remaining = remaining % 86_400_000;
    push_component(&mut out, remaining / 3_600_000, &['h']);
    remaining = remaining % 3_600_000;
    push_component(&mut out, remaining / 60_000, &['m']);
    remaining = remaining % 60_000;
    push_component(&mut out, remaining / 1_000, &['s']);
    remaining = remaining % 1_000;
    push_component(&mut out, remaining, &['m', 's']);
    proof {
        let x = ms as int;
        vstd::arithmetic::div_mod::lemma_mod_mod(x, 3_600_000, 24);
        vstd::arithmetic::div_mod::lemma_mod_mod(x, 60_000, 60);
        vstd::arithmetic::div_mod::lemma_mod_mod(x, 1_000, 60);
        assert(out@ =~= duration_text(ms as nat));
    }
    string_from_chars(out)
}

/// The count of the `i`-th unit (days, hours, minutes, seconds,
/// milliseconds) in `duration_text(ms)`.
pub open spec fn part_count(ms: nat, i: int) -> nat {
    if i == 0 {
        ms / 86_400_000
    } else if i == 1 {
        (ms % 86_400_000) / 3_600_000
    } else if i == 2 {
        (ms % 3_600_000) / 60_000
    } else if i == 3 {
        (ms % 60_000) / 1_000
    } else {
        ms % 1_000
    }
}

pub open spec fn part_name(i: int) -> Seq<char> {
    if i == 0 {
        seq!['d']
    } else if i == 1 {
        seq!['h']
    } else if i == 2 {
        seq!['m']
    } else if i == 3 {
        seq!['s']
    } else {
        seq!['m', 's']
    }
}

pub open spec fn part_millis(i: int) -> nat {
    if i == 0 {
        86_400_000
    } else if i == 1 {
        3_600_000
    } else if i == 2 {
        60_000
    } else if i == 3 {
        1_000
    } else {
        1
    }
}

/// The components of `duration_text(ms)` from the `i`-th unit on.
pub open spec fn text_from(ms: nat, i: int) -> Seq<char>
    decreases 5 - i,
{
    if i >= 5 {
        Seq::empty()
    } else {
        component_text(part_count(ms, i), part_name(i)) + text_from(ms, i + 1)
    }
}

/// The milliseconds that the components from the `i`-th unit on stand for.
pub open spec fn value_from(ms: nat, i: int) -> nat
    decreases 5 - i,
{
    if i >= 5 {
        0
    } else {
        part_count(ms, i) * part_millis(i) + value_from(ms, i + 1)
    }
}

proof fn lemma_number_run(t: Seq<char>, i: int, j: int)
    requires
        0 <= i <= j <= t.len(),
        forall|k: int| i <= k < j ==> is_number_char(#[trigger] t[k]),
        j == t.len() || !is_number_char(t[j]),
    ensures
        number_end(t, i) == j,
    decreases j - i,
{
    if i < j {
        lemma_number_run(t, i + 1, j);
    }
}

proof fn lemma_letters_run(t: Seq<char>, i: int, j: int)
    requires
        0 <= i <= j <= t.len(),
        forall|k: int| i <= k < j ==> is_ascii_letter(#[trigger] t[k]),
        j == t.len() || !is_ascii_letter(t[j]),
    ensures
        letters_end(t, i) == j,
    decreases j - i,
{
    if i < j {
        lemma_letters_run(t, i + 1, j);
    }
}

/// A numeral `x` and a lower-case unit `name` at position `a`, followed by
/// the end or by something other than a letter, are the runs that the
/// reading of a component finds there.
proof fn lemma_component_shape(t: Seq<char>, a: int, x: Seq<char>, name: Seq<char>)
    requires
        0 <= a,
        a + x.len() + name.len() <= t.len(),
        t.subrange(a, a + x.len() + name.len()) == x + name,
        a + x.len() + name.len() == t.len() || !is_ascii_letter(t[a + x.len() + name.len()]),
        is_strict_numeral(x),
        name.len() > 0,
        forall|k: int| 0 <= k < name.len() ==> 'a' <= #[trigger] name[k] && name[k] <= 'z',
    ensures
        number_end(t, a) == a + x.len(),
        letters_end(t, a + x.len()) == a + x.len() + name.len(),
        t.subrange(a, a + x.len()) == x,
        t.subrange(a + x.len(), a + x.len() + name.len()) == name,
        lower_all(name) == name,
        x.len() > 0,
{
    let e1 = a + x.len();
    let e2 = e1 + name.len();
    assert forall|k: int| a <= k < e1 implies is_number_char(#[trigger] t[k]) by {
        assert(t[k] == t.subrange(a, e2)[k - a]);
        assert(x[k - a] == (x + name)[k - a]);
    }
    assert(t[e1] == t.subrange(a, e2)[e1 - a]);
    assert('a' <= name[0]);
    lemma_number_run(t, a, e1);
    assert forall|k: int| e1 <= k < e2 implies is_ascii_letter(#[trigger] t[k]) by {
        assert(t[k] == t.subrange(a, e2)[k - a]);
        assert('a' <= name[k - e1] && name[k - e1] <= 'z');
    }
    lemma_letters_run(t, e1, e2);
    assert forall|k: int| 0 <= k < x.len() implies #[trigger] t.subrange(a, e1)[k] == x[k] by {
        assert(t.subrange(a, e1)[k] == t.subrange(a, e2)[k]);
    }
    assert(t.subrange(a, e1) =~= x);
    assert forall|k: int| 0 <= k < name.len() implies #[trigger] t.subrange(e1, e2)[k] == name[k] by {
        assert(t.subrange(e1, e2)[k] == t[e1 + k]);
        assert(t[e1 + k] == t.subrange(a, e2)[x.len() + k]);
        assert((x + name)[x.len() + k] == name[k]);
    }
    assert(t.subrange(e1, e2) =~= name);
    assert(lower_all(name) =~= name);
    crate::numeral::lemma_strict_numeral_not_empty(x);
}

/// One component, a numeral `x` and a unit `name`, at position `a` and
/// followed by the end or by something other than a letter: it is read as
/// `x` units of rank `rank`, after the rank check against the unit before.
#[verifier::spinoff_prover]
proof fn lemma_component(
    t: Seq<char>,
    a: int,
    x: Seq<char>,
    name: Seq<char>,
    rank: nat,
    per: nat,
    last: Option<nat>,
    total: nat,
)
    requires
        0 <= a,
        a + x.len() + name.len() <= t.len(),
        t.subrange(a, a + x.len() + name.len()) == x + name,
        a + x.len() + name.len() == t.len() || !is_ascii_letter(t[a + x.len() + name.len()]),
        is_strict_numeral(x),
        name.len() > 0,
        forall|k: int| 0 <= k < name.len() ==> 'a' <= #[trigger] name[k] && name[k] <= 'z',
        duration_unit(name) == Some((rank, per)),
    ensures
        parse_components(t, a, last, total) == (if last is Some && rank == last->0 {
            Err(DurationFault::DuplicateUnit(name))
        } else if last is Some && rank < last->0 {
            Err(DurationFault::OutOfOrder(name))
        } else {
            parse_components(
                t,
                a + x.len() + name.len(),
                Some(rank),
                total + float_scaled_numeral(x, per),
            )
        }),
{
    lemma_component_shape(t, a, x, name);
}

/// A component `decimal(c)` + `name` is read as `c` units.
proof fn lemma_component_step(
    t: Seq<char>,
    a: int,
    c: nat,
    name: Seq<char>,
    rank: nat,
    per: nat,
    last: Option<nat>,
    total: nat,
)
    requires
        0 <= a,
        a + decimal(c).len() + name.len() <= t.len(),
        t.subrange(a, a + decimal(c).len() + name.len()) == decimal(c) + name,
        a + decimal(c).len() + name.len() == t.len() || is_digit(
            t[a + decimal(c).len() + name.len()],
        ),
        name.len() > 0,
        forall|k: int| 0 <= k < name.len() ==> 'a' <= #[trigger] name[k] && name[k] <= 'z',
        duration_unit(name) == Some((rank, per)),
        last is None || last->0 < rank,
        float_scaled_numeral(decimal(c), per) == c * per,
    ensures
        parse_components(t, a, last, total) == parse_components(
            t,
            a + decimal(c).len() + name.len(),
            Some(rank),
            total + c * per,
        ),
{
    crate::numeral::lemma_decimal_numeral(c, per);
    lemma_component(t, a, decimal(c), name, rank, per, last, total);
}

#[verifier::spinoff_prover]
proof fn lemma_text_from(ms: nat, i: int, prefix: Seq<char>, last: Option<nat>, total: nat)
    requires
        0 <= i <= 5,
        last is None || last->0 < i,
        forall|j: int|
            i <= j < 5 ==> float_scaled_numeral(decimal(#[trigger] part_count(ms, j)), part_millis(j))
                == part_count(ms, j) * part_millis(j),
    ensures
        text_from(ms, i).len() == 0 || is_digit(text_from(ms, i)[0]),
        parse_components(prefix + text_from(ms, i), prefix.len() as int, last, total) == (if total
            + value_from(ms, i) > u64::MAX {
            Err::<nat, DurationFault>(DurationFault::Overflow)
        } else {
            Ok(total + value_from(ms, i))
        }),
    decreases 5 - i,
{
    let t = prefix + text_from(ms, i);
    if i == 5 {
        assert(t =~= prefix);
    } else {
        let c = part_count(ms, i);
        let name = part_name(i);
        let rest = text_from(ms, i + 1);
        assert(value_from(ms, i) == c * part_millis(i) + value_from(ms, i + 1));
        if c == 0 {
            assert(text_from(ms, i) =~= rest);
            assert(c * part_millis(i) == 0);
            lemma_text_from(ms, i + 1, prefix, last, total);
        } else {
            let comp = decimal(c) + name;
            assert(text_from(ms, i) =~= comp + rest);
            let prefix2 = prefix + comp;
            assert(t =~= prefix2 + rest);
            lemma_text_from(ms, i + 1, prefix2, Some(i as nat), total + c * part_millis(i));
            let a = prefix.len() as int;
            assert(t.subrange(a, a + comp.len()) =~= comp);
            if a + comp.len() < t.len() {
                assert(t[a + comp.len()] == rest[0]);
            }
            lemma_part_unit(i);
            lemma_component_step(t, a, c, name, i as nat, part_millis(i), last, total);
            crate::numeral::lemma_decimal(c);
            assert(is_digit(decimal(c)[0]));
            assert(text_from(ms, i)[0] == decimal(c)[0]);
        }
    }
}

/// The unit names of `duration_text` are lower-case and name their part.
proof fn lemma_part_unit(i: int)
    requires
        0 <= i < 5,
    ensures
        part_name(i).len() > 0,
        forall|k: int|
            0 <= k < part_name(i).len() ==> 'a' <= #[trigger] part_name(i)[k] && part_name(i)[k]
                <= 'z',
        duration_unit(part_name(i)) == Some((i as nat, part_millis(i))),
{
    let d = seq!['d'];
    let h = seq!['h'];
    let m = seq!['m'];
    let sec = seq!['s'];
    let n = part_name(i);
    if i == 1 {
        assert(n[0] != d[0]);
    } else if i == 2 {
        assert(n[0] != d[0] && n[0] != h[0]);
    } else if i == 3 {
        assert(n[0] != d[0] && n[0] != h[0] && n[0] != m[0]);
    } else if i == 4 {
        assert(n.len() != d.len() && n.len() != h.len() && n.len() != m.len() && n.len() != sec.len());
    }
}

proof fn lemma_text_is_parts(ms: nat)
    requires
        ms > 0,
    ensures
        duration_text(ms) == text_from(ms, 0),
{
    let c0 = component_text(part_count(ms, 0), part_name(0));
    let c1 = component_text(part_count(ms, 1), part_name(1));
    let c2 = component_text(part_count(ms, 2), part_name(2));
    let c3 = component_text(part_count(ms, 3), part_name(3));
    let c4 = component_text(part_count(ms, 4), part_name(4));
    assert(text_from(ms, 5) =~= Seq::<char>::empty());
    assert(text_from(ms, 4) =~= c4);
    assert(text_from(ms, 3) =~= c3 + c4);
    assert(text_from(ms, 2) =~= c2 + (c3 + c4));
    assert(text_from(ms, 1) =~= c1 + (c2 + (c3 + c4)));
    assert(text_from(ms, 0) =~= c0 + (c1 + (c2 + (c3 + c4))));
    assert(duration_text(ms) =~= c0 + c1 + c2 + c3 + c4);
}

proof fn lemma_parts_sum(ms: nat)
    ensures
        value_from(ms, 0) == ms,
        value_from(ms, 1) == ms % 86_400_000,
{
    let x = ms as int;
    assert(value_from(ms, 5) == 0);
    vstd::arithmetic::div_mod::lemma_mod_mod(x, 3_600_000, 24);
    vstd::arithmetic::div_mod::lemma_mod_mod(x, 60_000, 60);
    vstd::arithmetic::div_mod::lemma_mod_mod(x, 1_000, 60);
    vstd::arithmetic::div_mod::lemma_fundamental_div_mod(x, 86_400_000);
    vstd::arithmetic::div_mod::lemma_fundamental_div_mod(x % 86_400_000, 3_600_000);
    vstd::arithmetic::div_mod::lemma_fundamental_div_mod(x % 3_600_000, 60_000);
    vstd::arithmetic::div_mod::lemma_fundamental_div_mod(x % 60_000, 1_000);
    let a = x % 60_000;
    let b = x % 3_600_000;
    let c = x % 86_400_000;
    assert(value_from(ms, 4) == x % 1_000);
    assert(value_from(ms, 3) == (a / 1_000) * 1_000 + x % 1_000);
    assert(value_from(ms, 3) == a);
    assert(value_from(ms, 2) == (b / 60_000) * 60_000 + a);
    assert(value_from(ms, 2) == b);
    assert(value_from(ms, 1) == (c / 3_600_000) * 3_600_000 + b);
    assert(value_from(ms, 1) == c);
    assert(value_from(ms, 0) == (x / 86_400_000) * 86_400_000 + c);
}

/// The text of no time at all reads back as 0.
proof fn lemma_zero_text()
    ensures
        parse_duration_millis(duration_text(0)) == Ok::<nat, DurationFault>(0),
{
    let t = duration_text(0);
    assert(decimal(0) =~= seq!['0']);
    assert(t =~= decimal(0) + seq!['s']);
    assert(crate::text::skip_white_space(t, 0) == 0);
    assert(crate::text::drop_white_space_end(t, 2) == 2);
    assert(trim(t) =~= t);
    lemma_part_unit(3);
    assert(t.subrange(0, 2) =~= t);
    crate::numeral::lemma_float_integer(0, 1_000);
    lemma_component_step(t, 0, 0, seq!['s'], 3, 1_000, None, 0);
}

/// The text of `ms` is its own trim.
proof fn lemma_text_trimmed(ms: nat)
    requires
        ms > 0,
    ensures
        trim(duration_text(ms)) == duration_text(ms),
        duration_text(ms) == text_from(ms, 0),
{
    let t = duration_text(ms);
    lemma_text_is_parts(ms);
    lemma_parts_sum(ms);
    lemma_ends_with_letter(ms, 0);
    lemma_first_is_digit(ms);
    assert(t.len() > 0) by {
        assert(value_from(ms, 0) > 0);
        lemma_nonzero_text(ms, 0);
    }
    crate::text::lemma_trim_unchanged(t);
}

proof fn lemma_first_is_digit(ms: nat)
    ensures
        text_from(ms, 0).len() == 0 || is_digit(text_from(ms, 0)[0]),
{
    lemma_text_from_digit(ms, 0);
}

proof fn lemma_text_from_digit(ms: nat, i: int)
    requires
        0 <= i <= 5,
    ensures
        text_from(ms, i).len() == 0 || is_digit(text_from(ms, i)[0]),
    decreases 5 - i,
{
    if i < 5 {
        lemma_text_from_digit(ms, i + 1);
        let c = part_count(ms, i);
        if c > 0 {
            crate::numeral::lemma_decimal(c);
            assert(is_digit(decimal(c)[0]));
            assert(text_from(ms, i) =~= (decimal(c) + part_name(i)) + text_from(ms, i + 1));
            assert(text_from(ms, i)[0] == decimal(c)[0]);
        } else {
            assert(text_from(ms, i) =~= text_from(ms, i + 1));
        }
    }
}

/// Below one day, every component of the text is exact in `f64`: its
/// count times its unit is below 2^53.
proof fn lemma_small_parts_exact(ms: nat, j: int)
    requires
        1 <= j < 5,
    ensures
        float_scaled_numeral(decimal(part_count(ms, j)), part_millis(j)) == part_count(ms, j)
            * part_millis(j),
{
    lemma_parts_sum(ms);
    lemma_value_from_shrinks(ms, 1, j);
    crate::numeral::lemma_float_integer(part_count(ms, j), part_millis(j));
}

proof fn lemma_value_from_shrinks(ms: nat, i: int, j: int)
    requires
        0 <= i <= j < 5,
    ensures
        part_count(ms, j) * part_millis(j) <= value_from(ms, j) <= value_from(ms, i),
    decreases j - i,
{
    if i < j {
        lemma_value_from_shrinks(ms, i + 1, j);
    }
}

/// Formatting a count of milliseconds and parsing the text gives the count
/// back, for every count up to `u64::MAX` whose whole days, times the
/// milliseconds of a day, come out exact in `f64` (every count below 2^53
/// does, see `days_are_exact_below_2_53`). For the other counts the days
/// are read back rounded, and the count does not come back.
#[verifier::spinoff_prover]
pub proof fn format_then_parse(ms: nat)
    requires
        ms <= u64::MAX,
        float_scaled_numeral(decimal(ms / 86_400_000), 86_400_000) == (ms / 86_400_000)
            * 86_400_000,
    ensures
        parse_duration_millis(duration_text(ms)) == Ok::<nat, DurationFault>(ms),
{
    if ms == 0 {
        lemma_zero_text();
    } else {
        lemma_text_trimmed(ms);
        let t = duration_text(ms);
        assert(t =~= Seq::<char>::empty() + text_from(ms, 0));
        lemma_parts_sum(ms);
        assert forall|j: int| 0 <= j < 5 implies float_scaled_numeral(
            decimal(#[trigger] part_count(ms, j)),
            part_millis(j),
        ) == part_count(ms, j) * part_millis(j) by {
            if j >= 1 {
                lemma_small_parts_exact(ms, j);
            }
        }
        lemma_text_from(ms, 0, Seq::<char>::empty(), None, 0);
        lemma_nonzero_text(ms, 0);
    }
}

/// A count below 2^53 has its whole days exact in `f64`.
pub proof fn days_are_exact_below_2_53(ms: nat)
    requires
        ms < 0x20_0000_0000_0000,
    ensures
        float_scaled_numeral(decimal(ms / 86_400_000), 86_400_000) == (ms / 86_400_000)
            * 86_400_000,
{
    lemma_parts_sum(ms);
    lemma_value_from_shrinks(ms, 0, 0);
    crate::numeral::lemma_float_integer(ms / 86_400_000, 86_400_000);
}

proof fn lemma_nonzero_text(ms: nat, i: int)
    requires
        0 <= i <= 5,
        value_from(ms, i) > 0,
    ensures
        text_from(ms, i).len() > 0,
    decreases 5 - i,
{
    if i < 5 {
        if part_count(ms, i) > 0 {
            crate::numeral::lemma_decimal(part_count(ms, i));
        } else {
            assert(part_count(ms, i) * part_millis(i) == 0);
            lemma_nonzero_text(ms, i + 1);
        }
    }
}

proof fn lemma_ends_with_letter(ms: nat, i: int)
    requires
        0 <= i <= 5,
    ensures
        text_from(ms, i).len() > 0 ==> is_ascii_letter(text_from(ms, i).last()),
    decreases 5 - i,
{
    if i < 5 {
        lemma_ends_with_letter(ms, i + 1);
        let c = part_count(ms, i);
        let rest = text_from(ms, i + 1);
        if c > 0 {
            let comp = decimal(c) + part_name(i);
            assert(text_from(ms, i) =~= comp + rest);
            if rest.len() == 0 {
                assert(text_from(ms, i).last() == part_name(i).last());
            } else {
                assert(text_from(ms, i).last() == rest.last());
            }
        } else {
            assert(text_from(ms, i) =~= rest);
        }
    }
}

proof fn lemma_char_case(c: char, c2: char)
    requires
        lower(c) == lower(c2),
    ensures
        is_number_char(c) == is_number_char(c2),
        is_number_char(c) ==> c == c2,
        is_ascii_letter(c) == is_ascii_letter(c2),
{
}

proof fn lemma_same_case_at(t: Seq<char>, t2: Seq<char>, m: int)
    requires
        lower_all(t2) == lower_all(t),
        0 <= m < t.len(),
    ensures
        t2.len() == t.len(),
        lower(t2[m]) == lower(t[m]),
{
    assert(t2.len() == lower_all(t2).len() && t.len() == lower_all(t).len());
    assert(lower_all(t)[m] == lower(t[m]));
    assert(lower_all(t2)[m] == lower(t2[m]));
}

proof fn lemma_number_end_chars(t: Seq<char>, i: int)
    requires
        0 <= i,
    ensures
        forall|m: int| i <= m < number_end(t, i) ==> is_number_char(#[trigger] t[m]),
    decreases t.len() - i,
{
    if 0 <= i < t.len() && is_number_char(t[i]) {
        lemma_number_end_chars(t, i + 1);
    }
}

proof fn lemma_number_end_case(t: Seq<char>, t2: Seq<char>, i: int)
    requires
        0 <= i,
        lower_all(t2) == lower_all(t),
    ensures
        number_end(t2, i) == number_end(t, i),
    decreases t.len() - i,
{
    assert(t2.len() == lower_all(t2).len() && t.len() == lower_all(t).len());
    if 0 <= i < t.len() {
        lemma_same_case_at(t, t2, i);
        lemma_char_case(t[i], t2[i]);
        if is_number_char(t[i]) {
            lemma_number_end_case(t, t2, i + 1);
        }
    }
}

proof fn lemma_letters_end_case(t: Seq<char>, t2: Seq<char>, i: int)
    requires
        0 <= i,
        lower_all(t2) == lower_all(t),
    ensures
        letters_end(t2, i) == letters_end(t, i),
    decreases t.len() - i,
{
    assert(t2.len() == lower_all(t2).len() && t.len() == lower_all(t).len());
    if 0 <= i < t.len() {
        lemma_same_case_at(t, t2, i);
        lemma_char_case(t[i], t2[i]);
        if is_ascii_letter(t[i]) {
            lemma_letters_end_case(t, t2, i + 1);
        }
    }
}

/// Two texts that differ in letter case only have the same components.
#[verifier::spinoff_prover]
proof fn lemma_components_case(
    t: Seq<char>,
    t2: Seq<char>,
    i: int,
    last: Option<nat>,
    total: nat,
)
    requires
        0 <= i,
        lower_all(t2) == lower_all(t),
    ensures
        parse_components(t2, i, last, total) is Ok <==> parse_components(t, i, last, total) is Ok,
        parse_components(t, i, last, total) is Ok ==> parse_components(t2, i, last, total)
            == parse_components(t, i, last, total),
    decreases t.len() - i,
{
    assert(t2.len() == lower_all(t2).len() && t.len() == lower_all(t).len());
    if i < t.len() {
        lemma_number_end_case(t, t2, i);
        lemma_number_end(t, i);
        let j = number_end(t, i);
        if j != i {
            lemma_number_end_chars(t, i);
            assert forall|m: int| i <= m < j implies #[trigger] t2[m] == t[m] by {
                lemma_same_case_at(t, t2, m);
                lemma_char_case(t[m], t2[m]);
            }
            assert(t2.subrange(i, j) =~= t.subrange(i, j));
            lemma_letters_end_case(t, t2, j);
            lemma_letters_end(t, j);
            let k = letters_end(t, j);
            assert(lower_all(t2.subrange(j, k)) =~= lower_all(t.subrange(j, k))) by {
                assert forall|m: int| 0 <= m < k - j implies lower_all(t2.subrange(j, k))[m]
                    == lower_all(t.subrange(j, k))[m] by {
                    lemma_same_case_at(t, t2, j + m);
                    assert(t2.subrange(j, k)[m] == t2[j + m]);
                    assert(t.subrange(j, k)[m] == t[j + m]);
                    assert(lower_all(t2.subrange(j, k))[m] == lower(t2.subrange(j, k)[m]));
                    assert(lower_all(t.subrange(j, k))[m] == lower(t.subrange(j, k)[m]));
                }
            }
            if k != j {
                match duration_unit(lower_all(t.subrange(j, k))) {
                    Some((rank, per)) => {
                        lemma_components_case(
                            t,
                            t2,
                            k,
                            Some(rank),
                            total + float_scaled_numeral(t.subrange(i, j), per),
                        );
                    },
                    None => {},
                }
            }
        }
    }
}

/// Letter case and the white space around a text do not matter: a text
/// with the same letters up to case, with white space added before and
/// after, is a duration exactly when the text is, and the same one.
#[verifier::spinoff_prover]
pub proof fn case_and_white_space_do_not_matter(
    s: Seq<char>,
    s2: Seq<char>,
    w1: Seq<char>,
    w2: Seq<char>,
)
    requires
        lower_all(s2) == lower_all(s),
        forall|k: int| 0 <= k < w1.len() ==> is_white_space(#[trigger] w1[k]),
        forall|k: int| 0 <= k < w2.len() ==> is_white_space(#[trigger] w2[k]),
    ensures
        parse_duration_millis(w1 + s2 + w2) is Ok <==> parse_duration_millis(s) is Ok,
        parse_duration_millis(s) is Ok ==> parse_duration_millis(w1 + s2 + w2)
            == parse_duration_millis(s),
{
    crate::text::lemma_trim_padded(w1, s2, w2);
    crate::text::lemma_trim_lowered(s2);
    crate::text::lemma_trim_lowered(s);
    let t = trim(s);
    let t2 = trim(s2);
    assert(lower_all(t2) == lower_all(t));
    assert(t2.len() == lower_all(t2).len() && t.len() == lower_all(t).len());
    lemma_components_case(t, t2, 0, None, 0);
}

/// The exact milliseconds that the components of `t` from `i` on stand
/// for, read as numerals of digits with their units; reading stops at the
/// first thing that is no such component.
spec fn exact_components(t: Seq<char>, i: int) -> nat
    decreases t.len() - i,
{
    if i < 0 || i >= t.len() {
        0
    } else {
        let j = number_end(t, i);
        let k = letters_end(t, j);
        if j == i || k == j {
            0
        } else {
            match duration_unit(lower_all(t.subrange(j, k))) {
                Some((_, per)) => {
                    proof {
                        lemma_number_end(t, i);
                        lemma_letters_end(t, j);
                    }
                    digits_value(t.subrange(i, j)) * per + exact_components(t, k)
                },
                None => 0,
            }
        }
    }
}

proof fn lemma_exact_component(t: Seq<char>, a: int, c: nat, name: Seq<char>, rank: nat, per: nat)
    requires
        0 <= a,
        a + decimal(c).len() + name.len() <= t.len(),
        t.subrange(a, a + decimal(c).len() + name.len()) == decimal(c) + name,
        a + decimal(c).len() + name.len() == t.len() || is_digit(
            t[a + decimal(c).len() + name.len()],
        ),
        name.len() > 0,
        forall|k: int| 0 <= k < name.len() ==> 'a' <= #[trigger] name[k] && name[k] <= 'z',
        duration_unit(name) == Some((rank, per)),
    ensures
        exact_components(t, a) == c * per + exact_components(
            t,
            a + decimal(c).len() + name.len(),
        ),
{
    crate::numeral::lemma_decimal(c);
    crate::numeral::lemma_decimal_numeral(c, per);
    lemma_component_shape(t, a, decimal(c), name);
}

proof fn lemma_exact_text_from(ms: nat, i: int, prefix: Seq<char>)
    requires
        0 <= i <= 5,
    ensures
        text_from(ms, i).len() == 0 || is_digit(text_from(ms, i)[0]),
        exact_components(prefix + text_from(ms, i), prefix.len() as int) == value_from(ms, i),
    decreases 5 - i,
{
    let t = prefix + text_from(ms, i);
    if i == 5 {
        assert(t =~= prefix);
    } else {
        let c = part_count(ms, i);
        let name = part_name(i);
        let rest = text_from(ms, i + 1);
        assert(value_from(ms, i) == c * part_millis(i) + value_from(ms, i + 1));
        if c == 0 {
            assert(text_from(ms, i) =~= rest);
            assert(c * part_millis(i) == 0);
            lemma_exact_text_from(ms, i + 1, prefix);
        } else {
            let comp = decimal(c) + name;
            assert(text_from(ms, i) =~= comp + rest);
            let prefix2 = prefix + comp;
            assert(t =~= prefix2 + rest);
            lemma_exact_text_from(ms, i + 1, prefix2);
            let a = prefix.len() as int;
            assert(t.subrange(a, a + comp.len()) =~= comp);
            if a + comp.len() < t.len() {
                assert(t[a + comp.len()] == rest[0]);
            }
            lemma_part_unit(i);
            lemma_exact_component(t, a, c, name, i as nat, part_millis(i));
            crate::numeral::lemma_decimal(c);
            assert(is_digit(decimal(c)[0]));
            assert(text_from(ms, i)[0] == decimal(c)[0]);
        }
    }
}

/// The text of a count of milliseconds, read back exactly, is that count.
proof fn lemma_exact_text(ms: nat)
    ensures
        exact_components(duration_text(ms), 0) == ms,
{
    if ms == 0 {
        let t = duration_text(0);
        assert(decimal(0) =~= seq!['0']);
        assert(t =~= decimal(0) + seq!['s']);
        lemma_part_unit(3);
        assert(t.subrange(0, 2) =~= t);
        lemma_exact_component(t, 0, 0, seq!['s'], 3, 1_000);
    } else {
        lemma_text_is_parts(ms);
        lemma_parts_sum(ms);
        lemma_exact_text_from(ms, 0, Seq::<char>::empty());
        assert(Seq::<char>::empty() + text_from(ms, 0) =~= text_from(ms, 0));
    }
}

/// The text is enough to tell counts of milliseconds apart: two counts
/// with the same text are the same count (so `format_duration` writes
/// durations with different whole milliseconds differently).
pub proof fn text_determines_millis(a: nat, b: nat)
    ensures
        duration_text(a) == duration_text(b) ==> a == b,
{
    lemma_exact_text(a);
    lemma_exact_text(b);
}

/// Only `d`, `h`, `m`, `s` and `ms` (in any letter case) are units: a
/// numeral followed by any other run of letters is refused as an unknown
/// unit, with that run in the error.
pub proof fn unknown_units_are_refused(x: Seq<char>, u: Seq<char>)
    requires
        is_strict_numeral(x),
        u.len() > 0,
        forall|k: int| 0 <= k < u.len() ==> is_ascii_letter(#[trigger] u[k]),
        lower_all(u) != seq!['d'],
        lower_all(u) != seq!['h'],
        lower_all(u) != seq!['m'],
        lower_all(u) != seq!['s'],
        lower_all(u) != seq!['m', 's'],
    ensures
        parse_duration_millis(x + u) == Err::<nat, DurationFault>(DurationFault::UnknownUnit(u)),
{
    let t = x + u;
    let e1 = x.len() as int;
    crate::numeral::lemma_strict_numeral_not_empty(x);
    assert(t[0] == x[0]);
    assert(is_number_char(x[0]));
    assert(t.last() == u.last());
    assert(is_ascii_letter(u[u.len() - 1]));
    crate::text::lemma_trim_unchanged(t);
    assert forall|k: int| 0 <= k < e1 implies is_number_char(#[trigger] t[k]) by {
        assert(t[k] == x[k]);
    }
    assert(t[e1] == u[0]);
    assert(is_ascii_letter(u[0]));
    lemma_number_run(t, 0, e1);
    assert forall|k: int| e1 <= k < t.len() implies is_ascii_letter(#[trigger] t[k]) by {
        assert(t[k] == u[k - e1]);
    }
    lemma_letters_run(t, e1, t.len() as int);
    assert(t.subrange(0, e1) =~= x);
    assert(t.subrange(e1, t.len() as int) =~= u);
}

/// A numeral followed by the name of the `i`-th unit, alone.
proof fn lemma_single_component(x: Seq<char>, i: int)
    requires
        is_strict_numeral(x),
        0 <= i < 5,
    ensures
        parse_duration_millis(x + part_name(i)) == (if float_scaled_numeral(x, part_millis(i))
            > u64::MAX {
            Err::<nat, DurationFault>(DurationFault::Overflow)
        } else {
            Ok(float_scaled_numeral(x, part_millis(i)))
        }),
{
    let name = part_name(i);
    let t = x + name;
    lemma_part_unit(i);
    crate::numeral::lemma_strict_numeral_not_empty(x);
    assert(t[0] == x[0]);
    assert(is_number_char(x[0]));
    assert(t.last() == name.last());
    assert('a' <= name[name.len() - 1]);
    crate::text::lemma_trim_unchanged(t);
    assert(t.subrange(0, t.len() as int) =~= x + name);
    lemma_component(t, 0, x, name, i as nat, part_millis(i), None, 0);
}

/// Each unit stands for its number of milliseconds: a numeral followed by
/// `d`, `h`, `m`, `s` or `ms` is that many days (86 400 000 ms), hours
/// (3 600 000 ms), minutes (60 000 ms), seconds (1 000 ms) or milliseconds,
/// computed in `f64`, or an overflow past `u64::MAX`.
pub proof fn each_unit_counts(x: Seq<char>)
    requires
        is_strict_numeral(x),
    ensures
        parse_duration_millis(x + seq!['d']) == (if float_scaled_numeral(x, 86_400_000)
            > u64::MAX {
            Err::<nat, DurationFault>(DurationFault::Overflow)
        } else {
            Ok(float_scaled_numeral(x, 86_400_000))
        }),
        parse_duration_millis(x + seq!['h']) == (if float_scaled_numeral(x, 3_600_000)
            > u64::MAX {
            Err::<nat, DurationFault>(DurationFault::Overflow)
        } else {
            Ok(float_scaled_numeral(x, 3_600_000))
        }),
        parse_duration_millis(x + seq!['m']) == (if float_scaled_numeral(x, 60_000) > u64::MAX {
            Err::<nat, DurationFault>(DurationFault::Overflow)
        } else {
            Ok(float_scaled_numeral(x, 60_000))
        }),
        parse_duration_millis(x + seq!['s']) == (if float_scaled_numeral(x, 1_000) > u64::MAX {
            Err::<nat, DurationFault>(DurationFault::Overflow)
        } else {
            Ok(float_scaled_numeral(x, 1_000))
        }),
        parse_duration_millis(x + seq!['m', 's']) == (if float_scaled_numeral(x, 1) > u64::MAX {
            Err::<nat, DurationFault>(DurationFault::Overflow)
        } else {
            Ok(float_scaled_numeral(x, 1))
        }),
{
    lemma_single_component(x, 0);
    lemma_single_component(x, 1);
    lemma_single_component(x, 2);
    lemma_single_component(x, 3);
    lemma_single_component(x, 4);
}

/// A number without a unit is refused: there is no default unit.
pub proof fn bare_number_is_refused(x: Seq<char>)
    requires
        is_strict_numeral(x),
    ensures
        parse_duration_millis(x) == Err::<nat, DurationFault>(DurationFault::MissingUnit(x)),
{
    crate::numeral::lemma_strict_numeral_not_empty(x);
    assert(is_digit(x[0]) || x[0] == '.');
    assert(is_digit(x.last()) || x.last() == '.');
    crate::text::lemma_trim_unchanged(x);
    assert forall|k: int| 0 <= k < x.len() implies is_number_char(#[trigger] x[k]) by {}
    lemma_number_run(x, 0, x.len() as int);
    lemma_letters_run(x, x.len() as int, x.len() as int);
    assert(x.subrange(0, x.len() as int) =~= x);
}

/// The text `x` + `part_name(i)` + `y` + `part_name(j)` of two components.
pub open spec fn two_component_text(x: Seq<char>, i: int, y: Seq<char>, j: int) -> Seq<char> {
    x + part_name(i) + y + part_name(j)
}

/// The text of two components is its own trim, and splits at the end of
/// the first unit.
#[verifier::spinoff_prover]
proof fn lemma_two_text_shape(x: Seq<char>, i: int, y: Seq<char>, j: int)
    requires
        is_strict_numeral(x),
        is_strict_numeral(y),
        0 <= i < 5,
        0 <= j < 5,
    ensures
        ({
            let t = two_component_text(x, i, y, j);
            let a2 = (x.len() + part_name(i).len()) as int;
            let e = a2 + y.len() + part_name(j).len();
            &&& trim(t) == t
            &&& t.len() == e
            &&& t.subrange(0, a2) == x + part_name(i)
            &&& t.subrange(a2, e) == y + part_name(j)
            &&& is_number_char(t[0])
            &&& is_number_char(t[a2])
        }),
{
    let u = part_name(i);
    let w = part_name(j);
    let t = two_component_text(x, i, y, j);
    crate::numeral::lemma_strict_numeral_not_empty(x);
    crate::numeral::lemma_strict_numeral_not_empty(y);
    lemma_part_unit(i);
    lemma_part_unit(j);
    let a2 = (x.len() + u.len()) as int;
    let e = a2 + y.len() + w.len();
    assert(t.len() == e);
    assert(t[0] == x[0]);
    assert(is_digit(x[0]) || x[0] == '.');
    assert(t.last() == w.last());
    assert('a' <= w[w.len() - 1]);
    crate::text::lemma_trim_unchanged(t);
    assert(t.subrange(0, a2) =~= x + u);
    assert(t[a2] == y[0]);
    assert(is_digit(y[0]) || y[0] == '.');
    assert(t.subrange(a2, e) =~= y + w);
}

/// Two components add up when their units go from larger to smaller; a
/// repeated unit, or a larger unit after a smaller one, is refused.
#[verifier::spinoff_prover]
pub proof fn two_components(x: Seq<char>, i: int, y: Seq<char>, j: int)
    requires
        is_strict_numeral(x),
        is_strict_numeral(y),
        0 <= i < 5,
        0 <= j < 5,
    ensures
        parse_duration_millis(two_component_text(x, i, y, j)) == (if j == i {
            Err(DurationFault::DuplicateUnit(part_name(j)))
        } else if j < i {
            Err(DurationFault::OutOfOrder(part_name(j)))
        } else {
            let v = float_scaled_numeral(x, part_millis(i)) + float_scaled_numeral(y, part_millis(j));
            if v > u64::MAX {
                Err(DurationFault::Overflow)
            } else {
                Ok::<nat, DurationFault>(v)
            }
        }),
{
    let u = part_name(i);
    let w = part_name(j);
    let t = two_component_text(x, i, y, j);
    let a2 = (x.len() + u.len()) as int;
    let e = a2 + y.len() + w.len();
    lemma_two_text_shape(x, i, y, j);
    let v1 = float_scaled_numeral(x, part_millis(i));
    lemma_part_unit(i);
    lemma_part_unit(j);
    lemma_component(t, 0, x, u, i as nat, part_millis(i), None, 0);
    lemma_component(t, a2, y, w, j as nat, part_millis(j), Some(i as nat), v1);
}

} // verus!
