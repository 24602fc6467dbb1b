//! Human-readable formatting and parsing of command-line values.
//!
//! Sizes are written in base 1024 with up to three significant digits: one decimal below ten, and
//! rounding away from zero. All arithmetic is on integers, so a byte count always has the same
//! text.

use vstd::arithmetic::power::{lemma_pow_positive, pow};
use vstd::arithmetic::power2::{lemma2_to64, lemma2_to64_rest, lemma_pow2_pos, pow2};
use vstd::prelude::*;
use vstd::string::*;

use crate::number::{
    all_digits, decimal, decimal_text, digit, digits_value, is_digit, law_number_reads_back,
    law_only_digits_are_numbers, lemma_decimal_reads_back, number_of, read_number,
};
use crate::scaled::{
    double_limit, law_fractions_are_near, law_ten_tenths_are_one, law_tenths_are_near,
    law_whole_numbers_are_exact, scale_number, scaled_bytes,
};
use crate::text::{
    chars_of, debug_form, law_trimming, lemma_untrimmed, quoted, same_text, string_of, trim,
    trimmed, trimmed_back, trimmed_front, white,
};

verus! {

// ---------------------------------------------------------------------------------------------
// Sizes
// ---------------------------------------------------------------------------------------------

/// The number of bytes in one unit; there are six above the byte.
pub open spec fn scale(unit: int) -> int {
    if unit == 0 {
        1
    } else if unit == 1 {
        0x400
    } else if unit == 2 {
        0x100000
    } else if unit == 3 {
        0x40000000
    } else if unit == 4 {
        0x10000000000
    } else if unit == 5 {
        0x4000000000000
    } else if unit == 6 {
        0x1000000000000000
    } else {
        0x400000000000000000
    }
}

/// The greatest unit of which a byte count holds at least one.
pub open spec fn unit_of(bytes: int) -> int {
    if bytes < scale(1) {
        0
    } else if bytes < scale(2) {
        1
    } else if bytes < scale(3) {
        2
    } else if bytes < scale(4) {
        3
    } else if bytes < scale(5) {
        4
    } else if bytes < scale(6) {
        5
    } else {
        6
    }
}

/// The prefix of a unit.
pub open spec fn unit_prefix(unit: int) -> Seq<char> {
    if unit == 0 {
        ""@
    } else if unit == 1 {
        "K"@
    } else if unit == 2 {
        "M"@
    } else if unit == 3 {
        "G"@
    } else if unit == 4 {
        "T"@
    } else if unit == 5 {
        "P"@
    } else if unit == 6 {
        "E"@
    } else {
        "Z"@
    }
}

/// `a / b`, rounded up.
pub open spec fn ceiling(a: int, b: int) -> int {
    (a + b - 1) / b
}

/// How a size is shown: in tenths of a unit, with or without the decimal.
pub struct Shown {
    pub tenths: int,
    pub with_decimal: bool,
    pub unit: int,
}

/// A byte count as it is shown: in the greatest unit of which it holds one, rounded up to tenths
/// below ten units and to whole units from there; what rounds up to 1024 units is one of the next.
pub open spec fn shown_size(bytes: int) -> Shown {
    let unit = unit_of(bytes);
    let tenths = ceiling(10 * bytes, scale(unit));
    let whole = ceiling(bytes, scale(unit));
    if unit == 0 {
        Shown { tenths: 10 * bytes, with_decimal: false, unit }
    } else if bytes < 10 * scale(unit) {
        Shown { tenths, with_decimal: tenths < 100, unit }
    } else if whole < 1024 {
        Shown { tenths: 10 * whole, with_decimal: false, unit }
    } else {
        Shown { tenths: 10, with_decimal: true, unit: unit + 1 }
    }
}

/// The text of a size.
pub open spec fn shown_text(s: Shown) -> Seq<char> {
    if s.with_decimal {
        decimal((s.tenths / 10) as nat) + "."@ + decimal((s.tenths % 10) as nat) + unit_prefix(
            s.unit,
        ) + "B"@
    } else {
        decimal((s.tenths / 10) as nat) + unit_prefix(s.unit) + "B"@
    }
}

/// The text of a byte count.
pub open spec fn size_text(bytes: u64) -> Seq<char> {
    shown_text(shown_size(bytes as int))
}

fn prefix_of(unit: usize) -> (r: &'static str)
    ensures
        r@ == unit_prefix(unit as int),
{
    match unit {
        0 => "",
        1 => "K",
        2 => "M",
        3 => "G",
        4 => "T",
        5 => "P",
        6 => "E",
        _ => "Z",
    }
}

/// Writes a size without a decimal.
fn whole_size(whole: u64, unit: usize) -> (r: String)
    ensures
        r@ == decimal(whole as nat) + unit_prefix(unit as int) + "B"@,
{
    let mut r = decimal_text(whole);
    r.append(prefix_of(unit));
    r.append("B");
    r
}

/// Writes a size with one decimal.
fn decimal_size(tenths: u64, unit: usize) -> (r: String)
    ensures
        r@ == decimal((tenths / 10) as nat) + "."@ + decimal((tenths % 10) as nat) + unit_prefix(
            unit as int,
        ) + "B"@,
{
    let mut r = decimal_text(tenths / 10);
    r.append(".");
    r.append(decimal_text(tenths % 10).as_str());
    r.append(prefix_of(unit));
    r.append("B");
    r
}

/// Formats a byte count, as in `3.7GB`, `197KB`, `96B`, `0B`.
pub fn iec_size(bytes: u64) -> (r: String)
    ensures
        r@ == size_text(bytes),
{
    let v: u128 = bytes as u128;
    let mut unit: usize = 0;
    let mut divisor: u128 = 1;
    while v >= divisor * 1024
        invariant
            v == bytes,
            unit <= 6,
            divisor == scale(unit as int),
            unit_of(bytes as int) >= unit,
            divisor <= 0x1000000000000000,
        decreases 6 - unit,
    {
        divisor = divisor * 1024;
        unit = unit + 1;
    }
    assert(unit == unit_of(bytes as int));
    if unit == 0 {
        assert((10 * bytes) / 10 == bytes);
        return whole_size(bytes, 0);
    }
    if v < 10 * divisor {
        let tenths: u128 = (v * 10 + divisor - 1) / divisor;
        proof {
            lemma_ceiling(10 * bytes as int, divisor as int);
            assert(tenths == ceiling(10 * bytes as int, divisor as int));
            lemma_ceiling_at_most(10 * bytes as int, divisor as int, 100);
        }
        if tenths >= 100 {
            return whole_size((tenths / 10) as u64, unit);
        }
        decimal_size(tenths as u64, unit)
    } else {
        let whole: u128 = (v + divisor - 1) / divisor;
        proof {
            assert(whole == ceiling(bytes as int, divisor as int));
            lemma_ceiling_at_most(bytes as int, divisor as int, 1024);
        }
        if whole >= 1024 {
            return iec_size_renorm(whole, unit + 1);
        }
        assert((10 * whole) / 10 == whole);
        whole_size(whole as u64, unit)
    }
}

/// The carry where a whole number of units reaches 1024 and moves up one unit.
fn iec_size_renorm(whole_in_prev_unit: u128, unit: usize) -> (r: String)
    requires
        whole_in_prev_unit == 1024,
    ensures
        r@ == shown_text((Shown { tenths: 10, with_decimal: true, unit: unit as int })),
{
    let tenths: u128 = (whole_in_prev_unit * 10 + 1023) / 1024;
    decimal_size(tenths as u64, unit)
}

/// Rounding up adds less than one.
proof fn lemma_ceiling(a: int, b: int)
    requires
        a >= 0,
        b > 0,
    ensures
        a <= ceiling(a, b) * b < a + b,
{
    let q = (a + b - 1) / b;
    vstd::arithmetic::div_mod::lemma_fundamental_div_mod(a + b - 1, b);
    vstd::arithmetic::mul::lemma_mul_is_commutative(b, q);
}

/// What is at most `k` times `b` is at most `k` after rounding up.
proof fn lemma_ceiling_at_most(a: int, b: int, k: int)
    requires
        0 <= a <= k * b,
        b > 0,
    ensures
        0 <= ceiling(a, b) <= k,
{
    lemma_ceiling(a, b);
    let c = ceiling(a, b);
    assert(c <= k) by (nonlinear_arith)
        requires
            c * b < a + b,
            a <= k * b,
            b > 0,
    ;
    assert(c >= 0) by (nonlinear_arith)
        requires
            a <= c * b,
            a >= 0,
            b > 0,
    ;
}

/// Sizes are rounded away from zero: what is shown is at least the size, and less than one unit
/// of the last digit shown above it. Below ten units the last digit is a tenth.
pub proof fn law_sizes_round_up(bytes: u64)
    ensures
        ({
            let s = shown_size(bytes as int);
            let last: int = if s.with_decimal {
                1
            } else {
                10
            };
            &&& 10 * bytes <= s.tenths * scale(s.unit)
            &&& (s.tenths - last) * scale(s.unit) < 10 * bytes
        }),
{
    let b = bytes as int;
    let unit = unit_of(b);
    let d = scale(unit);
    lemma_ceiling(10 * b, d);
    lemma_ceiling(b, d);
    let t = ceiling(10 * b, d);
    let w = ceiling(b, d);
    let s = shown_size(b);
    if unit == 0 {
        assert((s.tenths - 10) * 1 < 10 * b);
    } else if b < 10 * d {
        assert((t - 1) * d == t * d - d) by (nonlinear_arith);
        assert((t - 10) * d == t * d - 10 * d) by (nonlinear_arith);
    } else {
        lemma_ceiling_at_most(b, d, 1024);
        assert((10 * w) * d == 10 * (w * d)) by (nonlinear_arith);
        assert((10 * w - 10) * d == 10 * (w * d) - 10 * d) by (nonlinear_arith);
        assert(w >= 1024 ==> w * d == 1024 * d);
        assert(scale(unit + 1) == 1024 * d);
        if w >= 1024 {
            assert((s.tenths - 1) * scale(unit + 1) == 9 * scale(unit + 1));
        }
    }
}

/// Whether a byte count of at least one unit and below the next is shown in it: rounded up, to
/// tenths while that is below ten, and then to whole units; what is above 1023 is one of the next.
pub open spec fn shown_in_unit(
    text: Seq<char>,
    bytes: int,
    one: int,
    prefix: Seq<char>,
    next: Seq<char>,
    n: nat,
) -> bool {
    one <= bytes < 1024 * one ==> {
        &&& (n - 1) * one < 10 * bytes <= n * one && n < 100 ==> text == decimal(n / 10) + "."@
            + decimal(n % 10) + prefix + "B"@
        &&& 10 * bytes > 99 * one && (n - 1) * one < bytes <= n * one && n < 1024 ==> text
            == decimal(n) + prefix + "B"@
        &&& bytes > 1023 * one ==> text == "1.0"@ + next + "B"@
    }
}

proof fn lemma_ceiling_is(a: int, b: int, n: int)
    requires
        a >= 0,
        b > 0,
        (n - 1) * b < a <= n * b,
    ensures
        ceiling(a, b) == n,
{
    lemma_ceiling(a, b);
    let c = ceiling(a, b);
    assert(c == n) by (nonlinear_arith)
        requires
            b > 0,
            (n - 1) * b < a,
            a <= n * b,
            a <= c * b,
            c * b < a + b,
    ;
}

proof fn lemma_shown_in_unit(bytes: u64, unit: int, n: nat)
    requires
        1 <= unit <= 6,
        scale(unit) <= bytes < 1024 * scale(unit),
        unit_of(bytes as int) == unit,
        scale(unit + 1) == 1024 * scale(unit),
    ensures
        shown_in_unit(
            size_text(bytes),
            bytes as int,
            scale(unit),
            unit_prefix(unit),
            unit_prefix(unit + 1),
            n,
        ),
{
    let b = bytes as int;
    let d = scale(unit);
    let s = shown_size(b);
    let t = ceiling(10 * b, d);
    let w = ceiling(b, d);
    lemma_ceiling(10 * b, d);
    lemma_ceiling(b, d);
    if (n - 1) * d < 10 * b <= n * d && n < 100 {
        lemma_ceiling_is(10 * b, d, n as int);
        assert(b < 10 * d) by (nonlinear_arith)
            requires
                10 * b <= n * d,
                n < 100,
                d > 0,
        ;
    }
    if 10 * b > 99 * d && (n - 1) * d < b <= n * d && n < 1024 {
        lemma_ceiling_is(b, d, n as int);
        if b < 10 * d {
            lemma_ceiling_is(10 * b, d, 100);
            lemma_ceiling_is(b, d, 10);
        }
        assert((10 * n) / 10 == n);
    }
    if b > 1023 * d {
        lemma_ceiling_is(b, d, 1024);
        reveal_strlit("1.0");
        reveal_strlit(".");
        assert(decimal(1) == seq!['1']);
        assert(decimal(0) == seq!['0']);
        assert(decimal(1) + "."@ + decimal(0) =~= "1.0"@);
    }
}

/// How a byte count is shown: below 1024 as it is, and from there in units of 1024 bytes, of 1024
/// of these, and so on.
pub proof fn law_sizes_are_shown_in_the_greatest_unit(bytes: u64, n: nat)
    ensures
        bytes < 1024 ==> size_text(bytes) == decimal(bytes as nat) + "B"@,
        shown_in_unit(size_text(bytes), bytes as int, 0x400, "K"@, "M"@, n),
        shown_in_unit(size_text(bytes), bytes as int, 0x100000, "M"@, "G"@, n),
        shown_in_unit(size_text(bytes), bytes as int, 0x40000000, "G"@, "T"@, n),
        shown_in_unit(size_text(bytes), bytes as int, 0x10000000000, "T"@, "P"@, n),
        shown_in_unit(size_text(bytes), bytes as int, 0x4000000000000, "P"@, "E"@, n),
        shown_in_unit(size_text(bytes), bytes as int, 0x1000000000000000, "E"@, "Z"@, n),
{
    if bytes < 1024 {
        reveal_strlit("");
        assert(decimal(bytes as nat) + ""@ =~= decimal(bytes as nat));
        assert((10 * bytes) / 10 == bytes);
    } else {
        lemma_shown_in_unit(bytes, unit_of(bytes as int), n);
    }
}

/// A size shows at most four digits: below ten units two with a decimal point, else up to 1023.
pub proof fn law_sizes_are_short(bytes: u64)
    ensures
        ({
            let s = shown_size(bytes as int);
            &&& 0 <= s.tenths < 10240
            &&& s.with_decimal ==> 10 <= s.tenths < 100
            &&& !s.with_decimal ==> s.tenths % 10 == 0
            &&& s.with_decimal ==> s.unit > 0
        }),
{
    let b = bytes as int;
    let unit = unit_of(b);
    let d = scale(unit);
    lemma_ceiling(10 * b, d);
    lemma_ceiling(b, d);
    let t = ceiling(10 * b, d);
    if unit > 0 {
        lemma_ceiling_at_most(b, d, 1024);
        if b < 10 * d {
            lemma_ceiling_at_most(10 * b, d, 100);
            assert(t >= 10) by (nonlinear_arith)
                requires
                    10 * b <= t * d,
                    b >= d,
                    d > 0,
            ;
        }
    }
}

// ---------------------------------------------------------------------------------------------
// Ages
// ---------------------------------------------------------------------------------------------

/// The text of an age: in days, or in hours below a day, or in minutes below an hour.
pub open spec fn age_text(secs: u64) -> Seq<char> {
    if secs >= 86_400 {
        decimal((secs / 86_400) as nat) + "d"@
    } else if secs >= 3_600 {
        decimal((secs / 3_600) as nat) + "h"@
    } else {
        decimal((secs / 60) as nat) + "m"@
    }
}

/// Formats an age, as in `505d`, `23h`, `0m`.
pub fn human_age(secs: u64) -> (r: String)
    ensures
        r@ == age_text(secs),
{
    let d: u64 = secs / 86_400;
    let h: u64 = (secs % 86_400) / 3_600;
    if d > 0 {
        decimal_text(d).concat("d")
    } else if h > 0 {
        decimal_text(h).concat("h")
    } else {
        decimal_text((secs % 3_600) / 60).concat("m")
    }
}

// ---------------------------------------------------------------------------------------------
// Command-line values
// ---------------------------------------------------------------------------------------------

/// What is wrong with a value.
#[derive(Clone, Copy, PartialEq, Eq, Structural, Debug)]
pub enum ValueFault {
    /// It has no number, or one that cannot be read.
    Invalid,
    /// Its unit is unknown.
    Unit,
    /// It is too large.
    Range,
}

/// Whether a character may belong to the number at the start of a value.
pub open spec fn numeric(c: char) -> bool {
    digit(c) || c == '.'
}

/// How many digits a text starts with.
pub open spec fn digits_length(s: Seq<char>) -> int
    decreases s.len(),
{
    if s.len() > 0 && digit(s[0]) {
        1 + digits_length(s.drop_first())
    } else {
        0
    }
}

/// The length of the number at the start of a value: digits, and at most one dot with the digits
/// behind it.
pub open spec fn numeric_length(s: Seq<char>) -> int {
    let whole = digits_length(s);
    if whole < s.len() && s[whole] == '.' {
        whole + 1 + digits_length(s.skip(whole + 1))
    } else {
        whole
    }
}

/// Whether a text holds no more than one dot.
pub open spec fn one_dot_at_most(s: Seq<char>) -> bool {
    forall|i: int, j: int|
        0 <= i < j < s.len() ==> !(#[trigger] s[i] == '.' && #[trigger] s[j] == '.')
}

/// A letter of the ASCII range in upper case; any other character as it is.
pub open spec fn upper(c: char) -> char {
    if 'a' <= c <= 'z' {
        (c as u32 - 32) as char
    } else {
        c
    }
}

/// A letter of the ASCII range in lower case; any other character as it is.
pub open spec fn lower(c: char) -> char {
    if 'A' <= c <= 'Z' {
        (c as u32 + 32) as char
    } else {
        c
    }
}

/// The power of two that a size unit stands for.
pub open spec fn size_shift(suffix: Seq<char>) -> Option<nat> {
    let u = suffix.map_values(|c: char| upper(c));
    if u == ""@ || u == "B"@ {
        Some(0)
    } else if u == "K"@ || u == "KB"@ || u == "KIB"@ {
        Some(10)
    } else if u == "M"@ || u == "MB"@ || u == "MIB"@ {
        Some(20)
    } else if u == "G"@ || u == "GB"@ || u == "GIB"@ {
        Some(30)
    } else if u == "T"@ || u == "TB"@ || u == "TIB"@ {
        Some(40)
    } else if u == "P"@ || u == "PB"@ || u == "PIB"@ {
        Some(50)
    } else if u == "E"@ || u == "EB"@ || u == "EIB"@ {
        Some(60)
    } else {
        None
    }
}

/// The number of seconds that an age unit stands for.
pub open spec fn age_factor(suffix: Seq<char>) -> Option<u64> {
    let u = suffix.map_values(|c: char| lower(c));
    if u == ""@ || u == "s"@ {
        Some(1)
    } else if u == "m"@ {
        Some(60)
    } else if u == "h"@ {
        Some(3_600)
    } else if u == "d"@ {
        Some(86_400)
    } else if u == "w"@ {
        Some(604_800)
    } else {
        None
    }
}

/// The place of the first dot, or the length.
pub open spec fn first_dot(s: Seq<char>) -> int
    decreases s.len(),
{
    if s.len() == 0 || s[0] == '.' {
        0
    } else {
        1 + first_dot(s.drop_first())
    }
}

/// The digits before the first dot.
pub open spec fn whole_digits(num: Seq<char>) -> Seq<char> {
    num.take(first_dot(num))
}

/// The digits behind the first dot.
pub open spec fn fraction_digits(num: Seq<char>) -> Seq<char> {
    if first_dot(num) < num.len() {
        num.skip(first_dot(num) + 1)
    } else {
        Seq::empty()
    }
}

/// The size that a number and its unit stand for. A number is digits with at most one dot among
/// them, and holds at least one digit; it is read in double precision, which it must not exceed.
pub open spec fn scaled_size(num: Seq<char>, shift: nat) -> Result<u64, ValueFault> {
    let whole = whole_digits(num);
    let fraction = fraction_digits(num);
    if whole.len() + fraction.len() == 0 || digits_value(whole) >= double_limit() {
        Err(ValueFault::Invalid)
    } else {
        Ok(
            scaled_bytes(digits_value(whole), digits_value(fraction), fraction.len(), shift) as u64,
        )
    }
}

/// What a `--min-size` value stands for: a number of bytes, or of the unit that follows it.
pub open spec fn size_of(s: Seq<char>) -> Result<u64, ValueFault> {
    let t = trimmed(s);
    let num = t.take(numeric_length(t));
    let suffix = t.skip(numeric_length(t));
    if t.len() == 0 {
        Err(ValueFault::Invalid)
    } else {
        match size_shift(suffix) {
            None => Err(ValueFault::Unit),
            Some(shift) => scaled_size(num, shift),
        }
    }
}

/// What a `--min-age` value stands for: a number of seconds, or of the unit that follows it.
pub open spec fn age_of(s: Seq<char>) -> Result<u64, ValueFault> {
    let t = trimmed(s);
    let num = t.take(numeric_length(t));
    let suffix = t.skip(numeric_length(t));
    if t.len() == 0 {
        Err(ValueFault::Invalid)
    } else {
        match age_factor(suffix) {
            None => Err(ValueFault::Unit),
            Some(factor) => match number_of(num) {
                None => Err(ValueFault::Invalid),
                Some(n) => if n * factor > u64::MAX {
                    Err(ValueFault::Range)
                } else {
                    Ok((n * factor) as u64)
                },
            },
        }
    }
}

/// The message for a value that cannot be used; `shown` is the value in quotes.
pub open spec fn fault_text(what: Seq<char>, fault: ValueFault, shown: Seq<char>) -> Seq<char> {
    match fault {
        ValueFault::Invalid => "invalid "@ + what + ": "@ + shown,
        ValueFault::Unit => "invalid "@ + what + " unit in: "@ + shown,
        ValueFault::Range => what + " out of range: "@ + shown,
    }
}

/// The outcome of reading a value, with the message in place of the fault.
pub open spec fn with_message(
    r: Result<u64, ValueFault>,
    what: Seq<char>,
    shown: Seq<char>,
) -> Result<u64, Seq<char>> {
    match r {
        Ok(n) => Ok(n),
        Err(fault) => Err(fault_text(what, fault, shown)),
    }
}

/// An outcome by the text of its message.
pub open spec fn outcome_view(r: Result<u64, String>) -> Result<u64, Seq<char>> {
    match r {
        Ok(n) => Ok(n),
        Err(e) => Err(e@),
    }
}

proof fn lemma_digits_length(s: Seq<char>)
    ensures
        0 <= digits_length(s) <= s.len(),
        forall|i: int| 0 <= i < digits_length(s) ==> digit(#[trigger] s[i]),
    decreases s.len(),
{
    if s.len() > 0 && digit(s[0]) {
        lemma_digits_length(s.drop_first());
        assert forall|i: int| 0 <= i < digits_length(s) implies digit(#[trigger] s[i]) by {
            if i > 0 {
                assert(s.drop_first()[i - 1] == s[i]);
            }
        }
    }
}

proof fn lemma_numeric_length(s: Seq<char>)
    ensures
        0 <= numeric_length(s) <= s.len(),
        forall|i: int| 0 <= i < numeric_length(s) ==> numeric(#[trigger] s[i]),
        one_dot_at_most(s.take(numeric_length(s))),
{
    let whole = digits_length(s);
    lemma_digits_length(s);
    if whole < s.len() && s[whole] == '.' {
        let rest = s.skip(whole + 1);
        lemma_digits_length(rest);
        assert forall|i: int| 0 <= i < numeric_length(s) && i != whole implies digit(
            #[trigger] s[i],
        ) by {
            if i > whole {
                assert(rest[i - whole - 1] == s[i]);
            }
        }
    }
    let num = s.take(numeric_length(s));
    assert forall|i: int, j: int| 0 <= i < j < num.len() implies !(#[trigger] num[i] == '.'
        && #[trigger] num[j] == '.') by {
        assert(num[i] == s[i] && num[j] == s[j]);
        if i != whole {
            assert(digit(s[i]));
        } else {
            assert(digit(s[j]));
        }
    }
}

proof fn lemma_first_dot(s: Seq<char>)
    ensures
        0 <= first_dot(s) <= s.len(),
        forall|i: int| 0 <= i < first_dot(s) ==> #[trigger] s[i] != '.',
    decreases s.len(),
{
    if s.len() > 0 && s[0] != '.' {
        lemma_first_dot(s.drop_first());
        assert forall|i: int| 0 <= i < first_dot(s) implies #[trigger] s[i] != '.' by {
            if i > 0 {
                assert(s.drop_first()[i - 1] == s[i]);
            }
        }
    }
}

/// Where the digits from `from` on end.
fn end_of_digits(v: &Vec<char>, from: usize) -> (r: usize)
    requires
        from <= v@.len(),
    ensures
        r == from + digits_length(v@.skip(from as int)),
        from <= r <= v@.len(),
{
    let mut i: usize = from;
    while i < v.len() && is_digit(v[i])
        invariant
            from <= i <= v@.len(),
            from + digits_length(v@.skip(from as int)) == i + digits_length(v@.skip(i as int)),
        decreases v.len() - i,
    {
        assert(v@.skip(i as int)[0] == v@[i as int]);
        assert(v@.skip(i as int).drop_first() =~= v@.skip(i + 1));
        i = i + 1;
    }
    assert(i < v@.len() ==> v@.skip(i as int)[0] == v@[i as int]);
    i
}

/// Splits a value into its leading numeric part (digits and at most one dot) and the unit behind
/// it.
pub fn split_numeric(s: &str) -> (r: (String, String))
    ensures
        r.0@ == s@.take(numeric_length(s@)),
        r.1@ == s@.skip(numeric_length(s@)),
        r.0@ + r.1@ == s@,
        one_dot_at_most(r.0@),
{
    let v = chars_of(s);
    assert(v@.skip(0) =~= v@);
    let whole: usize = end_of_digits(&v, 0);
    let end: usize = if whole < v.len() && v[whole] == '.' {
        end_of_digits(&v, whole + 1)
    } else {
        whole
    };
    assert(end == numeric_length(v@));
    proof {
        lemma_numeric_length(v@);
    }
    let num = string_of(&v, 0, end);
    let suffix = string_of(&v, end, v.len());
    assert(num@ =~= v@.take(end as int));
    assert(suffix@ =~= v@.skip(end as int));
    assert(num@ + suffix@ =~= v@);
    (num, suffix)
}

/// Puts the letters of the ASCII range into upper case.
fn to_upper(s: &str) -> (r: String)
    ensures
        r@ == s@.map_values(|c: char| upper(c)),
{
    let mut r = String::new();
    for c in it: s.chars()
        invariant
            it.seq() == s@,
            r@ == s@.take(it.index() as int).map_values(|c: char| upper(c)),
    {
        let ghost before = r@;
        let u: char = if 'a' <= c && c <= 'z' {
            ((c as u32 - 32) as u8) as char
        } else {
            c
        };
        r.push(u);
        assert(r@ =~= s@.take(it.index() + 1).map_values(|c: char| upper(c)));
    }
    assert(s@.take(s@.len() as int) =~= s@);
    r
}

/// Puts the letters of the ASCII range into lower case.
fn to_lower(s: &str) -> (r: String)
    ensures
        r@ == s@.map_values(|c: char| lower(c)),
{
    let mut r = String::new();
    for c in it: s.chars()
        invariant
            it.seq() == s@,
            r@ == s@.take(it.index() as int).map_values(|c: char| lower(c)),
    {
        let u: char = if 'A' <= c && c <= 'Z' {
            ((c as u32 + 32) as u8) as char
        } else {
            c
        };
        r.push(u);
        assert(r@ =~= s@.take(it.index() + 1).map_values(|c: char| lower(c)));
    }
    assert(s@.take(s@.len() as int) =~= s@);
    r
}

fn shift_of(suffix: &str) -> (r: Option<usize>)
    ensures
        match r {
            Some(shift) => size_shift(suffix@) == Some(shift as nat) && shift <= 60,
            None => size_shift(suffix@) is None,
        },
{
    let up = to_upper(suffix);
    let u = up.as_str();
    if same_text(u, "") || same_text(u, "B") {
        Some(0)
    } else if same_text(u, "K") || same_text(u, "KB") || same_text(u, "KIB") {
        Some(10)
    } else if same_text(u, "M") || same_text(u, "MB") || same_text(u, "MIB") {
        Some(20)
    } else if same_text(u, "G") || same_text(u, "GB") || same_text(u, "GIB") {
        Some(30)
    } else if same_text(u, "T") || same_text(u, "TB") || same_text(u, "TIB") {
        Some(40)
    } else if same_text(u, "P") || same_text(u, "PB") || same_text(u, "PIB") {
        Some(50)
    } else if same_text(u, "E") || same_text(u, "EB") || same_text(u, "EIB") {
        Some(60)
    } else {
        None
    }
}

fn factor_of(suffix: &str) -> (r: Option<u64>)
    ensures
        r == age_factor(suffix@),
{
    let low = to_lower(suffix);
    let u = low.as_str();
    if same_text(u, "") || same_text(u, "s") {
        Some(1)
    } else if same_text(u, "m") {
        Some(60)
    } else if same_text(u, "h") {
        Some(3_600)
    } else if same_text(u, "d") {
        Some(86_400)
    } else if same_text(u, "w") {
        Some(604_800)
    } else {
        None
    }
}

/// Reads a number with an optional fraction and scales it.
fn read_scaled(num: &str, shift: usize) -> (r: Result<u64, ValueFault>)
    requires
        forall|i: int| 0 <= i < num@.len() ==> numeric(#[trigger] num@[i]),
        one_dot_at_most(num@),
        shift <= 60,
    ensures
        r == scaled_size(num@, shift as nat),
{
    let v = chars_of(num);
    let mut dot: usize = 0;
    assert(v@.skip(0) =~= v@);
    while dot < v.len() && v[dot] != '.'
        invariant
            dot <= v@.len(),
            first_dot(v@) == dot + first_dot(v@.skip(dot as int)),
        decreases v.len() - dot,
    {
        assert(v@.skip(dot as int)[0] == v@[dot as int]);
        assert(v@.skip(dot as int).drop_first() =~= v@.skip(dot + 1));
        dot = dot + 1;
    }
    assert(dot < v@.len() ==> v@.skip(dot as int)[0] == v@[dot as int]);
    assert(first_dot(v@) == dot);
    proof {
        lemma_first_dot(v@);
    }
    let from: usize = if dot < v.len() {
        dot + 1
    } else {
        dot
    };
    let ghost whole = v@.subrange(0, dot as int);
    let ghost fraction = v@.subrange(from as int, v@.len() as int);
    assert(whole =~= whole_digits(num@));
    assert(fraction =~= fraction_digits(num@));
    assert forall|i: int| 0 <= i < whole.len() implies digit(#[trigger] whole[i]) by {
        assert(numeric(num@[i]));
    }
    assert forall|i: int| 0 <= i < fraction.len() implies digit(#[trigger] fraction[i]) by {
        assert(num@[dot as int] == '.');
        assert(numeric(num@[from + i]));
    }
    if dot == 0 && from == v.len() {
        return Err(ValueFault::Invalid);
    }
    match scale_number(&v, 0, dot, from, v.len(), shift) {
        None => Err(ValueFault::Invalid),
        Some(n) => Ok(n),
    }
}

/// Reads a size and tells what is wrong with one that it cannot read.
pub fn read_size(s: &str) -> (r: Result<u64, ValueFault>)
    ensures
        r == size_of(s@),
{
    let t = trim(s);
    if t.as_str().is_empty() {
        return Err(ValueFault::Invalid);
    }
    proof {
        lemma_numeric_length(t@);
    }
    let (num, suffix) = split_numeric(t.as_str());
    match shift_of(suffix.as_str()) {
        None => Err(ValueFault::Unit),
        Some(shift) => read_scaled(num.as_str(), shift),
    }
}

/// Reads an age and tells what is wrong with one that it cannot read.
pub fn read_age(s: &str) -> (r: Result<u64, ValueFault>)
    ensures
        r == age_of(s@),
{
    let t = trim(s);
    if t.as_str().is_empty() {
        return Err(ValueFault::Invalid);
    }
    let (num, suffix) = split_numeric(t.as_str());
    match factor_of(suffix.as_str()) {
        None => Err(ValueFault::Unit),
        Some(factor) => match read_number(num.as_str()) {
            None => Err(ValueFault::Invalid),
            Some(n) => match n.checked_mul(factor) {
                None => Err(ValueFault::Range),
                Some(secs) => Ok(secs),
            },
        },
    }
}

/// Puts the message for a fault in its place.
pub fn explain(r: Result<u64, ValueFault>, what: &str, shown: &str) -> (m: Result<u64, String>)
    ensures
        outcome_view(m) == with_message(r, what@, shown@),
{
    match r {
        Ok(n) => Ok(n),
        Err(ValueFault::Invalid) => Err(
            String::from_str("invalid ").concat(what).concat(": ").concat(shown),
        ),
        Err(ValueFault::Unit) => Err(
            String::from_str("invalid ").concat(what).concat(" unit in: ").concat(shown),
        ),
        Err(ValueFault::Range) => Err(
            String::from_str(what).concat(" out of range: ").concat(shown),
        ),
    }
}

/// Parses a `--min-size` value: `500M`, `2G`, `1.5G`, or a bare byte count. The units are
/// B/K/M/G/T/P/E in base 1024, in either case, with or without `B` or `iB` behind them.
pub fn parse_size(s: &str) -> (r: Result<u64, String>)
    ensures
        outcome_view(r) == with_message(size_of(s@), "size"@, debug_form(trimmed(s@))),
{
    explain(read_size(s), "size", quoted(trim(s).as_str()).as_str())
}

/// Parses a `--min-age` value: `30d`, `12h`, `2w`, `45m`, `90s`, or a bare count of seconds.
pub fn parse_age(s: &str) -> (r: Result<u64, String>)
    ensures
        outcome_view(r) == with_message(age_of(s@), "age"@, debug_form(trimmed(s@))),
{
    explain(read_age(s), "age", quoted(trim(s).as_str()).as_str())
}

// ---------------------------------------------------------------------------------------------
// Laws
// ---------------------------------------------------------------------------------------------

/// Whether a character is a letter of the ASCII range.
pub open spec fn letter(c: char) -> bool {
    'a' <= c <= 'z' || 'A' <= c <= 'Z'
}

proof fn lemma_letter_by_case(c: char)
    ensures
        letter(c) <==> 'A' <= upper(c) <= 'Z',
        letter(c) <==> 'a' <= lower(c) <= 'z',
        letter(c) ==> !numeric(c) && !white(c),
{
}

/// The units of sizes are made of letters.
proof fn lemma_size_unit(suffix: Seq<char>)
    requires
        size_shift(suffix) is Some,
    ensures
        forall|i: int| 0 <= i < suffix.len() ==> letter(#[trigger] suffix[i]),
{
    reveal_strlit("");
    reveal_strlit("B");
    reveal_strlit("K");
    reveal_strlit("KB");
    reveal_strlit("KIB");
    reveal_strlit("M");
    reveal_strlit("MB");
    reveal_strlit("MIB");
    reveal_strlit("G");
    reveal_strlit("GB");
    reveal_strlit("GIB");
    reveal_strlit("T");
    reveal_strlit("TB");
    reveal_strlit("TIB");
    reveal_strlit("P");
    reveal_strlit("PB");
    reveal_strlit("PIB");
    reveal_strlit("E");
    reveal_strlit("EB");
    reveal_strlit("EIB");
    let u = suffix.map_values(|c: char| upper(c));
    assert forall|i: int| 0 <= i < suffix.len() implies letter(#[trigger] suffix[i]) by {
        lemma_letter_by_case(suffix[i]);
        assert(u[i] == upper(suffix[i]));
        assert(u.len() <= 3);
        if i == 0 {
            assert('A' <= u[0] <= 'Z');
        } else if i == 1 {
            assert('A' <= u[1] <= 'Z');
        } else {
            assert('A' <= u[2] <= 'Z');
        }
    }
}

/// The units of ages are made of letters.
proof fn lemma_age_unit(suffix: Seq<char>)
    requires
        age_factor(suffix) is Some,
    ensures
        forall|i: int| 0 <= i < suffix.len() ==> letter(#[trigger] suffix[i]),
{
    reveal_strlit("");
    reveal_strlit("s");
    reveal_strlit("m");
    reveal_strlit("h");
    reveal_strlit("d");
    reveal_strlit("w");
    let u = suffix.map_values(|c: char| lower(c));
    assert forall|i: int| 0 <= i < suffix.len() implies letter(#[trigger] suffix[i]) by {
        lemma_letter_by_case(suffix[i]);
        assert(u[i] == lower(suffix[i]));
        assert(u.len() <= 1);
        assert('a' <= u[0] <= 'z');
    }
}

/// Digits end where something else starts.
proof fn lemma_digits_end(a: Seq<char>, rest: Seq<char>)
    requires
        all_digits(a),
        rest.len() > 0 ==> !digit(rest[0]),
    ensures
        digits_length(a + rest) == a.len(),
    decreases a.len(),
{
    let s = a + rest;
    if a.len() > 0 {
        assert(digit(a[0]) && s[0] == a[0]);
        let b = a.drop_first();
        assert forall|i: int| 0 <= i < b.len() implies digit(#[trigger] b[i]) by {
            assert(b[i] == a[i + 1]);
        }
        lemma_digits_end(b, rest);
        assert(s.drop_first() =~= b + rest);
    } else {
        assert(s =~= rest);
    }
}

proof fn lemma_no_dot(s: Seq<char>)
    requires
        all_digits(s),
    ensures
        first_dot(s) == s.len(),
    decreases s.len(),
{
    if s.len() > 0 {
        assert(digit(s[0]));
        let rest = s.drop_first();
        assert forall|i: int| 0 <= i < rest.len() implies digit(#[trigger] rest[i]) by {
            assert(rest[i] == s[i + 1]);
        }
        lemma_no_dot(rest);
    }
}

/// A value that starts with a digit or a dot, and ends with one or with a letter, has nothing to
/// trim.
proof fn lemma_nothing_to_trim(s: Seq<char>)
    requires
        s.len() > 0,
        numeric(s[0]),
        numeric(s.last()) || letter(s.last()),
    ensures
        trimmed(s) == s,
{
    assert(trimmed_front(s) == s);
    if letter(s.last()) {
        lemma_letter_by_case(s.last());
    }
}

/// A whole number with a unit behind it is split where the unit starts.
proof fn lemma_whole_number(n: u64, suffix: Seq<char>)
    requires
        forall|i: int| 0 <= i < suffix.len() ==> letter(#[trigger] suffix[i]),
    ensures
        ({
            let num = decimal(n as nat);
            let s = num + suffix;
            &&& trimmed(s) == s
            &&& s.len() > 0
            &&& s.take(numeric_length(s)) == num
            &&& s.skip(numeric_length(s)) == suffix
        }),
{
    let num = decimal(n as nat);
    let s = num + suffix;
    lemma_decimal_reads_back(n as nat);
    if suffix.len() > 0 {
        lemma_letter_by_case(suffix[0]);
        assert(s.last() == suffix[suffix.len() - 1]);
    } else {
        assert(s.last() == num[num.len() - 1]);
        assert(digit(num[num.len() - 1]));
    }
    assert(digit(num[0]) && s[0] == num[0]);
    lemma_nothing_to_trim(s);
    lemma_digits_end(num, suffix);
    assert(suffix.len() > 0 ==> s[num.len() as int] == suffix[0]);
    assert(s.take(num.len() as int) =~= num);
    assert(s.skip(num.len() as int) =~= suffix);
}

/// A whole number with a unit is read without any loss, up to 53 binary digits.
pub proof fn law_whole_sizes_are_exact(n: u64, suffix: Seq<char>)
    requires
        size_shift(suffix) is Some,
        n < pow2(53),
        n * pow2(size_shift(suffix)->0) <= u64::MAX,
    ensures
        size_of(decimal(n as nat) + suffix) == Ok::<u64, ValueFault>(
            (n * pow2(size_shift(suffix)->0)) as u64,
        ),
{
    let num = decimal(n as nat);
    lemma_size_unit(suffix);
    lemma_whole_number(n, suffix);
    lemma_decimal_reads_back(n as nat);
    lemma_no_dot(num);
    law_whole_numbers_are_exact(n as nat, size_shift(suffix)->0);
    assert(whole_digits(num) =~= num);
    assert(digits_value(Seq::<char>::empty()) == 0);
}

proof fn lemma_size_suffixes()
    ensures
        size_shift(""@) == Some(0nat),
        size_shift("B"@) == Some(0nat),
        size_shift("K"@) == Some(10nat),
        size_shift("KB"@) == Some(10nat),
        size_shift("KIB"@) == Some(10nat),
        size_shift("M"@) == Some(20nat),
        size_shift("MB"@) == Some(20nat),
        size_shift("MIB"@) == Some(20nat),
        size_shift("G"@) == Some(30nat),
        size_shift("GB"@) == Some(30nat),
        size_shift("GIB"@) == Some(30nat),
        size_shift("T"@) == Some(40nat),
        size_shift("TB"@) == Some(40nat),
        size_shift("TIB"@) == Some(40nat),
        size_shift("P"@) == Some(50nat),
        size_shift("PB"@) == Some(50nat),
        size_shift("PIB"@) == Some(50nat),
        size_shift("E"@) == Some(60nat),
        size_shift("EB"@) == Some(60nat),
        size_shift("EIB"@) == Some(60nat),
{
    reveal_strlit("");
    reveal_strlit("B");
    reveal_strlit("K");
    reveal_strlit("KB");
    reveal_strlit("KIB");
    reveal_strlit("M");
    reveal_strlit("MB");
    reveal_strlit("MIB");
    reveal_strlit("G");
    reveal_strlit("GB");
    reveal_strlit("GIB");
    reveal_strlit("T");
    reveal_strlit("TB");
    reveal_strlit("TIB");
    reveal_strlit("P");
    reveal_strlit("PB");
    reveal_strlit("PIB");
    reveal_strlit("E");
    reveal_strlit("EB");
    reveal_strlit("EIB");
    let f = |c: char| upper(c);
    assert(""@.map_values(f) =~= ""@);
    assert("B"@.map_values(f) =~= "B"@);
    assert("K"@.map_values(f) =~= "K"@);
    assert("KB"@.map_values(f) =~= "KB"@);
    assert("KIB"@.map_values(f) =~= "KIB"@);
    assert("M"@.map_values(f) =~= "M"@);
    assert("MB"@.map_values(f) =~= "MB"@);
    assert("MIB"@.map_values(f) =~= "MIB"@);
    assert("G"@.map_values(f) =~= "G"@);
    assert("GB"@.map_values(f) =~= "GB"@);
    assert("GIB"@.map_values(f) =~= "GIB"@);
    assert("T"@.map_values(f) =~= "T"@);
    assert("TB"@.map_values(f) =~= "TB"@);
    assert("TIB"@.map_values(f) =~= "TIB"@);
    assert("P"@.map_values(f) =~= "P"@);
    assert("PB"@.map_values(f) =~= "PB"@);
    assert("PIB"@.map_values(f) =~= "PIB"@);
    assert("E"@.map_values(f) =~= "E"@);
    assert("EB"@.map_values(f) =~= "EB"@);
    assert("EIB"@.map_values(f) =~= "EIB"@);
    assert("B"@.len() == 1 && "B"@[0] == 'B');
    assert("K"@.len() == 1 && "K"@[0] == 'K');
    assert("KB"@.len() == 2 && "KB"@[0] == 'K');
    assert("KIB"@.len() == 3 && "KIB"@[0] == 'K');
    assert("M"@.len() == 1 && "M"@[0] == 'M');
    assert("MB"@.len() == 2 && "MB"@[0] == 'M');
    assert("MIB"@.len() == 3 && "MIB"@[0] == 'M');
    assert("G"@.len() == 1 && "G"@[0] == 'G');
    assert("GB"@.len() == 2 && "GB"@[0] == 'G');
    assert("GIB"@.len() == 3 && "GIB"@[0] == 'G');
    assert("T"@.len() == 1 && "T"@[0] == 'T');
    assert("TB"@.len() == 2 && "TB"@[0] == 'T');
    assert("TIB"@.len() == 3 && "TIB"@[0] == 'T');
    assert("P"@.len() == 1 && "P"@[0] == 'P');
    assert("PB"@.len() == 2 && "PB"@[0] == 'P');
    assert("PIB"@.len() == 3 && "PIB"@[0] == 'P');
    assert("E"@.len() == 1 && "E"@[0] == 'E');
    assert("EB"@.len() == 2 && "EB"@[0] == 'E');
    assert("EIB"@.len() == 3 && "EIB"@[0] == 'E');
}

/// Whether a number of bytes is what was read; more than `u64::MAX` is read as that.
pub open spec fn bytes_read(r: Result<u64, ValueFault>, n: int) -> bool {
    r == Ok::<u64, ValueFault>(
        if n <= u64::MAX {
            n as u64
        } else {
            u64::MAX
        },
    )
}

proof fn lemma_size_reads(n: u64, suffix: Seq<char>, shift: nat)
    requires
        n < pow2(53),
        size_shift(suffix) == Some(shift),
    ensures
        bytes_read(size_of(decimal(n as nat) + suffix), n * pow2(shift)),
{
    let num = decimal(n as nat);
    lemma_size_unit(suffix);
    lemma_whole_number(n, suffix);
    lemma_decimal_reads_back(n as nat);
    lemma_no_dot(num);
    law_whole_numbers_are_exact(n as nat, shift);
    assert(whole_digits(num) =~= num);
    assert(digits_value(Seq::<char>::empty()) == 0);
}

/// What the units of sizes stand for: powers of 1024 bytes.
pub proof fn law_size_units(n: u64)
    requires
        n < 0x20000000000000,
    ensures
        bytes_read(size_of(decimal(n as nat)), n as int),
        bytes_read(size_of(decimal(n as nat) + "B"@), n * 1),
        bytes_read(size_of(decimal(n as nat) + "K"@), n * 0x400),
        bytes_read(size_of(decimal(n as nat) + "KB"@), n * 0x400),
        bytes_read(size_of(decimal(n as nat) + "KIB"@), n * 0x400),
        bytes_read(size_of(decimal(n as nat) + "M"@), n * 0x100000),
        bytes_read(size_of(decimal(n as nat) + "MB"@), n * 0x100000),
        bytes_read(size_of(decimal(n as nat) + "MIB"@), n * 0x100000),
        bytes_read(size_of(decimal(n as nat) + "G"@), n * 0x40000000),
        bytes_read(size_of(decimal(n as nat) + "GB"@), n * 0x40000000),
        bytes_read(size_of(decimal(n as nat) + "GIB"@), n * 0x40000000),
        bytes_read(size_of(decimal(n as nat) + "T"@), n * 0x10000000000),
        bytes_read(size_of(decimal(n as nat) + "TB"@), n * 0x10000000000),
        bytes_read(size_of(decimal(n as nat) + "TIB"@), n * 0x10000000000),
        bytes_read(size_of(decimal(n as nat) + "P"@), n * 0x4000000000000),
        bytes_read(size_of(decimal(n as nat) + "PB"@), n * 0x4000000000000),
        bytes_read(size_of(decimal(n as nat) + "PIB"@), n * 0x4000000000000),
        bytes_read(size_of(decimal(n as nat) + "E"@), n * 0x1000000000000000),
        bytes_read(size_of(decimal(n as nat) + "EB"@), n * 0x1000000000000000),
        bytes_read(size_of(decimal(n as nat) + "EIB"@), n * 0x1000000000000000),
{
    lemma2_to64();
    lemma2_to64_rest();
    lemma_size_suffixes();
    lemma_size_reads(n, ""@, 0);
    lemma_size_reads(n, "B"@, 0);
    lemma_size_reads(n, "K"@, 10);
    lemma_size_reads(n, "KB"@, 10);
    lemma_size_reads(n, "KIB"@, 10);
    lemma_size_reads(n, "M"@, 20);
    lemma_size_reads(n, "MB"@, 20);
    lemma_size_reads(n, "MIB"@, 20);
    lemma_size_reads(n, "G"@, 30);
    lemma_size_reads(n, "GB"@, 30);
    lemma_size_reads(n, "GIB"@, 30);
    lemma_size_reads(n, "T"@, 40);
    lemma_size_reads(n, "TB"@, 40);
    lemma_size_reads(n, "TIB"@, 40);
    lemma_size_reads(n, "P"@, 50);
    lemma_size_reads(n, "PB"@, 50);
    lemma_size_reads(n, "PIB"@, 50);
    lemma_size_reads(n, "E"@, 60);
    lemma_size_reads(n, "EB"@, 60);
    lemma_size_reads(n, "EIB"@, 60);
    reveal_strlit("");
    assert(decimal(n as nat) + ""@ =~= decimal(n as nat));
}

/// An age is read without any loss, or refused where it is above `u64::MAX` seconds.
pub proof fn law_ages_are_exact(n: u64, suffix: Seq<char>)
    requires
        age_factor(suffix) is Some,
    ensures
        age_of(decimal(n as nat) + suffix) == (if n * (age_factor(suffix)->0) > u64::MAX {
            Err(ValueFault::Range)
        } else {
            Ok((n * (age_factor(suffix)->0)) as u64)
        }),
{
    lemma_age_unit(suffix);
    lemma_whole_number(n, suffix);
    law_number_reads_back(n);
}

/// The digits and the one dot at the start of a value are its number.
proof fn lemma_fraction_length(a: Seq<char>, b: Seq<char>, suffix: Seq<char>)
    requires
        all_digits(a),
        all_digits(b),
        suffix.len() > 0 ==> !digit(suffix[0]),
    ensures
        numeric_length(a + "."@ + b + suffix) == a.len() + 1 + b.len(),
{
    reveal_strlit(".");
    let s = a + "."@ + b + suffix;
    let tail = "."@ + b + suffix;
    let k = a.len() as int;
    assert(tail[0] == '.');
    assert(s =~= a + tail);
    lemma_digits_end(a, tail);
    assert(s[k] == '.');
    assert(s.skip(k + 1) =~= b + suffix);
    lemma_digits_end(b, suffix);
}

/// What is before the dot of a number are its whole digits, and what is behind it those of its
/// fraction.
proof fn lemma_fraction_digits(a: Seq<char>, b: Seq<char>)
    requires
        all_digits(a),
    ensures
        whole_digits(a + "."@ + b) == a,
        fraction_digits(a + "."@ + b) == b,
{
    reveal_strlit(".");
    let num = a + "."@ + b;
    let k = a.len() as int;
    lemma_dot_behind(a, "."@ + b);
    assert(num =~= a + ("."@ + b));
    assert(num.take(k) =~= a);
    assert(num.skip(k + 1) =~= b);
}

/// An age is shown in the greatest of day, hour and minute of which it holds one, and in minutes
/// below that; the number shown is how many of these it holds.
pub proof fn law_ages_are_shown_in_the_greatest_unit(secs: u64, n: nat)
    ensures
        86_400 <= secs && n * 86_400 <= secs < (n + 1) * 86_400 ==> age_text(secs) == decimal(n)
            + "d"@,
        3_600 <= secs < 86_400 && n * 3_600 <= secs < (n + 1) * 3_600 ==> age_text(secs)
            == decimal(n) + "h"@,
        secs < 3_600 && n * 60 <= secs < (n + 1) * 60 ==> age_text(secs) == decimal(n) + "m"@,
{
}

/// An age that is shown reads back as no more than it, and as less by under one of the unit shown.
pub proof fn law_shown_ages_read_back(secs: u64)
    ensures
        age_of(age_text(secs)) matches Ok(n) && {
            &&& n <= secs
            &&& secs < n + 86_400
            &&& secs < 86_400 ==> secs < n + 3_600
            &&& secs < 3_600 ==> secs < n + 60
        },
{
    lemma_shown_age(secs);
    reveal(age_in_its_unit);
    reveal(age_as_read);
}

/// A greater age never reads as a smaller one.
pub proof fn law_older_reads_no_younger(a: u64, b: u64)
    requires
        a <= b,
    ensures
        age_of(age_text(a)) matches Ok(m) && (age_of(age_text(b)) matches Ok(n) && m <= n),
{
    lemma_shown_age(a);
    lemma_shown_age(b);
    assert(age_in_its_unit(a) <= age_in_its_unit(b)) by {
        reveal(age_in_its_unit);
    }
    reveal(age_as_read);
}

/// A number of seconds without what its greatest unit does not count.
#[verifier::opaque]
spec fn age_in_its_unit(secs: u64) -> u64 {
    if secs >= 86_400 {
        (secs / 86_400 * 86_400) as u64
    } else if secs >= 3_600 {
        (secs / 3_600 * 3_600) as u64
    } else {
        (secs / 60 * 60) as u64
    }
}

#[verifier::opaque]
spec fn age_as_read(secs: u64) -> Result<u64, ValueFault> {
    age_of(age_text(secs))
}

proof fn lemma_shown_age(secs: u64)
    ensures
        age_as_read(secs) == Ok::<u64, ValueFault>(age_in_its_unit(secs)),
{
    reveal(age_in_its_unit);
    reveal(age_as_read);
    lemma_age_suffixes();
    if secs >= 86_400 {
        law_ages_are_exact(secs / 86_400, "d"@);
    } else if secs >= 3_600 {
        law_ages_are_exact(secs / 3_600, "h"@);
    } else {
        law_ages_are_exact(secs / 60, "m"@);
    }
}

proof fn lemma_age_suffixes()
    ensures
        age_factor(""@) == Some(1u64),
        age_factor("s"@) == Some(1u64),
        age_factor("m"@) == Some(60u64),
        age_factor("h"@) == Some(3_600u64),
        age_factor("d"@) == Some(86_400u64),
        age_factor("w"@) == Some(604_800u64),
{
    reveal_strlit("");
    reveal_strlit("s");
    reveal_strlit("m");
    reveal_strlit("h");
    reveal_strlit("d");
    reveal_strlit("w");
    let f = |c: char| lower(c);
    assert(""@.map_values(f) =~= ""@);
    assert("s"@.map_values(f) =~= "s"@);
    assert("m"@.map_values(f) =~= "m"@);
    assert("h"@.map_values(f) =~= "h"@);
    assert("d"@.map_values(f) =~= "d"@);
    assert("w"@.map_values(f) =~= "w"@);
    assert("s"@[0] == 's' && "m"@[0] == 'm' && "h"@[0] == 'h' && "d"@[0] == 'd' && "w"@[0] == 'w');
    assert("m"@ != "s"@ && "m"@ != ""@);
    assert("h"@ != "s"@ && "h"@ != ""@ && "h"@ != "m"@);
    assert("d"@ != "s"@ && "d"@ != ""@ && "d"@ != "m"@ && "d"@ != "h"@);
    assert("w"@ != "s"@ && "w"@ != ""@ && "w"@ != "m"@ && "w"@ != "h"@ && "w"@ != "d"@);
}

/// The outcome of reading a number of seconds that may be above `u64::MAX`.
pub open spec fn seconds(n: int) -> Result<u64, ValueFault> {
    if n > u64::MAX {
        Err(ValueFault::Range)
    } else {
        Ok(n as u64)
    }
}

/// What the units of ages stand for: seconds, minutes, hours, days and weeks.
pub proof fn law_age_units(n: u64)
    ensures
        age_of(decimal(n as nat)) == seconds(n as int),
        age_of(decimal(n as nat) + "s"@) == seconds(n as int),
        age_of(decimal(n as nat) + "m"@) == seconds(n * 60),
        age_of(decimal(n as nat) + "h"@) == seconds(n * 60 * 60),
        age_of(decimal(n as nat) + "d"@) == seconds(n * 60 * 60 * 24),
        age_of(decimal(n as nat) + "w"@) == seconds(n * 60 * 60 * 24 * 7),
{
    lemma_age_suffixes();
    law_ages_are_exact(n, ""@);
    law_ages_are_exact(n, "s"@);
    law_ages_are_exact(n, "m"@);
    law_ages_are_exact(n, "h"@);
    law_ages_are_exact(n, "d"@);
    law_ages_are_exact(n, "w"@);
    reveal_strlit("");
    assert(decimal(n as nat) + ""@ =~= decimal(n as nat));
}

/// A number with a fraction and a unit behind it is split where the unit starts.
proof fn lemma_fraction_number(a: Seq<char>, b: Seq<char>, suffix: Seq<char>)
    requires
        all_digits(a),
        all_digits(b),
        forall|i: int| 0 <= i < suffix.len() ==> letter(#[trigger] suffix[i]),
    ensures
        ({
            let num = a + "."@ + b;
            let s = num + suffix;
            &&& trimmed(s) == s
            &&& s.len() > 0
            &&& s.take(numeric_length(s)) == num
            &&& s.skip(numeric_length(s)) == suffix
            &&& whole_digits(num) == a
            &&& fraction_digits(num) == b
        }),
{
    let num = a + "."@ + b;
    let s = num + suffix;
    assert(num.len() == a.len() + 1 + b.len() && num[a.len() as int] == '.') by {
        reveal_strlit(".");
    }
    if a.len() > 0 {
        assert(digit(a[0]) && s[0] == a[0]);
    }
    if suffix.len() > 0 {
        assert(letter(suffix[0]));
        lemma_letter_by_case(suffix[0]);
        assert(s.last() == suffix[suffix.len() - 1]);
    } else if b.len() > 0 {
        assert(s.last() == b[b.len() - 1]);
        assert(digit(b[b.len() - 1]));
    }
    lemma_nothing_to_trim(s);
    lemma_fraction_length(a, b, suffix);
    assert(s.take(num.len() as int) =~= num);
    assert(s.skip(num.len() as int) =~= suffix);
    lemma_fraction_digits(a, b);
}

/// The first dot behind digits is the one that follows them.
proof fn lemma_dot_behind(a: Seq<char>, rest: Seq<char>)
    requires
        all_digits(a),
        rest.len() > 0,
        rest[0] == '.',
    ensures
        first_dot(a + rest) == a.len(),
    decreases a.len(),
{
    let s = a + rest;
    if a.len() > 0 {
        assert(digit(a[0]) && s[0] == a[0]);
        let b = a.drop_first();
        assert forall|i: int| 0 <= i < b.len() implies digit(#[trigger] b[i]) by {
            assert(b[i] == a[i + 1]);
        }
        lemma_dot_behind(b, rest);
        assert(s.drop_first() =~= b + rest);
    } else {
        assert(s =~= rest);
    }
}

/// The unit that a size is shown in is one that it can be given in.
proof fn lemma_unit_suffix(unit: int)
    requires
        0 <= unit <= 5,
    ensures
        size_shift(unit_prefix(unit) + "B"@) == Some((10 * unit) as nat),
        pow2((10 * unit) as nat) == scale(unit),
{
    reveal_strlit("");
    reveal_strlit("B");
    reveal_strlit("K");
    reveal_strlit("KB");
    reveal_strlit("KIB");
    reveal_strlit("M");
    reveal_strlit("MB");
    reveal_strlit("MIB");
    reveal_strlit("G");
    reveal_strlit("GB");
    reveal_strlit("GIB");
    reveal_strlit("T");
    reveal_strlit("TB");
    reveal_strlit("TIB");
    reveal_strlit("P");
    reveal_strlit("PB");
    lemma2_to64();
    lemma2_to64_rest();
    let u = (unit_prefix(unit) + "B"@).map_values(|c: char| upper(c));
    if unit == 0 {
        assert(u =~= "B"@);
    } else if unit == 1 {
        assert(u =~= "KB"@);
        assert("KB"@.len() == 2 && "B"@.len() == 1 && ""@.len() == 0);
    } else if unit == 2 {
        assert(u =~= "MB"@);
        assert("MB"@[0] == 'M' && "KB"@[0] == 'K');
    } else if unit == 3 {
        assert(u =~= "GB"@);
        assert("GB"@[0] == 'G' && "KB"@[0] == 'K' && "MB"@[0] == 'M');
    } else if unit == 4 {
        assert(u =~= "TB"@);
        assert("TB"@[0] == 'T' && "KB"@[0] == 'K' && "MB"@[0] == 'M' && "GB"@[0] == 'G');
    } else {
        assert(u =~= "PB"@);
        assert("PB"@[0] == 'P' && "KB"@[0] == 'K' && "MB"@[0] == 'M' && "GB"@[0] == 'G'
            && "TB"@[0] == 'T');
    }
}

/// A number of tenths in a unit is read as the scaling of its digits.
proof fn lemma_tenths_read(t: int, unit: int)
    requires
        0 <= t < 100,
        0 <= unit <= 5,
    ensures
        size_of(shown_text((Shown { tenths: t, with_decimal: true, unit }))) == Ok::<
            u64,
            ValueFault,
        >(scaled_bytes((t / 10) as nat, (t % 10) as nat, 1, (10 * unit) as nat) as u64),
{
    let a = decimal((t / 10) as nat);
    let b = decimal((t % 10) as nat);
    let suffix = unit_prefix(unit) + "B"@;
    lemma_decimal_reads_back((t / 10) as nat);
    lemma_decimal_reads_back((t % 10) as nat);
    lemma_unit_suffix(unit);
    lemma_size_unit(suffix);
    lemma_fraction_number(a, b, suffix);
    let num = a + "."@ + b;
    assert(num + suffix =~= a + "."@ + b + unit_prefix(unit) + "B"@);
    assert(b.len() == 1);
    lemma_small_is_in_range((t / 10) as nat);
}

proof fn lemma_small_is_in_range(n: nat)
    requires
        n < 10,
    ensures
        n < double_limit(),
{
    lemma2_to64();
    lemma2_to64_rest();
    assert(n * 1 == n);
    law_whole_numbers_are_exact(n, 0);
}

/// A size that is shown reads back as no less than it, and as a tenth more at most. Below 1024
/// bytes it reads back as it is. This holds below two to the 50, from where double precision may
/// be off by more than a byte.
pub proof fn law_shown_sizes_read_back(bytes: u64)
    requires
        bytes < 0x4000000000000,
    ensures
        ({
            let r = size_of(size_text(bytes));
            &&& r matches Ok(n) && {
                &&& n >= bytes
                &&& 10 * (n - bytes) <= bytes + 5
                &&& bytes < 1024 ==> n == bytes
            }
        }),
{
    let b = bytes as int;
    let unit = unit_of(b);
    let d = scale(unit);
    let s = shown_size(b);
    law_sizes_round_up(bytes);
    law_sizes_are_short(bytes);
    lemma_unit_suffix(s.unit);
    lemma2_to64_rest();
    if s.with_decimal {
        let t = s.tenths;
        lemma_tenths_read(t, s.unit);
        if b < 10 * d {
            law_tenths_are_near(t as nat, (10 * unit) as nat);
            let n = scaled_bytes((t / 10) as nat, (t % 10) as nat, 1, (10 * unit) as nat);
            assert((t - 1) * d == t * d - d) by (nonlinear_arith);
            assert(n <= u64::MAX);
            assert(10 * n + 5 >= 10 * b);
            assert(n >= b);
        } else {
            law_ten_tenths_are_one((10 * s.unit) as nat);
            assert(s.tenths == 10 && s.unit == unit + 1);
            assert(scale(unit + 1) == 1024 * d);
            lemma_ceiling(b, d);
            assert(ceiling(b, d) >= 1024);
            assert(1023 * d < b) by (nonlinear_arith)
                requires
                    ceiling(b, d) * d < b + d,
                    ceiling(b, d) >= 1024,
                    d > 0,
            ;
        }
    } else {
        let w = s.tenths / 10;
        let suffix = unit_prefix(s.unit) + "B"@;
        assert(decimal(w as nat) + suffix =~= decimal(w as nat) + unit_prefix(s.unit) + "B"@);
        assert(s.tenths == 10 * w);
        assert(s.tenths * d == 10 * (w * d)) by (nonlinear_arith)
            requires
                s.tenths == 10 * w,
        ;
        assert((s.tenths - 10) * d == s.tenths * d - 10 * d) by (nonlinear_arith);
        assert(w * d < b + d);
        law_whole_sizes_are_exact(w as u64, suffix);
        if unit > 0 && b < 10 * d {
            let t = ceiling(10 * b, d);
            lemma_ceiling(10 * b, d);
            lemma_ceiling_at_most(10 * b, d, 100);
            assert(t == 100);
            assert(t * d == 100 * d);
        }
    }
}

/// A size with a fraction is read as one of the whole numbers of bytes next to it, and as the
/// nearer one unless it is within a sixteenth of the middle between them. This holds below two to
/// the 50; an age has no fraction.
pub proof fn law_fractions_of_a_unit(w: u64, frac: Seq<char>, suffix: Seq<char>, shift: nat)
    requires
        frac.len() > 0,
        forall|i: int| 0 <= i < frac.len() ==> '0' <= #[trigger] frac[i] <= '9',
        size_shift(suffix) == Some(shift),
        (w * pow(10, frac.len()) + digits_value(frac)) * pow2(shift) < pow(10, frac.len()) * pow2(
            50,
        ),
    ensures
        ({
            let b = pow(10, frac.len());
            let k = (w * b + digits_value(frac)) * pow2(shift);
            size_of(decimal(w as nat) + "."@ + frac + suffix) matches Ok(n) && 16 * k - 9 * b <= 16
                * (n * b) <= 16 * k + 9 * b
        }),
        age_of(decimal(w as nat) + "."@ + frac + suffix) is Err,
{
    let a = decimal(w as nat);
    let b = pow(10, frac.len());
    let f = digits_value(frac);
    lemma_decimal_reads_back(w as nat);
    lemma_size_unit(suffix);
    assert(all_digits(frac));
    lemma_fraction_number(a, frac, suffix);
    law_fractions_are_near(w as nat, f, frac.len(), shift);
    lemma_pow_positive(10, frac.len());
    lemma_pow2_pos(shift);
    lemma2_to64();
    lemma2_to64_rest();
    let d = pow2(shift);
    assert(w < pow2(50)) by (nonlinear_arith)
        requires
            (w * b + f) * d < b * pow2(50),
            d >= 1,
            b >= 1,
            w >= 0,
            f >= 0,
    ;
    law_whole_numbers_are_exact(w as nat, 0);
    let n = scaled_bytes(w as nat, f, frac.len(), shift);
    assert(n <= u64::MAX);
    let num = a + "."@ + frac;
    let k = a.len() as int;
    reveal_strlit(".");
    assert(num[k] == '.');
    assert(digit(a[0]) && num[0] == a[0]);
    assert(!digit(num[k]));
    assert(!all_digits(num));
}

/// The digits before the dot of a size, or those behind it, may be left out.
pub proof fn law_digits_beside_the_dot_may_be_left_out(n: u64, frac: Seq<char>, suffix: Seq<char>)
    requires
        frac.len() > 0,
        forall|i: int| 0 <= i < frac.len() ==> '0' <= #[trigger] frac[i] <= '9',
        size_shift(suffix) is Some,
    ensures
        size_of("."@ + frac + suffix) is Ok,
        size_of("."@ + frac + suffix) == size_of("0."@ + frac + suffix),
        size_of(decimal(n as nat) + "."@ + suffix) == size_of(decimal(n as nat) + suffix),
{
    let none = Seq::<char>::empty();
    let zero = "0"@;
    reveal_strlit("0");
    reveal_strlit("0.");
    reveal_strlit(".");
    lemma_size_unit(suffix);
    assert(all_digits(frac));
    lemma_fraction_number(none, frac, suffix);
    assert(none + "."@ + frac + suffix =~= "."@ + frac + suffix);
    assert(all_digits(zero));
    lemma_fraction_number(zero, frac, suffix);
    assert(zero + "."@ + frac + suffix =~= "0."@ + frac + suffix);
    assert(zero.drop_last() =~= none);
    assert(digits_value(none) == 0);
    assert(digits_value(zero) == 0);
    let num = decimal(n as nat);
    lemma_decimal_reads_back(n as nat);
    lemma_fraction_number(num, none, suffix);
    assert(num + "."@ + none + suffix =~= num + "."@ + suffix);
    lemma_whole_number(n, suffix);
    lemma_no_dot(num);
    assert(whole_digits(num) =~= num);
    lemma_pow2_pos(53);
    law_whole_numbers_are_exact(0, 0);
}

/// A value without a digit is refused, whatever its unit.
pub proof fn law_a_value_needs_a_digit(s: Seq<char>)
    requires
        forall|i: int| 0 <= i < s.len() ==> !('0' <= #[trigger] s[i] <= '9'),
    ensures
        size_of(s) is Err,
        age_of(s) is Err,
{
    let t = trimmed(s);
    let (u, v) = lemma_untrimmed(s);
    assert forall|i: int| 0 <= i < t.len() implies !digit(#[trigger] t[i]) by {
        assert(s[u.len() + i] == t[i]);
    }
    let k = numeric_length(t);
    let num = t.take(k);
    lemma_numeric_length(t);
    lemma_digits_length(t);
    if digits_length(t) > 0 {
        assert(digit(t[0]));
    }
    if t.len() > 0 && t[0] == '.' {
        let rest = t.skip(1);
        lemma_digits_length(rest);
        if digits_length(rest) > 0 {
            assert(digit(rest[0]) && rest[0] == t[1]);
        }
        assert(num =~= seq!['.']);
        assert(first_dot(num) == 0);
        assert(whole_digits(num).len() == 0);
        assert(fraction_digits(num).len() == 0);
    } else {
        assert(k == 0);
        assert(num =~= Seq::<char>::empty());
        assert(whole_digits(num).len() == 0);
    }
    assert(number_of(num) is None) by {
        if number_of(num) is Some {
            law_only_digits_are_numbers(num);
        }
    }
}

/// What is said of a value that cannot be used.
pub proof fn law_messages_name_the_fault(what: Seq<char>, shown: Seq<char>, n: u64)
    ensures
        with_message(Ok(n), what, shown) == Ok::<u64, Seq<char>>(n),
        with_message(Err(ValueFault::Invalid), what, shown) == Err::<u64, Seq<char>>(
            "invalid "@ + what + ": "@ + shown,
        ),
        with_message(Err(ValueFault::Unit), what, shown) == Err::<u64, Seq<char>>(
            "invalid "@ + what + " unit in: "@ + shown,
        ),
        with_message(Err(ValueFault::Range), what, shown) == Err::<u64, Seq<char>>(
            what + " out of range: "@ + shown,
        ),
{
}

/// White space around a value does not matter.
pub proof fn law_white_space_around_does_not_matter(a: Seq<char>, s: Seq<char>, b: Seq<char>)
    requires
        forall|i: int| 0 <= i < a.len() ==> white(#[trigger] a[i]),
        forall|i: int| 0 <= i < b.len() ==> white(#[trigger] b[i]),
    ensures
        size_of(a + s + b) == size_of(s),
        age_of(a + s + b) == age_of(s),
{
    let (u, v) = lemma_untrimmed(s);
    let t = trimmed(s);
    let before = a + u;
    let behind = v + b;
    assert forall|i: int| 0 <= i < before.len() implies white(#[trigger] before[i]) by {
        if i < a.len() {
            assert(before[i] == a[i]);
        } else {
            assert(before[i] == u[i - a.len()]);
        }
    }
    assert forall|i: int| 0 <= i < behind.len() implies white(#[trigger] behind[i]) by {
        if i < v.len() {
            assert(behind[i] == v[i]);
        } else {
            assert(behind[i] == b[i - v.len()]);
        }
    }
    assert(a + s + b =~= before + t + behind);
    law_trimming(before, t, behind);
}

/// Whether texts differ in the case of their letters at most.
pub open spec fn same_but_for_case(s: Seq<char>, t: Seq<char>) -> bool {
    s.map_values(|c: char| upper(c)) == t.map_values(|c: char| upper(c))
}

proof fn lemma_case(s: Seq<char>, t: Seq<char>)
    requires
        same_but_for_case(s, t),
    ensures
        s.len() == t.len(),
        forall|i: int|
            #![trigger s[i]]
            #![trigger t[i]]
            0 <= i < s.len() ==> {
                &&& upper(s[i]) == upper(t[i])
                &&& lower(s[i]) == lower(t[i])
                &&& white(s[i]) == white(t[i])
                &&& numeric(s[i]) == numeric(t[i])
                &&& numeric(s[i]) ==> s[i] == t[i]
            },
{
    let u = s.map_values(|c: char| upper(c));
    let v = t.map_values(|c: char| upper(c));
    assert(u.len() == s.len() && v.len() == t.len());
    assert forall|i: int|
        #![trigger s[i]]
        #![trigger t[i]]
        0 <= i < s.len() implies {
        &&& upper(s[i]) == upper(t[i])
        &&& lower(s[i]) == lower(t[i])
        &&& white(s[i]) == white(t[i])
        &&& numeric(s[i]) == numeric(t[i])
        &&& numeric(s[i]) ==> s[i] == t[i]
    } by {
        assert(u[i] == upper(s[i]) && v[i] == upper(t[i]));
        lemma_letter_by_case(s[i]);
        lemma_letter_by_case(t[i]);
    }
}

proof fn lemma_case_of_part(s: Seq<char>, t: Seq<char>, a: int, b: int)
    requires
        same_but_for_case(s, t),
        0 <= a <= b <= s.len(),
    ensures
        same_but_for_case(s.subrange(a, b), t.subrange(a, b)),
{
    lemma_case(s, t);
    assert(s.subrange(a, b).map_values(|c: char| upper(c)) =~= t.subrange(a, b).map_values(
        |c: char| upper(c),
    ));
}

proof fn lemma_case_of_trimmed(s: Seq<char>, t: Seq<char>)
    requires
        same_but_for_case(s, t),
    ensures
        same_but_for_case(trimmed(s), trimmed(t)),
{
    lemma_case_of_front(s, t);
    lemma_case_of_back(trimmed_front(s), trimmed_front(t));
}

proof fn lemma_case_of_front(s: Seq<char>, t: Seq<char>)
    requires
        same_but_for_case(s, t),
    ensures
        same_but_for_case(trimmed_front(s), trimmed_front(t)),
    decreases s.len(),
{
    lemma_case(s, t);
    if s.len() > 0 && white(s[0]) {
        assert(white(t[0]));
        lemma_case_of_part(s, t, 1, s.len() as int);
        lemma_case_of_front(s.drop_first(), t.drop_first());
    }
}

proof fn lemma_case_of_back(s: Seq<char>, t: Seq<char>)
    requires
        same_but_for_case(s, t),
    ensures
        same_but_for_case(trimmed_back(s), trimmed_back(t)),
    decreases s.len(),
{
    lemma_case(s, t);
    if s.len() > 0 {
        assert(white(s[s.len() - 1]) == white(t[t.len() - 1]));
        if white(s.last()) {
            lemma_case_of_part(s, t, 0, s.len() - 1);
            lemma_case_of_back(s.drop_last(), t.drop_last());
        }
    }
}

proof fn lemma_case_of_digits(s: Seq<char>, t: Seq<char>)
    requires
        same_but_for_case(s, t),
    ensures
        digits_length(s) == digits_length(t),
    decreases s.len(),
{
    lemma_case(s, t);
    if s.len() > 0 && numeric(s[0]) {
        assert(s[0] == t[0]);
        lemma_case_of_part(s, t, 1, s.len() as int);
        lemma_case_of_digits(s.drop_first(), t.drop_first());
    } else if s.len() > 0 {
        assert(!numeric(s[0]) && !numeric(t[0]));
    }
}

proof fn lemma_case_of_number(s: Seq<char>, t: Seq<char>)
    requires
        same_but_for_case(s, t),
    ensures
        numeric_length(s) == numeric_length(t),
{
    lemma_case(s, t);
    lemma_case_of_digits(s, t);
    lemma_digits_length(s);
    let k = digits_length(s);
    if k < s.len() {
        assert(numeric(s[k]) == numeric(t[k]));
        lemma_case_of_part(s, t, k + 1, s.len() as int);
        assert(s.skip(k + 1) =~= s.subrange(k + 1, s.len() as int));
        assert(t.skip(k + 1) =~= t.subrange(k + 1, s.len() as int));
        lemma_case_of_digits(s.skip(k + 1), t.skip(k + 1));
    }
}

/// Writing the letters of a value in capitals, or in small letters, changes nothing.
pub proof fn law_letters_read_alike_in_both_cases(s: Seq<char>, t: Seq<char>)
    requires
        s.len() == t.len(),
        forall|i: int|
            0 <= i < s.len() ==> {
                ||| #[trigger] s[i] == t[i]
                ||| 'a' <= s[i] <= 'z' && t[i] as int == s[i] as int - 32
                ||| 'A' <= s[i] <= 'Z' && t[i] as int == s[i] as int + 32
            },
    ensures
        size_of(s) == size_of(t),
        age_of(s) == age_of(t),
{
    let u = s.map_values(|c: char| upper(c));
    let v = t.map_values(|c: char| upper(c));
    assert forall|i: int| 0 <= i < s.len() implies u[i] == v[i] by {
        assert(s[i] == t[i] || s[i] != t[i]);
    }
    assert(u =~= v);
    law_case_does_not_matter(s, t);
}

/// Whether letters name a unit of sizes: a B, or one of the prefixes, alone or with a B or iB.
pub open spec fn letters_of_a_size_unit(u: Seq<char>) -> bool {
    let prefix = |c: char| seq!['K', 'M', 'G', 'T', 'P', 'E', 'k', 'm', 'g', 't', 'p', 'e'].contains(
        c,
    );
    let b = |c: char| c == 'B' || c == 'b';
    let i = |c: char| c == 'I' || c == 'i';
    ||| u.len() == 0
    ||| u.len() == 1 && (b(u[0]) || prefix(u[0]))
    ||| u.len() == 2 && prefix(u[0]) && b(u[1])
    ||| u.len() == 3 && prefix(u[0]) && i(u[1]) && b(u[2])
}

/// Whether letters name a unit of ages.
pub open spec fn letters_of_an_age_unit(u: Seq<char>) -> bool {
    u.len() == 0 || (u.len() == 1 && seq!['s', 'm', 'h', 'd', 'w', 'S', 'M', 'H', 'D', 'W'].contains(
        u[0],
    ))
}

proof fn lemma_prefix_letters(c: char)
    ensures
        seq!['K', 'M', 'G', 'T', 'P', 'E', 'k', 'm', 'g', 't', 'p', 'e'].contains(c) <==> (upper(c)
            == 'K' || upper(c) == 'M' || upper(c) == 'G' || upper(c) == 'T' || upper(c) == 'P'
            || upper(c) == 'E'),
        seq!['s', 'm', 'h', 'd', 'w', 'S', 'M', 'H', 'D', 'W'].contains(c) <==> (lower(c) == 's'
            || lower(c) == 'm' || lower(c) == 'h' || lower(c) == 'd' || lower(c) == 'w'),
{
    let p = seq!['K', 'M', 'G', 'T', 'P', 'E', 'k', 'm', 'g', 't', 'p', 'e'];
    let q = seq!['s', 'm', 'h', 'd', 'w', 'S', 'M', 'H', 'D', 'W'];
    assert(p[0] == 'K' && p[1] == 'M' && p[2] == 'G' && p[3] == 'T' && p[4] == 'P' && p[5] == 'E');
    assert(p[6] == 'k' && p[7] == 'm' && p[8] == 'g' && p[9] == 't' && p[10] == 'p' && p[11]
        == 'e');
    assert(q[0] == 's' && q[1] == 'm' && q[2] == 'h' && q[3] == 'd' && q[4] == 'w');
    assert(q[5] == 'S' && q[6] == 'M' && q[7] == 'H' && q[8] == 'D' && q[9] == 'W');
    if p.contains(c) {
        let i = choose|i: int| 0 <= i < p.len() && p[i] == c;
        assert(0 <= i < 12);
    }
    if q.contains(c) {
        let i = choose|i: int| 0 <= i < q.len() && q[i] == c;
        assert(0 <= i < 10);
    }
}

/// A value whose letters are no unit is refused as such, and so is no other: behind a number the
/// letters of a unit are taken.
pub proof fn law_only_units_are_taken(n: u64, suffix: Seq<char>)
    requires
        forall|i: int|
            0 <= i < suffix.len() ==> 'a' <= #[trigger] suffix[i] <= 'z' || 'A' <= suffix[i] <= 'Z',
    ensures
        size_of(decimal(n as nat) + suffix) == Err::<u64, ValueFault>(ValueFault::Unit)
            <==> !letters_of_a_size_unit(suffix),
        age_of(decimal(n as nat) + suffix) == Err::<u64, ValueFault>(ValueFault::Unit)
            <==> !letters_of_an_age_unit(suffix),
{
    assert forall|i: int| 0 <= i < suffix.len() implies letter(#[trigger] suffix[i]) by {}
    lemma_whole_number(n, suffix);
    lemma_size_suffixes();
    lemma_age_suffixes();
    lemma_size_letters(suffix);
    lemma_age_letters(suffix);
    law_number_reads_back(n);
}

proof fn lemma_size_letters(u: Seq<char>)
    ensures
        size_shift(u) is Some <==> letters_of_a_size_unit(u),
{
    reveal_strlit("");
    reveal_strlit("B");
    reveal_strlit("K");
    reveal_strlit("KB");
    reveal_strlit("KIB");
    reveal_strlit("M");
    reveal_strlit("MB");
    reveal_strlit("MIB");
    reveal_strlit("G");
    reveal_strlit("GB");
    reveal_strlit("GIB");
    reveal_strlit("T");
    reveal_strlit("TB");
    reveal_strlit("TIB");
    reveal_strlit("P");
    reveal_strlit("PB");
    reveal_strlit("PIB");
    reveal_strlit("E");
    reveal_strlit("EB");
    reveal_strlit("EIB");
    let l = u.map_values(|c: char| upper(c));
    assert(l.len() == u.len());
    if u.len() == 0 {
        assert(l =~= ""@);
    } else {
        lemma_prefix_letters(u[0]);
        lemma_letter_by_case(u[0]);
        assert(l[0] == upper(u[0]));
    }
    if u.len() == 1 {
        assert(l =~= seq![upper(u[0])]);
        assert("B"@ =~= seq!['B']);
        assert(seq!['B'][0] == 'B');
        assert("K"@ =~= seq!['K']);
        assert(seq!['K'][0] == 'K');
        assert("M"@ =~= seq!['M']);
        assert(seq!['M'][0] == 'M');
        assert("G"@ =~= seq!['G']);
        assert(seq!['G'][0] == 'G');
        assert("T"@ =~= seq!['T']);
        assert(seq!['T'][0] == 'T');
        assert("P"@ =~= seq!['P']);
        assert(seq!['P'][0] == 'P');
        assert("E"@ =~= seq!['E']);
        assert(seq!['E'][0] == 'E');
    } else if u.len() == 2 {
        assert(l[1] == upper(u[1]));
        assert(l =~= seq![upper(u[0]), upper(u[1])]);
        assert("KB"@ =~= seq!['K', 'B']);
        assert(seq!['K', 'B'][0] == 'K' && seq!['K', 'B'][1] == 'B');
        assert("MB"@ =~= seq!['M', 'B']);
        assert(seq!['M', 'B'][0] == 'M' && seq!['M', 'B'][1] == 'B');
        assert("GB"@ =~= seq!['G', 'B']);
        assert(seq!['G', 'B'][0] == 'G' && seq!['G', 'B'][1] == 'B');
        assert("TB"@ =~= seq!['T', 'B']);
        assert(seq!['T', 'B'][0] == 'T' && seq!['T', 'B'][1] == 'B');
        assert("PB"@ =~= seq!['P', 'B']);
        assert(seq!['P', 'B'][0] == 'P' && seq!['P', 'B'][1] == 'B');
        assert("EB"@ =~= seq!['E', 'B']);
        assert(seq!['E', 'B'][0] == 'E' && seq!['E', 'B'][1] == 'B');
    } else if u.len() == 3 {
        assert(l[1] == upper(u[1]) && l[2] == upper(u[2]));
        assert(l =~= seq![upper(u[0]), upper(u[1]), upper(u[2])]);
        assert("KIB"@ =~= seq!['K', 'I', 'B']);
        assert("KIB"@[0] == 'K' && "KIB"@[1] == 'I' && "KIB"@[2] == 'B');
        assert("MIB"@ =~= seq!['M', 'I', 'B']);
        assert("MIB"@[0] == 'M' && "MIB"@[1] == 'I' && "MIB"@[2] == 'B');
        assert("GIB"@ =~= seq!['G', 'I', 'B']);
        assert("GIB"@[0] == 'G' && "GIB"@[1] == 'I' && "GIB"@[2] == 'B');
        assert("TIB"@ =~= seq!['T', 'I', 'B']);
        assert("TIB"@[0] == 'T' && "TIB"@[1] == 'I' && "TIB"@[2] == 'B');
        assert("PIB"@ =~= seq!['P', 'I', 'B']);
        assert("PIB"@[0] == 'P' && "PIB"@[1] == 'I' && "PIB"@[2] == 'B');
        assert("EIB"@ =~= seq!['E', 'I', 'B']);
        assert("EIB"@[0] == 'E' && "EIB"@[1] == 'I' && "EIB"@[2] == 'B');
    }
}

proof fn lemma_age_letters(u: Seq<char>)
    ensures
        age_factor(u) is Some <==> letters_of_an_age_unit(u),
{
    reveal_strlit("");
    reveal_strlit("s");
    reveal_strlit("m");
    reveal_strlit("h");
    reveal_strlit("d");
    reveal_strlit("w");
    let l = u.map_values(|c: char| lower(c));
    if u.len() == 0 {
        assert(l =~= ""@);
    } else if u.len() == 1 {
        lemma_prefix_letters(u[0]);
        assert(l =~= seq![lower(u[0])]);
        assert("s"@ =~= seq!['s']);
        assert("m"@ =~= seq!['m']);
        assert("h"@ =~= seq!['h']);
        assert("d"@ =~= seq!['d']);
        assert("w"@ =~= seq!['w']);
        assert(l[0] == lower(u[0]));
        assert(seq!['s'][0] == 's' && seq!['m'][0] == 'm' && seq!['h'][0] == 'h' && seq!['d'][0]
            == 'd' && seq!['w'][0] == 'w');
    } else {
        assert(l.len() == u.len());
    }
}

/// The case of the letters of a value does not matter.
pub proof fn law_case_does_not_matter(s: Seq<char>, t: Seq<char>)
    requires
        same_but_for_case(s, t),
    ensures
        size_of(s) == size_of(t),
        age_of(s) == age_of(t),
{
    lemma_case_of_trimmed(s, t);
    let a = trimmed(s);
    let b = trimmed(t);
    lemma_case(a, b);
    lemma_case_of_number(a, b);
    lemma_numeric_length(a);
    let k = numeric_length(a);
    assert(a.take(k) =~= b.take(k)) by {
        assert forall|i: int| 0 <= i < k implies a[i] == b[i] by {
            assert(numeric(a[i]));
        }
    }
    let x = a.skip(k);
    let y = b.skip(k);
    lemma_case_of_part(a, b, k, a.len() as int);
    assert(x =~= a.subrange(k, a.len() as int));
    assert(y =~= b.subrange(k, b.len() as int));
    lemma_case(x, y);
    assert(x.map_values(|c: char| lower(c)) =~= y.map_values(|c: char| lower(c)));
}

/// A value that can be read is told as it is; of another one the message says whether it is a size
/// or an age, what is wrong with it, and what it was, without the white space around it.
pub proof fn law_parsing(s: &str, size: Result<u64, String>, age: Result<u64, String>, n: u64)
    requires
        call_ensures(parse_size, (s,), size),
        call_ensures(parse_age, (s,), age),
    ensures
        size_of(s@) == Ok::<u64, ValueFault>(n) <==> size == Ok::<u64, String>(n),
        age_of(s@) == Ok::<u64, ValueFault>(n) <==> age == Ok::<u64, String>(n),
        size_of(s@) == Err::<u64, ValueFault>(ValueFault::Invalid) ==> (size matches Err(m) && m@
            == "invalid "@ + "size"@ + ": "@ + debug_form(trimmed(s@))),
        size_of(s@) == Err::<u64, ValueFault>(ValueFault::Unit) ==> (size matches Err(m) && m@
            == "invalid "@ + "size"@ + " unit in: "@ + debug_form(trimmed(s@))),
        age_of(s@) == Err::<u64, ValueFault>(ValueFault::Invalid) ==> (age matches Err(m) && m@
            == "invalid "@ + "age"@ + ": "@ + debug_form(trimmed(s@))),
        age_of(s@) == Err::<u64, ValueFault>(ValueFault::Unit) ==> (age matches Err(m) && m@
            == "invalid "@ + "age"@ + " unit in: "@ + debug_form(trimmed(s@))),
        age_of(s@) == Err::<u64, ValueFault>(ValueFault::Range) ==> (age matches Err(m) && m@
            == "age"@ + " out of range: "@ + debug_form(trimmed(s@))),
{
}

/// A value is cut in two behind its number: that is digits with at most one dot among them, and
/// goes on as far as it can.
pub proof fn law_values_are_cut_behind_the_number(s: &str, cut: (String, String))
    requires
        call_ensures(split_numeric, (s,), cut),
    ensures
        cut.0@ + cut.1@ == s@,
        forall|i: int|
            0 <= i < cut.0@.len() ==> '0' <= #[trigger] cut.0@[i] <= '9' || cut.0@[i] == '.',
        forall|i: int, j: int|
            0 <= i < j < cut.0@.len() ==> !(#[trigger] cut.0@[i] == '.' && #[trigger] cut.0@[j]
                == '.'),
        cut.1@.len() > 0 ==> !('0' <= cut.1@[0] <= '9'),
        cut.1@.len() > 0 && cut.1@[0] == '.' ==> cut.0@.contains('.'),
{
    let t = s@;
    let k = numeric_length(t);
    lemma_numeric_length(t);
    assert(t.take(k) + t.skip(k) =~= t);
    let whole = digits_length(t);
    lemma_digits_length(t);
    lemma_end_of_digits(t);
    if whole < t.len() && t[whole] == '.' {
        let rest = t.skip(whole + 1);
        lemma_digits_length(rest);
        lemma_end_of_digits(rest);
        assert(cut.0@[whole] == '.');
        if k < t.len() {
            assert(rest[digits_length(rest)] == t[k]);
        }
    }
    if k < t.len() {
        assert(t.skip(k)[0] == t[k]);
    }
}

proof fn lemma_end_of_digits(s: Seq<char>)
    ensures
        digits_length(s) < s.len() ==> !digit(s[digits_length(s)]),
    decreases s.len(),
{
    if s.len() > 0 && digit(s[0]) {
        let rest = s.drop_first();
        lemma_end_of_digits(rest);
        lemma_digits_length(rest);
        if digits_length(s) < s.len() {
            assert(rest[digits_length(rest)] == s[digits_length(s)]);
        }
    }
}

} // verus!
