//! Numbers in decimal notation.

use vstd::prelude::*;
use vstd::string::*;

use crate::text::chars_of;

verus! {

/// Whether `c` is a decimal digit.
pub open spec fn digit(c: char) -> bool {
    '0' <= c <= '9'
}

/// The value of a decimal digit.
pub open spec fn digit_value(c: char) -> nat {
    (c as u32 - 48) as nat
}

/// The digit of a value below ten.
pub open spec fn digit_char(d: nat) -> char {
    (48 + d) as char
}

/// A number in decimal notation.
pub open spec fn decimal(n: nat) -> Seq<char>
    decreases n,
{
    if n < 10 {
        seq![digit_char(n)]
    } else {
        decimal(n / 10).push(digit_char(n % 10))
    }
}

/// Whether a text is made of digits only.
pub open spec fn all_digits(s: Seq<char>) -> bool {
    forall|i: int| 0 <= i < s.len() ==> digit(#[trigger] s[i])
}

/// The value of a text of digits; that of the empty text is zero.
pub open spec fn digits_value(s: Seq<char>) -> nat
    decreases s.len(),
{
    if s.len() == 0 {
        0
    } else {
        digits_value(s.drop_last()) * 10 + digit_value(s.last())
    }
}

/// The number that a text stands for: digits, at least one, after at most one plus sign; nothing
/// for any other text, and for a number above `u64::MAX`.
pub open spec fn number_of(s: Seq<char>) -> Option<u64> {
    let d = if s.len() > 0 && s[0] == '+' {
        s.drop_first()
    } else {
        s
    };
    if d.len() > 0 && all_digits(d) && digits_value(d) <= u64::MAX {
        Some(digits_value(d) as u64)
    } else {
        None
    }
}

/// Decides whether `c` is a decimal digit.
pub fn is_digit(c: char) -> (r: bool)
    ensures
        r == digit(c),
{
    '0' <= c && c <= '9'
}

/// Writes a number in decimal notation.
pub fn decimal_text(n: u64) -> (r: String)
    ensures
        r@ == decimal(n as nat),
    decreases n,
{
    let low: u8 = (n % 10) as u8;
    let c: char = (48u8 + low) as char;
    if n < 10 {
        let mut r = String::new();
        r.push(c);
        assert(r@ =~= seq![c]);
        r
    } else {
        let mut r = decimal_text(n / 10);
        r.push(c);
        r
    }
}

/// A longer text of digits has at least the value of each of its beginnings.
pub proof fn lemma_digits_value_grows(s: Seq<char>, i: int)
    requires
        0 <= i <= s.len(),
    ensures
        digits_value(s.take(i)) <= digits_value(s),
    decreases s.len(),
{
    if i == s.len() {
        assert(s.take(i) =~= s);
    } else {
        let t = s.drop_last();
        lemma_digits_value_grows(t, i);
        assert(t.take(i) =~= s.take(i));
    }
}

/// Reads the digits from `from` up to `to`; nothing where they exceed `u64::MAX`.
pub fn read_digits(v: &Vec<char>, from: usize, to: usize) -> (r: Option<u64>)
    requires
        from <= to <= v@.len(),
        all_digits(v@.subrange(from as int, to as int)),
    ensures
        match r {
            Some(n) => n == digits_value(v@.subrange(from as int, to as int)),
            None => digits_value(v@.subrange(from as int, to as int)) > u64::MAX,
        },
{
    let ghost s = v@.subrange(from as int, to as int);
    let mut n: u64 = 0;
    let mut i: usize = from;
    while i < to
        invariant
            from <= i <= to <= v@.len(),
            s == v@.subrange(from as int, to as int),
            all_digits(s),
            n == digits_value(s.take(i - from)),
        decreases to - i,
    {
        let ghost next = s.take(i + 1 - from);
        assert(next.drop_last() =~= s.take(i - from));
        assert(next.last() == s[i - from] == v@[i as int]);
        let d: u64 = (v[i] as u32 - 48) as u64;
        proof {
            lemma_digits_value_grows(s, i + 1 - from);
        }
        if n > (u64::MAX - d) / 10 {
            return None;
        }
        n = n * 10 + d;
        i = i + 1;
    }
    assert(s.take(to - from) =~= s);
    Some(n)
}

/// Reads a number; the text may hold nothing else.
pub fn read_number(s: &str) -> (r: Option<u64>)
    ensures
        r == number_of(s@),
{
    let v = chars_of(s);
    let mut from: usize = 0;
    if v.len() > 0 && v[0] == '+' {
        from = 1;
    }
    if from == v.len() {
        return None;
    }
    let ghost d = v@.subrange(from as int, v@.len() as int);
    assert(from == 1 ==> d =~= v@.drop_first());
    assert(from == 0 ==> d =~= v@);
    let mut i: usize = from;
    while i < v.len()
        invariant
            from <= i <= v@.len(),
            d == v@.subrange(from as int, v@.len() as int),
            d == (if s@.len() > 0 && s@[0] == '+' {
                s@.drop_first()
            } else {
                s@
            }),
            forall|j: int| 0 <= j < i - from ==> digit(#[trigger] d[j]),
        decreases v.len() - i,
    {
        assert(d[i - from] == v@[i as int]);
        if !is_digit(v[i]) {
            assert(!all_digits(d));
            return None;
        }
        i = i + 1;
    }
    read_digits(&v, from, v.len())
}

// ---------------------------------------------------------------------------------------------
// Laws
// ---------------------------------------------------------------------------------------------

/// Decimal notation is made of digits, at least one, and has the value that was written.
pub proof fn lemma_decimal_reads_back(n: nat)
    ensures
        decimal(n).len() > 0,
        all_digits(decimal(n)),
        digits_value(decimal(n)) == n,
    decreases n,
{
    if n < 10 {
        let s = decimal(n);
        assert(s.drop_last() =~= Seq::<char>::empty());
        assert(digits_value(s) == digits_value(s.drop_last()) * 10 + digit_value(s.last()));
    } else {
        lemma_decimal_reads_back(n / 10);
        let s = decimal(n);
        assert(s.drop_last() =~= decimal(n / 10));
        assert forall|i: int| 0 <= i < s.len() implies digit(#[trigger] s[i]) by {
            if i < s.len() - 1 {
                assert(s[i] == decimal(n / 10)[i]);
            }
        }
    }
}

/// A digit behind a number makes it ten times as great and adds its own value, unless the number is
/// then above `u64::MAX`; a digit alone is its own value; and a plus sign before digits changes
/// nothing.
pub proof fn law_digits_count_by_ten(s: Seq<char>, c: char)
    requires
        '0' <= c <= '9',
        s.len() > 0,
        forall|i: int| 0 <= i < s.len() ==> '0' <= #[trigger] s[i] <= '9',
    ensures
        number_of(seq![c]) == Some((c as int - '0' as int) as u64),
        number_of(s.push(c)) == (match number_of(s) {
            Some(n) if 10 * n + (c as int - '0' as int) <= u64::MAX => Some(
                (10 * n + (c as int - '0' as int)) as u64,
            ),
            _ => None::<u64>,
        }),
        number_of(seq!['+'] + s) == number_of(s),
{
    let one = seq![c];
    assert(one.drop_last() =~= Seq::<char>::empty());
    assert(digits_value(one) == digits_value(one.drop_last()) * 10 + digit_value(one.last()));
    let t = s.push(c);
    assert(t.drop_last() =~= s);
    assert(t[0] == s[0]);
    assert(all_digits(t));
    let p = seq!['+'] + s;
    assert(p.drop_first() =~= s);
}

/// Nothing but digits, at least one, after at most one plus sign is a number.
pub proof fn law_only_digits_are_numbers(s: Seq<char>)
    requires
        number_of(s) is Some,
    ensures
        s.len() > 0,
        '0' <= s[0] <= '9' || (s[0] == '+' && s.len() > 1),
        forall|i: int| 0 < i < s.len() ==> '0' <= #[trigger] s[i] <= '9',
{
    if s.len() > 0 && s[0] == '+' {
        let d = s.drop_first();
        assert forall|i: int| 0 < i < s.len() implies '0' <= #[trigger] s[i] <= '9' by {
            assert(digit(d[i - 1]));
        }
    } else {
        assert forall|i: int| 0 <= i < s.len() implies '0' <= #[trigger] s[i] <= '9' by {
            assert(digit(s[i]));
        }
        assert(s.len() > 0);
        assert('0' <= s[0] <= '9');
    }
}

/// A number that is written starts with a zero only if it is zero, which is written as one digit.
pub proof fn law_no_leading_zero(n: nat)
    ensures
        decimal(n).len() > 0,
        decimal(n)[0] == '0' ==> n == 0 && decimal(n).len() == 1,
    decreases n,
{
    if n >= 10 {
        law_no_leading_zero(n / 10);
        assert(decimal(n)[0] == decimal(n / 10)[0]);
    }
}

/// Reading what was written gives the number back.
pub proof fn law_number_reads_back(n: u64)
    ensures
        number_of(decimal(n as nat)) == Some(n),
{
    lemma_decimal_reads_back(n as nat);
    assert(digit(decimal(n as nat)[0]));
}

} // verus!
