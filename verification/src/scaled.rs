//! Decimal numbers, scaled by a power of two and rounded to whole units the way double precision
//! rounds them, in integer arithmetic throughout.

use vstd::arithmetic::div_mod::*;
use vstd::arithmetic::mul::*;
use vstd::arithmetic::power::pow;
use vstd::arithmetic::power2::*;
use vstd::prelude::*;

use crate::number::{all_digits, digit, digit_value, digits_value, read_digits};

verus! {

/// Ten to the `k`.
pub open spec fn pow10(k: nat) -> nat
    decreases k,
{
    if k == 0 {
        1
    } else {
        10 * pow10((k - 1) as nat)
    }
}

/// The number of binary digits of `n`.
pub open spec fn bit_length(n: nat) -> nat
    decreases n,
{
    if n == 0 {
        0
    } else {
        1 + bit_length(n / 2)
    }
}

/// The whole number nearest to `a / b`; of two that are as near, the even one.
pub open spec fn half_even(a: nat, b: nat) -> nat {
    let q = a / b;
    let r = a % b;
    if 2 * r < b || (2 * r == b && q % 2 == 0) {
        q
    } else {
        q + 1
    }
}

/// `a / b` rounded to a significand of 53 binary digits, for `a / b` of at least that many.
pub open spec fn nearest_double(a: nat, b: nat) -> nat {
    let ulp = pow2((bit_length(a / b) - 53) as nat);
    half_even(a, b * ulp) * ulp
}

/// The least whole number that is out of the range of double precision: half a unit in the last
/// place above the greatest double.
pub open spec fn double_limit() -> nat {
    (pow2(1024) - pow2(970)) as nat
}

/// `int_part + frac / 10^places`, as a double, times `2^shift`, to the nearest whole number, of
/// two that are as near the greater one, and at most `u64::MAX`.
///
/// The value is taken in units of `2^-55`: a value of fewer than 54 binary digits is then below a
/// quarter and rounds to nothing, and every other double is a whole number of these units.
pub open spec fn scaled_bytes(int_part: nat, frac: nat, places: nat, shift: nat) -> nat {
    let b = pow10(places);
    let a = (int_part * b + frac) * pow2(shift + 55);
    let whole = if bit_length(a / b) <= 53 {
        0
    } else {
        (nearest_double(a, b) + pow2(54)) / pow2(55)
    };
    if whole > u64::MAX {
        u64::MAX as nat
    } else {
        whole
    }
}

// ---------------------------------------------------------------------------------------------
// Decimal digits, least significant first
// ---------------------------------------------------------------------------------------------

/// The digit at place `i`, zero beyond the last one.
spec fn place(d: Seq<u8>, i: int) -> nat {
    if 0 <= i < d.len() {
        d[i] as nat
    } else {
        0
    }
}

/// The value of the `i` least significant digits.
spec fn low(d: Seq<u8>, i: nat) -> nat
    decreases i,
{
    if i == 0 {
        0
    } else {
        low(d, (i - 1) as nat) + place(d, i - 1) * pow10((i - 1) as nat)
    }
}

spec fn decimal_places(d: Seq<u8>) -> bool {
    forall|i: int| 0 <= i < d.len() ==> #[trigger] d[i] <= 9
}

proof fn lemma_pow10_positive(k: nat)
    ensures
        pow10(k) > 0,
    decreases k,
{
    if k > 0 {
        lemma_pow10_positive((k - 1) as nat);
    }
}

proof fn lemma_times_one(x: nat)
    ensures
        x * pow10(0) == x,
{
    assert(pow10(0) == 1);
    assert(x * 1 == x);
}

proof fn lemma_low_bound(d: Seq<u8>, i: nat)
    requires
        decimal_places(d),
    ensures
        low(d, i) < pow10(i),
    decreases i,
{
    if i > 0 {
        let k = (i - 1) as nat;
        lemma_low_bound(d, k);
        let p = place(d, i - 1);
        assert(p * pow10(k) <= 9 * pow10(k)) by (nonlinear_arith)
            requires
                p <= 9,
        ;
    }
}

/// Digits that agree below place `i` have the same value there.
proof fn lemma_low_same(a: Seq<u8>, b: Seq<u8>, i: nat)
    requires
        forall|j: int| 0 <= j < i ==> place(a, j) == place(b, j),
    ensures
        low(a, i) == low(b, i),
    decreases i,
{
    if i > 0 {
        lemma_low_same(a, b, (i - 1) as nat);
    }
}

/// Beyond its last digit a number has no more value.
proof fn lemma_low_beyond(d: Seq<u8>, i: nat)
    requires
        i >= d.len(),
    ensures
        low(d, i) == low(d, d.len()),
    decreases i,
{
    if i > d.len() {
        lemma_low_beyond(d, (i - 1) as nat);
        assert(place(d, i - 1) * pow10((i - 1) as nat) == 0) by (nonlinear_arith)
            requires
                place(d, i - 1) == 0,
        ;
    }
}

/// Doubles a number in place, in as many digits as it has, and gives the digit that is carried
/// out of them.
fn double(d: &mut Vec<u8>) -> (carry: u8)
    requires
        decimal_places(old(d)@),
    ensures
        decimal_places(final(d)@),
        final(d)@.len() == old(d)@.len(),
        carry <= 1,
        final(d)@.len() > 0 ==> final(d)@[0] % 2 == 0,
        2 * low(old(d)@, old(d)@.len()) == carry * pow10(old(d)@.len()) + low(
            final(d)@,
            old(d)@.len(),
        ),
{
    let ghost before = d@;
    let mut carry: u8 = 0;
    let mut i: usize = 0;
    while i < d.len()
        invariant
            i <= d@.len(),
            d@.len() == before.len(),
            decimal_places(before),
            decimal_places(d@),
            carry <= 1,
            i == 0 ==> carry == 0,
            i > 0 ==> d@[0] % 2 == 0,
            forall|j: int| i <= j < d@.len() ==> d@[j] == before[j],
            2 * low(before, i as nat) == carry * pow10(i as nat) + low(d@, i as nat),
        decreases d.len() - i,
    {
        let ghost now = d@;
        let t: u8 = d[i] * 2 + carry;
        let digit: u8 = if t >= 10 {
            t - 10
        } else {
            t
        };
        let up: u8 = if t >= 10 {
            1
        } else {
            0
        };
        d.set(i, digit);
        proof {
            lemma_low_same(now, d@, i as nat);
            let p = pow10(i as nat);
            let x = before[i as int] as nat;
            assert(2 * x + carry == 10 * up + digit);
            assert(2 * (x * p) + carry * p == up * (10 * p) + digit * p) by (nonlinear_arith)
                requires
                    2 * x + carry == 10 * up + digit,
            ;
        }
        carry = up;
        i = i + 1;
    }
    carry
}

/// Whether `a` is at least `b`.
fn at_least(a: &Vec<u8>, b: &Vec<u8>) -> (r: bool)
    requires
        decimal_places(a@),
        decimal_places(b@),
    ensures
        r == (low(a@, a@.len()) >= low(b@, b@.len())),
{
    let n: usize = if a.len() > b.len() {
        a.len()
    } else {
        b.len()
    };
    let mut r = true;
    let mut i: usize = 0;
    while i < n
        invariant
            i <= n,
            decimal_places(a@),
            decimal_places(b@),
            r == (low(a@, i as nat) >= low(b@, i as nat)),
        decreases n - i,
    {
        let x: u8 = if i < a.len() {
            a[i]
        } else {
            0
        };
        let y: u8 = if i < b.len() {
            b[i]
        } else {
            0
        };
        proof {
            lemma_low_bound(a@, i as nat);
            lemma_low_bound(b@, i as nat);
            let p = pow10(i as nat);
            if x > y {
                assert(x * p >= y * p + p) by (nonlinear_arith)
                    requires
                        x >= y + 1,
                ;
            } else if x < y {
                assert(y * p >= x * p + p) by (nonlinear_arith)
                    requires
                        y >= x + 1,
                ;
            }
        }
        if x > y {
            r = true;
        } else if x < y {
            r = false;
        }
        i = i + 1;
    }
    proof {
        lemma_low_beyond(a@, n as nat);
        lemma_low_beyond(b@, n as nat);
    }
    r
}

/// Whether a number is zero.
fn is_zero(d: &Vec<u8>) -> (r: bool)
    requires
        decimal_places(d@),
    ensures
        r == (low(d@, d@.len()) == 0),
{
    let mut r = true;
    let mut i: usize = 0;
    while i < d.len()
        invariant
            i <= d@.len(),
            decimal_places(d@),
            r == (low(d@, i as nat) == 0),
        decreases d.len() - i,
    {
        proof {
            lemma_pow10_positive(i as nat);
            let p = pow10(i as nat);
            let x = d@[i as int] as nat;
            assert((x == 0) <==> (x * p == 0)) by (nonlinear_arith)
                requires
                    p > 0,
            ;
        }
        if d[i] != 0 {
            r = false;
        }
        i = i + 1;
    }
    r
}

/// The first digit of a number stands for its value times a power of ten.
proof fn lemma_first_digit(s: Seq<char>)
    requires
        s.len() > 0,
    ensures
        digits_value(s) == digit_value(s[0]) * pow10((s.len() - 1) as nat) + digits_value(
            s.drop_first(),
        ),
    decreases s.len(),
{
    if s.len() == 1 {
        assert(s.drop_last() =~= Seq::<char>::empty());
        assert(s.drop_first() =~= Seq::<char>::empty());
        assert(digits_value(Seq::<char>::empty()) == 0);
        lemma_times_one(digit_value(s[0]));
    } else {
        let t = s.drop_last();
        lemma_first_digit(t);
        assert(t.drop_first() =~= s.drop_first().drop_last());
        assert(s.drop_first().last() == s.last());
        assert(t[0] == s[0]);
        let p = pow10((s.len() - 2) as nat);
        let x = digit_value(s[0]);
        assert((x * p) * 10 == x * (10 * p)) by (nonlinear_arith);
    }
}

/// The digits from `from` up to `to`, least significant first.
fn digits_between(v: &Vec<char>, from: usize, to: usize) -> (r: Vec<u8>)
    requires
        from <= to <= v@.len(),
        all_digits(v@.subrange(from as int, to as int)),
    ensures
        decimal_places(r@),
        r@.len() == to - from,
        low(r@, r@.len()) == digits_value(v@.subrange(from as int, to as int)),
{
    let ghost s = v@.subrange(from as int, to as int);
    let mut r: Vec<u8> = Vec::new();
    let mut i: usize = to;
    assert(s.skip(s.len() as int) =~= Seq::<char>::empty());
    while i > from
        invariant
            from <= i <= to <= v@.len(),
            s == v@.subrange(from as int, to as int),
            all_digits(s),
            decimal_places(r@),
            r@.len() == to - i,
            low(r@, r@.len()) == digits_value(s.skip(i - from)),
        decreases i - from,
    {
        i = i - 1;
        let ghost before = r@;
        let ghost tail = s.skip(i - from);
        assert(s[i - from] == v@[i as int]);
        let d: u8 = (v[i] as u32 - 48) as u8;
        r.push(d);
        proof {
            assert(tail[0] == s[i - from]);
            assert(tail.drop_first() =~= s.skip(i + 1 - from));
            lemma_first_digit(tail);
            lemma_low_same(before, r@, before.len());
        }
    }
    assert(s.skip(0) =~= s);
    r
}

proof fn lemma_low_plus_one(a: Seq<u8>, b: Seq<u8>, i: nat)
    requires
        a.len() > 0,
        a[0] < 255,
        b == a.update(0, (a[0] + 1) as u8),
        i > 0,
    ensures
        low(b, i) == low(a, i) + 1,
    decreases i,
{
    lemma_times_one(a[0] as nat);
    lemma_times_one(b[0] as nat);
    assert(low(a, 0) == 0 && low(b, 0) == 0);
    if i > 1 {
        lemma_low_plus_one(a, b, (i - 1) as nat);
    }
}

/// Doubles a number in place, in one digit more where it takes one.
fn double_whole(d: &mut Vec<u8>)
    requires
        decimal_places(old(d)@),
        old(d)@.len() > 0,
    ensures
        decimal_places(final(d)@),
        final(d)@.len() > 0,
        final(d)@[0] % 2 == 0,
        low(final(d)@, final(d)@.len()) == 2 * low(old(d)@, old(d)@.len()),
{
    let carry = double(d);
    if carry > 0 {
        let ghost before = d@;
        d.push(carry);
        proof {
            lemma_low_same(before, d@, before.len());
        }
    }
}

/// The digits of the least whole number that is out of the range of double precision.
fn limit_digits() -> (r: Vec<u8>)
    ensures
        decimal_places(r@),
        low(r@, r@.len()) == double_limit(),
{
    let mut r: Vec<u8> = vec![0];
    proof {
        lemma2_to64();
        assert(low(r@, 0) == 0);
        lemma_times_one(0);
        assert(low(r@, 1) == 0);
    }
    let mut i: usize = 0;
    while i < 54
        invariant
            i <= 54,
            decimal_places(r@),
            r@.len() > 0,
            low(r@, r@.len()) == pow2(i as nat) - 1,
        decreases 54 - i,
    {
        proof {
            lemma_pow2_unfold((i + 1) as nat);
        }
        double_whole(&mut r);
        let ghost before = r@;
        let first: u8 = r[0];
        r.set(0, first + 1);
        proof {
            lemma_low_plus_one(before, r@, r@.len());
        }
        i = i + 1;
    }
    let ghost start = low(r@, r@.len());
    i = 0;
    while i < 970
        invariant
            i <= 970,
            decimal_places(r@),
            r@.len() > 0,
            low(r@, r@.len()) == start * pow2(i as nat),
        decreases 970 - i,
    {
        proof {
            lemma_pow2_unfold((i + 1) as nat);
            let p = pow2(i as nat);
            assert(start * (2 * p) == 2 * (start * p)) by (nonlinear_arith);
        }
        double_whole(&mut r);
        i = i + 1;
    }
    proof {
        lemma_pow2_adds(54, 970);
        let p = pow2(970);
        assert((start + 1) * p == start * p + p) by (nonlinear_arith);
    }
    r
}

// ---------------------------------------------------------------------------------------------
// Rounding
// ---------------------------------------------------------------------------------------------

proof fn lemma_bit_length(n: nat)
    requires
        n > 0,
    ensures
        bit_length(n) > 0,
        pow2((bit_length(n) - 1) as nat) <= n < pow2(bit_length(n)),
    decreases n,
{
    lemma2_to64();
    if n == 1 {
        assert(bit_length(0) == 0);
        assert(bit_length(1) == 1);
    } else {
        lemma_bit_length(n / 2);
        let k = bit_length(n / 2);
        lemma_pow2_unfold(k);
        lemma_pow2_unfold(k + 1);
    }
}

proof fn lemma_pow2_ordered(a: nat, b: nat)
    requires
        a <= b,
    ensures
        pow2(a) <= pow2(b),
{
    if a < b {
        lemma_pow2_strictly_increases(a, b);
    }
}

/// A number between two neighbouring powers of two has that many binary digits.
proof fn lemma_bit_length_is(n: nat, k: nat)
    requires
        k > 0,
        pow2((k - 1) as nat) <= n < pow2(k),
    ensures
        bit_length(n) == k,
{
    lemma_pow2_pos((k - 1) as nat);
    lemma_bit_length(n);
    let b = bit_length(n);
    if b < k {
        lemma_pow2_ordered(b, (k - 1) as nat);
    } else if b > k {
        lemma_pow2_ordered(k, (b - 1) as nat);
    }
}

/// The rounding of `scaled_bytes`, on the whole part of the value and on whether anything is left
/// beside it.
spec fn rounded(x: nat, exact: bool) -> nat {
    if bit_length(x) <= 53 {
        0
    } else {
        let ulp = pow2((bit_length(x) - 53) as nat);
        let m = x / ulp;
        let rest = x % ulp;
        let up = 2 * rest > ulp || (2 * rest == ulp && (!exact || m % 2 == 1));
        let m1 = if up {
            m + 1
        } else {
            m
        };
        (m1 * ulp + pow2(54)) / pow2(55)
    }
}

/// Rounding needs no more than the whole part and whether anything is left beside it.
proof fn lemma_rounded(a: nat, b: nat, x: nat, rest: nat)
    requires
        b > 0,
        rest < b,
        a == x * b + rest,
    ensures
        a / b == x,
        bit_length(x) > 53 ==> rounded(x, rest == 0) == (nearest_double(a, b) + pow2(54)) / pow2(
            55,
        ),
{
    lemma_fundamental_div_mod_converse(a as int, b as int, x as int, rest as int);
    if bit_length(x) > 53 {
        let k = (bit_length(x) - 53) as nat;
        let ulp = pow2(k);
        let half = pow2((k - 1) as nat);
        lemma_pow2_unfold(k);
        lemma_pow2_pos((k - 1) as nat);
        assert(ulp == 2 * half);
        let m = x / ulp;
        let lo = x % ulp;
        lemma_fundamental_div_mod(x as int, ulp as int);
        let bu = b * ulp;
        let left = lo * b + rest;
        assert(a == bu * m + left && 0 <= left < bu) by (nonlinear_arith)
            requires
                a == x * b + rest,
                x == ulp * m + lo,
                0 <= lo < ulp,
                0 <= rest < b,
                bu == b * ulp,
                left == lo * b + rest,
        ;
        lemma_fundamental_div_mod_converse(a as int, bu as int, m as int, left as int);
        assert(bu == 2 * (b * half)) by (nonlinear_arith)
            requires
                bu == b * ulp,
                ulp == 2 * half,
        ;
        if lo < half {
            assert(left < b * half) by (nonlinear_arith)
                requires
                    lo + 1 <= half,
                    left == lo * b + rest,
                    rest < b,
                    b > 0,
            ;
        } else if lo > half {
            assert(left > b * half) by (nonlinear_arith)
                requires
                    lo >= half + 1,
                    left == lo * b + rest,
                    rest >= 0,
                    b > 0,
            ;
        } else {
            assert(left == b * half + rest) by (nonlinear_arith)
                requires
                    lo == half,
                    left == lo * b + rest,
            ;
        }
    }
}

/// A value of at least two to the 64 is cut down to `u64::MAX`.
proof fn lemma_too_large(int_part: nat, frac: nat, places: nat, shift: nat)
    requires
        int_part * pow2(shift) >= pow2(64),
    ensures
        scaled_bytes(int_part, frac, places, shift) == u64::MAX,
{
    let b = pow10(places);
    lemma_pow10_positive(places);
    let t = pow2(shift + 55);
    let a = (int_part * b + frac) * t;
    lemma_pow2_adds(shift, 55);
    lemma_pow2_adds(64, 55);
    lemma_pow2_pos(55);
    let p = pow2(shift);
    let q = pow2(55);
    assert(int_part * t >= pow2(119)) by (nonlinear_arith)
        requires
            t == p * q,
            int_part * p >= pow2(64),
            pow2(119) == pow2(64) * q,
            q > 0,
    ;
    let low = (int_part * t) * b;
    assert(a >= low) by (nonlinear_arith)
        requires
            a == (int_part * b + frac) * t,
            low == (int_part * t) * b,
            frac >= 0,
            t >= 0,
    ;
    lemma_div_is_ordered(low as int, a as int, b as int);
    lemma_div_by_multiple((int_part * t) as int, b as int);
    let x = a / b;
    assert(x >= pow2(119));
    lemma_pow2_pos(119);
    lemma_bit_length(x);
    let n = bit_length(x);
    if n <= 119 {
        lemma_pow2_ordered(n, 119);
    }
    let ulp = pow2((n - 53) as nat);
    lemma_pow2_pos((n - 53) as nat);
    lemma_pow2_adds(52, (n - 53) as nat);
    lemma_div_denominator(a as int, b as int, ulp as int);
    assert(a / (b * ulp) == x / ulp);
    let top = pow2((n - 1) as nat);
    assert(top == pow2(52) * ulp);
    lemma_div_is_ordered(top as int, x as int, ulp as int);
    lemma_div_by_multiple(pow2(52) as int, ulp as int);
    let m = half_even(a, b * ulp);
    assert(m >= pow2(52));
    assert(m * ulp >= pow2(52) * ulp) by (nonlinear_arith)
        requires
            m >= pow2(52),
            ulp >= 0,
    ;
    lemma_pow2_ordered(119, (n - 1) as nat);
    let near = nearest_double(a, b);
    assert(near >= pow2(119));
    lemma_div_is_ordered(pow2(119) as int, (near + pow2(54)) as int, q as int);
    lemma_div_by_multiple(pow2(64) as int, q as int);
    assert(pow2(64) == u64::MAX + 1) by {
        lemma2_to64();
    }
}

/// Rounds a value that is given by its whole part and whether anything is left beside it.
fn round(x: u128, exact: bool) -> (r: u128)
    requires
        x < pow2(119),
    ensures
        r == rounded(x as nat, exact),
{
    let ghost n = x as nat;
    proof {
        lemma2_to64();
        lemma2_to64_rest();
        lemma_pow2_adds(64, 55);
        assert(pow2(119) == 0x800000000000000000000000000000nat);
    }
    if x < 0x20000000000000 {
        proof {
            if x > 0 {
                lemma_bit_length(n);
                if bit_length(n) > 53 {
                    lemma_pow2_ordered(53, (bit_length(n) - 1) as nat);
                }
            }
        }
        return 0;
    }
    let mut m: u128 = x;
    let mut ulp: u128 = 1;
    let ghost mut k: nat = 0;
    assert(n / 1 == n);
    while m >= 0x20000000000000
        invariant
            n < 0x800000000000000000000000000000nat,
            ulp == pow2(k),
            ulp > 0,
            m == n / (ulp as nat),
            m * ulp <= n,
            k > 0 ==> m >= 0x10000000000000,
            k == 0 ==> m >= 0x20000000000000,
        decreases m,
    {
        let ghost u = ulp as nat;
        proof {
            lemma_pow2_unfold(k + 1);
            lemma_div_denominator(n as int, u as int, 2);
            lemma_fundamental_div_mod(n as int, (u * 2) as int);
            assert(u <= m * u) by (nonlinear_arith)
                requires
                    m >= 1,
            ;
            assert(2 * u <= m * u) by (nonlinear_arith)
                requires
                    m >= 2,
            ;
            k = k + 1;
        }
        m = m / 2;
        ulp = ulp * 2;
        assert(m * ulp <= n) by {
            lemma_mul_is_commutative((u * 2) as int, m as int);
        }
    }
    let ghost u = ulp as nat;
    proof {
        lemma_fundamental_div_mod(n as int, u as int);
        lemma_mul_is_commutative(u as int, m as int);
        assert(pow2(52) == 0x10000000000000nat && pow2(53) == 0x20000000000000nat);
        lemma_pow2_adds(52, k);
        lemma_pow2_adds(53, k);
        assert(pow2(52) * u <= m * u) by (nonlinear_arith)
            requires
                pow2(52) <= m,
        ;
        assert((m + 1) * u <= pow2(53) * u) by (nonlinear_arith)
            requires
                m + 1 <= pow2(53),
        ;
        assert((m + 1) * u == m * u + u) by (nonlinear_arith);
        lemma_bit_length_is(n, 53 + k);
    }
    let rest: u128 = x - m * ulp;
    assert(rest == n % u);
    let up = 2 * rest > ulp || (2 * rest == ulp && (!exact || m % 2 == 1));
    let m1: u128 = if up {
        m + 1
    } else {
        m
    };
    assert(pow2(54) == 0x40000000000000nat && pow2(55) == 0x80000000000000nat);
    (m1 * ulp + 0x40000000000000) / 0x80000000000000
}

/// Reads `int.frac` as a double, scales it by two to the `shift` and rounds it to whole units; the
/// whole part is given by the digits from `a` up to `b`, the fraction by those from `c` up to `d`.
/// Nothing comes of a number that no double can hold.
pub fn scale_number(v: &Vec<char>, a: usize, b: usize, c: usize, d: usize, shift: usize) -> (r:
    Option<u64>)
    requires
        a <= b <= v@.len(),
        c <= d <= v@.len(),
        all_digits(v@.subrange(a as int, b as int)),
        all_digits(v@.subrange(c as int, d as int)),
        shift <= 60,
    ensures
        ({
            let int_part = digits_value(v@.subrange(a as int, b as int));
            let frac = digits_value(v@.subrange(c as int, d as int));
            r == if int_part >= double_limit() {
                None
            } else {
                Some(scaled_bytes(int_part, frac, (d - c) as nat, shift as nat) as u64)
            }
        }),
{
    let ghost int_part = digits_value(v@.subrange(a as int, b as int));
    let ghost frac = digits_value(v@.subrange(c as int, d as int));
    let ghost places = (d - c) as nat;
    proof {
        lemma2_to64();
        lemma2_to64_rest();
        lemma_pow2_pos(shift as nat);
    }
    match read_digits(v, a, b) {
        None => {
            let digits = digits_between(v, a, b);
            if at_least(&digits, &limit_digits()) {
                None
            } else {
                proof {
                    assert(int_part * pow2(shift as nat) >= int_part) by (nonlinear_arith)
                        requires
                            pow2(shift as nat) >= 1,
                    ;
                    lemma_too_large(int_part, frac, places, shift as nat);
                }
                Some(u64::MAX)
            }
        },
        Some(n) => {
            proof {
                lemma_pow2_adds(54, 970);
                lemma_pow2_ordered(64, 970);
                let p = pow2(970);
                assert(pow2(54) * p >= 2 * p) by (nonlinear_arith)
                    requires
                        pow2(54) >= 2,
                ;
                assert(int_part < double_limit());
            }
            let mut bound: u128 = 1;
            let mut i: usize = shift;
            while i < 64
                invariant
                    shift <= i <= 64,
                    bound == pow2((i - shift) as nat),
                    bound <= 0x10000000000000000,
                decreases 64 - i,
            {
                proof {
                    lemma_pow2_unfold((i + 1 - shift) as nat);
                    lemma_pow2_ordered((i + 1 - shift) as nat, 64);
                    lemma2_to64();
                }
                bound = bound * 2;
                i = i + 1;
            }
            proof {
                lemma_pow2_adds((64 - shift) as nat, shift as nat);
            }
            if n as u128 >= bound {
                proof {
                    assert(n * pow2(shift as nat) >= bound * pow2(shift as nat)) by (nonlinear_arith)
                        requires
                            n >= bound,
                    ;
                    lemma_too_large(int_part, frac, places, shift as nat);
                }
                return Some(u64::MAX);
            }
            let mut rest = digits_between(v, c, d);
            let mut x: u128 = n as u128;
            let steps: usize = shift + 55;
            let ghost p10 = pow10(places);
            let mut j: usize = 0;
            while j < steps
                invariant
                    j <= steps,
                    steps == shift + 55,
                    shift <= 60,
                    decimal_places(rest@),
                    rest@.len() == places,
                    p10 == pow10(places),
                    n < bound,
                    bound == pow2((64 - shift) as nat),
                    x + 1 <= (n + 1) * pow2(j as nat),
                    x * p10 + low(rest@, places) == (n * p10 + frac) * pow2(j as nat),
                decreases steps - j,
            {
                let ghost x0 = x as nat;
                let ghost low0 = low(rest@, places);
                let ghost t = pow2(j as nat);
                let ghost t2 = pow2((j + 1) as nat);
                proof {
                    lemma_pow2_unfold((j + 1) as nat);
                    assert((n + 1) * t2 == 2 * ((n + 1) * t)) by (nonlinear_arith)
                        requires
                            t2 == 2 * t,
                    ;
                    lemma_in_bounds(n as nat, (j + 1) as nat, shift as nat);
                }
                let carry = double(&mut rest);
                x = x * 2 + carry as u128;
                proof {
                    let low1 = low(rest@, places);
                    assert(x * p10 + low1 == (n * p10 + frac) * t2) by (nonlinear_arith)
                        requires
                            x == x0 * 2 + carry,
                            2 * low0 == carry * p10 + low1,
                            x0 * p10 + low0 == (n * p10 + frac) * t,
                            t2 == 2 * t,
                    ;
                }
                j = j + 1;
            }
            let exact = is_zero(&rest);
            proof {
                lemma_in_bounds(n as nat, steps as nat, shift as nat);
                lemma_low_bound(rest@, places);
                lemma_pow10_positive(places);
                let whole = (int_part * p10 + frac) * pow2((shift + 55) as nat);
                lemma_rounded(whole, p10, x as nat, low(rest@, places));
            }
            let r = round(x, exact);
            if r > u64::MAX as u128 {
                Some(u64::MAX)
            } else {
                Some(r as u64)
            }
        },
    }
}

proof fn lemma_in_bounds(n: nat, j: nat, shift: nat)
    requires
        shift <= 60,
        n < pow2((64 - shift) as nat),
        j <= shift + 55,
    ensures
        (n + 1) * pow2(j) <= pow2(119),
        pow2(119) == 0x800000000000000000000000000000nat,
{
    let b = pow2((64 - shift) as nat);
    lemma_pow2_adds((64 - shift) as nat, j);
    lemma_pow2_ordered((64 - shift) as nat + j, 119);
    assert((n + 1) * pow2(j) <= b * pow2(j)) by (nonlinear_arith)
        requires
            n + 1 <= b,
    ;
    lemma2_to64();
    lemma2_to64_rest();
    lemma_pow2_adds(64, 55);
}

// ---------------------------------------------------------------------------------------------
// Laws
// ---------------------------------------------------------------------------------------------

/// A whole number of at most 53 binary digits loses nothing, but for what is above `u64::MAX`.
pub proof fn law_whole_numbers_are_exact(n: nat, shift: nat)
    requires
        n < pow2(53),
    ensures
        n * pow2(shift) <= u64::MAX ==> scaled_bytes(n, 0, 0, shift) == n * pow2(shift),
        n * pow2(shift) > u64::MAX ==> scaled_bytes(n, 0, 0, shift) == u64::MAX,
        n < double_limit(),
{
    lemma_pow2_unfold(1024);
    lemma_pow2_ordered(970, 1023);
    lemma_pow2_ordered(53, 1023);
    lemma_times_one(n);
    let b = pow10(0);
    let a = n * pow2(shift + 55);
    assert((n * b + 0) * pow2(shift + 55) == a);
    assert(b == 1);
    assert(a / b == a) by (nonlinear_arith)
        requires
            b == 1,
    ;
    if n == 0 {
        assert(a == 0) by (nonlinear_arith)
            requires
                a == n * pow2(shift + 55),
                n == 0,
        ;
        assert(n * pow2(shift) == 0) by (nonlinear_arith)
            requires
                n == 0,
        ;
        assert(bit_length(0) == 0);
    } else {
        lemma_bit_length(n);
        let l = bit_length(n);
        if l > 53 {
            lemma_pow2_ordered(53, (l - 1) as nat);
        }
        let s = shift + 55;
        lemma_pow2_pos(s);
        lemma_pow2_adds((l - 1) as nat, s);
        lemma_pow2_adds(l, s);
        let low = pow2((l - 1) as nat);
        let high = pow2(l);
        let p = pow2(s);
        assert(low * p <= a && a < high * p) by (nonlinear_arith)
            requires
                a == n * p,
                low <= n,
                n < high,
                p > 0,
        ;
        lemma_bit_length_is(a, l + s);
        let ulp = pow2((l + s - 53) as nat);
        let rest = pow2((53 - l) as nat);
        lemma_pow2_adds((53 - l) as nat, (l + s - 53) as nat);
        let q = n * rest;
        assert(a == q * ulp) by (nonlinear_arith)
            requires
                a == n * p,
                p == rest * ulp,
                q == n * rest,
        ;
        lemma_pow2_pos((l + s - 53) as nat);
        assert(b * ulp == ulp) by (nonlinear_arith)
            requires
                b == 1,
        ;
        lemma_fundamental_div_mod_converse(a as int, ulp as int, q as int, 0);
        assert(nearest_double(a, b) == a);
        lemma_pow2_adds(shift, 55);
        lemma_pow2_unfold(55);
        lemma_pow2_pos(54);
        let m = n * pow2(shift);
        assert(a + pow2(54) == m * pow2(55) + pow2(54)) by (nonlinear_arith)
            requires
                a == n * p,
                p == pow2(shift) * pow2(55),
                m == n * pow2(shift),
        ;
        lemma_fundamental_div_mod_converse(
            (a + pow2(54)) as int,
            pow2(55) as int,
            m as int,
            pow2(54) as int,
        );
    }
}

/// Rounding to the nearest whole number moves by half at most.
proof fn lemma_half_even(a: nat, c: nat)
    requires
        c > 0,
    ensures
        2 * (half_even(a, c) * c) <= 2 * a + c,
        2 * (half_even(a, c) * c) + c >= 2 * a,
{
    let q = a / c;
    let r = a % c;
    lemma_fundamental_div_mod(a as int, c as int);
    assert((q + 1) * c == q * c + c) by (nonlinear_arith);
    assert(c * q == q * c) by (nonlinear_arith);
}

proof fn lemma_pow10_is_power(k: nat)
    ensures
        pow10(k) == pow(10, k),
    decreases k,
{
    reveal(pow);
    if k > 0 {
        lemma_pow10_is_power((k - 1) as nat);
    }
}

/// A number with a fraction is read as one of the whole numbers next to it, and as the nearer one
/// unless it is within a sixteenth of the middle between them. This holds below two to the 50.
pub proof fn law_fractions_are_near(w: nat, f: nat, places: nat, shift: nat)
    requires
        (w * pow(10, places) + f) * pow2(shift) < pow(10, places) * pow2(50),
    ensures
        ({
            let b = pow(10, places);
            let k = (w * b + f) * pow2(shift);
            let n = scaled_bytes(w, f, places, shift);
            16 * k - 9 * b <= 16 * (n * b) <= 16 * k + 9 * b
        }),
{
    lemma_pow10_is_power(places);
    lemma_pow10_positive(places);
    let b = pow10(places);
    let d = pow2(shift);
    let h = pow2(54);
    let p = pow2(shift + 55);
    lemma_pow2_adds(shift, 55);
    lemma_pow2_unfold(55);
    lemma_pow2_pos(54);
    let t = w * b + f;
    let k = t * d;
    let a = t * p;
    assert(a == k * (2 * h)) by (nonlinear_arith)
        requires
            a == t * p,
            p == d * (2 * h),
            k == t * d,
    ;
    let x = a / b;
    lemma_fundamental_div_mod(a as int, b as int);
    assert(b * x <= a < b * x + b);
    if x > 0 {
        lemma_bit_length(x);
    }
    let l = bit_length(x);
    let n = scaled_bytes(w, f, places, shift);
    if l <= 53 {
        lemma_pow2_ordered(l, 53);
        lemma_pow2_unfold(54);
        let q = pow2(53);
        lemma_pow2_pos(53);
        assert(x < q) by {
            if x > 0 {
                assert(x < pow2(l));
            }
        }
        assert(a <= b * q) by (nonlinear_arith)
            requires
                a < b * x + b,
                x < q,
        ;
        assert(4 * k <= b) by (nonlinear_arith)
            requires
                a == k * (2 * h),
                a <= b * q,
                h == 2 * q,
                q > 0,
        ;
        assert(n == 0);
        assert(n * b == 0) by (nonlinear_arith)
            requires
                n == 0,
        ;
    } else {
        lemma_pow2_adds(50, 55);
        let big = pow2(105);
        assert(a < b * big) by (nonlinear_arith)
            requires
                a == k * (2 * h),
                k < b * pow2(50),
                big == pow2(50) * (2 * h),
                h > 0,
        ;
        assert(x < big) by (nonlinear_arith)
            requires
                b * x <= a,
                a < b * big,
        ;
        if l > 105 {
            lemma_pow2_ordered(105, (l - 1) as nat);
        }
        let ulp = pow2((l - 53) as nat);
        lemma_pow2_ordered((l - 53) as nat, 52);
        lemma_pow2_adds(52, 2);
        lemma2_to64();
        lemma_pow2_pos((l - 53) as nat);
        assert(4 * ulp <= h);
        assert(b * ulp > 0) by (nonlinear_arith)
            requires
                b > 0,
                ulp > 0,
        ;
        lemma_half_even(a, b * ulp);
        let e = half_even(a, b * ulp);
        let near = nearest_double(a, b);
        assert(e * (b * ulp) == b * near) by (nonlinear_arith)
            requires
                near == e * ulp,
        ;
        assert(4 * (b * ulp) <= b * h) by (nonlinear_arith)
            requires
                4 * ulp <= h,
        ;
        let m = (near + h) / (2 * h);
        lemma_fundamental_div_mod((near + h) as int, (2 * h) as int);
        assert((2 * h) * m <= near + h < (2 * h) * m + 2 * h);
        let bh = b * h;
        let mb = m * b;
        assert(2 * (mb * h) <= b * near + bh && b * near < 2 * (mb * h) + bh) by (nonlinear_arith)
            requires
                (2 * h) * m <= near + h,
                near + h < (2 * h) * m + 2 * h,
                mb == m * b,
                bh == b * h,
                b > 0,
        ;
        assert(a == 2 * (k * h)) by (nonlinear_arith)
            requires
                a == k * (2 * h),
        ;
        assert(16 * (mb * h) <= 16 * (k * h) + 9 * bh);
        assert(16 * (k * h) <= 16 * (mb * h) + 9 * bh);
        assert(16 * mb <= 16 * k + 9 * b) by (nonlinear_arith)
            requires
                16 * (mb * h) <= 16 * (k * h) + 9 * bh,
                bh == b * h,
                h > 0,
        ;
        assert(16 * k <= 16 * mb + 9 * b) by (nonlinear_arith)
            requires
                16 * (k * h) <= 16 * (mb * h) + 9 * bh,
                bh == b * h,
                h > 0,
        ;
        lemma_pow2_ordered(50, 60);
        assert(m <= u64::MAX) by {
            assert(16 * m <= 16 * pow2(50) + 9) by (nonlinear_arith)
                requires
                    16 * mb <= 16 * k + 9 * b,
                    mb == m * b,
                    k < b * pow2(50),
                    b > 0,
            ;
            lemma2_to64_rest();
            lemma_pow2_adds(60, 4);
        }
        assert(n == m);
    }
}

/// A number is read to within half a byte, and one part in two to the 53 of itself: as double
/// precision is off by that much at most. This holds below two to the 63.
pub proof fn law_numbers_are_read_as_doubles(w: nat, f: nat, places: nat, shift: nat)
    requires
        (w * pow(10, places) + f) * pow2(shift) < pow(10, places) * pow2(63),
    ensures
        ({
            let b = pow(10, places);
            let k = (w * b + f) * pow2(shift);
            let n = scaled_bytes(w, f, places, shift);
            let e = pow2(53);
            2 * e * k - e * b - 2 * k <= 2 * e * (n * b) <= 2 * e * k + e * b + 2 * k
        }),
{
    lemma_pow10_is_power(places);
    lemma_pow10_positive(places);
    let b = pow10(places);
    let d = pow2(shift);
    let h = pow2(54);
    let z = pow2(53);
    let p = pow2(shift + 55);
    lemma_pow2_adds(shift, 55);
    lemma_pow2_unfold(55);
    lemma_pow2_unfold(54);
    lemma_pow2_pos(54);
    lemma_pow2_pos(53);
    let t = w * b + f;
    let k = t * d;
    let a = t * p;
    assert(a == 2 * (k * h)) by (nonlinear_arith)
        requires
            a == t * p,
            p == d * (2 * h),
            k == t * d,
    ;
    let x = a / b;
    lemma_fundamental_div_mod(a as int, b as int);
    assert(b * x <= a < b * x + b);
    if x > 0 {
        lemma_bit_length(x);
    }
    let l = bit_length(x);
    let n = scaled_bytes(w, f, places, shift);
    if l <= 53 {
        lemma_pow2_ordered(l, 53);
        assert(x < z) by {
            if x > 0 {
                assert(x < pow2(l));
            }
        }
        assert(a <= b * z) by (nonlinear_arith)
            requires
                a < b * x + b,
                x < z,
        ;
        assert(4 * k <= b) by (nonlinear_arith)
            requires
                a == 2 * (k * h),
                a <= b * z,
                h == 2 * z,
                z > 0,
        ;
        assert(n == 0);
        assert(n * b == 0) by (nonlinear_arith)
            requires
                n == 0,
        ;
        assert(2 * z * k - z * b - 2 * k <= 0) by (nonlinear_arith)
            requires
                4 * k <= b,
                z > 0,
                k >= 0,
        ;
        assert(2 * z * (n * b) == 0) by (nonlinear_arith)
            requires
                n * b == 0,
        ;
        assert(0 <= 2 * z * k + z * b + 2 * k) by (nonlinear_arith)
            requires
                z > 0,
                k >= 0,
                b > 0,
        ;
    } else {
        let ulp = pow2((l - 53) as nat);
        lemma_pow2_pos((l - 53) as nat);
        lemma_pow2_adds(52, (l - 53) as nat);
        lemma_pow2_unfold(53);
        let half = pow2(52);
        assert(half * ulp <= x);
        assert(b * ulp > 0) by (nonlinear_arith)
            requires
                b > 0,
                ulp > 0,
        ;
        lemma_half_even(a, b * ulp);
        let e = half_even(a, b * ulp);
        let near = nearest_double(a, b);
        assert(e * (b * ulp) == b * near) by (nonlinear_arith)
            requires
                near == e * ulp,
        ;
        // Half a unit in the last place is one part in two to the 53.
        assert(half * (b * ulp) <= a) by (nonlinear_arith)
            requires
                half * ulp <= x,
                b * x <= a,
                b > 0,
        ;
        let m = (near + h) / (2 * h);
        lemma_fundamental_div_mod((near + h) as int, (2 * h) as int);
        assert((2 * h) * m <= near + h < (2 * h) * m + 2 * h);
        let bh = b * h;
        let mb = m * b;
        assert(2 * (mb * h) <= b * near + bh && b * near < 2 * (mb * h) + bh) by (nonlinear_arith)
            requires
                (2 * h) * m <= near + h,
                near + h < (2 * h) * m + 2 * h,
                mb == m * b,
                bh == b * h,
                b > 0,
        ;
        let bu = b * ulp;
        let bn = b * near;
        assert(2 * bn <= 2 * a + bu && 2 * a <= 2 * bn + bu);
        assert(z == 2 * half);
        assert(z * (2 * (mb * h)) <= z * a + z * bh + a && z * a <= z * (2 * (mb * h)) + z * bh + a)
            by (nonlinear_arith)
            requires
                2 * bn <= 2 * a + bu,
                2 * a <= 2 * bn + bu,
                half * bu <= a,
                z == 2 * half,
                2 * (mb * h) <= bn + bh,
                bn < 2 * (mb * h) + bh,
                half > 0,
        ;
        assert(2 * z * mb <= 2 * z * k + z * b + 2 * k) by (nonlinear_arith)
            requires
                z * (2 * (mb * h)) <= z * a + z * bh + a,
                a == 2 * (k * h),
                bh == b * h,
                h > 0,
        ;
        assert(2 * z * k <= 2 * z * mb + z * b + 2 * k) by (nonlinear_arith)
            requires
                z * a <= z * (2 * (mb * h)) + z * bh + a,
                a == 2 * (k * h),
                bh == b * h,
                h > 0,
        ;
        let big = pow2(63);
        lemma2_to64();
        lemma2_to64_rest();
        lemma_pow2_adds(60, 3);
        assert(z == 0x20000000000000);
        assert(m <= 2 * big - 1) by (nonlinear_arith)
            requires
                2 * z * mb <= 2 * z * k + z * b + 2 * k,
                mb == m * b,
                k < b * big,
                b > 0,
                z == 0x20000000000000,
                big == 0x8000000000000000,
        ;
        assert(n == m);
    }
}

/// A number of tenths below ten is read to within half a byte, in units up to two to the 46.
pub proof fn law_tenths_are_near(t: nat, shift: nat)
    requires
        1 <= t < 100,
        10 <= shift <= 46,
    ensures
        10 * scaled_bytes(t / 10, t % 10, 1, shift) <= t * pow2(shift) + 5,
        10 * scaled_bytes(t / 10, t % 10, 1, shift) + 5 >= t * pow2(shift),
{
    let b = pow10(1);
    lemma_times_one(10);
    assert(b == 10 * pow10(0));
    assert((t / 10) * b + t % 10 == t);
    let d = pow2(shift);
    let h = pow2(54);
    let p = pow2(shift + 55);
    lemma_pow2_adds(shift, 55);
    lemma_pow2_unfold(55);
    let k = t * d;
    let a = t * p;
    assert(a == k * (2 * h)) by (nonlinear_arith)
        requires
            a == t * p,
            p == d * (2 * h),
            k == t * d,
    ;
    assert(p <= a && a <= 99 * p) by (nonlinear_arith)
        requires
            a == t * p,
            1 <= t <= 99,
    ;
    let x = a / b;
    lemma_pow2_ordered(65, shift + 55);
    lemma_pow2_adds(53, 12);
    lemma_pow2_pos(53);
    lemma2_to64();
    assert(x >= pow2(53));
    lemma_pow2_adds(shift + 55, 4);
    assert(x < pow2(shift + 59)) by {
        lemma_pow2_pos(shift + 55);
    }
    lemma_bit_length(x);
    let l = bit_length(x);
    if l <= 53 {
        lemma_pow2_ordered(l, 53);
    }
    if l > shift + 59 {
        lemma_pow2_ordered(shift + 59, (l - 1) as nat);
    }
    let ulp = pow2((l - 53) as nat);
    lemma_pow2_ordered((l - 53) as nat, 52);
    lemma_pow2_adds(52, 2);
    lemma_pow2_pos((l - 53) as nat);
    lemma_pow2_pos(52);
    assert(4 * ulp <= h);
    lemma_half_even(a, b * ulp);
    let e = half_even(a, b * ulp);
    let near = nearest_double(a, b);
    assert(near == e * ulp);
    assert(e * (b * ulp) == 10 * near) by (nonlinear_arith)
        requires
            near == e * ulp,
            b == 10,
    ;
    let n = (near + h) / (2 * h);
    lemma_fundamental_div_mod((near + h) as int, (2 * h) as int);
    let m = n * (2 * h);
    assert((2 * h) * n == m) by (nonlinear_arith)
        requires
            m == n * (2 * h),
    ;
    if 10 * n >= k + 6 {
        assert(10 * m >= a + 12 * h) by (nonlinear_arith)
            requires
                10 * n >= k + 6,
                m == n * (2 * h),
                a == k * (2 * h),
        ;
        assert(false);
    }
    if 10 * n + 6 <= k {
        assert(10 * m + 12 * h <= a) by (nonlinear_arith)
            requires
                10 * n + 6 <= k,
                m == n * (2 * h),
                a == k * (2 * h),
        ;
        assert(false);
    }
    lemma_pow2_ordered(shift, 46);
    assert(k <= 99 * pow2(46)) by (nonlinear_arith)
        requires
            k == t * d,
            t <= 99,
            d <= pow2(46),
    ;
    lemma_pow2_adds(46, 18);
    assert(n <= u64::MAX);
}

/// Ten tenths are one.
pub proof fn law_ten_tenths_are_one(shift: nat)
    requires
        shift <= 60,
    ensures
        scaled_bytes(1, 0, 1, shift) == pow2(shift),
{
    let b = pow10(1);
    lemma_times_one(10);
    assert(b == 10 * pow10(0));
    let s = shift + 55;
    let p = pow2(s);
    let a = 10 * p;
    assert((1 * b + 0) * pow2(shift + 55) == a);
    lemma_pow2_pos(s);
    assert(a / b == p);
    lemma_pow2_unfold(s + 1);
    lemma_bit_length_is(p, s + 1);
    let ulp = pow2((s - 52) as nat);
    lemma_pow2_pos((s - 52) as nat);
    lemma_pow2_adds(52, (s - 52) as nat);
    let q = pow2(52);
    assert(a == q * (b * ulp)) by (nonlinear_arith)
        requires
            a == 10 * p,
            p == q * ulp,
            b == 10,
    ;
    lemma_fundamental_div_mod_converse(a as int, (b * ulp) as int, q as int, 0);
    assert(half_even(a, b * ulp) == q);
    assert(nearest_double(a, b) == p);
    lemma_pow2_adds(shift, 55);
    lemma_pow2_unfold(55);
    lemma_pow2_pos(54);
    lemma_fundamental_div_mod_converse(
        (p + pow2(54)) as int,
        pow2(55) as int,
        pow2(shift) as int,
        pow2(54) as int,
    );
    lemma_pow2_ordered(shift, 60);
    lemma2_to64();
    lemma_pow2_adds(60, 4);
}

/// A whole number of 54 binary digits is read as it is where it is even, and else as the one next
/// to it that four divides.
pub proof fn law_long_numbers_go_to_the_even_double(n: nat)
    requires
        pow2(53) <= n < pow2(54),
    ensures
        n % 2 == 0 ==> scaled_bytes(n, 0, 0, 0) == n,
        n % 2 == 1 ==> {
            let r = scaled_bytes(n, 0, 0, 0);
            r % 4 == 0 && (r == n - 1 || r == n + 1)
        },
{
    let b = pow10(0);
    let p = pow2(55);
    let a = n * p;
    let ulp = pow2(56);
    lemma_times_one(n);
    assert((n * b + 0) * pow2(0 + 55) == a);
    assert(a / b == a) by (nonlinear_arith)
        requires
            b == 1,
    ;
    lemma_pow2_adds(53, 55);
    lemma_pow2_adds(54, 55);
    lemma_pow2_pos(55);
    let low = pow2(53);
    let high = pow2(54);
    assert(low * p <= a && a < high * p) by (nonlinear_arith)
        requires
            a == n * p,
            low <= n,
            n < high,
            p > 0,
    ;
    lemma_bit_length_is(a, 109);
    lemma_pow2_unfold(56);
    lemma_pow2_unfold(55);
    assert(ulp == 2 * p);
    assert(b * ulp == ulp) by (nonlinear_arith)
        requires
            b == 1,
    ;
    let q = n / 2;
    let r = (n % 2) * p;
    assert(a == q * ulp + r) by (nonlinear_arith)
        requires
            a == n * p,
            n == 2 * q + n % 2,
            r == (n % 2) * p,
            ulp == 2 * p,
    ;
    assert(0 <= r && r < ulp) by (nonlinear_arith)
        requires
            r == (n % 2) * p,
            0 <= n % 2 < 2,
            ulp == 2 * p,
            p > 0,
    ;
    lemma_fundamental_div_mod_converse(a as int, ulp as int, q as int, r as int);
    if n % 2 == 0 {
        assert(r == 0) by (nonlinear_arith)
            requires
                r == (n % 2) * p,
                n % 2 == 0,
        ;
    } else {
        assert(r == p) by (nonlinear_arith)
            requires
                r == (n % 2) * p,
                n % 2 == 1,
        ;
    }
    let e = half_even(a, b * ulp);
    let near = nearest_double(a, b);
    let h = pow2(54);
    assert(near + h == (2 * e) * p + h) by (nonlinear_arith)
        requires
            near == e * ulp,
            ulp == 2 * p,
    ;
    lemma_pow2_pos(54);
    lemma_fundamental_div_mod_converse((near + h) as int, p as int, (2 * e) as int, h as int);
    lemma2_to64();
    lemma2_to64_rest();
}

/// Half a byte counts as a whole one.
pub proof fn law_half_a_byte_counts(n: nat)
    requires
        n < pow2(52),
    ensures
        scaled_bytes(n, 5, 1, 0) == n + 1,
{
    let b = pow10(1);
    let p = pow2(55);
    let h = pow2(54);
    let odd = 2 * n + 1;
    let a = (n * b + 5) * p;
    let x = odd * h;
    assert(pow10(0) == 1);
    assert(b == 10);
    lemma_pow2_unfold(55);
    lemma_pow2_unfold(53);
    lemma_pow2_pos(54);
    assert(a == 10 * x) by (nonlinear_arith)
        requires
            a == (n * b + 5) * p,
            b == 10,
            p == 2 * h,
            x == (2 * n + 1) * h,
    ;
    assert(a / b == x);
    lemma_bit_length(odd);
    let l = bit_length(odd);
    if l > 53 {
        lemma_pow2_ordered(53, (l - 1) as nat);
    }
    lemma_pow2_adds((l - 1) as nat, 54);
    lemma_pow2_adds(l, 54);
    let low = pow2((l - 1) as nat);
    let high = pow2(l);
    assert(low * h <= x && x < high * h) by (nonlinear_arith)
        requires
            x == odd * h,
            low <= odd,
            odd < high,
            h > 0,
    ;
    lemma_bit_length_is(x, l + 54);
    let ulp = pow2((l + 1) as nat);
    let rest = pow2((53 - l) as nat);
    lemma_pow2_adds((53 - l) as nat, (l + 1) as nat);
    lemma_pow2_pos((l + 1) as nat);
    let q = odd * rest;
    assert(a == q * (b * ulp)) by (nonlinear_arith)
        requires
            a == 10 * x,
            b == 10,
            x == odd * h,
            h == rest * ulp,
            q == odd * rest,
    ;
    assert(b * ulp > 0) by (nonlinear_arith)
        requires
            b == 10,
            ulp > 0,
    ;
    lemma_fundamental_div_mod_converse(a as int, (b * ulp) as int, q as int, 0);
    let near = nearest_double(a, b);
    assert(near == x) by (nonlinear_arith)
        requires
            near == q * ulp,
            x == odd * h,
            h == rest * ulp,
            q == odd * rest,
    ;
    assert(near + h == (n + 1) * p) by (nonlinear_arith)
        requires
            near == (2 * n + 1) * h,
            p == 2 * h,
    ;
    lemma_fundamental_div_mod_converse((near + h) as int, p as int, (n + 1) as int, 0);
    lemma2_to64();
    lemma2_to64_rest();
}

} // verus!
