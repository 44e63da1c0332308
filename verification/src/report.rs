//! Rendering of crack-time durations and of the report's rule line.
//!
//! A duration in seconds arrives as a decimal magnitude `digits * 10^exp`,
//! the form any binary floating-point value converts into exactly at the
//! precision it carries. The ladder picks the largest whole unit the value
//! reaches, rounds the magnitude in that unit to an integer (ties to even),
//! and switches to scientific notation once the rounded magnitude reaches a
//! billion, as `render_duration` states over the exact rational value.

use vstd::arithmetic::div_mod::lemma_fundamental_div_mod;
use vstd::arithmetic::div_mod::lemma_fundamental_div_mod_converse;
use vstd::arithmetic::div_mod::lemma_mod_division_less_than_divisor;
use vstd::arithmetic::power::lemma_pow_adds;
use vstd::arithmetic::power::lemma_pow_increases;
use vstd::arithmetic::power::lemma_pow_positive;
use vstd::arithmetic::power::lemma_pow_strictly_increases;
use vstd::arithmetic::power::pow;
use vstd::prelude::*;

verus! {

/// Ten to the power `e`.
pub open spec fn pow10(e: nat) -> nat
    decreases e,
{
    if e == 0 {
        1
    } else {
        10 * pow10((e - 1) as nat)
    }
}

proof fn lemma_pow10_is_pow(e: nat)
    ensures
        pow10(e) == pow(10, e),
    decreases e,
{
    reveal(pow);
    if e > 0 {
        lemma_pow10_is_pow((e - 1) as nat);
    }
}

proof fn lemma_pow10_pos(e: nat)
    ensures
        pow10(e) >= 1,
{
    lemma_pow10_is_pow(e);
    lemma_pow_positive(10, e);
}

proof fn lemma_pow10_adds(a: nat, b: nat)
    ensures
        pow10(a + b) == pow10(a) * pow10(b),
{
    lemma_pow10_is_pow(a);
    lemma_pow10_is_pow(b);
    lemma_pow10_is_pow(a + b);
    lemma_pow_adds(10, a, b);
}

proof fn lemma_pow10_increases(a: nat, b: nat)
    requires
        a <= b,
    ensures
        pow10(a) <= pow10(b),
{
    lemma_pow10_is_pow(a);
    lemma_pow10_is_pow(b);
    if a < b {
        lemma_pow_strictly_increases(10, a, b);
    }
}

proof fn lemma_pow10_strictly_increases(a: nat, b: nat)
    requires
        a < b,
    ensures
        pow10(a) < pow10(b),
{
    lemma_pow10_is_pow(a);
    lemma_pow10_is_pow(b);
    lemma_pow_strictly_increases(10, a, b);
}

proof fn lemma_pow10_table()
    ensures
        pow10(8) == 100000000,
        pow10(9) == 1000000000,
        pow10(10) == 10000000000,
        pow10(18) == 1000000000000000000,
        pow10(19) == 10000000000000000000,
        pow10(20) == 100000000000000000000,
        pow10(27) == 1000000000000000000000000000,
        pow10(29) == 100000000000000000000000000000,
        pow10(38) == 100000000000000000000000000000000000000,
        pow10(39) == 1000000000000000000000000000000000000000,
{
    assert(pow10(0) == 1);
    assert(pow10(1) == 10);
    assert(pow10(2) == 100);
    assert(pow10(3) == 1000);
    assert(pow10(4) == 10000);
    assert(pow10(5) == 100000);
    assert(pow10(6) == 1000000);
    assert(pow10(7) == 10000000);
    assert(pow10(8) == 100000000);
    assert(pow10(9) == 1000000000);
    assert(pow10(10) == 10000000000);
    assert(pow10(11) == 100000000000);
    assert(pow10(12) == 1000000000000);
    assert(pow10(13) == 10000000000000);
    assert(pow10(14) == 100000000000000);
    assert(pow10(15) == 1000000000000000);
    assert(pow10(16) == 10000000000000000);
    assert(pow10(17) == 100000000000000000);
    assert(pow10(18) == 1000000000000000000);
    assert(pow10(19) == 10000000000000000000);
    assert(pow10(20) == 100000000000000000000);
    assert(pow10(21) == 1000000000000000000000);
    assert(pow10(22) == 10000000000000000000000);
    assert(pow10(23) == 100000000000000000000000);
    assert(pow10(24) == 1000000000000000000000000);
    assert(pow10(25) == 10000000000000000000000000);
    assert(pow10(26) == 100000000000000000000000000);
    assert(pow10(27) == 1000000000000000000000000000);
    assert(pow10(28) == 10000000000000000000000000000);
    assert(pow10(29) == 100000000000000000000000000000);
    assert(pow10(30) == 1000000000000000000000000000000);
    assert(pow10(31) == 10000000000000000000000000000000);
    assert(pow10(32) == 100000000000000000000000000000000);
    assert(pow10(33) == 1000000000000000000000000000000000);
    assert(pow10(34) == 10000000000000000000000000000000000);
    assert(pow10(35) == 100000000000000000000000000000000000);
    assert(pow10(36) == 1000000000000000000000000000000000000);
    assert(pow10(37) == 10000000000000000000000000000000000000);
    assert(pow10(38) == 100000000000000000000000000000000000000);
    assert(pow10(39) == 1000000000000000000000000000000000000000);
}

/// The quotient `num / den` rounded to the nearest integer, ties to even.
pub open spec fn round_half_even(num: nat, den: nat) -> nat
    recommends
        den >= 1,
{
    let q = num / den;
    let r = num % den;
    if 2 * r < den {
        q
    } else if 2 * r > den {
        q + 1
    } else if q % 2 == 0 {
        q
    } else {
        q + 1
    }
}

proof fn lemma_div_ge(n: nat, d: nat, a: nat)
    requires
        d >= 1,
        a * d <= n,
    ensures
        n / d >= a,
{
    lemma_fundamental_div_mod(n as int, d as int);
    lemma_mod_division_less_than_divisor(n as int, d as int);
    assert(n / d >= a) by (nonlinear_arith)
        requires
            d >= 1,
            a * d <= n,
            n == d * (n / d) + (n % d),
            0 <= (n % d) < d,
    {
    }
}

proof fn lemma_div_lt(n: nat, d: nat, a: nat)
    requires
        d >= 1,
        n < a * d,
    ensures
        n / d < a,
{
    lemma_fundamental_div_mod(n as int, d as int);
    lemma_mod_division_less_than_divisor(n as int, d as int);
    assert(n / d < a) by (nonlinear_arith)
        requires
            d >= 1,
            n < a * d,
            n == d * (n / d) + (n % d),
            0 <= (n % d) < d,
    {
    }
}

proof fn lemma_rhe_le(num: nat, den: nat, hi: nat)
    requires
        den >= 1,
        num < hi * den,
    ensures
        round_half_even(num, den) <= hi,
{
    lemma_div_lt(num, den, hi);
}

proof fn lemma_rhe_ge(num: nat, den: nat, lo: nat)
    requires
        den >= 1,
        lo * den <= num,
    ensures
        round_half_even(num, den) >= lo,
{
    lemma_div_ge(num, den, lo);
}

proof fn lemma_rhe_scale(a: nat, b: nat, k: nat)
    requires
        b >= 1,
        k >= 1,
    ensures
        round_half_even(k * a, k * b) == round_half_even(a, b),
{
    lemma_fundamental_div_mod(a as int, b as int);
    lemma_mod_division_less_than_divisor(a as int, b as int);
    assert(k * a == (a / b) * (k * b) + k * (a % b) && 0 <= k * (a % b) < k * b)
        by (nonlinear_arith)
        requires
            b >= 1,
            k >= 1,
            a == b * (a / b) + (a % b),
            0 <= (a % b) < b,
    {
    }
    lemma_fundamental_div_mod_converse(
        (k * a) as int,
        (k * b) as int,
        (a / b) as int,
        (k * (a % b)) as int,
    );
    assert((k * a) / (k * b) == a / b);
    assert((k * a) % (k * b) == k * (a % b));
    let m = a % b;
    let r2 = 2 * m;
    assert(2 * (k * m) == k * r2) by (nonlinear_arith)
        requires
            r2 == 2 * m,
    {
    }
    assert((k * r2 < k * b <==> r2 < b) && (k * r2 > k * b <==> r2 > b)) by (nonlinear_arith)
        requires
            k >= 1,
    {
    }
}

/// Rounding is determined by the value of the fraction alone: fractions
/// with equal value round alike.
proof fn lemma_rhe_equal_frac(a: nat, b: nat, c: nat, d: nat)
    requires
        b >= 1,
        d >= 1,
        a * d == c * b,
    ensures
        round_half_even(a, b) == round_half_even(c, d),
{
    lemma_rhe_scale(a, b, d);
    lemma_rhe_scale(c, d, b);
    assert(d * a == c * b && d * b == b * d) by (nonlinear_arith)
        requires
            a * d == c * b,
    {
    }
    assert(b * c == c * b && b * d == d * b) by (nonlinear_arith) {}
    assert(round_half_even(d * a, d * b) == round_half_even(b * c, b * d));
}

/// The rounded magnitude reaches a billion exactly when the doubled value
/// reaches 1999999999 denominators: the rounding threshold sits at
/// 999999999.5, and that tie rounds up because 999999999 is odd.
proof fn lemma_rounded_billion_iff(num: nat, den: nat)
    requires
        den >= 1,
    ensures
        (round_half_even(num, den) < 1000000000) <==> (2 * num < 1999999999 * den),
{
    lemma_fundamental_div_mod(num as int, den as int);
    lemma_mod_division_less_than_divisor(num as int, den as int);
    let q = num / den;
    let r = num % den;
    if 2 * num >= 1999999999 * den {
        assert(q >= 999999999) by (nonlinear_arith)
            requires
                num == den * q + r,
                0 <= r < den,
                2 * num >= 1999999999 * den,
                den >= 1,
        {
        }
        if q == 999999999 {
            assert(2 * r >= den) by (nonlinear_arith)
                requires
                    num == den * q + r,
                    q == 999999999,
                    2 * num >= 1999999999 * den,
            {
            }
            assert(round_half_even(num, den) == q + 1);
        }
        assert(round_half_even(num, den) >= 1000000000);
    } else {
        assert(q <= 999999999) by (nonlinear_arith)
            requires
                num == den * q + r,
                0 <= r < den,
                2 * num < 1999999999 * den,
                den >= 1,
        {
        }
        if q == 999999999 {
            assert(2 * r < den) by (nonlinear_arith)
                requires
                    num == den * q + r,
                    q == 999999999,
                    2 * num < 1999999999 * den,
            {
            }
            assert(round_half_even(num, den) == q);
        }
        assert(round_half_even(num, den) < 1000000000);
    }
}

/// In the band where the raw magnitude is below a billion but rounds up to
/// it, the floor is exactly 999999999 (nine digits) and the one-digit
/// rounding yields ten, so the rendering normalizes to a mantissa of one.
proof fn lemma_band_form(num: nat, den: nat)
    requires
        den >= 1,
        2 * num >= 1999999999 * den,
        num < 1000000000 * den,
    ensures
        num / den == 999999999,
        nat_digits(num / den) == 9,
        round_half_even(num, den * pow10(8)) == 10,
{
    lemma_pow10_table();
    lemma_fundamental_div_mod(num as int, den as int);
    lemma_mod_division_less_than_divisor(num as int, den as int);
    let q = num / den;
    let r = num % den;
    assert(q >= 999999999) by (nonlinear_arith)
        requires
            num == den * q + r,
            0 <= r < den,
            2 * num >= 1999999999 * den,
            den >= 1,
    {
    }
    lemma_div_lt(num, den, 1000000000);
    assert(q == 999999999);
    lemma_nat_digits_unique(q, 9);
    let bigden = den * 100000000;
    assert(bigden == den * pow10(8));
    assert(bigden >= 1 && 9 * bigden <= num && num < 10 * bigden) by (nonlinear_arith)
        requires
            den >= 1,
            bigden == den * 100000000,
            2 * num >= 1999999999 * den,
            num < 1000000000 * den,
    {
    }
    lemma_fundamental_div_mod(num as int, bigden as int);
    lemma_mod_division_less_than_divisor(num as int, bigden as int);
    lemma_div_ge(num, bigden, 9);
    lemma_div_lt(num, bigden, 10);
    let q2 = num / bigden;
    let r2 = num % bigden;
    assert(q2 == 9);
    assert(2 * r2 > bigden) by (nonlinear_arith)
        requires
            num == bigden * q2 + r2,
            q2 == 9,
            bigden == den * 100000000,
            2 * num >= 1999999999 * den,
            den >= 1,
    {
    }
    assert(round_half_even(num, bigden) == 10);
}

/// How many decimal digits `n` has; 1 for `n == 0`.
pub open spec fn nat_digits(n: nat) -> nat
    decreases n,
{
    if n < 10 {
        1
    } else {
        1 + nat_digits(n / 10)
    }
}

proof fn lemma_nat_digits_bounds(n: nat)
    requires
        n >= 1,
    ensures
        nat_digits(n) >= 1,
        pow10((nat_digits(n) - 1) as nat) <= n < pow10(nat_digits(n)),
    decreases n,
{
    if n < 10 {
    } else {
        lemma_div_ge(n, 10, 1);
        lemma_nat_digits_bounds(n / 10);
        lemma_fundamental_div_mod(n as int, 10);
        lemma_mod_division_less_than_divisor(n as int, 10);
        let nd = nat_digits(n / 10);
        assert(pow10(nd) == 10 * pow10((nd - 1) as nat));
        assert(n >= 10 * pow10((nd - 1) as nat)) by (nonlinear_arith)
            requires
                n == 10 * (n / 10) + (n % 10),
                0 <= (n % 10),
                n / 10 >= pow10((nd - 1) as nat),
        {
        }
        assert(n < 10 * pow10(nd)) by (nonlinear_arith)
            requires
                n == 10 * (n / 10) + (n % 10),
                (n % 10) < 10,
                n / 10 < pow10(nd),
        {
        }
        assert(pow10(nd + 1) == 10 * pow10(nd));
    }
}

proof fn lemma_nat_digits_unique(n: nat, d: nat)
    requires
        d >= 1,
        pow10((d - 1) as nat) <= n < pow10(d),
    ensures
        nat_digits(n) == d,
{
    lemma_pow10_pos((d - 1) as nat);
    lemma_nat_digits_bounds(n);
    let nd = nat_digits(n);
    if nd < d {
        lemma_pow10_increases(nd, (d - 1) as nat);
        assert(n < pow10(nd));
    }
    if nd > d {
        lemma_pow10_increases(d, (nd - 1) as nat);
        assert(n >= pow10((nd - 1) as nat));
    }
}

/// The decimal digit character for `d` below ten.
pub open spec fn digit_char(d: nat) -> char {
    if d == 0 {
        '0'
    } else if d == 1 {
        '1'
    } else if d == 2 {
        '2'
    } else if d == 3 {
        '3'
    } else if d == 4 {
        '4'
    } else if d == 5 {
        '5'
    } else if d == 6 {
        '6'
    } else if d == 7 {
        '7'
    } else if d == 8 {
        '8'
    } else {
        '9'
    }
}

/// The decimal digits of `n`, most significant first.
pub open spec fn nat_to_digits(n: nat) -> Seq<char>
    decreases n,
{
    if n < 10 {
        seq![digit_char(n)]
    } else {
        nat_to_digits(n / 10).push(digit_char(n % 10))
    }
}

/// Appends the character for the decimal digit `d`.
fn push_digit(s: &mut String, d: u64)
    requires
        d < 10,
    ensures
        final(s)@ == old(s)@ + seq![digit_char(d as nat)],
{
    if d == 0 {
        s.append("0");
        proof {
            reveal_strlit("0");
            assert("0"@ =~= seq![digit_char(0)]);
        }
    } else if d == 1 {
        s.append("1");
        proof {
            reveal_strlit("1");
            assert("1"@ =~= seq![digit_char(1)]);
        }
    } else if d == 2 {
        s.append("2");
        proof {
            reveal_strlit("2");
            assert("2"@ =~= seq![digit_char(2)]);
        }
    } else if d == 3 {
        s.append("3");
        proof {
            reveal_strlit("3");
            assert("3"@ =~= seq![digit_char(3)]);
        }
    } else if d == 4 {
        s.append("4");
        proof {
            reveal_strlit("4");
            assert("4"@ =~= seq![digit_char(4)]);
        }
    } else if d == 5 {
        s.append("5");
        proof {
            reveal_strlit("5");
            assert("5"@ =~= seq![digit_char(5)]);
        }
    } else if d == 6 {
        s.append("6");
        proof {
            reveal_strlit("6");
            assert("6"@ =~= seq![digit_char(6)]);
        }
    } else if d == 7 {
        s.append("7");
        proof {
            reveal_strlit("7");
            assert("7"@ =~= seq![digit_char(7)]);
        }
    } else if d == 8 {
        s.append("8");
        proof {
            reveal_strlit("8");
            assert("8"@ =~= seq![digit_char(8)]);
        }
    } else {
        s.append("9");
        proof {
            reveal_strlit("9");
            assert("9"@ =~= seq![digit_char(9)]);
        }
    }
}

/// Renders `n` in decimal.
pub fn u64_to_string(n: u64) -> (r: String)
    ensures
        r@ == nat_to_digits(n as nat),
    decreases n,
{
    if n < 10 {
        let mut s = String::new();
        push_digit(&mut s, n);
        proof {
            assert(s@ =~= seq![digit_char(n as nat)]);
        }
        s
    } else {
        let mut s = u64_to_string(n / 10);
        push_digit(&mut s, n % 10);
        proof {
            assert(nat_to_digits((n / 10) as nat) + seq![digit_char((n % 10) as nat)]
                =~= nat_to_digits((n / 10) as nat).push(digit_char((n % 10) as nat)));
        }
        s
    }
}

/// Ten to the power `e`, computed.
fn pow10_u128(e: u32) -> (r: u128)
    requires
        e <= 38,
    ensures
        r as nat == pow10(e as nat),
{
    proof {
        lemma_pow10_table();
    }
    let mut r: u128 = 1;
    let mut i: u32 = 0;
    while i < e
        invariant
            i <= e,
            e <= 38,
            r as nat == pow10(i as nat),
            pow10(38) == 100000000000000000000000000000000000000,
        decreases e - i,
    {
        proof {
            lemma_pow10_increases((i + 1) as nat, 38);
            assert(pow10((i + 1) as nat) == 10 * pow10(i as nat));
        }
        r = r * 10;
        i = i + 1;
    }
    r
}

/// How many decimal digits `n` has.
fn digit_count(n: u128) -> (r: u32)
    requires
        n >= 1,
    ensures
        r as nat == nat_digits(n as nat),
        1 <= r <= 39,
{
    proof {
        lemma_pow10_table();
        assert(pow10(0) == 1);
        assert((n as nat) * pow10(0) == n as nat);
    }
    let mut x = n;
    let mut c: u32 = 1;
    while x >= 10
        invariant
            x >= 1,
            1 <= c,
            nat_digits(x as nat) + c - 1 == nat_digits(n as nat),
            (x as nat) * pow10((c - 1) as nat) <= n as nat,
            pow10(39) == 1000000000000000000000000000000000000000,
        decreases x,
    {
        proof {
            lemma_fundamental_div_mod(x as int, 10);
            lemma_mod_division_less_than_divisor(x as int, 10);
            lemma_div_ge(x as nat, 10, 1);
            assert(pow10(c as nat) == 10 * pow10((c - 1) as nat));
            assert(((x / 10) as nat) * pow10(c as nat) <= (x as nat) * pow10((c - 1) as nat))
                by (nonlinear_arith)
                requires
                    x as nat == 10 * ((x / 10) as nat) + ((x % 10) as nat),
                    0 <= ((x % 10) as nat),
                    pow10(c as nat) == 10 * pow10((c - 1) as nat),
                    pow10((c - 1) as nat) >= 0,
            {
            }
            // the count cannot pass 39: each kept digit contributes a factor of ten
            lemma_pow10_pos((c - 1) as nat);
            assert((x as nat) * pow10((c - 1) as nat) >= pow10((c - 1) as nat))
                by (nonlinear_arith)
                requires
                    x >= 1,
                    pow10((c - 1) as nat) >= 1,
            {
            }
            if c >= 40 {
                lemma_pow10_increases(39, (c - 1) as nat);
            }
        }
        x = x / 10;
        c = c + 1;
    }
    proof {
        lemma_pow10_pos((c - 1) as nat);
        assert((x as nat) * pow10((c - 1) as nat) >= pow10((c - 1) as nat)) by (nonlinear_arith)
            requires
                x >= 1,
                pow10((c - 1) as nat) >= 1,
        {
        }
        if c >= 40 {
            lemma_pow10_increases(39, (c - 1) as nat);
        }
    }
    c
}

/// The quotient rounded to the nearest integer, ties to even.
fn rhe_u128(num: u128, den: u128) -> (r: u128)
    requires
        den >= 1,
    ensures
        r as nat == round_half_even(num as nat, den as nat),
{
    let q = num / den;
    let rm = num % den;
    proof {
        lemma_fundamental_div_mod(num as int, den as int);
        lemma_mod_division_less_than_divisor(num as int, den as int);
        if rm != 0 {
            lemma_div_lt(num as nat, den as nat, 340282366920938463463374607431768211455);
        }
    }
    if rm < den - rm {
        q
    } else if rm > den - rm {
        q + 1
    } else {
        if q % 2 == 0 {
            q
        } else {
            q + 1
        }
    }
}

proof fn lemma_mul_le(a: nat, b: nat, c: nat)
    requires
        a <= b,
    ensures
        a * c <= b * c,
{
    assert(a * c <= b * c) by (nonlinear_arith)
        requires
            a <= b,
    {
    }
}

proof fn lemma_mul_cancel_le(a: nat, b: nat, c: nat)
    requires
        c >= 1,
        a * c <= b * c,
    ensures
        a <= b,
{
    assert(a <= b) by (nonlinear_arith)
        requires
            c >= 1,
            a * c <= b * c,
    {
    }
}

proof fn lemma_mul_cancel_lt(a: nat, b: nat, c: nat)
    requires
        c >= 1,
        a * c < b * c,
    ensures
        a < b,
{
    assert(a < b) by (nonlinear_arith)
        requires
            c >= 1,
            a * c < b * c,
    {
    }
}

/// A duration in seconds as an exact decimal magnitude: `digits * 10^exp`
/// seconds. Zero `digits` stands for a zero duration.
pub struct DecSeconds {
    /// The significant digits, as an integer.
    pub digits: u64,
    /// The power of ten scaling the digits.
    pub exp: i32,
}

impl DecSeconds {
    /// The exponent stays within the range any binary floating-point
    /// magnitude needs when written as a decimal.
    pub open spec fn wf(self) -> bool {
        -400 <= self.exp <= 400
    }

    /// Numerator of the value in seconds.
    pub open spec fn num(self) -> nat {
        if self.exp >= 0 {
            self.digits as nat * pow10(self.exp as nat)
        } else {
            self.digits as nat
        }
    }

    /// Denominator of the value in seconds.
    pub open spec fn den(self) -> nat {
        if self.exp >= 0 {
            1
        } else {
            pow10((-self.exp) as nat)
        }
    }
}

/// The magnitude `num / den` rendered in one unit (`den` already carries the
/// unit's divisor): rounded to a whole number of units, except that a
/// magnitude which as rounded reaches a billion is written in scientific
/// notation with a one-digit mantissa and an explicit positive exponent —
/// the cutoff is on the rounded magnitude, so no ten-digit plain number is
/// ever printed.
pub open spec fn render_in_unit(num: nat, den: nat, unit: Seq<char>) -> Seq<char>
    recommends
        den >= 1,
{
    if round_half_even(num, den) < 1000000000 {
        nat_to_digits(round_half_even(num, den)) + " "@ + unit
    } else {
        let m = nat_digits(num / den);
        let d0 = round_half_even(num, den * pow10((m - 1) as nat));
        if d0 == 10 {
            nat_to_digits(1) + "e+"@ + nat_to_digits(m) + " "@ + unit
        } else {
            nat_to_digits(d0) + "e+"@ + nat_to_digits((m - 1) as nat) + " "@ + unit
        }
    }
}

/// The duration ladder: the largest whole unit the value reaches, on the
/// thresholds one minute, hour, day, 365.25-day year and 100-year century;
/// below one second no magnitude is shown at all.
pub open spec fn render_duration(d: DecSeconds) -> Seq<char> {
    if d.num() < 1 * d.den() {
        "less than a second"@
    } else if d.num() < 60 * d.den() {
        render_in_unit(d.num(), d.den() * 1, "seconds"@)
    } else if d.num() < 3600 * d.den() {
        render_in_unit(d.num(), d.den() * 60, "minutes"@)
    } else if d.num() < 86400 * d.den() {
        render_in_unit(d.num(), d.den() * 3600, "hours"@)
    } else if d.num() < 31557600 * d.den() {
        render_in_unit(d.num(), d.den() * 86400, "days"@)
    } else if d.num() < 3155760000 * d.den() {
        render_in_unit(d.num(), d.den() * 31557600, "years"@)
    } else {
        render_in_unit(d.num(), d.den() * 3155760000, "centuries"@)
    }
}

/// Whether the duration is below `k` seconds.
fn value_below(d: &DecSeconds, k: u64) -> (r: bool)
    requires
        d.wf(),
        1 <= k,
        (k as nat) < pow10(19),
    ensures
        r == (d.num() < k as nat * d.den()),
{
    proof {
        lemma_pow10_table();
    }
    if d.digits == 0 {
        proof {
            if d.exp < 0 {
                lemma_pow10_pos((-d.exp) as nat);
                lemma_mul_le(1, k as nat, d.den());
            }
        }
        return true;
    }
    if d.exp >= 0 {
        if d.exp >= 20 {
            proof {
                lemma_pow10_increases(20, d.exp as nat);
                assert(d.num() >= pow10(d.exp as nat)) by (nonlinear_arith)
                    requires
                        d.digits >= 1,
                        d.num() == d.digits as nat * pow10(d.exp as nat),
                        pow10(d.exp as nat) >= 0,
                {
                }
            }
            return false;
        }
        let p = pow10_u128(d.exp as u32);
        proof {
            lemma_pow10_increases(d.exp as nat, 19);
            assert(d.digits as u128 as nat * p as nat <= 18446744073709551615 * pow10(19))
                by (nonlinear_arith)
                requires
                    d.digits as nat <= 18446744073709551615,
                    p as nat <= pow10(19),
            {
            }
        }
        let prod = (d.digits as u128) * p;
        prod < (k as u128)
    } else {
        let neg = -(d.exp as i64);
        if neg >= 20 {
            proof {
                lemma_pow10_increases(20, (-d.exp) as nat);
                assert(k as nat * d.den() >= d.den()) by (nonlinear_arith)
                    requires
                        k >= 1,
                        d.den() >= 0,
                {
                }
            }
            return true;
        }
        let p = pow10_u128(neg as u32);
        proof {
            lemma_pow10_increases((-d.exp) as nat, 19);
            assert(k as nat * p as nat <= pow10(19) * pow10(19)) by (nonlinear_arith)
                requires
                    k as nat <= pow10(19),
                    p as nat <= pow10(19),
            {
            }
            lemma_pow10_adds(19, 19);
            lemma_pow10_increases(38, 38);
        }
        let bound = (k as u128) * p;
        (d.digits as u128) < bound
    }
}

/// The decomposition behind the scientific branch: the scaled quotient
/// `digits * 10^18 / dv` carries the digit count and the rounding fraction
/// of the magnitude in its unit.
proof fn lemma_sci_decompose(digits: nat, exp: int, dv: nat, num: nat, den: nat)
    requires
        1 <= digits < pow10(20),
        -400 <= exp <= 400,
        1 <= dv <= 3155760000,
        num == (if exp >= 0 {
            digits * pow10(exp as nat)
        } else {
            digits
        }),
        den == (if exp >= 0 {
            dv
        } else {
            dv * pow10((-exp) as nat)
        }),
        num >= 1000000000 * den,
    ensures
        ({
            let q18 = (digits * pow10(18)) / dv;
            let nd = nat_digits(q18) as int;
            &&& 9 <= nd <= 39
            &&& nd + exp >= 28
            &&& nat_digits(num / den) as int == nd + exp - 18
            &&& den >= 1
            &&& 1 <= round_half_even(num, den * pow10((nat_digits(num / den) - 1) as nat)) <= 10
            &&& round_half_even(num, den * pow10((nat_digits(num / den) - 1) as nat)) == (if nd
                <= 19 {
                round_half_even(digits * pow10((19 - nd) as nat), dv)
            } else {
                round_half_even(digits, dv * pow10((nd - 19) as nat))
            })
        }),
{
    lemma_pow10_table();
    let e18 = pow10(18);
    let ge = digits * e18;
    lemma_fundamental_div_mod(ge as int, dv as int);
    lemma_mod_division_less_than_divisor(ge as int, dv as int);
    let q18 = ge / dv;
    let r18 = ge % dv;
    assert(pow10(8) * dv <= ge) by (nonlinear_arith)
        requires
            digits >= 1,
            dv <= 3155760000,
            e18 == 1000000000000000000,
            ge == digits * e18,
            pow10(8) == 100000000,
    {
    }
    lemma_div_ge(ge, dv, pow10(8));
    lemma_nat_digits_bounds(q18);
    let nd = nat_digits(q18);
    if nd <= 8 {
        lemma_pow10_increases(nd, 8);
        assert(false);
    }
    lemma_pow10_adds(20, 18);
    assert(ge < pow10(38)) by (nonlinear_arith)
        requires
            digits < pow10(20),
            ge == digits * e18,
            e18 == pow10(18),
            pow10(38) == pow10(20) * pow10(18),
            e18 >= 1,
    {
    }
    assert(q18 <= ge) by (nonlinear_arith)
        requires
            ge == dv * q18 + r18,
            r18 >= 0,
            dv >= 1,
            q18 >= 0,
    {
    }
    if nd > 39 {
        lemma_pow10_increases(39, (nd - 1) as nat);
        lemma_pow10_strictly_increases(38, 39);
        assert(false);
    }
    // bounds on ge from the digit count of q18
    assert(pow10((nd - 1) as nat) * dv <= ge && ge < pow10(nd) * dv) by (nonlinear_arith)
        requires
            ge == dv * q18 + r18,
            0 <= r18 < dv,
            pow10((nd - 1) as nat) <= q18,
            q18 < pow10(nd),
            dv >= 1,
    {
    }
    lemma_pow10_pos((nd - 1) as nat);
    if exp >= 0 {
        let pe = pow10(exp as nat);
        lemma_pow10_pos(exp as nat);
        assert(num * e18 == ge * pe) by (nonlinear_arith)
            requires
                num == digits * pe,
                ge == digits * e18,
        {
        }
        // nd + exp >= 28
        lemma_pow10_adds(nd, exp as nat);
        lemma_pow10_adds(9, 18);
        assert(num * e18 < (pow10(nd) * pe) * dv) by (nonlinear_arith)
            requires
                num * e18 == ge * pe,
                ge < pow10(nd) * dv,
                pe >= 1,
        {
        }
        assert(pow10(27) * dv <= num * e18) by (nonlinear_arith)
            requires
                num >= 1000000000 * dv,
                pow10(27) == 1000000000 * e18,
                e18 >= 1,
                dv >= 1,
        {
        }
        assert(pow10(27) * dv < pow10(nd + exp as nat) * dv) by (nonlinear_arith)
            requires
                pow10(27) * dv <= num * e18,
                num * e18 < (pow10(nd) * pe) * dv,
                pow10(nd + exp as nat) == pow10(nd) * pe,
        {
        }
        lemma_mul_cancel_lt(pow10(27), pow10(nd + exp as nat), dv);
        if nd + exp <= 27 {
            lemma_pow10_increases((nd + exp) as nat, 27);
            assert(false);
        }
        let aa = (nd + exp - 18) as nat;
        // lower digit bound: pow10(aa - 1) * dv <= num
        lemma_pow10_adds((aa - 1) as nat, 18);
        assert(pow10((nd - 1) as nat) * pe == pow10((aa - 1) as nat) * e18) by {
            lemma_pow10_adds((nd - 1) as nat, exp as nat);
            assert((nd - 1) + exp == (aa - 1) + 18);
        }
        assert((pow10((aa - 1) as nat) * dv) * e18 <= num * e18) by (nonlinear_arith)
            requires
                pow10((nd - 1) as nat) * dv <= ge,
                num * e18 == ge * pe,
                pow10((nd - 1) as nat) * pe == pow10((aa - 1) as nat) * e18,
                pe >= 1,
                e18 >= 1,
                dv >= 1,
        {
        }
        lemma_mul_cancel_le(pow10((aa - 1) as nat) * dv, num, e18);
        // upper digit bound: num < pow10(aa) * dv
        lemma_pow10_adds(aa, 18);
        assert(pow10(nd) * pe == pow10(aa) * e18) by {
            lemma_pow10_adds(nd, exp as nat);
            assert(nd + exp == aa + 18);
        }
        assert(num * e18 < (pow10(aa) * dv) * e18) by (nonlinear_arith)
            requires
                num * e18 < (pow10(nd) * pe) * dv,
                pow10(nd) * pe == pow10(aa) * e18,
                e18 >= 1,
                dv >= 1,
        {
        }
        lemma_mul_cancel_lt(num, pow10(aa) * dv, e18);
        // so the magnitude has exactly aa digits
        lemma_pow10_pos((aa - 1) as nat);
        assert(pow10((aa - 1) as nat) * dv <= num);
        lemma_div_ge(num, dv, pow10((aa - 1) as nat));
        lemma_div_lt(num, dv, pow10(aa));
        lemma_nat_digits_unique(num / den, aa);
        // rounding fraction equality
        let m1 = (aa - 1) as nat;
        assert(pow10(aa) == 10 * pow10(m1));
        assert(den * pow10(m1) >= 1 && 1 * (den * pow10(m1)) <= num && num < 10 * (den * pow10(
            m1,
        ))) by (nonlinear_arith)
            requires
                den == dv,
                dv >= 1,
                pow10(m1) >= 1,
                pow10(m1) * dv <= num,
                num < pow10(aa) * dv,
                pow10(aa) == 10 * pow10(m1),
        {
        }
        lemma_rhe_ge(num, den * pow10(m1), 1);
        lemma_rhe_le(num, den * pow10(m1), 10);
        if nd <= 19 {
            lemma_pow10_adds((19 - nd) as nat, m1);
            assert((19 - nd) + m1 == exp);
            assert(num * dv == (digits * pow10((19 - nd) as nat)) * (den * pow10(m1)))
                by (nonlinear_arith)
                requires
                    num == digits * pe,
                    den == dv,
                    pe == pow10((19 - nd) as nat) * pow10(m1),
            {
            }
            lemma_pow10_pos(m1);
            assert(den * pow10(m1) >= 1) by (nonlinear_arith)
                requires
                    den >= 1,
                    pow10(m1) >= 1,
            {
            }
            lemma_rhe_equal_frac(num, den * pow10(m1), digits * pow10((19 - nd) as nat), dv);
        } else {
            lemma_pow10_adds((nd - 19) as nat, exp as nat);
            assert((nd - 19) + exp == m1);
            assert(num * (dv * pow10((nd - 19) as nat)) == digits * (den * pow10(m1)))
                by (nonlinear_arith)
                requires
                    num == digits * pe,
                    den == dv,
                    pow10(m1) == pow10((nd - 19) as nat) * pe,
            {
            }
            lemma_pow10_pos(m1);
            lemma_pow10_pos((nd - 19) as nat);
            assert(den * pow10(m1) >= 1 && dv * pow10((nd - 19) as nat) >= 1)
                by (nonlinear_arith)
                requires
                    den >= 1,
                    dv >= 1,
                    pow10(m1) >= 1,
                    pow10((nd - 19) as nat) >= 1,
            {
            }
            lemma_rhe_equal_frac(num, den * pow10(m1), digits, dv * pow10((nd - 19) as nat));
        }
    } else {
        let pm = pow10((-exp) as nat);
        lemma_pow10_pos((-exp) as nat);
        assert(den >= 1) by (nonlinear_arith)
            requires
                den == dv * pm,
                dv >= 1,
                pm >= 1,
        {
        }
        // nd + exp >= 28, i.e. nd >= 28 - exp
        lemma_pow10_adds(27, (-exp) as nat);
        assert(pow10((27 - exp) as nat) * dv <= num * e18) by (nonlinear_arith)
            requires
                num >= 1000000000 * den,
                den == dv * pm,
                pow10((27 - exp) as nat) == pow10(27) * pm,
                pow10(27) == 1000000000 * e18,
                e18 >= 1,
                dv >= 1,
                pm >= 1,
        {
        }
        assert(pow10((27 - exp) as nat) * dv < pow10(nd) * dv) by (nonlinear_arith)
            requires
                pow10((27 - exp) as nat) * dv <= num * e18,
                num * e18 == ge,
                ge < pow10(nd) * dv,
        {
        }
        lemma_mul_cancel_lt(pow10((27 - exp) as nat), pow10(nd), dv);
        if nd + exp <= 27 {
            lemma_pow10_increases(nd, (27 - exp) as nat);
            assert(false);
        }
        let aa = (nd + exp - 18) as nat;
        let m1 = (aa - 1) as nat;
        // lower bound: pow10(aa - 1) * den == pow10(nd - 19) * dv <= num
        lemma_pow10_adds(m1, (-exp) as nat);
        assert(m1 + (-exp) == nd - 19);
        lemma_pow10_adds((nd - 19) as nat, 18);
        assert((nd - 19) + 18 == nd - 1);
        assert((pow10((nd - 19) as nat) * dv) * e18 <= num * e18) by (nonlinear_arith)
            requires
                pow10((nd - 1) as nat) * dv <= ge,
                ge == num * e18,
                pow10((nd - 1) as nat) == pow10((nd - 19) as nat) * e18,
        {
        }
        lemma_mul_cancel_le(pow10((nd - 19) as nat) * dv, num, e18);
        assert(pow10(m1) * den == pow10((nd - 19) as nat) * dv) by (nonlinear_arith)
            requires
                den == dv * pm,
                pow10((nd - 19) as nat) == pow10(m1) * pm,
        {
        }
        // upper bound: num < pow10(aa) * den == pow10(nd - 18) * dv
        lemma_pow10_adds(aa, (-exp) as nat);
        assert(aa + (-exp) == nd - 18);
        lemma_pow10_adds((nd - 18) as nat, 18);
        assert((nd - 18) + 18 == nd);
        assert(num * e18 < (pow10((nd - 18) as nat) * dv) * e18) by (nonlinear_arith)
            requires
                ge < pow10(nd) * dv,
                ge == num * e18,
                pow10(nd) == pow10((nd - 18) as nat) * e18,
        {
        }
        lemma_mul_cancel_lt(num, pow10((nd - 18) as nat) * dv, e18);
        assert(pow10(aa) * den == pow10((nd - 18) as nat) * dv) by (nonlinear_arith)
            requires
                den == dv * pm,
                pow10((nd - 18) as nat) == pow10(aa) * pm,
        {
        }
        lemma_pow10_pos(m1);
        lemma_pow10_pos(aa);
        lemma_div_ge(num, den, pow10(m1));
        lemma_div_lt(num, den, pow10(aa));
        lemma_nat_digits_unique(num / den, aa);
        assert(pow10(aa) == 10 * pow10(m1));
        assert(den * pow10(m1) >= 1 && 1 * (den * pow10(m1)) <= num && num < 10 * (den * pow10(
            m1,
        ))) by (nonlinear_arith)
            requires
                den >= 1,
                pow10(m1) >= 1,
                pow10(m1) * den == pow10((nd - 19) as nat) * dv,
                pow10((nd - 19) as nat) * dv <= num,
                pow10(aa) * den == pow10((nd - 18) as nat) * dv,
                num < pow10((nd - 18) as nat) * dv,
                pow10(aa) == 10 * pow10(m1),
        {
        }
        lemma_rhe_ge(num, den * pow10(m1), 1);
        lemma_rhe_le(num, den * pow10(m1), 10);
        // rounding fraction equality; here nd - 19 >= 9, so nd > 19
        assert(nd > 19);
        assert(num * (dv * pow10((nd - 19) as nat)) == digits * (den * pow10(m1)))
            by (nonlinear_arith)
            requires
                num == digits,
                pow10((nd - 19) as nat) == pow10(m1) * pm,
                den == dv * pm,
        {
        }
        lemma_pow10_pos((nd - 19) as nat);
        assert(den * pow10(m1) >= 1 && dv * pow10((nd - 19) as nat) >= 1) by (nonlinear_arith)
            requires
                den >= 1,
                dv >= 1,
                pow10(m1) >= 1,
                pow10((nd - 19) as nat) >= 1,
        {
        }
        lemma_rhe_equal_frac(num, den * pow10(m1), digits, dv * pow10((nd - 19) as nat));
    }
}

/// Renders the duration in the unit whose divisor in seconds is `dv`,
/// following `render_in_unit`.
/// Whether the duration's magnitude in the unit with divisor `dv`, rounded
/// to a whole number, stays below a billion — the cutoff for scientific
/// notation. Decided on the raw value doubled: rounding reaches a billion
/// exactly from 999999999.5 units upward.
fn rounded_below_billion(d: &DecSeconds, dv: u64) -> (r: bool)
    requires
        d.wf(),
        1 <= dv <= 3155760000,
    ensures
        r == (round_half_even(d.num(), d.den() * dv as nat) < 1000000000),
{
    proof {
        lemma_pow10_table();
        if d.exp < 0 {
            lemma_pow10_pos((-d.exp) as nat);
        }
        assert(d.den() >= 1);
        assert(d.den() * dv as nat >= 1) by (nonlinear_arith)
            requires
                d.den() >= 1,
                dv >= 1,
        {
        }
        lemma_rounded_billion_iff(d.num(), d.den() * dv as nat);
    }
    let k: u64 = 1999999999 * dv;
    proof {
        assert(k as nat * d.den() == 1999999999 * (d.den() * dv as nat)) by (nonlinear_arith)
            requires
                k as nat == 1999999999 * dv as nat,
        {
        }
    }
    if d.digits == 0 {
        proof {
            if d.exp >= 0 {
                assert(d.num() == 0 * pow10(d.exp as nat));
                assert(0 * pow10(d.exp as nat) == 0) by (nonlinear_arith) {}
            }
            assert(2 * d.num() < k as nat * d.den()) by (nonlinear_arith)
                requires
                    d.num() == 0,
                    k >= 1,
                    d.den() >= 1,
            {
            }
        }
        return true;
    }
    if d.exp >= 0 {
        if d.exp >= 19 {
            proof {
                lemma_pow10_increases(19, d.exp as nat);
                assert(d.num() >= pow10(d.exp as nat)) by (nonlinear_arith)
                    requires
                        d.digits >= 1,
                        d.num() == d.digits as nat * pow10(d.exp as nat),
                        pow10(d.exp as nat) >= 0,
                {
                }
            }
            return false;
        }
        let p = pow10_u128(d.exp as u32);
        proof {
            lemma_pow10_increases(d.exp as nat, 18);
            assert(2 * (d.digits as nat) * (p as nat) <= 2 * 18446744073709551615 * pow10(18))
                by (nonlinear_arith)
                requires
                    d.digits as nat <= 18446744073709551615,
                    p as nat <= pow10(18),
            {
            }
            assert(2 * (d.digits as nat) * (p as nat) == 2 * d.num()) by (nonlinear_arith)
                requires
                    d.num() == d.digits as nat * (p as nat),
            {
            }
        }
        let prod = 2u128 * (d.digits as u128) * p;
        prod < (k as u128)
    } else {
        let neg = -(d.exp as i64);
        if neg >= 20 {
            proof {
                lemma_pow10_increases(20, (-d.exp) as nat);
                assert(2 * d.num() < k as nat * d.den()) by (nonlinear_arith)
                    requires
                        d.num() <= 18446744073709551615,
                        k >= 1,
                        d.den() >= pow10(20),
                        pow10(20) == 100000000000000000000,
                {
                }
            }
            return true;
        }
        let p = pow10_u128(neg as u32);
        proof {
            lemma_pow10_increases((-d.exp) as nat, 19);
            lemma_pow10_adds(19, 19);
            assert(k as nat * (p as nat) <= pow10(19) * pow10(19)) by (nonlinear_arith)
                requires
                    k as nat <= 10000000000000000000,
                    pow10(19) == 10000000000000000000,
                    p as nat <= pow10(19),
            {
            }
            assert(k as nat * (p as nat) == k as nat * d.den()) by (nonlinear_arith)
                requires
                    p as nat == d.den(),
            {
            }
        }
        let bound = (k as u128) * p;
        (2u128 * (d.digits as u128)) < bound
    }
}

/// Renders the duration in the unit whose divisor in seconds is `dv`,
/// following `render_in_unit`.
fn tounit(d: &DecSeconds, dv: u64, unit: &str) -> (r: String)
    requires
        d.wf(),
        1 <= dv <= 3155760000,
        d.num() >= d.den(),
    ensures
        r@ == render_in_unit(d.num(), d.den() * dv as nat, unit@),
{
    proof {
        lemma_pow10_table();
        if d.exp < 0 {
            lemma_pow10_pos((-d.exp) as nat);
        }
        assert(d.den() * dv as nat >= 1) by (nonlinear_arith)
            requires
                d.den() >= 1,
                dv >= 1,
        {
        }
        lemma_rounded_billion_iff(d.num(), d.den() * dv as nat);
    }
    let plain_k: u64 = 1000000000 * dv;
    if rounded_below_billion(d, dv) {
        proof {
            assert(plain_k as nat * d.den() == 1000000000 * (d.den() * dv as nat))
                by (nonlinear_arith)
                requires
                    plain_k as nat == 1000000000 * dv as nat,
            {
            }
            // the raw magnitude is below a billion too
            assert(d.num() < 1000000000 * (d.den() * dv as nat)) by (nonlinear_arith)
                requires
                    2 * d.num() < 1999999999 * (d.den() * dv as nat),
                    d.den() * dv as nat >= 1,
            {
            }
        }
        let num128: u128;
        let den128: u128;
        if d.exp >= 0 {
            proof {
                assert(d.num() == d.digits as nat * pow10(d.exp as nat));
                lemma_pow10_pos(d.exp as nat);
                if d.digits == 0 {
                    assert(d.num() == 0) by (nonlinear_arith)
                        requires
                            d.num() == 0 * pow10(d.exp as nat),
                    {
                    }
                }
                assert(pow10(d.exp as nat) <= d.num()) by (nonlinear_arith)
                    requires
                        d.digits >= 1,
                        d.num() == d.digits as nat * pow10(d.exp as nat),
                        pow10(d.exp as nat) >= 1,
                {
                }
                if d.exp >= 19 {
                    lemma_pow10_increases(19, d.exp as nat);
                }
            }
            let p = pow10_u128(d.exp as u32);
            num128 = (d.digits as u128) * p;
            den128 = dv as u128;
        } else {
            proof {
                if -d.exp >= 20 {
                    lemma_pow10_increases(20, (-d.exp) as nat);
                }
                lemma_pow10_increases((-d.exp) as nat, 19);
                assert(dv as nat * pow10((-d.exp) as nat) <= 3155760000 * pow10(19))
                    by (nonlinear_arith)
                    requires
                        dv as nat <= 3155760000,
                        pow10((-d.exp) as nat) <= pow10(19),
                {
                }
            }
            let p = pow10_u128((-(d.exp as i64)) as u32);
            num128 = d.digits as u128;
            den128 = (dv as u128) * p;
        }
        proof {
            assert(num128 as nat == d.num());
            if d.exp >= 0 {
                assert(den128 as nat == d.den() * dv as nat);
            } else {
                assert(den128 as nat == d.den() * dv as nat) by (nonlinear_arith)
                    requires
                        den128 as nat == dv as nat * pow10((-d.exp) as nat),
                        d.den() == pow10((-d.exp) as nat),
                {
                }
            }
        }
        let x = rhe_u128(num128, den128);
        let mut s = u64_to_string(x as u64);
        s.append(" ");
        s.append(unit);
        s
    } else if value_below(d, plain_k) {
        // the raw magnitude is below a billion but rounds up to it:
        // the one-digit mantissa normalizes to 1e+9
        proof {
            assert(plain_k as nat * d.den() == 1000000000 * (d.den() * dv as nat))
                by (nonlinear_arith)
                requires
                    plain_k as nat == 1000000000 * dv as nat,
            {
            }
            lemma_band_form(d.num(), d.den() * dv as nat);
        }
        let mut s = u64_to_string(1);
        s.append("e+");
        let etxt = u64_to_string(9);
        s.append(etxt.as_str());
        s.append(" ");
        s.append(unit);
        s
    } else {
        proof {
            assert(d.num() >= 1000000000 * (d.den() * dv as nat)) by (nonlinear_arith)
                requires
                    d.num() >= plain_k as nat * d.den(),
                    plain_k as nat == 1000000000 * dv as nat,
            {
            }
            if d.digits == 0 {
                if d.exp >= 0 {
                    assert(d.num() == 0 * pow10(d.exp as nat));
                    assert(0 * pow10(d.exp as nat) == 0) by (nonlinear_arith) {}
                }
                assert(d.num() == 0);
                assert(1000000000 * (d.den() * dv as nat) >= 1) by (nonlinear_arith)
                    requires
                        d.den() >= 1,
                        dv >= 1,
                {
                }
            }
            assert(d.digits >= 1);
            assert((d.digits as nat) < pow10(20));
            if d.exp >= 0 {
                assert(d.den() * dv as nat == dv as nat);
            } else {
                assert(d.den() * dv as nat == dv as nat * pow10((-d.exp) as nat))
                    by (nonlinear_arith)
                    requires
                        d.den() == pow10((-d.exp) as nat),
                {
                }
            }
            lemma_sci_decompose(
                d.digits as nat,
                d.exp as int,
                dv as nat,
                d.num(),
                d.den() * dv as nat,
            );
            assert(d.digits as nat * 1000000000000000000 <= 18446744073709551615
                * 1000000000000000000) by (nonlinear_arith)
                requires
                    d.digits as nat <= 18446744073709551615,
            {
            }
            assert(1 * dv as nat <= d.digits as nat * 1000000000000000000) by (nonlinear_arith)
                requires
                    d.digits >= 1,
                    dv as nat <= 3155760000,
            {
            }
            lemma_div_ge((d.digits as nat) * 1000000000000000000, dv as nat, 1);
        }
        let q18 = (d.digits as u128) * 1000000000000000000u128 / (dv as u128);
        let nd = digit_count(q18);
        proof {
            assert(q18 as nat == (d.digits as nat * pow10(18)) / (dv as nat));
        }
        let d0: u128;
        if nd <= 19 {
            proof {
                lemma_pow10_increases((19 - nd) as nat, 19);
                assert(d.digits as nat * pow10((19 - nd) as nat) <= 18446744073709551615 * pow10(
                    19,
                )) by (nonlinear_arith)
                    requires
                        d.digits as nat <= 18446744073709551615,
                        pow10((19 - nd) as nat) <= pow10(19),
                {
                }
            }
            let p = pow10_u128(19 - nd);
            d0 = rhe_u128((d.digits as u128) * p, dv as u128);
        } else {
            proof {
                lemma_pow10_increases((nd - 19) as nat, 20);
                assert(dv as nat * pow10((nd - 19) as nat) <= 3155760000 * pow10(20))
                    by (nonlinear_arith)
                    requires
                        dv as nat <= 3155760000,
                        pow10((nd - 19) as nat) <= pow10(20),
                {
                }
                lemma_pow10_pos((nd - 19) as nat);
                assert(dv as nat * pow10((nd - 19) as nat) >= 1) by (nonlinear_arith)
                    requires
                        dv >= 1,
                        pow10((nd - 19) as nat) >= 1,
                {
                }
            }
            let p = pow10_u128(nd - 19);
            d0 = rhe_u128(d.digits as u128, (dv as u128) * p);
        }
        let mant: u64 = if d0 == 10 {
            1
        } else {
            d0 as u64
        };
        let e_adjust: i64 = if d0 == 10 {
            18
        } else {
            19
        };
        let e_val: i64 = (nd as i64) + (d.exp as i64) - e_adjust;
        let mut s = u64_to_string(mant);
        s.append("e+");
        let etxt = u64_to_string(e_val as u64);
        s.append(etxt.as_str());
        s.append(" ");
        s.append(unit);
        s
    }
}

/// Renders a duration in seconds on the unit ladder that `render_duration`
/// states: the largest whole unit reached, scientific notation past a
/// billion units, and a fixed phrase below one second.
pub fn format_time(d: &DecSeconds) -> (r: String)
    requires
        d.wf(),
    ensures
        r@ == render_duration(*d),
{
    proof {
        lemma_pow10_table();
    }
    if value_below(d, 1) {
        String::from_str("less than a second")
    } else if value_below(d, 60) {
        tounit(d, 1, "seconds")
    } else if value_below(d, 3600) {
        tounit(d, 60, "minutes")
    } else if value_below(d, 86400) {
        tounit(d, 3600, "hours")
    } else if value_below(d, 31557600) {
        tounit(d, 86400, "days")
    } else if value_below(d, 3155760000) {
        tounit(d, 31557600, "years")
    } else {
        tounit(d, 3155760000, "centuries")
    }
}

/// Law: once the magnitude in its chosen unit, as rounded, reaches a
/// billion, the rendering is `<mantissa>e+<exponent> <unit>`: a one-digit
/// mantissa and an explicit positive exponent of at least nine.
pub proof fn lemma_scientific_form(num: nat, den: nat, unit: Seq<char>)
    requires
        den >= 1,
        round_half_even(num, den) >= 1000000000,
    ensures
        exists|mant: nat, ex: nat|
            {
                &&& 1 <= mant <= 9
                &&& ex >= 9
                &&& render_in_unit(num, den, unit) == nat_to_digits(mant) + "e+"@ + nat_to_digits(
                    ex,
                ) + " "@ + unit
            },
{
    if num < 1000000000 * den {
        // the raw magnitude is below a billion but rounds up to it
        lemma_rounded_billion_iff(num, den);
        lemma_band_form(num, den);
        let m = nat_digits(num / den);
        assert(m == 9);
        assert({
            &&& 1 <= 1nat <= 9
            &&& 9nat >= 9
            &&& render_in_unit(num, den, unit) == nat_to_digits(1) + "e+"@ + nat_to_digits(9)
                + " "@ + unit
        });
        return ;
    }
    lemma_pow10_table();
    lemma_div_ge(num, den, 1000000000);
    let f = num / den;
    lemma_nat_digits_bounds(f);
    let m = nat_digits(f);
    if m <= 9 {
        lemma_pow10_increases(m, 9);
        assert(false);
    }
    let m1 = (m - 1) as nat;
    lemma_fundamental_div_mod(num as int, den as int);
    lemma_mod_division_less_than_divisor(num as int, den as int);
    assert(pow10(m1) * den <= num && num < pow10(m) * den) by (nonlinear_arith)
        requires
            num == den * f + (num % den),
            0 <= (num % den) < den,
            pow10(m1) <= f < pow10(m),
            den >= 1,
    {
    }
    lemma_pow10_pos(m1);
    assert(pow10(m) == 10 * pow10(m1));
    assert(den * pow10(m1) >= 1 && 1 * (den * pow10(m1)) <= num && num < 10 * (den * pow10(m1)))
        by (nonlinear_arith)
        requires
            den >= 1,
            pow10(m1) >= 1,
            pow10(m1) * den <= num,
            num < pow10(m) * den,
            pow10(m) == 10 * pow10(m1),
    {
    }
    lemma_rhe_ge(num, den * pow10(m1), 1);
    lemma_rhe_le(num, den * pow10(m1), 10);
    let d0 = round_half_even(num, den * pow10(m1));
    if d0 == 10 {
        assert({
            &&& 1 <= 1nat <= 9
            &&& m >= 9
            &&& render_in_unit(num, den, unit) == nat_to_digits(1) + "e+"@ + nat_to_digits(m)
                + " "@ + unit
        });
    } else {
        assert({
            &&& 1 <= d0 <= 9
            &&& m1 >= 9
            &&& render_in_unit(num, den, unit) == nat_to_digits(d0) + "e+"@ + nat_to_digits(m1)
                + " "@ + unit
        });
    }
}

/// Law: a value exactly at a unit threshold falls into the larger unit:
/// at exactly sixty seconds the rendering is "1 minutes", not a count of
/// seconds, since each bucket is bounded by a strict comparison.
pub proof fn lemma_threshold_enters_next_bucket(d: DecSeconds)
    requires
        d.num() == 60 * d.den(),
    ensures
        render_duration(d) == render_in_unit(d.num(), d.den() * 60, "minutes"@),
        render_duration(d) == nat_to_digits(1) + " "@ + "minutes"@,
{
    if d.exp < 0 {
        lemma_pow10_pos((-d.exp) as nat);
    }
    assert(d.den() >= 1);
    assert(1 * d.den() <= d.num() && d.num() < 3600 * d.den() && d.num() == 1 * (d.den() * 60)
        && d.num() < 1000000000 * (d.den() * 60)) by (nonlinear_arith)
        requires
            d.num() == 60 * d.den(),
            d.den() >= 1,
    {
    }
    vstd::arithmetic::div_mod::lemma_div_by_self(d.num() as int);
    vstd::arithmetic::div_mod::lemma_mod_self_0(d.num() as int);
    assert(round_half_even(d.num(), d.den() * 60) == 1);
}

/// A dashed rule of the given width, printed under the strength report.
pub fn separator_line(cols: u16) -> (r: String)
    ensures
        r@.len() == cols as nat,
        forall|i: int| 0 <= i < r@.len() ==> r@[i] == '-',
{
    let mut s = String::new();
    let mut i: u16 = 0;
    while i < cols
        invariant
            i <= cols,
            s@.len() == i as nat,
            forall|j: int| 0 <= j < s@.len() ==> s@[j] == '-',
        decreases cols - i,
    {
        s.append("-");
        proof {
            reveal_strlit("-");
        }
        i = i + 1;
    }
    s
}

} // verus!
