//! Figures as text: decimal digits, two-place fixed point, rounded ratios,
//! integer square roots and the scientific notation of call counts.

use vstd::arithmetic::div_mod::lemma_fundamental_div_mod;
use vstd::prelude::*;

verus! {

/// The character of one decimal digit.
pub open spec fn digit(d: nat) -> char {
    if d == 0 {
        '0'
    } else if d == 1 {
        '1'
    } else if d == 2 {
        '2'
    } else if d == 3 {
        '3'
    } else if d == 4 {
        '4'
    } else if d == 5 {
        '5'
    } else if d == 6 {
        '6'
    } else if d == 7 {
        '7'
    } else if d == 8 {
        '8'
    } else {
        '9'
    }
}

/// The decimal digits of `n`, most significant first, without leading
/// zeros.
pub open spec fn decimal(n: nat) -> Seq<char>
    decreases n,
{
    if n < 10 {
        seq![digit(n)]
    } else {
        decimal(n / 10).push(digit(n % 10))
    }
}

/// `h` hundredths written with two decimal places.
pub open spec fn fixed2(h: nat) -> Seq<char> {
    decimal(h / 100) + seq!['.', digit(h / 10 % 10), digit(h % 10)]
}

/// `num / den` rounded to the nearest natural, halves upwards.
pub open spec fn rounded_div(num: nat, den: nat) -> nat
    recommends
        den > 0,
{
    (2 * num + den) / (2 * den)
}

/// The text of the ratio `num / den` in hundredths: two decimal places, or
/// `inf` and `NaN` where the denominator is zero.
pub open spec fn ratio_text(num: nat, den: nat) -> Seq<char> {
    if den == 0 {
        if num == 0 {
            seq!['N', 'a', 'N']
        } else {
            seq!['i', 'n', 'f']
        }
    } else {
        fixed2(rounded_div(num, den))
    }
}

/// Whether `r` is the square root of `v`, rounded down.
pub open spec fn is_sqrt(r: nat, v: nat) -> bool {
    r * r <= v < (r + 1) * (r + 1)
}

/// The square root of `v`, rounded down.
pub open spec fn sqrt_floor(v: nat) -> nat {
    choose|r: nat| is_sqrt(r, v)
}

/// A natural has one rounded-down square root.
pub proof fn lemma_sqrt_unique(a: nat, b: nat, v: nat)
    requires
        is_sqrt(a, v),
        is_sqrt(b, v),
    ensures
        a == b,
        a == sqrt_floor(v),
{
    assert(a == b) by (nonlinear_arith)
        requires
            a * a <= v < (a + 1) * (a + 1),
            b * b <= v < (b + 1) * (b + 1),
    ;
    let c = sqrt_floor(v);
    assert(a == c) by (nonlinear_arith)
        requires
            a * a <= v < (a + 1) * (a + 1),
            c * c <= v < (c + 1) * (c + 1),
    ;
}

/// Every natural has a rounded-down square root.
pub proof fn lemma_sqrt_exists(v: nat)
    ensures
        is_sqrt(sqrt_floor(v), v),
    decreases v,
{
    if v == 0 {
        assert(0nat * 0nat <= 0nat < (0nat + 1) * (0nat + 1)) by (nonlinear_arith);
        assert(is_sqrt(0, 0));
    } else {
        lemma_sqrt_exists((v - 1) as nat);
        let r = sqrt_floor((v - 1) as nat);
        if (r + 1) * (r + 1) <= v {
            assert(is_sqrt(r + 1, v)) by (nonlinear_arith)
                requires
                    r * r <= v - 1 < (r + 1) * (r + 1),
                    (r + 1) * (r + 1) <= v,
            ;
        } else {
            assert(is_sqrt(r, v));
        }
    }
}

/// The number of decimal digits of `n` after the first.
pub open spec fn magnitude(n: nat) -> nat
    decreases n,
{
    if n < 10 {
        0
    } else {
        1 + magnitude(n / 10)
    }
}

/// The power of ten that takes `n` down to three digits before the point:
/// one for a number below a thousand.
pub open spec fn scale(n: nat) -> nat
    decreases n,
{
    if n < 1000 {
        1
    } else {
        10 * scale(n / 10)
    }
}

/// `n` to three significant digits as a number: filled with zeros where
/// `n` has fewer, rounded to the nearest, halves upwards, where it has
/// more. A number that rounds up into a further digit gives a thousand.
pub open spec fn leading3(n: nat) -> nat {
    if n < 10 {
        n * 100
    } else if n < 100 {
        n * 10
    } else {
        rounded_div(n, scale(n))
    }
}

/// `n` in scientific notation, rounded to two decimal places: `6` is
/// `6.00e0`, `1234` is `1.23e3`, `1235` is `1.24e3` and `9999` is `1.00e4`.
pub open spec fn scientific(n: nat) -> Seq<char> {
    let carried = leading3(n) >= 1000;
    let m = if carried {
        100
    } else {
        leading3(n)
    };
    let e = if carried {
        magnitude(n) + 1
    } else {
        magnitude(n)
    };
    seq![digit(m / 100), '.', digit(m / 10 % 10), digit(m % 10), 'e'] + decimal(e)
}

/// `depth` levels of indentation, two spaces each.
pub open spec fn indent(depth: nat) -> Seq<char>
    decreases depth,
{
    if depth == 0 {
        Seq::empty()
    } else {
        indent((depth - 1) as nat) + seq![' ', ' ']
    }
}

/// The text of one decimal digit.
pub fn digit_str(d: u8) -> (s: &'static str)
    requires
        d < 10,
    ensures
        s@ == seq![digit(d as nat)],
{
    proof {
        reveal_strlit("0");
        reveal_strlit("1");
        reveal_strlit("2");
        reveal_strlit("3");
        reveal_strlit("4");
        reveal_strlit("5");
        reveal_strlit("6");
        reveal_strlit("7");
        reveal_strlit("8");
        reveal_strlit("9");
    }
    let s = if d == 0 {
        "0"
    } else if d == 1 {
        "1"
    } else if d == 2 {
        "2"
    } else if d == 3 {
        "3"
    } else if d == 4 {
        "4"
    } else if d == 5 {
        "5"
    } else if d == 6 {
        "6"
    } else if d == 7 {
        "7"
    } else if d == 8 {
        "8"
    } else {
        "9"
    };
    assert(s@ =~= seq![digit(d as nat)]);
    s
}

/// The decimal digits of `n` as a string.
pub fn decimal_string(n: u128) -> (s: String)
    ensures
        s@ == decimal(n as nat),
    decreases n,
{
    if n < 10 {
        String::from_str(digit_str(n as u8))
    } else {
        let head = decimal_string(n / 10);
        let s = head.concat(digit_str((n % 10) as u8));
        assert(s@ =~= decimal(n as nat));
        s
    }
}

/// `h` hundredths as a string with two decimal places.
pub fn fixed2_string(h: u128) -> (s: String)
    ensures
        s@ == fixed2(h as nat),
{
    proof {
        reveal_strlit(".");
    }
    let s = decimal_string(h / 100).concat(".").concat(digit_str((h / 10 % 10) as u8)).concat(
        digit_str((h % 10) as u8),
    );
    assert(s@ =~= fixed2(h as nat));
    s
}

/// `num / den` rounded to the nearest natural, halves upwards.
pub fn rounded_quotient(num: u128, den: u128) -> (q: u128)
    requires
        den > 0,
        2 * num + den <= u128::MAX,
        2 * den <= u128::MAX,
    ensures
        q == rounded_div(num as nat, den as nat),
{
    (2 * num + den) / (2 * den)
}

/// The ratio `num / den` in hundredths as a string.
pub fn ratio_string(num: u128, den: u128) -> (s: String)
    requires
        2 * num + den <= u128::MAX,
        2 * den <= u128::MAX,
    ensures
        s@ == ratio_text(num as nat, den as nat),
{
    if den == 0 {
        proof {
            reveal_strlit("NaN");
            reveal_strlit("inf");
        }
        let s = if num == 0 {
            String::from_str("NaN")
        } else {
            String::from_str("inf")
        };
        assert(s@ =~= ratio_text(num as nat, den as nat));
        s
    } else {
        fixed2_string(rounded_quotient(num, den))
    }
}

/// The square root of `v`, rounded down.
pub fn isqrt(v: u128) -> (r: u64)
    ensures
        is_sqrt(r as nat, v as nat),
        r == sqrt_floor(v as nat),
{
    let mut lo: u128 = 0;
    let mut hi: u128 = 0x1_0000_0000_0000_0000u128;
    assert(hi * hi > v) by (nonlinear_arith)
        requires
            hi == 0x1_0000_0000_0000_0000u128,
            v <= u128::MAX,
    ;
    while hi - lo > 1
        invariant
            lo < hi <= 0x1_0000_0000_0000_0000u128,
            lo * lo <= v < hi * hi,
        decreases hi - lo,
    {
        let mid: u128 = lo + (hi - lo) / 2;
        assert(mid * mid <= u128::MAX) by (nonlinear_arith)
            requires
                mid < 0x1_0000_0000_0000_0000u128,
        ;
        if mid * mid <= v {
            lo = mid;
        } else {
            hi = mid;
        }
    }
    proof {
        lemma_sqrt_unique(lo as nat, lo as nat, v as nat);
    }
    lo as u64
}

/// The number of decimal digits of `n` after the first.
pub fn magnitude_of(n: u64) -> (e: u8)
    ensures
        e == magnitude(n as nat),
        e <= 19,
    decreases n,
{
    if n < 10 {
        0
    } else {
        let e: u8 = magnitude_of(n / 10);
        proof {
            lemma_magnitude_bound(n as nat);
        }
        e + 1
    }
}

/// A number below ten to the power of twenty has at most nineteen digits
/// after the first.
pub proof fn lemma_magnitude_bound(n: nat)
    requires
        n <= u64::MAX,
    ensures
        magnitude(n) <= 19,
{
    reveal_with_fuel(magnitude, 21);
}

/// The power of ten that takes `n` down to three digits before the point.
pub fn scale_of(n: u64) -> (p: u64)
    ensures
        p == scale(n as nat),
        p >= 1,
        n >= 100 ==> p * 100 <= n < p * 1000,
    decreases n,
{
    if n < 1000 {
        1
    } else {
        let p: u64 = scale_of(n / 10);
        10 * p
    }
}

/// `n` to three significant digits, rounded to the nearest.
pub fn leading3_of(n: u64) -> (m: u16)
    ensures
        m == leading3(n as nat),
        m <= 1000,
{
    if n < 10 {
        (n * 100) as u16
    } else if n < 100 {
        (n * 10) as u16
    } else {
        let p: u64 = scale_of(n);
        let m: u128 = rounded_quotient(n as u128, p as u128);
        proof {
            let top: int = 2 * n + p;
            let den: int = 2 * p;
            lemma_fundamental_div_mod(top, den);
            assert(top / den <= 1000) by (nonlinear_arith)
                requires
                    top == den * (top / den) + top % den,
                    0 <= top % den,
                    top < 2001 * p,
                    den == 2 * p,
                    p >= 1,
            ;
        }
        m as u16
    }
}

/// `n` in scientific notation with two decimal places.
pub fn scientific_string(n: u64) -> (s: String)
    ensures
        s@ == scientific(n as nat),
{
    proof {
        reveal_strlit(".");
        reveal_strlit("e");
    }
    let rounded: u16 = leading3_of(n);
    let digits: u8 = magnitude_of(n);
    let (m, e): (u16, u8) = if rounded >= 1000 {
        (100u16, digits + 1)
    } else {
        (rounded, digits)
    };
    let exponent = decimal_string(e as u128);
    let s = String::from_str(digit_str((m / 100) as u8)).concat(".").concat(
        digit_str((m / 10 % 10) as u8),
    ).concat(digit_str((m % 10) as u8)).concat("e").concat(exponent.as_str());
    assert(s@ =~= scientific(n as nat));
    s
}

/// `depth` levels of indentation followed by `text`.
pub fn indented(depth: usize, text: &str) -> (s: String)
    ensures
        s@ == indent(depth as nat) + text@,
{
    let mut s = String::new();
    let mut k: usize = 0;
    while k < depth
        invariant
            k <= depth,
            s@ == indent(k as nat),
        decreases depth - k,
    {
        proof {
            reveal_strlit("  ");
            assert("  "@ =~= seq![' ', ' ']);
        }
        s = s.concat("  ");
        k += 1;
        assert(s@ =~= indent(k as nat));
    }
    s.concat(text)
}

} // verus!
