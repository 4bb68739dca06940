//! Human-readable byte counts. Binary units (1024), with the precision of
//! the rendered number depending on the scaled value: two decimals below 10,
//! one below 100, none at or above 100. The output is computed with integer
//! arithmetic only, so it is identical on every platform.
use vstd::prelude::*;

verus! {

use crate::pathutil::string_of;

/// The decimal digit `d` as a character.
pub open spec fn digit_char(d: int) -> char {
    if d == 0 {
        '0'
    } else if d == 1 {
        '1'
    } else if d == 2 {
        '2'
    } else if d == 3 {
        '3'
    } else if d == 4 {
        '4'
    } else if d == 5 {
        '5'
    } else if d == 6 {
        '6'
    } else if d == 7 {
        '7'
    } else if d == 8 {
        '8'
    } else {
        '9'
    }
}

/// The decimal digits of `n`, most significant first.
pub open spec fn dec_digits(n: nat) -> Seq<char>
    decreases n,
{
    if n < 10 {
        seq![digit_char(n as int)]
    } else {
        dec_digits(n / 10).push(digit_char((n % 10) as int))
    }
}

/// 1024 to the power `k`.
pub open spec fn pow1024(k: nat) -> nat
    decreases k,
{
    if k == 0 {
        1
    } else {
        1024 * pow1024((k - 1) as nat)
    }
}

/// The unit suffix for scale `k`: B, KB, MB, GB or TB.
pub open spec fn unit_chars(k: int) -> Seq<char> {
    if k == 0 {
        seq![' ', 'B']
    } else if k == 1 {
        seq![' ', 'K', 'B']
    } else if k == 2 {
        seq![' ', 'M', 'B']
    } else if k == 3 {
        seq![' ', 'G', 'B']
    } else {
        seq![' ', 'T', 'B']
    }
}

/// The scale used for `b >= 1024` bytes: the largest `k <= 4` with
/// `pow1024(k) <= b`.
pub open spec fn unit_index(b: int) -> int {
    if b < 1048576 {
        1
    } else if b < 1073741824 {
        2
    } else if b < 1099511627776 {
        3
    } else {
        4
    }
}

/// How many decimal places the scaled value `b / pow1024(k)` is shown with.
pub open spec fn decimals_for(b: int, k: int) -> int {
    if b < 10 * pow1024(k as nat) {
        2
    } else if b < 100 * pow1024(k as nat) {
        1
    } else {
        0
    }
}

/// `num / den` rounded to the nearest integer, ties to even.
pub open spec fn round_half_even(num: int, den: int) -> int {
    let q = num / den;
    let r = num % den;
    if 2 * r > den || (2 * r == den && q % 2 == 1) {
        q + 1
    } else {
        q
    }
}

/// The scaled value times `10^d`, rounded: the digits that are printed.
pub open spec fn scaled_digits_value(b: int, k: int, d: int) -> int {
    round_half_even(b * (if d == 0 {
        1int
    } else if d == 1 {
        10int
    } else {
        100int
    }), pow1024(k as nat) as int)
}

/// The rendered number `q * 10^-d`, with a decimal point when `d > 0`.
pub open spec fn number_chars(q: int, d: int) -> Seq<char> {
    if d == 0 {
        dec_digits(q as nat)
    } else if d == 1 {
        dec_digits((q / 10) as nat) + seq!['.', digit_char(q % 10)]
    } else {
        dec_digits((q / 100) as nat) + seq!['.', digit_char((q / 10) % 10), digit_char(q % 10)]
    }
}

/// What `format_size` returns, character by character.
pub open spec fn spec_format_size(b: int) -> Seq<char> {
    if b < 0 {
        seq!['-'] + dec_digits((-b) as nat) + unit_chars(0)
    } else if b < 1024 {
        dec_digits(b as nat) + unit_chars(0)
    } else {
        let k = unit_index(b);
        let d = decimals_for(b, k);
        number_chars(scaled_digits_value(b, k, d), d) + unit_chars(k)
    }
}

/// The decimal digit `d` as a character.
pub fn digit_char_exec(d: u64) -> (r: char)
    requires
        d < 10,
    ensures
        r == digit_char(d as int),
{
    if d == 0 {
        '0'
    } else if d == 1 {
        '1'
    } else if d == 2 {
        '2'
    } else if d == 3 {
        '3'
    } else if d == 4 {
        '4'
    } else if d == 5 {
        '5'
    } else if d == 6 {
        '6'
    } else if d == 7 {
        '7'
    } else if d == 8 {
        '8'
    } else {
        '9'
    }
}

/// Appends the decimal digits of `n` to `out`.
pub fn push_dec_digits(n: u64, out: &mut Vec<char>)
    ensures
        final(out)@ == old(out)@ + dec_digits(n as nat),
    decreases n,
{
    if n < 10 {
        out.push(digit_char_exec(n));
    } else {
        push_dec_digits(n / 10, out);
        out.push(digit_char_exec(n % 10));
    }
}

/// Appends the decimal digits of `n` (a printed number can exceed `u64`
/// only through the sign of `i64::MIN`, which this path handles).
fn push_dec_digits_u128(n: u128, out: &mut Vec<char>)
    ensures
        final(out)@ == old(out)@ + dec_digits(n as nat),
    decreases n,
{
    if n < 10 {
        out.push(digit_char_exec(n as u64));
    } else {
        push_dec_digits_u128(n / 10, out);
        out.push(digit_char_exec((n % 10) as u64));
    }
}

/// The printed digits for `b` bytes at scale `k` with `d` decimals:
/// `b * 10^d / 1024^k`, rounded half to even.
fn scaled_value(b: u64, k: u64, d: u64, den: u64) -> (q: u64)
    requires
        1024 <= b,
        1 <= k <= 4,
        den == pow1024(k as nat),
        d == decimals_for(b as int, k as int),
    ensures
        q == scaled_digits_value(b as int, k as int, d as int),
{
    proof {
        reveal_with_fuel(pow1024, 5);
    }
    let mul: u64 = if d == 0 {
        1
    } else if d == 1 {
        10
    } else {
        100
    };
    proof {
        assert((b as u128) * (mul as u128) <= (u64::MAX as u128) * 100) by (nonlinear_arith)
            requires
                b as u128 <= u64::MAX as u128,
                mul as u128 <= 100,
        ;
    }
    let num: u128 = (b as u128) * (mul as u128);
    let q128: u128 = num / (den as u128);
    let r128: u128 = num % (den as u128);
    let round_up: bool = if 2 * r128 > den as u128 {
        true
    } else if 2 * r128 == den as u128 && q128 % 2 == 1 {
        true
    } else {
        false
    };
    proof {
        vstd::arithmetic::div_mod::lemma_fundamental_div_mod(num as int, den as int);
        assert(num == (den as u128) * q128 + r128);
        assert(q128 * (den as u128) <= num && q128 <= num) by (nonlinear_arith)
            requires
                den >= 1,
                num == (den as u128) * q128 + r128,
                r128 < den as u128,
        ;
        assert(num <= u64::MAX as u128 * 100);
        assert(q128 <= u64::MAX as u128 * 100);
        assert(q128 * 1024 <= num) by (nonlinear_arith)
            requires
                den >= 1024,
                q128 * (den as u128) <= num,
        ;
        assert(q128 + 1 <= u64::MAX as u128);
    }
    if round_up {
        (q128 + 1) as u64
    } else {
        q128 as u64
    }
}

/// Renders a byte count in the unit that keeps the number short, as the
/// stable string persisted inside cached results.
pub fn format_size(bytes: i64) -> (r: String)
    ensures
        r@ == spec_format_size(bytes as int),
{
    let mut out: Vec<char> = Vec::new();
    if bytes < 0 {
        let m: u128 = if bytes == i64::MIN {
            9223372036854775808u128
        } else {
            (-bytes) as u128
        };
        out.push('-');
        push_dec_digits_u128(m, &mut out);
        out.push(' ');
        out.push('B');
        proof {
            assert(out@ =~= spec_format_size(bytes as int));
        }
        return string_of(&out);
    }
    let b = bytes as u64;
    if b < 1024 {
        push_dec_digits(b, &mut out);
        out.push(' ');
        out.push('B');
        proof {
            assert(out@ =~= spec_format_size(bytes as int));
        }
        return string_of(&out);
    }
    let k: u64 = if b < 1048576 {
        1
    } else if b < 1073741824 {
        2
    } else if b < 1099511627776 {
        3
    } else {
        4
    };
    let den: u64 = if k == 1 {
        1024
    } else if k == 2 {
        1048576
    } else if k == 3 {
        1073741824
    } else {
        1099511627776
    };
    proof {
        reveal_with_fuel(pow1024, 5);
        assert(pow1024(1) == 1024 && pow1024(2) == 1048576 && pow1024(3) == 1073741824
            && pow1024(4) == 1099511627776);
        assert(k == unit_index(b as int));
        assert(den == pow1024(k as nat));
    }
    let d: u64 = if b / den < 10 && b % den == 0 {
        2
    } else if b < 10 * den {
        2
    } else if b < 100 * den {
        1
    } else {
        0
    };
    proof {
        assert(b / den < 10 && b % den == 0 ==> b < 10 * den) by (nonlinear_arith)
            requires
                den > 0,
                b == den * (b / den) + b % den,
        ;
        assert(d == decimals_for(b as int, k as int));
    }
    let q: u64 = scaled_value(b, k, d, den);
    if d == 0 {
        push_dec_digits(q, &mut out);
    } else if d == 1 {
        push_dec_digits(q / 10, &mut out);
        out.push('.');
        out.push(digit_char_exec(q % 10));
    } else {
        push_dec_digits(q / 100, &mut out);
        out.push('.');
        out.push(digit_char_exec((q / 10) % 10));
        out.push(digit_char_exec(q % 10));
    }
    out.push(' ');
    if k == 1 {
        out.push('K');
    } else if k == 2 {
        out.push('M');
    } else if k == 3 {
        out.push('G');
    } else {
        out.push('T');
    }
    out.push('B');
    proof {
        assert(out@ =~= spec_format_size(bytes as int));
    }
    string_of(&out)
}

} // verus!
