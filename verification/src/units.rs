use vstd::prelude::*;
use vstd::string::*;
use crate::text::{decimal, digit_char, decimal_string, push_char, digit};

verus! {

pub const KB: u64 = 1024;
pub const MB: u64 = 1048576;
pub const GB: u64 = 1073741824;

/// 2 to the power `e`.
pub open spec fn pow_two(e: nat) -> nat
    decreases e,
{
    if e == 0 { 1 } else { 2 * pow_two((e - 1) as nat) }
}

/// `n / d` rounded to the nearest integer, ties to the even one.
pub open spec fn nearest_even_quotient(n: nat, d: nat) -> nat
    recommends
        d > 0,
{
    let q = n / d;
    let r = n % d;
    if 2 * r > d || (2 * r == d && q % 2 == 1) {
        q + 1
    } else {
        q
    }
}

/// How many low bits of `b` a 53-bit significand cannot hold.
pub open spec fn f64_shift(b: nat) -> nat
    decreases b,
{
    if b < 0x20_0000_0000_0000 {
        0
    } else {
        1 + f64_shift(b / 2)
    }
}

/// The integer that `b as f64` holds: `b` rounded to 53 significant bits,
/// ties to even.
pub open spec fn as_f64(b: nat) -> nat {
    let d = pow_two(f64_shift(b));
    nearest_even_quotient(b, d) * d
}

/// A count of tenths written with one decimal place, as `{:.1}` writes it.
pub open spec fn one_decimal(tenths: nat) -> Seq<char> {
    decimal(tenths / 10).push('.').push(digit_char(tenths % 10))
}

/// The text that `format_bytes` gives for `bytes`: whole bytes below 1 KiB,
/// otherwise the value in the largest of KB, MB, GB (powers of 1024) that
/// it reaches, rounded to one decimal place, ties to even, as `{:.1}` writes
/// the `f64` quotient.
pub open spec fn bytes_text(bytes: nat) -> Seq<char> {
    if bytes >= GB {
        one_decimal(nearest_even_quotient(10 * as_f64(bytes), GB as nat)) + " GB"@
    } else if bytes >= MB {
        one_decimal(nearest_even_quotient(10 * bytes, MB as nat)) + " MB"@
    } else if bytes >= KB {
        one_decimal(nearest_even_quotient(10 * bytes, KB as nat)) + " KB"@
    } else {
        decimal(bytes) + " B"@
    }
}

fn rounded_quotient(n: u128, d: u128) -> (q: u128)
    requires
        d > 0,
        n / d < u128::MAX,
    ensures
        q == nearest_even_quotient(n as nat, d as nat),
        q <= n / d + 1,
{
    let q = n / d;
    let r = n % d;
    if r > d - r || (r == d - r && q % 2 == 1) {
        q + 1
    } else {
        q
    }
}

proof fn lemma_pow_two_step(e: nat)
    ensures
        pow_two(e + 1) == 2 * pow_two(e),
        pow_two(e) >= 1,
    decreases e,
{
    if e > 0 {
        lemma_pow_two_step((e - 1) as nat);
    }
}

/// The value of `b as f64`, as an integer.
fn f64_value(b: u64) -> (v: u128)
    ensures
        v == as_f64(b as nat),
        v <= 0x1_0000_0000_0000_1000,
{
    let mut x: u64 = b;
    let mut p: u64 = 1;
    let ghost mut e: nat = 0;
    while x >= 0x20_0000_0000_0000
        invariant
            p == pow_two(e),
            p >= 1,
            p <= 0x1000,
            x == b / p,
            p * x <= b,
            f64_shift(b as nat) == e + f64_shift(x as nat),
        decreases x,
    {
        proof {
            lemma_pow_two_step(e);
            vstd::arithmetic::div_mod::lemma_div_denominator(b as int, p as int, 2);
            assert(p * x >= p * 0x20_0000_0000_0000) by (nonlinear_arith)
                requires x >= 0x20_0000_0000_0000, p >= 1;
            assert(p * 2 <= 0x1000) by (nonlinear_arith)
                requires p * 0x20_0000_0000_0000 <= b, b <= u64::MAX;
            assert((p * 2) * (x / 2) <= p * x) by (nonlinear_arith)
                requires p >= 1;
        }
        x = x / 2;
        p = p * 2;
        proof {
            e = e + 1;
        }
    }
    let d = p as u128;
    let q = rounded_quotient(b as u128, d);
    proof {
        assert(q <= (b as u128) / d + 1);
        assert(q * d <= 0x1_0000_0000_0000_0000 + d) by (nonlinear_arith)
            requires q <= (b as int) / (d as int) + 1, d >= 1, (b as int) <= u64::MAX;
    }
    q * d
}

/// Writes a byte count in human-readable units: "512 B", "1.5 KB",
/// "12.3 MB", "2.0 GB" (units are powers of 1024; one decimal place).
pub fn format_bytes(bytes: u64) -> (r: String)
    ensures
        r@ == bytes_text(bytes as nat),
{
    if bytes >= GB {
        let v = f64_value(bytes);
        let t = rounded_quotient(10 * v, GB as u128);
        assert(t <= u64::MAX) by {
            assert((10 * v) as int / 1073741824int <= 0x10_0000_0000_0000_0000int) by (nonlinear_arith)
                requires v <= 0x1_0000_0000_0000_1000int;
        }
        one_decimal_string(t, " GB")
    } else if bytes >= MB {
        let t = rounded_quotient(10 * (bytes as u128), MB as u128);
        one_decimal_string(t, " MB")
    } else if bytes >= KB {
        let t = rounded_quotient(10 * (bytes as u128), KB as u128);
        one_decimal_string(t, " KB")
    } else {
        let mut r = decimal_string(bytes);
        r.append(" B");
        r
    }
}

fn one_decimal_string(tenths: u128, unit: &str) -> (r: String)
    requires
        tenths <= u64::MAX,
    ensures
        r@ == one_decimal(tenths as nat) + unit@,
{
    let t = tenths as u64;
    let mut r = decimal_string(t / 10);
    push_char(&mut r, '.');
    push_char(&mut r, digit(t % 10));
    r.append(unit);
    r
}

} // verus!
