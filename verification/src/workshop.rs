//! Steam Workshop metadata: sizes, details responses, required items and author pages.

use crate::text::{decimal, digit, push_all, push_str, string_of, push_decimal};
use vstd::prelude::*;

verus! {

/// What Steam reports about a Workshop item.
#[derive(Clone, Debug, Default)]
pub struct ItemMeta {
    pub title: String,
    /// Steam's reported file size in bytes (the download size).
    pub size: u64,
    pub preview_url: String,
    pub time_updated: u64,
    pub subscribers: u64,
    pub available: bool,
    /// SteamID64 of the uploader.
    pub creator: String,
}

/// The spacing of `f64` values near `b`: the smallest power of two `u` (from `u` on) such
/// that `b < 2^53 * u`.
pub open spec fn f64_step(b: nat, u: nat) -> nat
    decreases b - u,
{
    if u == 0 || u > b {
        u
    } else if b >= 9007199254740992 * u {
        f64_step(b, 2 * u)
    } else {
        u
    }
}

/// `b as f64`: the integer rounded to 53 significant bits, ties to even.
pub open spec fn as_f64(b: nat) -> nat {
    let u = f64_step(b, 1);
    let q = b / u;
    let r = b % u;
    let up = 2 * r > u || (2 * r == u && q % 2 == 1);
    (if up {
        q + 1
    } else {
        q
    }) * u
}

/// 1024 to the power `unit + 1`: the size of one KB, MB, GB or TB.
pub open spec fn unit_bytes(unit: nat) -> nat {
    if unit == 0 {
        1024
    } else if unit == 1 {
        1048576
    } else if unit == 2 {
        1073741824
    } else {
        1099511627776
    }
}

/// The largest unit whose value is still below 1024, TB at most.
pub open spec fn size_unit(f: nat) -> nat {
    if f < 1048576 {
        0
    } else if f < 1073741824 {
        1
    } else if f < 1099511627776 {
        2
    } else {
        3
    }
}

pub open spec fn unit_name(unit: nat) -> Seq<char> {
    if unit == 0 {
        "KB"@
    } else if unit == 1 {
        "MB"@
    } else if unit == 2 {
        "GB"@
    } else {
        "TB"@
    }
}

pub open spec fn ten_pow(p: nat) -> nat {
    if p == 0 {
        1
    } else if p == 1 {
        10
    } else {
        100
    }
}

/// `n / d` rounded to the nearest integer, ties to even.
pub open spec fn round_half_even(n: nat, d: nat) -> nat
    recommends
        d > 0,
{
    let q = n / d;
    let r = n % d;
    if 2 * r > d || (2 * r == d && q % 2 == 1) {
        q + 1
    } else {
        q
    }
}

/// The digits of `n` with a decimal point before the last `p` of them.
pub open spec fn fixed_point(n: nat, p: nat) -> Seq<char> {
    let d = decimal(n);
    let k: int = if d.len() >= p {
        d.len() - p
    } else {
        0
    };
    if p == 0 {
        d
    } else {
        d.take(k) + seq!['.'] + d.skip(k)
    }
}

/// A readable size: bytes below 1 KB, otherwise three significant figures of KB, MB, GB or
/// TB (two decimals below 10, one below 100, none above), as `{:.N}` rounds an `f64`.
pub open spec fn size_label(bytes: nat) -> Seq<char> {
    if bytes < 1024 {
        decimal(bytes) + " B"@
    } else {
        let f = as_f64(bytes);
        let unit = size_unit(f);
        let den = unit_bytes(unit);
        let p: nat = if f >= 100 * den {
            0
        } else if f >= 10 * den {
            1
        } else {
            2
        };
        fixed_point(round_half_even(f * ten_pow(p), den), p) + " "@ + unit_name(unit)
    }
}

} // verus!

verus! {

/// Appends the decimal text of `n`.
pub fn push_decimal_wide(dst: &mut Vec<char>, n: u128)
    ensures
        final(dst)@ == old(dst)@ + decimal(n as nat),
    decreases n,
{
    if n < 10 {
        dst.push(digit(n as u64));
    } else {
        push_decimal_wide(dst, n / 10);
        dst.push(digit((n % 10) as u64));
    }
}

fn to_f64_value(b: u64) -> (f: u128)
    ensures
        f as nat == as_f64(b as nat),
        f <= b as u128 + 4096,
{
    let wide = b as u128;
    let mut u: u128 = 1;
    assert(f64_step(b as nat, 1) == f64_step(b as nat, u as nat));
    while u <= wide && wide >= 9007199254740992 * u
        invariant
            1 <= u <= 4096,
            wide == b as u128,
            f64_step(b as nat, 1) == f64_step(b as nat, u as nat),
        decreases wide - u,
    {
        u = u * 2;
    }
    let q = wide / u;
    let r = wide % u;
    let up = 2 * r > u || (2 * r == u && q % 2 == 1);
    let q2 = if up { q + 1 } else { q };
    assert(q2 * u <= (q + 1) * u) by (nonlinear_arith)
        requires q2 <= q + 1;
    assert((q + 1) * u == q * u + u) by (nonlinear_arith);
    assert(q * u <= wide) by (nonlinear_arith)
        requires q == wide / u, u > 0;
    assert(q2 * u <= wide + 4096);
    q2 * u
}

fn scaled_round(f: u128, scale: u128, den: u128) -> (n: u128)
    requires
        f <= 18446744073709551616 + 4096,
        scale <= 100,
        0 < den <= 1099511627776,
    ensures
        n as nat == round_half_even((f * scale) as nat, den as nat),
{
    assert(f * scale <= (18446744073709551616 + 4096) * 100) by (nonlinear_arith)
        requires f <= 18446744073709551616 + 4096, scale <= 100;
    let num = f * scale;
    let q = num / den;
    let r = num % den;
    assert(q <= num) by (nonlinear_arith)
        requires q == num / den, den > 0;
    if 2 * r > den || (2 * r == den && q % 2 == 1) {
        q + 1
    } else {
        q
    }
}

/// Appends `fixed_point(n, p)`.
fn push_fixed(out: &mut Vec<char>, n: u128, p: usize)
    ensures
        final(out)@ == old(out)@ + fixed_point(n as nat, p as nat),
{
    let mut digits: Vec<char> = Vec::new();
    push_decimal_wide(&mut digits, n);
    assert(digits@ =~= decimal(n as nat));
    if p == 0 {
        push_all(out, &digits);
        return;
    }
    let ghost start = out@;
    let k: usize = if digits.len() >= p { digits.len() - p } else { 0 };
    let mut i: usize = 0;
    while i < k
        invariant
            i <= k <= digits@.len(),
            out@ == start + digits@.take(i as int),
        decreases k - i,
    {
        out.push(digits[i]);
        i = i + 1;
        assert(out@ =~= start + digits@.take(i as int));
    }
    out.push('.');
    let mut j: usize = k;
    let ghost head = out@;
    while j < digits.len()
        invariant
            k <= j <= digits@.len(),
            out@ == head + digits@.subrange(k as int, j as int),
        decreases digits.len() - j,
    {
        out.push(digits[j]);
        j = j + 1;
        assert(out@ =~= head + digits@.subrange(k as int, j as int));
    }
    assert(digits@.subrange(k as int, digits@.len() as int) =~= digits@.skip(k as int));
    assert(out@ =~= start + fixed_point(n as nat, p as nat));
}

/// A readable size such as `512 B`, `711 KB` or `14.3 MB`.
pub fn format_size(bytes: u64) -> (s: String)
    ensures
        s@ == size_label(bytes as nat),
{
    let mut out: Vec<char> = Vec::new();
    if bytes < 1024 {
        push_decimal(&mut out, bytes);
        push_str(&mut out, " B");
        return string_of(&out);
    }
    let f = to_f64_value(bytes);
    let unit: u64 = if f < 1048576 {
        0
    } else if f < 1073741824 {
        1
    } else if f < 1099511627776 {
        2
    } else {
        3
    };
    let den: u128 = if unit == 0 {
        1024
    } else if unit == 1 {
        1048576
    } else if unit == 2 {
        1073741824
    } else {
        1099511627776
    };
    let p: usize = if f >= 100 * den {
        0
    } else if f >= 10 * den {
        1
    } else {
        2
    };
    let scale: u128 = if p == 0 {
        1
    } else if p == 1 {
        10
    } else {
        100
    };
    let n = scaled_round(f, scale, den);
    push_fixed(&mut out, n, p);
    push_str(&mut out, " ");
    let name = if unit == 0 {
        "KB"
    } else if unit == 1 {
        "MB"
    } else if unit == 2 {
        "GB"
    } else {
        "TB"
    };
    push_str(&mut out, name);
    string_of(&out)
}

} // verus!
