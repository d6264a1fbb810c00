//! Sizes for people to read.

use vstd::prelude::*;
use vstd::string::*;

use crate::text::{decimal, decimal_int, push_decimal, push_decimal_int};

verus! {

/// The smallest number with 54 bits: from here on, numbers are rounded to
/// 53 of them.
pub const PRECISE: u64 = 9_007_199_254_740_992;

/// The distance between the numbers that stay as they are near `n`.
pub open spec fn spacing(n: nat) -> nat
    decreases n,
{
    if n < PRECISE {
        1
    } else {
        2 * spacing(n / 2)
    }
}

/// `a / b`, rounded to the nearest number; halves go to the even one.
pub open spec fn rounded_quotient(a: nat, b: nat) -> nat {
    let q = a / b;
    let r = a % b;
    if 2 * r > b || (2 * r == b && q % 2 == 1) {
        q + 1
    } else {
        q
    }
}

/// `n` rounded to 53 bits.
pub open spec fn rounded(n: nat) -> nat {
    rounded_quotient(n, spacing(n)) * spacing(n)
}

/// The unit for `m` bytes, counted from kibibytes on: the largest that fits,
/// up to tebibytes.
pub open spec fn unit_of(m: nat) -> nat {
    if m < 1_048_576 {
        1
    } else if m < 1_073_741_824 {
        2
    } else if m < 1_099_511_627_776 {
        3
    } else {
        4
    }
}

/// How many bytes a unit holds.
pub open spec fn unit_bytes(u: nat) -> nat {
    if u == 1 {
        1024
    } else if u == 2 {
        1_048_576
    } else if u == 3 {
        1_073_741_824
    } else {
        1_099_511_627_776
    }
}

/// The name of a unit.
pub open spec fn unit_name(u: nat) -> Seq<char> {
    if u == 1 {
        " KiB"@
    } else if u == 2 {
        " MiB"@
    } else if u == 3 {
        " GiB"@
    } else {
        " TiB"@
    }
}

/// A size in words: bytes as they are, larger units to one decimal.
pub open spec fn size_text(n: int) -> Seq<char> {
    if n < 1024 {
        decimal_int(n) + " B"@
    } else {
        let m = rounded(n as nat);
        let u = unit_of(m);
        let tenths = rounded_quotient(10 * m, unit_bytes(u));
        decimal(tenths / 10) + seq!['.'] + decimal(tenths % 10) + unit_name(u)
    }
}

fn divide(a: u128, b: u128) -> (q: u128)
    requires
        0 < b <= 0x1_0000_0000_0000_0000,
        a <= 0x10_0000_0000_0000_0000,
    ensures
        q == rounded_quotient(a as nat, b as nat),
        q <= a / b + 1,
{
    let q: u128 = a / b;
    let r: u128 = a % b;
    assert(q <= a) by (nonlinear_arith)
        requires
            q == a / b,
            b >= 1,
    ;
    if 2 * r > b || (2 * r == b && q % 2 == 1) {
        q + 1
    } else {
        q
    }
}

/// The distance between the numbers that stay as they are near `n`.
fn find_spacing(n: u64) -> (s: u64)
    ensures
        s == spacing(n as nat),
        s == 1 || s * 4_503_599_627_370_496 <= n,
        s >= 1,
    decreases n,
{
    if n < PRECISE {
        1
    } else {
        2 * find_spacing(n / 2)
    }
}

/// Rounds to 53 bits.
fn round_to_precise(n: u64) -> (m: u128)
    ensures
        m == rounded(n as nat),
        m <= n + 4096,
{
    let s: u64 = find_spacing(n);
    let q: u128 = divide(n as u128, s as u128);
    proof {
        let a = n as int;
        let b = s as int;
        let c = q as int;
        assert(c * b <= a + b) by (nonlinear_arith)
            requires
                c <= a / b + 1,
                b >= 1,
                a >= 0,
        ;
        assert(c * b >= 0) by (nonlinear_arith)
            requires
                c >= 0,
                b >= 1,
        ;
    }
    q * s as u128
}

/// A size in words.
pub fn human_size(n: i64) -> (text: String)
    ensures
        text@ == size_text(n as int),
{
    let mut text = String::new();
    if n < 1024 {
        push_decimal_int(&mut text, n);
        text.append(" B");
        assert(text@ =~= size_text(n as int));
        return text;
    }
    let m: u128 = round_to_precise(n as u64);
    let (unit, name): (u128, &str) = if m < 1_048_576 {
        (1024, " KiB")
    } else if m < 1_073_741_824 {
        (1_048_576, " MiB")
    } else if m < 1_099_511_627_776 {
        (1_073_741_824, " GiB")
    } else {
        (1_099_511_627_776, " TiB")
    };
    let tenths: u128 = divide(10 * m, unit);
    assert(10 * m / unit as int <= 10 * m) by (nonlinear_arith)
        requires
            unit >= 1,
            m >= 0,
    ;
    push_decimal(&mut text, (tenths / 10) as u64);
    text.push('.');
    push_decimal(&mut text, (tenths % 10) as u64);
    text.append(name);
    assert(text@ =~= size_text(n as int));
    text
}

/// Rounding goes to a nearest number.
pub proof fn law_rounding_is_nearest(a: nat, b: nat)
    requires
        b > 0,
    ensures
        2 * (rounded_quotient(a, b) * b - a) <= b,
        2 * (a - rounded_quotient(a, b) * b) <= b,
{
    let q = a / b;
    let r = a % b;
    assert(q * b + r == a) by (nonlinear_arith)
        requires
            q == a / b,
            r == a % b,
            b > 0,
    ;
    assert((q + 1) * b == q * b + b) by (nonlinear_arith);
}

/// Sizes below eight pebibytes are not rounded before they are shown.
pub proof fn law_sizes_are_precise(n: nat)
    requires
        n < PRECISE,
    ensures
        rounded(n) == n,
{
    assert(spacing(n) == 1);
    assert(n / 1 == n && n % 1 == 0);
    assert(rounded_quotient(n, 1) == n);
}

/// `unit` is the number of bytes in which a size of `n` bytes is told, and
/// `name` its name: the largest of the four that is not larger than the
/// size.
pub open spec fn is_unit_for(n: nat, unit: nat, name: Seq<char>) -> bool {
    ||| unit == 1024 && name == "KiB"@ && n < 1024 * 1024
    ||| unit == 1024 * 1024 && name == "MiB"@ && 1024 * 1024 <= n < 1024 * 1024 * 1024
    ||| unit == 1024 * 1024 * 1024 && name == "GiB"@ && 1024 * 1024 * 1024 <= n < 1024 * 1024 * 1024 * 1024
    ||| unit == 1024 * 1024 * 1024 * 1024 && name == "TiB"@ && 1024 * 1024 * 1024 * 1024 <= n
}

proof fn lemma_nearest(a: nat, b: nat, t: nat)
    requires
        b > 0,
        b % 2 == 0,
        2 * (t * b - a) <= b && 2 * (a - t * b) <= b,
        2 * (t * b - a) == b || 2 * (a - t * b) == b ==> t % 2 == 0,
    ensures
        rounded_quotient(a, b) == t,
{
    let q = a / b;
    let r = a % b;
    assert(q * b + r == a && 0 <= r < b) by (nonlinear_arith)
        requires
            q == a / b,
            r == a % b,
            b > 0,
    ;
    assert((q + 1) * b == q * b + b) by (nonlinear_arith);
    if t < q {
        assert(t * b + b <= q * b) by (nonlinear_arith)
            requires
                t + 1 <= q,
                b > 0,
        ;
    }
    if t > q + 1 {
        assert(t * b >= q * b + 2 * b) by (nonlinear_arith)
            requires
                t >= q + 2,
                b > 0,
        ;
    }
}

/// A size of less than 1024 bytes is told in bytes. A larger one is told in
/// the largest unit that fits into it, to the nearest tenth of it; where two
/// tenths are as near, to the even one.
pub proof fn law_size_in_words(n: nat, unit: nat, name: Seq<char>, tenths: nat)
    requires
        1024 <= n < PRECISE,
        is_unit_for(n, unit, name),
        2 * (tenths * unit - 10 * n) <= unit && 2 * (10 * n - tenths * unit) <= unit,
        2 * (tenths * unit - 10 * n) == unit || 2 * (10 * n - tenths * unit) == unit ==> tenths % 2 == 0,
    ensures
        size_text(n as int) == decimal(tenths / 10) + seq!['.'] + decimal(tenths % 10) + seq![' '] + name,
{
    law_sizes_are_precise(n);
    reveal_strlit(" KiB");
    reveal_strlit(" MiB");
    reveal_strlit(" GiB");
    reveal_strlit(" TiB");
    reveal_strlit("KiB");
    reveal_strlit("MiB");
    reveal_strlit("GiB");
    reveal_strlit("TiB");
    let u = unit_of(n);
    assert(unit_bytes(u) == unit);
    assert(unit_name(u) =~= seq![' '] + name);
    lemma_nearest(10 * n, unit, tenths);
    assert(size_text(n as int) =~= decimal(tenths / 10) + seq!['.'] + decimal(tenths % 10) + seq![' '] + name);
}

/// A size below 1024 is told as it is.
pub proof fn law_size_in_bytes(n: int)
    requires
        n < 1024,
    ensures
        size_text(n) == decimal_int(n) + seq![' ', 'B'],
{
    reveal_strlit(" B");
    assert(" B"@ =~= seq![' ', 'B']);
}

/// Beyond 53 bits a size is rounded to what 53 bits can hold: to a multiple
/// of the spacing there, which goes into the size from 2^52 times to less
/// than 2^53 times. It changes by half of the spacing at most.
pub proof fn law_spacing(n: nat)
    requires
        n >= PRECISE,
    ensures
        spacing(n) * 0x10_0000_0000_0000 <= n < spacing(n) * 0x20_0000_0000_0000,
        2 * (rounded(n) - n) <= spacing(n) && 2 * (n - rounded(n)) <= spacing(n),
{
    lemma_spacing(n);
    law_rounding_is_nearest(n, spacing(n));
}

proof fn lemma_spacing(n: nat)
    requires
        n >= PRECISE,
    ensures
        spacing(n) * 0x10_0000_0000_0000 <= n < spacing(n) * 0x20_0000_0000_0000,
        spacing(n) > 0,
    decreases n,
{
    if n / 2 >= PRECISE {
        lemma_spacing(n / 2);
    } else {
        assert(spacing(n / 2) == 1);
    }
}

} // verus!
