//! Sizes for people to read.

use vstd::prelude::*;

use crate::text::{decimal_text, digit_text};

verus! {

/// How many bytes a KiB is.
pub const KIB: u64 = 0x400;

/// How many bytes a MiB is.
pub const MIB: u64 = 0x10_0000;

/// How many bytes a GiB is.
pub const GIB: u64 = 0x4000_0000;

/// `n` divided by `d`, to the nearest whole number, and to the even one of two that are as near.
pub open spec fn nearest(n: nat, d: nat) -> nat {
    let q = n / d;
    let r = n % d;
    if 2 * r > d || (2 * r == d && q % 2 == 1) {
        q + 1
    } else {
        q
    }
}

/// How far apart the numbers with 53 significant bits are in the neighbourhood of `n`.
pub open spec fn spacing(n: nat) -> nat
    decreases n,
{
    if n < 0x20_0000_0000_0000 {
        1
    } else {
        2 * spacing(n / 2)
    }
}

/// The number with 53 significant bits that is nearest to `n`, the one whose last bit is 0 of two
/// that are as near.
pub open spec fn double(n: nat) -> nat {
    nearest(n, spacing(n)) * spacing(n)
}

/// How many bytes the unit is that `bytes` are given in.
pub open spec fn unit(bytes: nat) -> nat {
    if bytes >= GIB {
        GIB as nat
    } else if bytes >= MIB {
        MIB as nat
    } else if bytes >= KIB {
        KIB as nat
    } else {
        1
    }
}

/// What the unit is called that `bytes` are given in.
pub open spec fn unit_name(bytes: nat) -> Seq<char> {
    if bytes >= GIB {
        "GiB"@
    } else if bytes >= MIB {
        "MiB"@
    } else if bytes >= KIB {
        "KiB"@
    } else {
        "bytes"@
    }
}

/// A number of hundredths as text: whole part, point, and two digits.
pub open spec fn hundredths_text(n: nat) -> Seq<char> {
    crate::text::decimal(n / 100) + "."@ + seq![crate::text::digit_char(n / 10 % 10)] + seq![
        crate::text::digit_char(n % 10),
    ]
}

/// The size `bytes` in the largest unit of which it is at least one, to two decimals. Of a size of
/// 2 to the 53rd bytes or more, the 53 leading bits count.
pub open spec fn human(bytes: nat) -> Seq<char> {
    hundredths_text(nearest(double(bytes) * 100, unit(bytes))) + " "@ + unit_name(bytes)
}

/// `n` divided by `d`, to the nearest whole number, and to the even one of two that are as near.
fn divide_to_nearest(n: u128, d: u128) -> (q: u128)
    requires
        0 < d <= 0x1_0000_0000,
    ensures
        q == nearest(n as nat, d as nat),
{
    let q: u128 = n / d;
    let r: u128 = n % d;
    if 2 * r > d || (2 * r == d && q % 2 == 1) {
        proof {
            assert(q < u128::MAX) by (nonlinear_arith)
                requires
                    q == n / d,
                    r == n % d,
                    0 < d,
                    2 * r >= d,
                    r < d,
                    n <= u128::MAX,
            {
                assert(n == d * q + r);
                assert(d * q >= q);
            }
        }
        q + 1
    } else {
        q
    }
}

/// A whole number is nearest to itself.
proof fn lemma_nearest_one(n: nat)
    ensures
        nearest(n, 1) == n,
{
    assert(n / 1 == n);
    assert(n % 1 == 0);
}

/// How far apart the numbers with 53 significant bits are in the neighbourhood of `n`.
fn find_spacing(n: u64) -> (s: u64)
    ensures
        s == spacing(n as nat),
        0 < s < 0x1000,
    decreases n,
{
    if n < 0x20_0000_0000_0000 {
        1
    } else {
        let half = find_spacing(n / 2);
        proof {
            lemma_spacing(n as nat);
        }
        2 * half
    }
}

/// The spacing is in proportion to the number.
proof fn lemma_spacing(n: nat)
    ensures
        spacing(n) > 0,
        n >= 0x20_0000_0000_0000 ==> spacing(n) * 0x10_0000_0000_0000 <= n,
    decreases n,
{
    if n >= 0x20_0000_0000_0000 {
        lemma_spacing(n / 2);
    }
}

/// The size `bytes` for people to read.
pub fn human_bytes(bytes: u64) -> (text: String)
    ensures
        text@ == human(bytes as nat),
{
    let gap: u128 = find_spacing(bytes) as u128;
    let steps: u128 = divide_to_nearest(bytes as u128, gap);
    proof {
        let whole = bytes as u128;
        assert(steps * gap <= 0x1_0000_0000_0000_1000) by (nonlinear_arith)
            requires
                steps <= whole / gap + 1,
                0 < gap < 0x1000,
                whole <= 0xffff_ffff_ffff_ffff,
        ;
    }
    let near: u128 = steps * gap;
    let (unit, name): (u64, &str) = if bytes >= GIB {
        (GIB, "GiB")
    } else if bytes >= MIB {
        (MIB, "MiB")
    } else if bytes >= KIB {
        (KIB, "KiB")
    } else {
        (1, "bytes")
    };
    let n: u128 = divide_to_nearest(near * 100, unit as u128);
    proof {
        if bytes < GIB {
            assert(gap == 1);
            lemma_nearest_one(bytes as nat);
            assert(near == bytes) by (nonlinear_arith)
                requires
                    near == steps * gap,
                    gap == 1,
                    steps == bytes,
            ;
        }
        assert(unit == 1 || unit == KIB || unit == MIB || unit == GIB);
        assert(n / 100 <= u64::MAX);
    }
    let mut text = decimal_text((n / 100) as u64);
    text.append(".");
    text.append(digit_text((n / 10 % 10) as u64));
    text.append(digit_text((n % 10) as u64));
    text.append(" ");
    text.append(name);
    text
}

} // verus!
