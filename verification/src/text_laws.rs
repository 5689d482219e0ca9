//! Laws of written numbers: they read back as what was written.

use vstd::prelude::*;

use crate::text::{decimal, decimal_bytes, digit_char, hex_digits};

verus! {

/// What the digit character `c` counts.
pub open spec fn digit_value(c: char) -> int {
    let n = c as u32;
    if 0x30 <= n <= 0x39 {
        n - 0x30
    } else if 0x61 <= n <= 0x66 {
        n - 0x61 + 10
    } else {
        n - 0x41 + 10
    }
}

/// The number that the digits of `t` make up in base `base`, most
/// significant first.
pub open spec fn number_in(t: Seq<char>, base: int) -> int
    decreases t.len(),
{
    if t.len() == 0 {
        0
    } else {
        number_in(t.drop_last(), base) * base + digit_value(t.last())
    }
}

/// The same for ASCII bytes in base ten.
pub open spec fn number_in_bytes(t: Seq<u8>) -> int
    decreases t.len(),
{
    if t.len() == 0 {
        0
    } else {
        number_in_bytes(t.drop_last()) * 10 + (t.last() - 0x30)
    }
}

pub open spec fn is_decimal_digit(c: char) -> bool {
    0x30 <= c as u32 <= 0x39
}

proof fn lemma_digit(d: int)
    requires
        0 <= d < 16,
    ensures
        digit_value(digit_char(d)) == d,
        d < 10 ==> is_decimal_digit(digit_char(d)),
        digit_char(d) as u32 == if d < 10 {
            0x30 + d
        } else {
            0x57 + d
        },
{
}

/// Decimal notation: digits only, no needless zero in front, and read in
/// base ten it is the number again.
pub proof fn law_decimal_reads_back(n: nat)
    ensures
        decimal(n).len() > 0,
        forall|i: int| 0 <= i < decimal(n).len() ==> is_decimal_digit(#[trigger] decimal(n)[i]),
        number_in(decimal(n), 10) == n,
        decimal(n)[0] == '0' ==> n == 0 && decimal(n).len() == 1,
    decreases n,
{
    lemma_digit((n % 10) as int);
    if n < 10 {
        assert(decimal(n).drop_last() =~= Seq::empty());
        assert(number_in(decimal(n).drop_last(), 10) == 0);
    } else {
        law_decimal_reads_back(n / 10);
        assert(decimal(n).drop_last() =~= decimal(n / 10));
        assert(decimal(n)[0] == decimal(n / 10)[0]);
        assert forall|i: int| 0 <= i < decimal(n).len() implies is_decimal_digit(#[trigger] decimal(n)[i]) by {
            if i < decimal(n / 10).len() {
                assert(decimal(n)[i] == decimal(n / 10)[i]);
            }
        }
    }
}

/// The same for decimal notation in bytes.
pub proof fn law_decimal_bytes_read_back(n: nat)
    ensures
        decimal_bytes(n).len() > 0,
        forall|i: int| 0 <= i < decimal_bytes(n).len() ==> 0x30 <= (#[trigger] decimal_bytes(n)[i]) <= 0x39,
        number_in_bytes(decimal_bytes(n)) == n,
        decimal_bytes(n)[0] == 0x30 ==> n == 0 && decimal_bytes(n).len() == 1,
    decreases n,
{
    if n < 10 {
        assert(decimal_bytes(n).drop_last() =~= Seq::empty());
        assert(number_in_bytes(decimal_bytes(n).drop_last()) == 0);
    } else {
        law_decimal_bytes_read_back(n / 10);
        assert(decimal_bytes(n).drop_last() =~= decimal_bytes(n / 10));
        assert(decimal_bytes(n)[0] == decimal_bytes(n / 10)[0]);
        assert forall|i: int| 0 <= i < decimal_bytes(n).len() implies 0x30 <= (
        #[trigger] decimal_bytes(n)[i]) <= 0x39 by {
            if i < decimal_bytes(n / 10).len() {
                assert(decimal_bytes(n)[i] == decimal_bytes(n / 10)[i]);
            }
        }
    }
}

/// Hexadecimal notation: exactly `width` digits, and of a number that
/// fits into them it reads back as that number.
pub proof fn law_hex_reads_back(n: nat, width: nat)
    ensures
        hex_digits(n, width).len() == width,
        n < pow16(width) ==> number_in(hex_digits(n, width), 16) == n,
        forall|i: int|
            0 <= i < width ==> 0x30 <= (#[trigger] hex_digits(n, width)[i]) as u32 <= 0x39 || 0x61 <= hex_digits(
                n,
                width,
            )[i] as u32 <= 0x66,
    decreases width,
{
    if width > 0 {
        let w = (width - 1) as nat;
        law_hex_reads_back(n / 16, w);
        lemma_digit((n % 16) as int);
        assert(hex_digits(n, width).drop_last() =~= hex_digits(n / 16, w));
        assert(n < 16 * pow16(w) ==> n / 16 < pow16(w)) by (nonlinear_arith);
        assert forall|i: int| 0 <= i < width implies 0x30 <= (#[trigger] hex_digits(n, width)[i]) as u32 <= 0x39
            || 0x61 <= hex_digits(n, width)[i] as u32 <= 0x66 by {
            if i < w {
                assert(hex_digits(n, width)[i] == hex_digits(n / 16, w)[i]);
            }
        }
    }
}

/// Sixteen to the `width`.
pub open spec fn pow16(width: nat) -> nat
    decreases width,
{
    if width == 0 {
        1
    } else {
        16 * pow16((width - 1) as nat)
    }
}

} // verus!
