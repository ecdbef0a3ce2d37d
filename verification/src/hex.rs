//! Hexadecimal numbers in bytes.

use vstd::prelude::*;
use crate::bytes::is_digit;

verus! {

/// The value of a hexadecimal digit.
#[verifier::allow_in_spec]
pub fn hex_digit_value(b: u8) -> u8
    returns
        if is_digit(b) {
            (b - '0' as u8) as u8
        } else if 'a' as u8 <= b <= 'f' as u8 {
            (b - 'a' as u8 + 10) as u8
        } else if 'A' as u8 <= b <= 'F' as u8 {
            (b - 'A' as u8 + 10) as u8
        } else {
            0
        },
{
    if is_digit(b) {
        b - '0' as u8
    } else if 'a' as u8 <= b && b <= 'f' as u8 {
        b - 'a' as u8 + 10
    } else if 'A' as u8 <= b && b <= 'F' as u8 {
        b - 'A' as u8 + 10
    } else {
        0
    }
}

/// The number that hexadecimal digits stand for.
pub open spec fn hexadecimal(digits: Seq<u8>) -> nat
    decreases digits.len(),
{
    if digits.len() == 0 {
        0
    } else {
        hexadecimal(digits.drop_last()) * 16 + hex_digit_value(digits.last()) as nat
    }
}

/// Sixteen to the power of `n`.
pub open spec fn sixteen_to(n: nat) -> nat
    decreases n,
{
    if n == 0 {
        1
    } else {
        16 * sixteen_to((n - 1) as nat)
    }
}

/// How large a number of so many hexadecimal digits is.
pub proof fn lemma_hexadecimal_below(digits: Seq<u8>)
    ensures
        hexadecimal(digits) < sixteen_to(digits.len()),
    decreases digits.len(),
{
    if digits.len() > 0 {
        lemma_hexadecimal_below(digits.drop_last());
    }
}

/// Sixteen digits make a number of at most sixty-four bits.
pub proof fn lemma_sixteen_digits_fit(n: nat)
    requires
        n <= 16,
    ensures
        sixteen_to(n) <= 0x1_0000_0000_0000_0000,
        n < 16 ==> sixteen_to(n) <= 0x1000_0000_0000_0000,
    decreases 16 - n,
{
    assert(sixteen_to(16) == 0x1_0000_0000_0000_0000) by {
        reveal_with_fuel(sixteen_to, 17);
    }
    if n < 16 {
        lemma_sixteen_digits_fit(n + 1);
        assert(sixteen_to(n + 1) == 16 * sixteen_to(n));
    }
}

/// The number that up to sixteen hexadecimal digits stand for.
pub fn parse_hexadecimal(digits: &[u8]) -> (value: u64)
    requires
        digits@.len() <= 16,
    ensures
        value == hexadecimal(digits@),
{
    let mut value: u64 = 0;
    let mut i: usize = 0;
    while i < digits.len()
        invariant
            i <= digits@.len() <= 16,
            value == hexadecimal(digits@.take(i as int)),
        decreases digits@.len() - i,
    {
        proof {
            lemma_next_digit(digits@, i as int);
        }
        value = value * 16 + hex_digit_value(digits[i]) as u64;
        i += 1;
    }
    assert(digits@.take(i as int) =~= digits@);
    value
}

/// The number that one more digit makes, which fits.
pub proof fn lemma_next_digit(digits: Seq<u8>, i: int)
    requires
        0 <= i < digits.len() <= 16,
    ensures
        hexadecimal(digits.take(i + 1)) == hexadecimal(digits.take(i)) * 16 + hex_digit_value(
            digits[i],
        ),
        hexadecimal(digits.take(i)) < 0x1000_0000_0000_0000,
{
    assert(digits.take(i + 1).drop_last() =~= digits.take(i));
    lemma_hexadecimal_below(digits.take(i));
    lemma_sixteen_digits_fit(i as nat);
}

} // verus!
