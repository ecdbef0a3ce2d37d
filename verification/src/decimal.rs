//! Decimal numbers in bytes.

use vstd::prelude::*;
use crate::bytes::{ByteClass, all_in, is_digit};

verus! {

/// The number that decimal digits stand for.
pub open spec fn decimal(digits: Seq<u8>) -> nat
    decreases digits.len(),
{
    if digits.len() == 0 {
        0
    } else {
        decimal(digits.drop_last()) * 10 + (digits.last() - '0' as u8) as nat
    }
}

/// Whether a byte string is a decimal number no greater than `max`.
pub open spec fn is_decimal(digits: Seq<u8>, max: nat) -> bool {
    digits.len() > 0 && all_in(digits, ByteClass::Digit) && decimal(digits) <= max
}

/// More digits make a number no smaller.
pub proof fn lemma_decimal_grows(digits: Seq<u8>, n: int)
    requires
        0 <= n <= digits.len(),
        all_in(digits, ByteClass::Digit),
    ensures
        decimal(digits.take(n)) <= decimal(digits),
    decreases digits.len() - n,
{
    if n < digits.len() {
        lemma_decimal_grows(digits, n + 1);
        assert(digits.take(n + 1).drop_last() =~= digits.take(n));
        assert(ByteClass::Digit.has(digits[n]));
    } else {
        assert(digits.take(n) =~= digits);
    }
}

/// The number that decimal digits stand for, where there is at least one, all are digits, and
/// the number fits.
pub fn parse_decimal(digits: &[u8]) -> (value: Option<u64>)
    ensures
        match value {
            Some(v) => is_decimal(digits@, u64::MAX as nat) && v == decimal(digits@),
            None => !is_decimal(digits@, u64::MAX as nat),
        },
{
    if digits.len() == 0 {
        return None;
    }
    let mut value: u64 = 0;
    let mut i: usize = 0;
    assert(digits@.take(0) =~= Seq::<u8>::empty());
    while i < digits.len()
        invariant
            i <= digits@.len(),
            forall|j: int| 0 <= j < i ==> ByteClass::Digit.has(#[trigger] digits@[j]),
            value == decimal(digits@.take(i as int)),
        decreases digits@.len() - i,
    {
        let byte: u8 = digits[i];
        if !is_digit(byte) {
            assert(!ByteClass::Digit.has(digits@[i as int]));
            return None;
        }
        assert(digits@.take(i + 1).drop_last() =~= digits@.take(i as int));
        let shifted: u64 = match value.checked_mul(10) {
            Some(shifted) => shifted,
            None => {
                proof {
                    if all_in(digits@, ByteClass::Digit) {
                        lemma_decimal_grows(digits@, i + 1);
                    }
                }
                return None;
            },
        };
        value = match shifted.checked_add((byte - '0' as u8) as u64) {
            Some(sum) => sum,
            None => {
                proof {
                    if all_in(digits@, ByteClass::Digit) {
                        lemma_decimal_grows(digits@, i + 1);
                    }
                }
                return None;
            },
        };
        i += 1;
    }
    assert(digits@.take(i as int) =~= digits@);
    Some(value)
}

/// The decimal digits of a number, without a superfluous leading zero.
pub open spec fn digits_of(n: nat) -> Seq<u8>
    decreases n,
{
    if n < 10 {
        seq![('0' as u8 + n) as u8]
    } else {
        digits_of(n / 10).push(('0' as u8 + n % 10) as u8)
    }
}

/// The digits of a number stand for it, and are digits.
pub proof fn lemma_digits_of(n: nat)
    ensures
        decimal(digits_of(n)) == n,
        digits_of(n).len() > 0,
        all_in(digits_of(n), ByteClass::Digit),
    decreases n,
{
    if n < 10 {
        let digits = digits_of(n);
        assert(digits.drop_last() =~= Seq::<u8>::empty());
        assert(decimal(Seq::<u8>::empty()) == 0);
    } else {
        lemma_digits_of(n / 10);
        let digits = digits_of(n);
        assert(digits.drop_last() =~= digits_of(n / 10));
        assert forall|i: int| 0 <= i < digits.len() implies ByteClass::Digit.has(
            #[trigger] digits[i],
        ) by {
            if i < digits.len() - 1 {
                assert(ByteClass::Digit.has(digits_of(n / 10)[i]));
            }
        }
    }
}

/// The decimal digits of a number.
pub fn render_decimal(value: u64) -> (digits: Vec<u8>)
    ensures
        digits@ == digits_of(value as nat),
    decreases value,
{
    if value < 10 {
        let mut digits: Vec<u8> = Vec::new();
        digits.push('0' as u8 + value as u8);
        assert(digits@ =~= digits_of(value as nat));
        digits
    } else {
        let mut digits: Vec<u8> = render_decimal(value / 10);
        digits.push('0' as u8 + (value % 10) as u8);
        digits
    }
}

/// A number as a machine size, or the greatest size where it is too large for one.
pub open spec fn clamped(value: int) -> int {
    if value <= usize::MAX {
        value
    } else {
        usize::MAX as int
    }
}

pub fn clamp_to_usize(value: u64) -> (size: usize)
    ensures
        size == clamped(value as int),
{
    if value <= usize::MAX as u64 {
        value as usize
    } else {
        usize::MAX
    }
}

} // verus!
