//! Bytes and texts: which bytes a word may hold, and how texts are lowered, split and trimmed.

use vstd::prelude::*;
use crate::bytes::{
    ByteClass, first_in, is_field_byte, is_ows, is_token, is_trimmed_range, lemma_first_in,
    lemma_first_in_unique, lemma_trimmed, lemma_trimmed_ends, lowered, precedes, precedes_at,
    split, trimmed,
};
use crate::decimal::{decimal, digits_of, lemma_digits_of};
use crate::hex::hexadecimal;

verus! {

/// A token is made of the visible bytes without the delimiters `"(),/:;<=>?@[\]{}`.
pub proof fn lemma_token_bytes(b: u8)
    ensures
        ByteClass::Token.has(b) == is_token(b),
        is_token(b) <==> 0x21 <= b <= 0x7e && b != 0x22 && b != 0x28 && b != 0x29 && b != 0x2c && b
            != 0x2f && b != 0x3a && b != 0x3b && b != 0x3c && b != 0x3d && b != 0x3e && b != 0x3f
            && b != 0x40 && b != 0x5b && b != 0x5c && b != 0x5d && b != 0x7b && b != 0x7d,
{
}

/// A field value is made of everything but the control bytes, of which it may hold the tab.
pub proof fn lemma_value_bytes(b: u8)
    ensures
        ByteClass::Field.has(b) == is_field_byte(b),
        is_field_byte(b) <==> b == 0x09 || 0x20 <= b <= 0x7e || 0x80 <= b,
        is_ows(b) <==> b == 0x20 || b == 0x09,
        ByteClass::Ows.has(b) == is_ows(b),
{
}

/// The classes of bytes, as ranges.
pub proof fn lemma_class_bytes(b: u8)
    ensures
        ByteClass::Digit.has(b) <==> 0x30 <= b <= 0x39,
        ByteClass::Lower.has(b) <==> 0x61 <= b <= 0x7a,
        ByteClass::Upper.has(b) <==> 0x41 <= b <= 0x5a,
        ByteClass::Alnum.has(b) <==> 0x30 <= b <= 0x39 || 0x41 <= b <= 0x5a || 0x61 <= b <= 0x7a,
        ByteClass::Hex.has(b) <==> 0x30 <= b <= 0x39 || 0x41 <= b <= 0x46 || 0x61 <= b <= 0x66,
        ByteClass::Visible.has(b) <==> 0x20 < b < 0x7f,
        ByteClass::Printable.has(b) <==> 0x20 <= b < 0x7f,
        ByteClass::Control.has(b) <==> b < 0x20 || b == 0x7f,
        ByteClass::LineBreak.has(b) <==> b == 0x0d || b == 0x0a,
        ByteClass::Ascii.has(b) <==> b <= 0x7f,
        ByteClass::Label.has(b) <==> b == 0x2d || 0x30 <= b <= 0x39 || 0x41 <= b <= 0x5a || 0x61
            <= b <= 0x7a,
        ByteClass::Authority.has(b) <==> 0x2d <= b <= 0x2e || 0x30 <= b <= 0x3a || 0x41 <= b
            <= 0x5b || b == 0x5d || 0x61 <= b <= 0x7a,
        forall|x: u8| ByteClass::Only(x).has(b) <==> b == x,
{
}

/// Lowering a text changes its ASCII capitals, each to the letter 32 places up, and no other
/// byte.
pub proof fn lemma_lowered_bytes(s: Seq<u8>)
    ensures
        lowered(s).len() == s.len(),
        forall|i: int|
            0 <= i < s.len() ==> #[trigger] lowered(s)[i] == if 0x41 <= s[i] <= 0x5a {
                s[i] + 0x20
            } else {
                s[i] as int
            },
        lowered(lowered(s)) == lowered(s),
{
    assert(lowered(lowered(s)) =~= lowered(s));
}

/// The pieces of a text with the separator between them.
pub open spec fn with_between(pieces: Seq<Seq<u8>>, separator: u8) -> Seq<u8>
    decreases pieces.len(),
{
    if pieces.len() == 0 {
        Seq::empty()
    } else if pieces.len() == 1 {
        pieces[0]
    } else {
        pieces[0] + seq![separator] + with_between(pieces.skip(1), separator)
    }
}

/// Splitting cuts a text at every separator and nowhere else: put together again with the
/// separator between them the pieces are the text, and no piece holds the separator.
pub proof fn lemma_split_joins(s: Seq<u8>, separator: u8)
    ensures
        split(s, separator).len() >= 1,
        with_between(split(s, separator), separator) == s,
        forall|k: int, j: int|
            0 <= k < split(s, separator).len() && 0 <= j < split(s, separator)[k].len()
                ==> #[trigger] split(s, separator)[k][j] != separator,
    decreases s.len(),
{
    let only = ByteClass::Only(separator);
    let pieces = split(s, separator);
    lemma_first_in(s, only);
    let i = first_in(s, only);
    if i < s.len() {
        let rest = s.skip(i + 1);
        lemma_split_joins(rest, separator);
        assert(pieces.skip(1) =~= split(rest, separator));
        assert(s =~= s.take(i) + seq![separator] + rest);
        assert forall|k: int, j: int|
            0 <= k < pieces.len() && 0 <= j < pieces[k].len() implies #[trigger] pieces[k][j]
            != separator by {
            if k == 0 {
                assert(pieces[0][j] == s[j]);
                assert(!only.has(s[j]));
            } else {
                assert(pieces[k] == split(rest, separator)[k - 1]);
            }
        }
    } else {
        assert(pieces =~= seq![s]);
        assert forall|k: int, j: int|
            0 <= k < pieces.len() && 0 <= j < pieces[k].len() implies #[trigger] pieces[k][j]
            != separator by {
            assert(!only.has(s[j]));
        }
    }
}

/// Pieces without the separator are what splitting gives of the text that they make up.
pub proof fn lemma_joined_splits(pieces: Seq<Seq<u8>>, separator: u8)
    requires
        pieces.len() >= 1,
        forall|k: int, j: int|
            0 <= k < pieces.len() && 0 <= j < pieces[k].len() ==> #[trigger] pieces[k][j]
                != separator,
    ensures
        split(with_between(pieces, separator), separator) == pieces,
    decreases pieces.len(),
{
    let only = ByteClass::Only(separator);
    let s = with_between(pieces, separator);
    let n = pieces[0].len() as int;
    if pieces.len() == 1 {
        assert forall|j: int| 0 <= j < n implies !only.has(#[trigger] s[j]) by {
            assert(pieces[0][j] != separator);
        }
        lemma_first_in_unique(s, only, n);
        assert(split(s, separator) =~= pieces);
    } else {
        let later = pieces.skip(1);
        assert forall|k: int, j: int|
            0 <= k < later.len() && 0 <= j < later[k].len() implies #[trigger] later[k][j]
            != separator by {
            assert(pieces[k + 1][j] != separator);
        }
        lemma_joined_splits(later, separator);
        assert forall|j: int| 0 <= j < n implies !only.has(#[trigger] s[j]) by {
            assert(s[j] == pieces[0][j]);
        }
        assert(s[n] == separator);
        lemma_first_in_unique(s, only, n);
        assert(s.take(n) =~= pieces[0]);
        assert(s.skip(n + 1) =~= with_between(later, separator));
        assert(split(s, separator) =~= pieces);
    }
}

/// Trimming takes spaces and tabs off both ends, all of them and nothing else.
pub proof fn lemma_trimmed_off(before: Seq<u8>, core: Seq<u8>, after: Seq<u8>)
    requires
        forall|i: int| 0 <= i < before.len() ==> #[trigger] before[i] == 0x20 || before[i] == 0x09,
        forall|i: int| 0 <= i < after.len() ==> #[trigger] after[i] == 0x20 || after[i] == 0x09,
        core.len() > 0 ==> core[0] != 0x20 && core[0] != 0x09 && core.last() != 0x20 && core.last()
            != 0x09,
    ensures
        trimmed(before + core + after) == core,
{
    let s = before + core + after;
    let a = before.len() as int;
    let b = a + core.len();
    if core.len() > 0 {
        assert(s[a] == core[0]);
        assert(s[b - 1] == core.last());
        assert(is_trimmed_range(s, a, b)) by {
            assert forall|j: int| 0 <= j < a implies is_ows(#[trigger] s[j]) by {
                assert(s[j] == before[j]);
            }
            assert forall|j: int| b <= j < s.len() implies is_ows(#[trigger] s[j]) by {
                assert(s[j] == after[j - b]);
            }
        }
        lemma_trimmed(s, a, b);
        assert(s.subrange(a, b) =~= core);
    } else {
        let end = s.len() as int;
        assert(is_trimmed_range(s, end, end)) by {
            assert forall|j: int| 0 <= j < end implies is_ows(#[trigger] s[j]) by {
                if j < a {
                    assert(s[j] == before[j]);
                } else {
                    assert(s[j] == after[j - a]);
                }
            }
        }
        lemma_trimmed(s, end, end);
        assert(trimmed(s) =~= core);
    }
}

/// Every text is what trimming leaves of it, between spaces and tabs.
pub proof fn lemma_trimmed_parts(s: Seq<u8>)
    ensures
        exists|before: Seq<u8>, after: Seq<u8>|
            #![trigger before + trimmed(s) + after]
            {
                &&& s == before + trimmed(s) + after
                &&& forall|i: int|
                    0 <= i < before.len() ==> #[trigger] before[i] == 0x20 || before[i] == 0x09
                &&& forall|i: int|
                    0 <= i < after.len() ==> #[trigger] after[i] == 0x20 || after[i] == 0x09
            },
        trimmed(s).len() > 0 ==> trimmed(s)[0] != 0x20 && trimmed(s)[0] != 0x09
            && trimmed(s).last() != 0x20 && trimmed(s).last() != 0x09,
{
    lemma_trimmed_ends(s);
    let (a, b) = choose|a: int, b: int|
        #[trigger] is_trimmed_range(s, a, b) && trimmed(s) == s.subrange(a, b);
    let before = s.take(a);
    let after = s.skip(b);
    assert forall|i: int| 0 <= i < before.len() implies #[trigger] before[i] == 0x20 || before[i]
        == 0x09 by {
        assert(is_ows(s[i]));
    }
    assert forall|i: int| 0 <= i < after.len() implies #[trigger] after[i] == 0x20 || after[i]
        == 0x09 by {
        assert(is_ows(s[b + i]));
    }
    assert(s =~= before + trimmed(s) + after);
    if trimmed(s).len() > 0 {
        assert(trimmed(s)[0] == s[a]);
        assert(trimmed(s).last() == s[b - 1]);
    }
}

/// The names of a set are listed in the order of their first bytes that differ; a name comes
/// after those that it extends.
pub proof fn lemma_order_of_names(common: Seq<u8>, a: Seq<u8>, b: Seq<u8>)
    ensures
        b.len() > 0 ==> precedes(common, common + b) && !precedes(common + b, common),
        a.len() > 0 && b.len() > 0 && a[0] < b[0] ==> precedes(common + a, common + b) && !precedes(
            common + b,
            common + a,
        ),
{
    lemma_order_at(common, Seq::empty(), b, 0);
    lemma_order_at(common, a, b, 0);
    lemma_order_at(common, b, a, 0);
    lemma_order_at(common, b, Seq::empty(), 0);
    assert(common + Seq::<u8>::empty() =~= common);
}

proof fn lemma_order_at(common: Seq<u8>, a: Seq<u8>, b: Seq<u8>, i: int)
    requires
        0 <= i <= common.len(),
    ensures
        a.len() == 0 && b.len() > 0 ==> precedes_at(common + a, common + b, i),
        b.len() == 0 ==> !precedes_at(common + a, common + b, i),
        a.len() > 0 && b.len() > 0 && a[0] != b[0] ==> precedes_at(common + a, common + b, i) == (
        a[0] < b[0]),
    decreases common.len() - i,
{
    if i < common.len() {
        lemma_order_at(common, a, b, i + 1);
        assert((common + a)[i] == common[i]);
        assert((common + b)[i] == common[i]);
    } else {
        let n = common.len() as int;
        if a.len() > 0 {
            assert((common + a)[n] == a[0]);
        }
        if b.len() > 0 {
            assert((common + b)[n] == b[0]);
        }
    }
}

/// What decimal digits stand for: nothing is zero, and one more digit counts ten times what was
/// there and itself.
pub proof fn lemma_decimal_reads(digits: Seq<u8>, last: u8)
    requires
        0x30 <= last <= 0x39,
    ensures
        decimal(Seq::empty()) == 0,
        decimal(digits.push(last)) == 10 * decimal(digits) + (last - 0x30),
{
    assert(digits.push(last).drop_last() =~= digits);
}

/// A number is written in decimal digits that stand for it, without a zero in front.
pub proof fn lemma_decimal_writes(n: nat)
    ensures
        decimal(digits_of(n)) == n,
        digits_of(n).len() >= 1,
        forall|i: int| 0 <= i < digits_of(n).len() ==> 0x30 <= #[trigger] digits_of(n)[i] <= 0x39,
        digits_of(n).len() > 1 ==> digits_of(n)[0] != 0x30,
    decreases n,
{
    lemma_digits_of(n);
    assert forall|i: int| 0 <= i < digits_of(n).len() implies 0x30 <= #[trigger] digits_of(n)[i]
        <= 0x39 by {
        assert(ByteClass::Digit.has(digits_of(n)[i]));
    }
    if n >= 10 {
        lemma_decimal_writes(n / 10);
        let shorter = digits_of(n / 10);
        assert(digits_of(n)[0] == shorter[0]);
        if shorter.len() == 1 {
            assert(n / 10 < 10) by {
                if n / 10 >= 10 {
                    lemma_digits_of(n / 100);
                    assert(n / 10 / 10 == n / 100);
                    assert(shorter.len() == digits_of(n / 100).len() + 1);
                }
            }
        }
    }
}

/// What hexadecimal digits stand for, whichever their case: one more digit counts sixteen times
/// what was there and itself.
pub proof fn lemma_hexadecimal_reads(digits: Seq<u8>, last: u8)
    ensures
        hexadecimal(Seq::empty()) == 0,
        0x30 <= last <= 0x39 ==> hexadecimal(digits.push(last)) == 16 * hexadecimal(digits) + (last
            - 0x30),
        0x41 <= last <= 0x46 ==> hexadecimal(digits.push(last)) == 16 * hexadecimal(digits) + (last
            - 0x41) + 10,
        0x61 <= last <= 0x66 ==> hexadecimal(digits.push(last)) == 16 * hexadecimal(digits) + (last
            - 0x61) + 10,
{
    assert(digits.push(last).drop_last() =~= digits);
}

} // verus!
