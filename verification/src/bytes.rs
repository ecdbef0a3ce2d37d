//! Byte classes and searches over byte strings.

use vstd::prelude::*;

verus! {

#[verifier::allow_in_spec]
pub fn is_digit(b: u8) -> bool
    returns
        '0' as u8 <= b <= '9' as u8,
{
    '0' as u8 <= b && b <= '9' as u8
}

#[verifier::allow_in_spec]
pub fn is_lower(b: u8) -> bool
    returns
        'a' as u8 <= b <= 'z' as u8,
{
    'a' as u8 <= b && b <= 'z' as u8
}

#[verifier::allow_in_spec]
pub fn is_upper(b: u8) -> bool
    returns
        'A' as u8 <= b <= 'Z' as u8,
{
    'A' as u8 <= b && b <= 'Z' as u8
}

#[verifier::allow_in_spec]
pub fn is_alnum(b: u8) -> bool
    returns
        is_digit(b) || is_lower(b) || is_upper(b),
{
    is_digit(b) || is_lower(b) || is_upper(b)
}

/// A hexadecimal digit of either case.
#[verifier::allow_in_spec]
pub fn is_hex(b: u8) -> bool
    returns
        is_digit(b) || 'a' as u8 <= b <= 'f' as u8 || 'A' as u8 <= b <= 'F' as u8,
{
    is_digit(b) || ('a' as u8 <= b && b <= 'f' as u8) || ('A' as u8 <= b && b <= 'F' as u8)
}

/// A byte that a token may hold.
#[verifier::allow_in_spec]
pub fn is_token(b: u8) -> bool
    returns
        is_alnum(b) || b == '!' as u8 || b == '#' as u8 || b == '$' as u8 || b == '%' as u8 || b
            == '&' as u8 || b == '\'' as u8 || b == '*' as u8 || b == '+' as u8 || b == '-' as u8
            || b == '.' as u8 || b == '^' as u8 || b == '_' as u8 || b == '`' as u8 || b
            == '|' as u8 || b == '~' as u8,
{
    is_alnum(b) || b == '!' as u8 || b == '#' as u8 || b == '$' as u8 || b == '%' as u8 || b
        == '&' as u8 || b == '\'' as u8 || b == '*' as u8 || b == '+' as u8 || b == '-' as u8 || b
        == '.' as u8 || b == '^' as u8 || b == '_' as u8 || b == '`' as u8 || b == '|' as u8 || b
        == '~' as u8
}

/// A space or a horizontal tab.
#[verifier::allow_in_spec]
pub fn is_ows(b: u8) -> bool
    returns
        b == ' ' as u8 || b == '\t' as u8,
{
    b == ' ' as u8 || b == '\t' as u8
}

/// A visible ASCII byte.
#[verifier::allow_in_spec]
pub fn is_visible(b: u8) -> bool
    returns
        0x21 <= b <= 0x7e,
{
    0x21 <= b && b <= 0x7e
}

/// An ASCII control byte.
#[verifier::allow_in_spec]
pub fn is_control(b: u8) -> bool
    returns
        b <= 0x1f || b == 0x7f,
{
    b <= 0x1f || b == 0x7f
}

/// A byte that a field value may hold.
#[verifier::allow_in_spec]
pub fn is_field_byte(b: u8) -> bool
    returns
        b == '\t' as u8 || !is_control(b),
{
    b == '\t' as u8 || !is_control(b)
}

/// The lower-case form of a byte: ASCII upper-case letters change, other bytes stay.
#[verifier::allow_in_spec]
pub fn to_lower(b: u8) -> u8
    returns
        if is_upper(b) {
            (b + 0x20) as u8
        } else {
            b
        },
{
    if is_upper(b) {
        b + 0x20
    } else {
        b
    }
}

/// A set of bytes.
#[derive(Clone, Copy, Debug, PartialEq, Eq, Structural)]
pub enum ByteClass {
    Only(u8),
    Digit,
    Hex,
    Lower,
    Upper,
    Alnum,
    Token,
    Ows,
    Visible,
    /// Visible bytes and the space.
    Printable,
    Control,
    Field,
    LineBreak,
    Ascii,
    /// Letters, digits and the hyphen: what a DNS label holds.
    Label,
    /// What an authority holds: label bytes, dots, colons and brackets.
    Authority,
}

impl ByteClass {
    #[verifier::allow_in_spec]
    pub fn has(self, b: u8) -> bool
        returns
            match self {
                ByteClass::Only(x) => b == x,
                ByteClass::Digit => is_digit(b),
                ByteClass::Hex => is_hex(b),
                ByteClass::Lower => is_lower(b),
                ByteClass::Upper => is_upper(b),
                ByteClass::Alnum => is_alnum(b),
                ByteClass::Token => is_token(b),
                ByteClass::Ows => is_ows(b),
                ByteClass::Visible => is_visible(b),
                ByteClass::Printable => b == ' ' as u8 || is_visible(b),
                ByteClass::Control => is_control(b),
                ByteClass::Field => is_field_byte(b),
                ByteClass::LineBreak => b == '\r' as u8 || b == '\n' as u8,
                ByteClass::Ascii => b < 0x80,
                ByteClass::Label => is_alnum(b) || b == '-' as u8,
                ByteClass::Authority => is_alnum(b) || b == '-' as u8 || b == '.' as u8 || b
                    == ':' as u8 || b == '[' as u8 || b == ']' as u8,
            },
    {
        match self {
            ByteClass::Only(x) => b == x,
            ByteClass::Digit => is_digit(b),
            ByteClass::Hex => is_hex(b),
            ByteClass::Lower => is_lower(b),
            ByteClass::Upper => is_upper(b),
            ByteClass::Alnum => is_alnum(b),
            ByteClass::Token => is_token(b),
            ByteClass::Ows => is_ows(b),
            ByteClass::Visible => is_visible(b),
            ByteClass::Printable => b == ' ' as u8 || is_visible(b),
            ByteClass::Control => is_control(b),
            ByteClass::Field => is_field_byte(b),
            ByteClass::LineBreak => b == '\r' as u8 || b == '\n' as u8,
            ByteClass::Ascii => b < 0x80,
            ByteClass::Label => is_alnum(b) || b == '-' as u8,
            ByteClass::Authority => is_alnum(b) || b == '-' as u8 || b == '.' as u8 || b
                == ':' as u8 || b == '[' as u8 || b == ']' as u8,
        }
    }
}

/// Whether every byte of `s` is in the class.
pub open spec fn all_in(s: Seq<u8>, class: ByteClass) -> bool {
    forall|i: int| 0 <= i < s.len() ==> class.has(#[trigger] s[i])
}

/// Whether some byte of `s` is in the class.
pub open spec fn any_in(s: Seq<u8>, class: ByteClass) -> bool {
    exists|i: int| 0 <= i < s.len() && class.has(#[trigger] s[i])
}

/// How one more byte changes which classes a sequence lies in.
pub proof fn lemma_one_more(s: Seq<u8>, from: int, upto: int, class: ByteClass)
    requires
        0 <= from <= upto < s.len(),
    ensures
        any_in(s.subrange(from, upto + 1), class) == (any_in(s.subrange(from, upto), class)
            || class.has(s[upto])),
        all_in(s.subrange(from, upto + 1), class) == (all_in(s.subrange(from, upto), class)
            && class.has(s[upto])),
{
    let short = s.subrange(from, upto);
    let long = s.subrange(from, upto + 1);
    assert(long[upto - from] == s[upto]);
    assert forall|j: int| 0 <= j < short.len() implies #[trigger] long[j] == short[j] by {}
    if any_in(short, class) {
        let j = choose|j: int| 0 <= j < short.len() && class.has(#[trigger] short[j]);
        assert(class.has(long[j]));
    }
    if any_in(long, class) && !class.has(s[upto]) {
        let j = choose|j: int| 0 <= j < long.len() && class.has(#[trigger] long[j]);
        assert(class.has(short[j]));
    }
    if !all_in(short, class) {
        let j = choose|j: int| 0 <= j < short.len() && !class.has(#[trigger] short[j]);
        assert(!class.has(long[j]));
    }
}

/// The index of the first byte of `s` that is in the class, or the length of `s`.
pub open spec fn first_in(s: Seq<u8>, class: ByteClass) -> int
    decreases s.len(),
{
    if s.len() == 0 || class.has(s[0]) {
        0
    } else {
        1 + first_in(s.skip(1), class)
    }
}

/// The index of the first byte of `s` that is not in the class, or the length of `s`.
pub open spec fn first_out(s: Seq<u8>, class: ByteClass) -> int
    decreases s.len(),
{
    if s.len() == 0 || !class.has(s[0]) {
        0
    } else {
        1 + first_out(s.skip(1), class)
    }
}

/// What makes `i` the index that [`first_in`] gives.
pub open spec fn is_first_in(s: Seq<u8>, class: ByteClass, i: int) -> bool {
    &&& 0 <= i <= s.len()
    &&& forall|j: int| 0 <= j < i ==> !class.has(#[trigger] s[j])
    &&& i < s.len() ==> class.has(s[i])
}

/// What makes `i` the index that [`first_out`] gives.
pub open spec fn is_first_out(s: Seq<u8>, class: ByteClass, i: int) -> bool {
    &&& 0 <= i <= s.len()
    &&& forall|j: int| 0 <= j < i ==> class.has(#[trigger] s[j])
    &&& i < s.len() ==> !class.has(s[i])
}

pub proof fn lemma_first_in(s: Seq<u8>, class: ByteClass)
    ensures
        is_first_in(s, class, first_in(s, class)),
    decreases s.len(),
{
    if s.len() == 0 || class.has(s[0]) {
    } else {
        lemma_first_in(s.skip(1), class);
        let i = first_in(s.skip(1), class);
        assert forall|j: int| 0 <= j < 1 + i implies !class.has(#[trigger] s[j]) by {
            if j > 0 {
                assert(s.skip(1)[j - 1] == s[j]);
            }
        }
        if 1 + i < s.len() {
            assert(s.skip(1)[i] == s[1 + i]);
        }
    }
}

pub proof fn lemma_first_in_unique(s: Seq<u8>, class: ByteClass, i: int)
    requires
        is_first_in(s, class, i),
    ensures
        first_in(s, class) == i,
{
    lemma_first_in(s, class);
    let k = first_in(s, class);
    if k < i {
        assert(!class.has(s[k]));
    } else if i < k {
        assert(!class.has(s[i]));
    }
}

pub proof fn lemma_first_out(s: Seq<u8>, class: ByteClass)
    ensures
        is_first_out(s, class, first_out(s, class)),
    decreases s.len(),
{
    if s.len() == 0 || !class.has(s[0]) {
    } else {
        lemma_first_out(s.skip(1), class);
        let i = first_out(s.skip(1), class);
        assert forall|j: int| 0 <= j < 1 + i implies class.has(#[trigger] s[j]) by {
            if j > 0 {
                assert(s.skip(1)[j - 1] == s[j]);
            }
        }
        if 1 + i < s.len() {
            assert(s.skip(1)[i] == s[1 + i]);
        }
    }
}

pub proof fn lemma_first_out_unique(s: Seq<u8>, class: ByteClass, i: int)
    requires
        is_first_out(s, class, i),
    ensures
        first_out(s, class) == i,
{
    lemma_first_out(s, class);
    let k = first_out(s, class);
    if k < i {
        assert(class.has(s[k]));
    } else if i < k {
        assert(class.has(s[i]));
    }
}

/// The index of the first byte in the class, or the length where there is none.
pub fn find_in(s: &[u8], class: ByteClass) -> (i: usize)
    ensures
        i == first_in(s@, class),
        is_first_in(s@, class, i as int),
{
    let mut i: usize = 0;
    while i < s.len()
        invariant
            i <= s@.len(),
            forall|j: int| 0 <= j < i ==> !class.has(#[trigger] s@[j]),
        ensures
            is_first_in(s@, class, i as int),
        decreases s@.len() - i,
    {
        if class.has(s[i]) {
            break;
        }
        i += 1;
    }
    proof {
        lemma_first_in_unique(s@, class, i as int);
    }
    i
}

/// The index of the first byte outside the class, or the length where there is none.
pub fn find_out(s: &[u8], class: ByteClass) -> (i: usize)
    ensures
        i == first_out(s@, class),
        is_first_out(s@, class, i as int),
{
    let mut i: usize = 0;
    while i < s.len()
        invariant
            i <= s@.len(),
            forall|j: int| 0 <= j < i ==> class.has(#[trigger] s@[j]),
        ensures
            is_first_out(s@, class, i as int),
        decreases s@.len() - i,
    {
        if !class.has(s[i]) {
            break;
        }
        i += 1;
    }
    proof {
        lemma_first_out_unique(s@, class, i as int);
    }
    i
}

/// Whether every byte is in the class.
pub fn all_bytes_in(s: &[u8], class: ByteClass) -> (all: bool)
    ensures
        all == all_in(s@, class),
{
    let i: usize = find_out(s, class);
    assert(i < s@.len() ==> !class.has(s@[i as int]));
    i == s.len()
}

/// Whether some byte is in the class.
pub fn any_byte_in(s: &[u8], class: ByteClass) -> (any: bool)
    ensures
        any == any_in(s@, class),
{
    let i: usize = find_in(s, class);
    assert(i < s@.len() ==> class.has(s@[i as int]));
    i < s.len()
}

/// The index of the first byte at `from` or later that is in the class, or the length of `s`.
pub open spec fn first_from(s: Seq<u8>, class: ByteClass, from: int) -> int
    decreases s.len() - from,
{
    if from >= s.len() {
        s.len() as int
    } else if class.has(s[from]) {
        from
    } else {
        first_from(s, class, from + 1)
    }
}

/// What makes `i` the index that [`first_from`] gives.
pub open spec fn is_first_from(s: Seq<u8>, class: ByteClass, from: int, i: int) -> bool {
    &&& from <= i <= s.len()
    &&& forall|j: int| from <= j < i ==> !class.has(#[trigger] s[j])
    &&& i < s.len() ==> class.has(s[i])
}

pub proof fn lemma_first_from(s: Seq<u8>, class: ByteClass, from: int)
    requires
        0 <= from <= s.len(),
    ensures
        is_first_from(s, class, from, first_from(s, class, from)),
    decreases s.len() - from,
{
    if from < s.len() && !class.has(s[from]) {
        lemma_first_from(s, class, from + 1);
    }
}

pub proof fn lemma_first_from_unique(s: Seq<u8>, class: ByteClass, from: int, i: int)
    requires
        0 <= from <= s.len(),
        is_first_from(s, class, from, i),
    ensures
        first_from(s, class, from) == i,
{
    lemma_first_from(s, class, from);
    let k = first_from(s, class, from);
    if k < i {
        assert(!class.has(s[k]));
    } else if i < k {
        assert(!class.has(s[i]));
    }
}

pub proof fn lemma_first_from_skip(s: Seq<u8>, class: ByteClass, from: int)
    requires
        0 <= from <= s.len(),
    ensures
        first_from(s, class, from) == from + first_in(s.skip(from), class),
{
    lemma_first_from(s, class, from);
    let i = first_from(s, class, from) - from;
    let t = s.skip(from);
    assert forall|j: int| 0 <= j < i implies !class.has(#[trigger] t[j]) by {
        assert(t[j] == s[from + j]);
    }
    lemma_first_in_unique(t, class, i);
}

/// The index of the first byte in the class at `from` or later, or the length.
pub fn find_from(s: &[u8], class: ByteClass, from: usize) -> (i: usize)
    requires
        from <= s@.len(),
    ensures
        i == first_from(s@, class, from as int),
        is_first_from(s@, class, from as int, i as int),
{
    let mut i: usize = from;
    while i < s.len()
        invariant
            from <= i <= s@.len(),
            forall|j: int| from <= j < i ==> !class.has(#[trigger] s@[j]),
        ensures
            is_first_from(s@, class, from as int, i as int),
        decreases s@.len() - i,
    {
        if class.has(s[i]) {
            break;
        }
        i += 1;
    }
    proof {
        lemma_first_from_unique(s@, class, from as int, i as int);
    }
    i
}

/// The pieces of `s` between the separators: one more than there are separators.
pub open spec fn split(s: Seq<u8>, separator: u8) -> Seq<Seq<u8>>
    decreases s.len(),
{
    let i = first_in(s, ByteClass::Only(separator));
    if 0 <= i < s.len() {
        seq![s.take(i)] + split(s.skip(i + 1), separator)
    } else {
        seq![s]
    }
}

/// The piece that a scan from `start` finds, where `pieces` are those of the whole and `seen` of
/// them lie before `start`.
pub proof fn lemma_split_step(
    s: Seq<u8>,
    separator: u8,
    start: int,
    pieces: Seq<Seq<u8>>,
    seen: int,
)
    requires
        0 <= start <= s.len(),
        0 <= seen < pieces.len(),
        pieces.skip(seen) == split(s.skip(start), separator),
    ensures
        ({
            let end = first_from(s, ByteClass::Only(separator), start);
            &&& start <= end <= s.len()
            &&& pieces[seen] == s.subrange(start, end)
            &&& end < s.len() ==> seen + 1 < pieces.len() && pieces.skip(seen + 1) == split(
                s.skip(end + 1),
                separator,
            )
            &&& end == s.len() ==> seen + 1 == pieces.len()
        }),
{
    let class = ByteClass::Only(separator);
    let rest = s.skip(start);
    lemma_first_from(s, class, start);
    lemma_first_from_skip(s, class, start);
    let end = first_from(s, class, start);
    let i = first_in(rest, class);
    assert(pieces.skip(seen)[0] == pieces[seen]);
    if end < s.len() {
        assert(rest.take(i) =~= s.subrange(start, end));
        assert(rest.skip(i + 1) =~= s.skip(end + 1));
        assert(pieces.skip(seen + 1) =~= pieces.skip(seen).skip(1));
        assert(split(rest, separator).skip(1) =~= split(rest.skip(i + 1), separator));
        assert(split(rest.skip(i + 1), separator).len() > 0);
    } else {
        assert(rest =~= s.subrange(start, end));
        assert(pieces.skip(seen).len() == 1);
    }
}

/// A text of bounded pieces is bounded by their number.
pub proof fn lemma_split_length(s: Seq<u8>, separator: u8, limit: nat)
    requires
        forall|k: int|
            0 <= k < split(s, separator).len() ==> (#[trigger] split(s, separator)[k]).len() <= limit,
    ensures
        split(s, separator).len() > 0,
        s.len() + 1 <= (limit + 1) * split(s, separator).len(),
    decreases s.len(),
{
    let only = ByteClass::Only(separator);
    lemma_first_in(s, only);
    let i = first_in(s, only);
    let pieces = split(s, separator);
    assert(pieces[0].len() <= limit);
    if i < s.len() {
        let rest = s.skip(i + 1);
        let later = split(rest, separator);
        assert forall|k: int| 0 <= k < later.len() implies (#[trigger] later[k]).len() <= limit by {
            assert(pieces[k + 1] == later[k]);
        }
        lemma_split_length(rest, separator, limit);
        assert((limit + 1) * pieces.len() == (limit + 1) + (limit + 1) * later.len())
            by (nonlinear_arith)
            requires
                pieces.len() == later.len() + 1,
        ;
    } else {
        assert((limit + 1) * pieces.len() == limit + 1) by (nonlinear_arith)
            requires
                pieces.len() == 1,
        ;
    }
}

/// The bytes of a text whose pieces are all of a class are separators or in the class.
pub proof fn lemma_split_all(s: Seq<u8>, separator: u8, class: ByteClass)
    requires
        forall|i: int|
            0 <= i < split(s, separator).len() ==> all_in(#[trigger] split(s, separator)[i], class),
    ensures
        forall|j: int| 0 <= j < s.len() ==> #[trigger] s[j] == separator || class.has(s[j]),
    decreases s.len(),
{
    let only = ByteClass::Only(separator);
    lemma_first_in(s, only);
    let i = first_in(s, only);
    let pieces = split(s, separator);
    assert(all_in(pieces[0], class));
    if i < s.len() {
        let rest = s.skip(i + 1);
        assert(pieces =~= seq![s.take(i)] + split(rest, separator));
        assert forall|k: int| 0 <= k < split(rest, separator).len() implies all_in(
            #[trigger] split(rest, separator)[k],
            class,
        ) by {
            assert(pieces[k + 1] == split(rest, separator)[k]);
        }
        lemma_split_all(rest, separator, class);
        assert forall|j: int| 0 <= j < s.len() implies #[trigger] s[j] == separator || class.has(
            s[j],
        ) by {
            if j < i {
                assert(class.has(s.take(i)[j]));
            } else if j > i {
                assert(rest[j - i - 1] == s[j]);
            }
        }
    } else {
        assert(pieces =~= seq![s]);
        assert forall|j: int| 0 <= j < s.len() implies #[trigger] s[j] == separator || class.has(
            s[j],
        ) by {
            assert(class.has(pieces[0][j]));
        }
    }
}

/// The pieces of a split byte string hold no byte that it does not hold.
pub proof fn lemma_split_pieces(s: Seq<u8>, separator: u8, class: ByteClass)
    requires
        all_in(s, class),
    ensures
        forall|k: int|
            0 <= k < split(s, separator).len() ==> all_in(#[trigger] split(s, separator)[k], class),
    decreases s.len(),
{
    let i = first_in(s, ByteClass::Only(separator));
    lemma_first_in(s, ByteClass::Only(separator));
    if i < s.len() {
        let rest = s.skip(i + 1);
        assert forall|j: int| 0 <= j < rest.len() implies class.has(#[trigger] rest[j]) by {
            assert(class.has(s[i + 1 + j]));
        }
        lemma_split_pieces(rest, separator, class);
        assert forall|k: int| 0 <= k < split(s, separator).len() implies all_in(
            #[trigger] split(s, separator)[k],
            class,
        ) by {
            if k == 0 {
                assert(split(s, separator)[k] == s.take(i));
                assert forall|j: int| 0 <= j < i implies class.has(#[trigger] s.take(i)[j]) by {
                    assert(class.has(s[j]));
                }
            } else {
                assert(split(s, separator)[k] == split(rest, separator)[k - 1]);
            }
        }
    } else {
        assert(split(s, separator) =~= seq![s]);
    }
}

/// The byte strings of a sequence of slices, in order.
pub open spec fn slices_of(slices: Seq<&[u8]>) -> Seq<Seq<u8>> {
    slices.map_values(|s: &[u8]| s@)
}

/// The pieces of `s` between the separators.
pub fn split_on<'a>(s: &'a [u8], separator: u8) -> (pieces: Vec<&'a [u8]>)
    ensures
        slices_of(pieces@) == split(s@, separator),
        pieces@.len() == split(s@, separator).len() >= 1,
        forall|i: int| 0 <= i < pieces@.len() ==> (#[trigger] pieces@[i])@ == split(s@, separator)[i],
{
    let mut pieces: Vec<&'a [u8]> = Vec::new();
    let mut rest: &'a [u8] = s;
    loop
        invariant
            slices_of(pieces@) + split(rest@, separator) =~= split(s@, separator),
        decreases rest@.len(),
    {
        let i: usize = find_in(rest, ByteClass::Only(separator));
        let ghost before = slices_of(pieces@);
        if i == rest.len() {
            pieces.push(rest);
            assert(slices_of(pieces@) =~= before.push(rest@));
            assert(forall|k: int|
                0 <= k < pieces@.len() ==> (#[trigger] pieces@[k])@ == slices_of(pieces@)[k]);
            return pieces;
        }
        let piece: &'a [u8] = &rest[0..i];
        assert(rest@.take(i as int) =~= piece@);
        pieces.push(piece);
        assert(slices_of(pieces@) =~= before.push(piece@));
        let tail: &'a [u8] = &rest[i + 1..rest.len()];
        assert(rest@.skip(i + 1) =~= tail@);
        rest = tail;
    }
}

/// The bytes in lower case.
pub open spec fn lowered(s: Seq<u8>) -> Seq<u8> {
    Seq::new(s.len(), |i: int| to_lower(s[i]))
}

/// The bytes in lower case.
pub fn lower_bytes(s: &[u8]) -> (out: Vec<u8>)
    ensures
        out@ == lowered(s@),
{
    let mut out: Vec<u8> = Vec::new();
    let mut i: usize = 0;
    while i < s.len()
        invariant
            i <= s@.len(),
            out@ == lowered(s@).take(i as int),
        decreases s@.len() - i,
    {
        out.push(to_lower(s[i]));
        i += 1;
        assert(lowered(s@).take(i as int) =~= lowered(s@).take(i - 1).push(to_lower(s@[i - 1])));
    }
    assert(lowered(s@).take(i as int) =~= lowered(s@));
    out
}

/// The end of `s` without the optional white space before `to`; no less than `from`.
pub open spec fn trim_end_at(s: Seq<u8>, from: int, to: int) -> int
    decreases to - from,
{
    if from < to && is_ows(s[to - 1]) {
        trim_end_at(s, from, to - 1)
    } else {
        to
    }
}

/// `s` without the optional white space around it.
pub open spec fn trimmed(s: Seq<u8>) -> Seq<u8> {
    let start = first_out(s, ByteClass::Ows);
    s.subrange(start, trim_end_at(s, start, s.len() as int))
}

/// What makes a range of `s` the trimmed one.
pub open spec fn is_trimmed_range(s: Seq<u8>, start: int, end: int) -> bool {
    &&& 0 <= start <= end <= s.len()
    &&& forall|j: int| 0 <= j < start ==> is_ows(#[trigger] s[j])
    &&& forall|j: int| end <= j < s.len() ==> is_ows(#[trigger] s[j])
    &&& start < end ==> !is_ows(s[start]) && !is_ows(s[end - 1])
    &&& start == end ==> start == s.len()
}

pub proof fn lemma_trim_end_at(s: Seq<u8>, from: int, to: int, end: int)
    requires
        0 <= from <= end <= to <= s.len(),
        forall|j: int| end <= j < to ==> is_ows(#[trigger] s[j]),
        from < end ==> !is_ows(s[end - 1]),
    ensures
        trim_end_at(s, from, to) == end,
    decreases to - from,
{
    if end < to {
        assert(is_ows(s[to - 1]));
        lemma_trim_end_at(s, from, to - 1, end);
    }
}

pub proof fn lemma_trimmed(s: Seq<u8>, start: int, end: int)
    requires
        is_trimmed_range(s, start, end),
    ensures
        trimmed(s) == s.subrange(start, end),
{
    lemma_first_out_unique(s, ByteClass::Ows, start);
    lemma_trim_end_at(s, start, s.len() as int, end);
}

/// Trimming leaves nothing, or something without white space at either end.
pub proof fn lemma_trimmed_ends(s: Seq<u8>)
    ensures
        exists|start: int, end: int|
            #[trigger] is_trimmed_range(s, start, end) && trimmed(s) == s.subrange(start, end),
{
    lemma_first_out(s, ByteClass::Ows);
    let start = first_out(s, ByteClass::Ows);
    let end = trim_end_at(s, start, s.len() as int);
    lemma_trim_end_range(s, start, s.len() as int);
    assert(is_trimmed_range(s, start, end));
}

proof fn lemma_trim_end_range(s: Seq<u8>, from: int, to: int)
    requires
        0 <= from <= to <= s.len(),
    ensures
        from <= trim_end_at(s, from, to) <= to,
        forall|j: int| trim_end_at(s, from, to) <= j < to ==> is_ows(#[trigger] s[j]),
        from < trim_end_at(s, from, to) ==> !is_ows(s[trim_end_at(s, from, to) - 1]),
    decreases to - from,
{
    if from < to && is_ows(s[to - 1]) {
        lemma_trim_end_range(s, from, to - 1);
    }
}

/// The bytes without the optional white space around them.
pub fn trim_ows<'a>(s: &'a [u8]) -> (inner: &'a [u8])
    ensures
        inner@ == trimmed(s@),
{
    let start: usize = find_out(s, ByteClass::Ows);
    let mut end: usize = s.len();
    while end > start && is_ows(s[end - 1])
        invariant
            start <= end <= s@.len(),
            start == first_out(s@, ByteClass::Ows),
            trim_end_at(s@, start as int, s@.len() as int) == trim_end_at(
                s@,
                start as int,
                end as int,
            ),
        decreases end,
    {
        end -= 1;
    }
    &s[start..end]
}

/// Whether `a` comes before `b`, comparing from index `i` on, byte by byte.
pub open spec fn precedes_at(a: Seq<u8>, b: Seq<u8>, i: int) -> bool
    decreases a.len() - i,
{
    if i >= b.len() {
        false
    } else if i >= a.len() {
        true
    } else if a[i] != b[i] {
        a[i] < b[i]
    } else {
        precedes_at(a, b, i + 1)
    }
}

/// The lexicographic order of byte strings.
pub open spec fn precedes(a: Seq<u8>, b: Seq<u8>) -> bool {
    precedes_at(a, b, 0)
}

pub proof fn lemma_precedes_irreflexive(a: Seq<u8>, i: int)
    requires
        0 <= i,
    ensures
        !precedes_at(a, a, i),
    decreases a.len() - i,
{
    if i < a.len() {
        lemma_precedes_irreflexive(a, i + 1);
    }
}

pub proof fn lemma_precedes_transitive(a: Seq<u8>, b: Seq<u8>, c: Seq<u8>, i: int)
    requires
        0 <= i,
        precedes_at(a, b, i),
        precedes_at(b, c, i),
    ensures
        precedes_at(a, c, i),
    decreases a.len() - i,
{
    if i < a.len() && i < b.len() && a[i] == b[i] && b[i] == c[i] {
        lemma_precedes_transitive(a, b, c, i + 1);
    }
}

pub proof fn lemma_precedes_total(a: Seq<u8>, b: Seq<u8>, i: int)
    requires
        0 <= i <= a.len(),
        i <= b.len(),
        !precedes_at(a, b, i),
        !precedes_at(b, a, i),
        a.take(i) == b.take(i),
    ensures
        a == b,
    decreases a.len() - i,
{
    if i < a.len() && i < b.len() {
        assert(a.take(i + 1) =~= a.take(i).push(a[i]));
        assert(b.take(i + 1) =~= b.take(i).push(b[i]));
        lemma_precedes_total(a, b, i + 1);
    } else {
        assert(a.take(i) =~= a);
        assert(b.take(i) =~= b);
    }
}

/// Whether `a` comes before `b` in lexicographic order.
pub fn comes_before(a: &[u8], b: &[u8]) -> (before: bool)
    ensures
        before == precedes(a@, b@),
{
    let mut i: usize = 0;
    while i < a.len() && i < b.len()
        invariant
            i <= a@.len(),
            i <= b@.len(),
            precedes(a@, b@) == precedes_at(a@, b@, i as int),
        decreases a@.len() - i,
    {
        if a[i] != b[i] {
            return a[i] < b[i];
        }
        i += 1;
    }
    i < b.len()
}

/// Whether the bytes, in lower case, are those of `lower`.
pub fn same_lowered(s: &[u8], lower: &[u8]) -> (same: bool)
    ensures
        same == (lowered(s@) == lower@),
{
    if s.len() != lower.len() {
        return false;
    }
    let mut i: usize = 0;
    while i < s.len()
        invariant
            s@.len() == lower@.len(),
            i <= s@.len(),
            forall|j: int| 0 <= j < i ==> lowered(s@)[j] == lower@[j],
        decreases s@.len() - i,
    {
        if to_lower(s[i]) != lower[i] {
            assert(lowered(s@)[i as int] != lower@[i as int]);
            return false;
        }
        i += 1;
    }
    assert(lowered(s@) =~= lower@);
    true
}

/// Whether two byte strings are the same in lower case.
pub fn same_ignoring_case(a: &[u8], b: &[u8]) -> (same: bool)
    ensures
        same == (lowered(a@) == lowered(b@)),
{
    if a.len() != b.len() {
        assert(lowered(a@).len() != lowered(b@).len());
        return false;
    }
    let mut i: usize = 0;
    while i < a.len()
        invariant
            a@.len() == b@.len(),
            i <= a@.len(),
            forall|j: int| 0 <= j < i ==> lowered(a@)[j] == lowered(b@)[j],
        decreases a@.len() - i,
    {
        if to_lower(a[i]) != to_lower(b[i]) {
            assert(lowered(a@)[i as int] != lowered(b@)[i as int]);
            return false;
        }
        i += 1;
    }
    assert(lowered(a@) =~= lowered(b@));
    true
}

} // verus!
