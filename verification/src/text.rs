//! Character-level utilities shared by the record codec: decimal numerals,
//! uppercase hexadecimal, whitespace trimming, and separator splitting,
//! each with a specification-level counterpart.

use vstd::prelude::*;

verus! {

// ---------------------------------------------------------------------------
// Decimal digits
// ---------------------------------------------------------------------------

pub open spec fn is_digit_char(c: char) -> bool {
    '0' <= c && c <= '9'
}

pub open spec fn digit_val(c: char) -> int {
    c as int - '0' as int
}

/// The decimal digit character for a value in `0..10`.
pub open spec fn char_of_digit(d: int) -> char {
    if d == 0 {
        '0'
    } else if d == 1 {
        '1'
    } else if d == 2 {
        '2'
    } else if d == 3 {
        '3'
    } else if d == 4 {
        '4'
    } else if d == 5 {
        '5'
    } else if d == 6 {
        '6'
    } else if d == 7 {
        '7'
    } else if d == 8 {
        '8'
    } else {
        '9'
    }
}

pub open spec fn all_digits(s: Seq<char>) -> bool {
    forall|i: int| 0 <= i < s.len() ==> is_digit_char(#[trigger] s[i])
}

/// The value of a sequence of decimal digit characters, most significant first.
pub open spec fn dec_val(s: Seq<char>) -> int
    decreases s.len(),
{
    if s.len() == 0 {
        0
    } else {
        dec_val(s.drop_last()) * 10 + digit_val(s.last())
    }
}

/// The value a standard unsigned decimal parse gives `s`: an optional leading
/// `+`, then at least one digit; `None` when the shape is wrong.
pub open spec fn spec_parse_uint(s: Seq<char>) -> Option<int> {
    let ds = if s.len() > 0 && s[0] == '+' {
        s.drop_first()
    } else {
        s
    };
    if ds.len() > 0 && all_digits(ds) {
        Some(dec_val(ds))
    } else {
        None
    }
}

/// A parsed unsigned decimal value is nonnegative.
pub proof fn lemma_parse_uint_nonneg(s: Seq<char>)
    requires
        spec_parse_uint(s) is Some,
    ensures
        spec_parse_uint(s)->0 >= 0,
{
    let ds = if s.len() > 0 && s[0] == '+' {
        s.drop_first()
    } else {
        s
    };
    lemma_dec_val_nonneg(ds);
}

/// Two-digit zero-padded rendering of a value in `0..100`.
pub open spec fn spec_pad2(n: int) -> Seq<char> {
    seq![char_of_digit(n / 10), char_of_digit(n % 10)]
}

/// Eight-digit zero-padded rendering of a value in `0..100_000_000`.
pub open spec fn spec_dec8(n: int) -> Seq<char> {
    seq![
        char_of_digit(n / 10_000_000 % 10),
        char_of_digit(n / 1_000_000 % 10),
        char_of_digit(n / 100_000 % 10),
        char_of_digit(n / 10_000 % 10),
        char_of_digit(n / 1_000 % 10),
        char_of_digit(n / 100 % 10),
        char_of_digit(n / 10 % 10),
        char_of_digit(n % 10),
    ]
}

pub proof fn lemma_char_of_digit(d: int)
    requires
        0 <= d < 10,
    ensures
        is_digit_char(char_of_digit(d)),
        digit_val(char_of_digit(d)) == d,
        char_of_digit(d) != ';',
        !is_space_char(char_of_digit(d)),
{
}

pub proof fn lemma_dec_val_nonneg(s: Seq<char>)
    requires
        all_digits(s),
    ensures
        dec_val(s) >= 0,
    decreases s.len(),
{
    if s.len() > 0 {
        assert(all_digits(s.drop_last()));
        lemma_dec_val_nonneg(s.drop_last());
    }
}

/// Extending a digit string on the right can only increase its value.
pub proof fn lemma_dec_val_prefix(s: Seq<char>, i: int)
    requires
        all_digits(s),
        0 <= i <= s.len(),
    ensures
        dec_val(s) >= dec_val(s.take(i)),
    decreases s.len() - i,
{
    if i < s.len() {
        lemma_dec_val_prefix(s, i + 1);
        assert(s.take(i + 1).drop_last() =~= s.take(i));
        assert(all_digits(s.take(i)));
        lemma_dec_val_nonneg(s.take(i));
        assert(dec_val(s.take(i + 1)) == dec_val(s.take(i)) * 10 + digit_val(s[i]));
    } else {
        assert(s.take(i) =~= s);
    }
}

/// `spec_pad2` renders digits, and parses back to the same value.
pub proof fn lemma_pad2(n: int)
    requires
        0 <= n < 100,
    ensures
        spec_pad2(n).len() == 2,
        all_digits(spec_pad2(n)),
        digit_val(spec_pad2(n)[0]) * 10 + digit_val(spec_pad2(n)[1]) == n,
        dec_val(spec_pad2(n)) == n,
{
    lemma_char_of_digit(n / 10);
    lemma_char_of_digit(n % 10);
    let s = spec_pad2(n);
    let s1 = s.drop_last();
    assert(s1 =~= seq![char_of_digit(n / 10)]);
    assert(s1.drop_last() =~= Seq::<char>::empty());
    assert(dec_val(s1.drop_last()) == 0);
    assert(s1.last() == char_of_digit(n / 10));
    assert(dec_val(s1) == digit_val(char_of_digit(n / 10)));
    assert(s.last() == char_of_digit(n % 10));
    assert(dec_val(s) == dec_val(s1) * 10 + digit_val(s.last()));
}

/// `spec_dec8` renders digits, and parses back to the same value.
pub proof fn lemma_dec8(n: int)
    requires
        0 <= n < 100_000_000,
    ensures
        spec_dec8(n).len() == 8,
        all_digits(spec_dec8(n)),
        dec_val(spec_dec8(n)) == n,
{
    let s = spec_dec8(n);
    lemma_char_of_digit(n / 10_000_000 % 10);
    lemma_char_of_digit(n / 1_000_000 % 10);
    lemma_char_of_digit(n / 100_000 % 10);
    lemma_char_of_digit(n / 10_000 % 10);
    lemma_char_of_digit(n / 1_000 % 10);
    lemma_char_of_digit(n / 100 % 10);
    lemma_char_of_digit(n / 10 % 10);
    lemma_char_of_digit(n % 10);
    // Collapsed quotients: dividing by 10 one more time steps to the next power.
    assert(n / 10 / 10 == n / 100) by (nonlinear_arith)
        requires
            n >= 0,
    ;
    assert(n / 100 / 10 == n / 1_000) by (nonlinear_arith)
        requires
            n >= 0,
    ;
    assert(n / 1_000 / 10 == n / 10_000) by (nonlinear_arith)
        requires
            n >= 0,
    ;
    assert(n / 10_000 / 10 == n / 100_000) by (nonlinear_arith)
        requires
            n >= 0,
    ;
    assert(n / 100_000 / 10 == n / 1_000_000) by (nonlinear_arith)
        requires
            n >= 0,
    ;
    assert(n / 1_000_000 / 10 == n / 10_000_000) by (nonlinear_arith)
        requires
            n >= 0,
    ;
    assert(n / 10_000_000 < 10) by (nonlinear_arith)
        requires
            0 <= n < 100_000_000,
    ;
    // Horner evaluation of the digit string, prefix by prefix.
    let s7 = s.drop_last();
    let s6 = s7.drop_last();
    let s5 = s6.drop_last();
    let s4 = s5.drop_last();
    let s3 = s4.drop_last();
    let s2 = s3.drop_last();
    let s1 = s2.drop_last();
    let s0 = s1.drop_last();
    assert(s0 =~= Seq::<char>::empty());
    assert(dec_val(s0) == 0);
    assert(s1.last() == char_of_digit(n / 10_000_000 % 10));
    assert(dec_val(s1) == n / 10_000_000);
    assert(s2.last() == char_of_digit(n / 1_000_000 % 10));
    assert(dec_val(s2) == (n / 10_000_000) * 10 + n / 1_000_000 % 10);
    assert(dec_val(s2) == n / 1_000_000);
    assert(s3.last() == char_of_digit(n / 100_000 % 10));
    assert(dec_val(s3) == n / 100_000);
    assert(s4.last() == char_of_digit(n / 10_000 % 10));
    assert(dec_val(s4) == n / 10_000);
    assert(s5.last() == char_of_digit(n / 1_000 % 10));
    assert(dec_val(s5) == n / 1_000);
    assert(s6.last() == char_of_digit(n / 100 % 10));
    assert(dec_val(s6) == n / 100);
    assert(s7.last() == char_of_digit(n / 10 % 10));
    assert(dec_val(s7) == n / 10);
    assert(s.last() == char_of_digit(n % 10));
    assert(dec_val(s) == n);
    assert forall|i: int| 0 <= i < 8 implies is_digit_char(#[trigger] s[i]) by {
        if i == 0 {
            assert(s[i] == char_of_digit(n / 10_000_000 % 10));
        } else if i == 1 {
            assert(s[i] == char_of_digit(n / 1_000_000 % 10));
        } else if i == 2 {
            assert(s[i] == char_of_digit(n / 100_000 % 10));
        } else if i == 3 {
            assert(s[i] == char_of_digit(n / 10_000 % 10));
        } else if i == 4 {
            assert(s[i] == char_of_digit(n / 1_000 % 10));
        } else if i == 5 {
            assert(s[i] == char_of_digit(n / 100 % 10));
        } else if i == 6 {
            assert(s[i] == char_of_digit(n / 10 % 10));
        } else {
            assert(s[i] == char_of_digit(n % 10));
        }
    }
}

// ---------------------------------------------------------------------------
// Uppercase hexadecimal
// ---------------------------------------------------------------------------

pub open spec fn is_hex_char(c: char) -> bool {
    ('0' <= c && c <= '9') || ('A' <= c && c <= 'F')
}

/// The characters the stored hash field tolerates before hex decoding:
/// ASCII digits and uppercase letters.
pub open spec fn is_upper_or_digit(c: char) -> bool {
    ('0' <= c && c <= '9') || ('A' <= c && c <= 'Z')
}

pub open spec fn hex_val(c: char) -> int {
    if '0' <= c && c <= '9' {
        c as int - '0' as int
    } else {
        c as int - 'A' as int + 10
    }
}

/// The uppercase hexadecimal digit character for a value in `0..16`.
pub open spec fn char_of_hex(d: int) -> char {
    if d < 10 {
        char_of_digit(d)
    } else if d == 10 {
        'A'
    } else if d == 11 {
        'B'
    } else if d == 12 {
        'C'
    } else if d == 13 {
        'D'
    } else if d == 14 {
        'E'
    } else {
        'F'
    }
}

pub open spec fn all_hex(s: Seq<char>) -> bool {
    forall|i: int| 0 <= i < s.len() ==> is_hex_char(#[trigger] s[i])
}

/// Uppercase hexadecimal rendering of a byte sequence, two digits per byte.
pub open spec fn spec_hex_upper(bytes: Seq<u8>) -> Seq<char>
    decreases bytes.len(),
{
    if bytes.len() == 0 {
        Seq::<char>::empty()
    } else {
        seq![char_of_hex(bytes[0] as int / 16), char_of_hex(bytes[0] as int % 16)]
            + spec_hex_upper(bytes.drop_first())
    }
}

/// The bytes of an even-length hexadecimal string, one byte per digit pair.
pub open spec fn spec_hex_decode(s: Seq<char>) -> Seq<u8>
    decreases s.len(),
{
    if s.len() < 2 {
        Seq::<u8>::empty()
    } else {
        seq![(hex_val(s[0]) * 16 + hex_val(s[1])) as u8] + spec_hex_decode(s.skip(2))
    }
}

pub proof fn lemma_char_of_hex(d: int)
    requires
        0 <= d < 16,
    ensures
        is_hex_char(char_of_hex(d)),
        hex_val(char_of_hex(d)) == d,
{
    if d < 10 {
        lemma_char_of_digit(d);
    }
}

pub proof fn lemma_hex_upper_len(bytes: Seq<u8>)
    ensures
        spec_hex_upper(bytes).len() == 2 * bytes.len(),
    decreases bytes.len(),
{
    if bytes.len() > 0 {
        lemma_hex_upper_len(bytes.drop_first());
    }
}

pub proof fn lemma_hex_upper_all_hex(bytes: Seq<u8>)
    ensures
        all_hex(spec_hex_upper(bytes)),
    decreases bytes.len(),
{
    if bytes.len() > 0 {
        lemma_char_of_hex(bytes[0] as int / 16);
        lemma_char_of_hex(bytes[0] as int % 16);
        lemma_hex_upper_all_hex(bytes.drop_first());
        let s = spec_hex_upper(bytes);
        let rest = spec_hex_upper(bytes.drop_first());
        assert forall|i: int| 0 <= i < s.len() implies is_hex_char(#[trigger] s[i]) by {
            if i >= 2 {
                assert(s[i] == rest[i - 2]);
            }
        }
    }
}

/// Decoding inverts encoding: hex rendering of bytes decodes to the same bytes.
pub proof fn lemma_hex_decode_upper(bytes: Seq<u8>)
    ensures
        spec_hex_decode(spec_hex_upper(bytes)) =~= bytes,
    decreases bytes.len(),
{
    if bytes.len() > 0 {
        let s = spec_hex_upper(bytes);
        let rest = spec_hex_upper(bytes.drop_first());
        lemma_hex_upper_len(bytes.drop_first());
        lemma_char_of_hex(bytes[0] as int / 16);
        lemma_char_of_hex(bytes[0] as int % 16);
        assert(s.skip(2) =~= rest);
        assert(hex_val(s[0]) * 16 + hex_val(s[1]) == bytes[0]);
        lemma_hex_decode_upper(bytes.drop_first());
    }
}

/// Hex decoding distributes over concatenation at a pair boundary.
pub proof fn lemma_hex_decode_concat(a: Seq<char>, b: Seq<char>)
    requires
        a.len() % 2 == 0,
    ensures
        spec_hex_decode(a + b) =~= spec_hex_decode(a) + spec_hex_decode(b),
    decreases a.len(),
{
    if a.len() == 0 {
        assert(a + b =~= b);
    } else {
        let s = a + b;
        assert(s[0] == a[0]);
        assert(s[1] == a[1]);
        assert(s.skip(2) =~= a.skip(2) + b);
        lemma_hex_decode_concat(a.skip(2), b);
        assert(spec_hex_decode(a) =~= seq![(hex_val(a[0]) * 16 + hex_val(a[1])) as u8]
            + spec_hex_decode(a.skip(2)));
    }
}

/// Hex rendering distributes over concatenation.
pub proof fn lemma_hex_upper_concat(a: Seq<u8>, b: Seq<u8>)
    ensures
        spec_hex_upper(a + b) =~= spec_hex_upper(a) + spec_hex_upper(b),
    decreases a.len(),
{
    if a.len() == 0 {
        assert(a + b =~= b);
    } else {
        assert((a + b).drop_first() =~= a.drop_first() + b);
        lemma_hex_upper_concat(a.drop_first(), b);
    }
}

pub proof fn lemma_hex_val_injective(c1: char, c2: char)
    requires
        is_hex_char(c1),
        is_hex_char(c2),
        c1 != c2,
    ensures
        hex_val(c1) != hex_val(c2),
{
}

/// Two different hexadecimal strings of the same even length decode to
/// different bytes.
pub proof fn lemma_hex_decode_injective(a: Seq<char>, b: Seq<char>)
    requires
        all_hex(a),
        all_hex(b),
        a.len() == b.len(),
        a.len() % 2 == 0,
        a != b,
    ensures
        spec_hex_decode(a) != spec_hex_decode(b),
    decreases a.len(),
{
    if a.len() == 0 {
        assert(a =~= b);
    } else if a[0] == b[0] && a[1] == b[1] {
        assert(a.skip(2) != b.skip(2)) by {
            if a.skip(2) == b.skip(2) {
                assert forall|i: int| 0 <= i < a.len() implies a[i] == b[i] by {
                    if i >= 2 {
                        assert(a[i] == a.skip(2)[i - 2]);
                        assert(b[i] == b.skip(2)[i - 2]);
                    }
                }
                assert(a =~= b);
            }
        }
        assert(all_hex(a.skip(2)));
        assert(all_hex(b.skip(2)));
        lemma_hex_decode_injective(a.skip(2), b.skip(2));
        if spec_hex_decode(a) == spec_hex_decode(b) {
            assert(spec_hex_decode(a).drop_first() =~= spec_hex_decode(a.skip(2)));
            assert(spec_hex_decode(b).drop_first() =~= spec_hex_decode(b.skip(2)));
        }
    } else {
        if a[0] != b[0] {
            lemma_hex_val_injective(a[0], b[0]);
        } else {
            lemma_hex_val_injective(a[1], b[1]);
        }
        assert(hex_val(a[0]) * 16 + hex_val(a[1]) != hex_val(b[0]) * 16 + hex_val(b[1]));
        assert(spec_hex_decode(a)[0] != spec_hex_decode(b)[0]);
    }
}

// ---------------------------------------------------------------------------
// Whitespace trimming
// ---------------------------------------------------------------------------

pub open spec fn is_space_char(c: char) -> bool {
    c == ' ' || c == '\t' || c == '\n' || c == '\r' || c == '\u{b}' || c == '\u{c}'
}

pub open spec fn spec_trim_front(s: Seq<char>) -> Seq<char>
    decreases s.len(),
{
    if s.len() > 0 && is_space_char(s[0]) {
        spec_trim_front(s.drop_first())
    } else {
        s
    }
}

pub open spec fn spec_trim_back(s: Seq<char>) -> Seq<char>
    decreases s.len(),
{
    if s.len() > 0 && is_space_char(s.last()) {
        spec_trim_back(s.drop_last())
    } else {
        s
    }
}

/// `s` with leading and trailing whitespace removed.
pub open spec fn spec_trim(s: Seq<char>) -> Seq<char> {
    spec_trim_back(spec_trim_front(s))
}

/// The number of whitespace characters a front trim removes.
pub proof fn trim_front_index(s: Seq<char>) -> (k: int)
    ensures
        0 <= k <= s.len(),
        spec_trim_front(s) =~= s.skip(k),
        forall|i: int| 0 <= i < k ==> is_space_char(#[trigger] s[i]),
    decreases s.len(),
{
    if s.len() > 0 && is_space_char(s[0]) {
        let k0 = trim_front_index(s.drop_first());
        assert(s.drop_first().skip(k0) =~= s.skip(k0 + 1));
        assert forall|i: int| 0 <= i < k0 + 1 implies is_space_char(#[trigger] s[i]) by {
            if i > 0 {
                assert(s[i] == s.drop_first()[i - 1]);
            }
        }
        k0 + 1
    } else {
        assert(spec_trim_front(s) =~= s.skip(0));
        0
    }
}

/// The length a back trim leaves.
pub proof fn trim_back_index(s: Seq<char>) -> (k: int)
    ensures
        0 <= k <= s.len(),
        spec_trim_back(s) =~= s.take(k),
        forall|i: int| k <= i < s.len() ==> is_space_char(#[trigger] s[i]),
    decreases s.len(),
{
    if s.len() > 0 && is_space_char(s.last()) {
        let k0 = trim_back_index(s.drop_last());
        assert(s.drop_last().take(k0) =~= s.take(k0));
        assert forall|i: int| k0 <= i < s.len() implies is_space_char(#[trigger] s[i]) by {
            if i < s.len() - 1 {
                assert(s[i] == s.drop_last()[i]);
            }
        }
        k0
    } else {
        assert(spec_trim_back(s) =~= s.take(s.len() as int));
        s.len() as int
    }
}

/// Every character of `s` is whitespace or a character of its trim.
pub proof fn lemma_trim_chars(s: Seq<char>)
    ensures
        forall|i: int|
            0 <= i < s.len() ==> is_space_char(#[trigger] s[i]) || spec_trim(s).contains(s[i]),
{
    let k = trim_front_index(s);
    let f = spec_trim_front(s);
    let m = trim_back_index(f);
    assert forall|i: int|
        0 <= i < s.len() implies is_space_char(#[trigger] s[i]) || spec_trim(s).contains(
        s[i],
    ) by {
        if i >= k {
            assert(s[i] == f[i - k]);
            if i - k < m {
                assert(spec_trim(s)[i - k] == s[i]);
            }
        }
    }
}

/// Trimming a string with no whitespace leaves it unchanged.
pub proof fn lemma_trim_no_space(s: Seq<char>)
    requires
        forall|i: int| 0 <= i < s.len() ==> !is_space_char(#[trigger] s[i]),
    ensures
        spec_trim(s) == s,
{
    assert(spec_trim_front(s) == s);
    assert(spec_trim_back(s) == s);
}

// ---------------------------------------------------------------------------
// Splitting on a separator
// ---------------------------------------------------------------------------

/// The fields of `s` between occurrences of `sep`; always at least one field,
/// as with the standard `split`.
pub open spec fn spec_split_on(s: Seq<char>, sep: char) -> Seq<Seq<char>>
    decreases s.len(),
{
    if s.len() == 0 {
        seq![Seq::<char>::empty()]
    } else if s[0] == sep {
        seq![Seq::<char>::empty()] + spec_split_on(s.drop_first(), sep)
    } else {
        let rest = spec_split_on(s.drop_first(), sep);
        seq![seq![s[0]] + rest[0]] + rest.drop_first()
    }
}

pub proof fn lemma_split_on_len(s: Seq<char>, sep: char)
    ensures
        spec_split_on(s, sep).len() >= 1,
    decreases s.len(),
{
    if s.len() > 0 {
        lemma_split_on_len(s.drop_first(), sep);
    }
}

/// A string without the separator is a single field.
pub proof fn lemma_split_on_no_sep(s: Seq<char>, sep: char)
    requires
        forall|i: int| 0 <= i < s.len() ==> s[i] != sep,
    ensures
        spec_split_on(s, sep) =~~= seq![s],
    decreases s.len(),
{
    if s.len() > 0 {
        lemma_split_on_no_sep(s.drop_first(), sep);
        assert(seq![s[0]] + s.drop_first() =~= s);
    }
}

/// Splitting peels off a separator-free prefix as the first field.
pub proof fn lemma_split_on_prepend(a: Seq<char>, rest: Seq<char>, sep: char)
    requires
        forall|i: int| 0 <= i < a.len() ==> a[i] != sep,
    ensures
        spec_split_on(a + seq![sep] + rest, sep) =~~= seq![a] + spec_split_on(rest, sep),
    decreases a.len(),
{
    let s = a + seq![sep] + rest;
    if a.len() == 0 {
        assert(s =~= seq![sep] + rest);
        assert(s[0] == sep);
        assert(s.drop_first() =~= rest);
    } else {
        assert(s[0] == a[0]);
        assert(s[0] != sep);
        assert(s.drop_first() =~= a.drop_first() + seq![sep] + rest);
        lemma_split_on_prepend(a.drop_first(), rest, sep);
        lemma_split_on_len(rest, sep);
        let inner = spec_split_on(s.drop_first(), sep);
        assert(inner =~~= seq![a.drop_first()] + spec_split_on(rest, sep));
        assert(inner[0] == a.drop_first());
        assert(seq![s[0]] + inner[0] =~= a);
        assert(inner.drop_first() =~~= spec_split_on(rest, sep));
    }
}

/// Splitting a concatenation with an explicit separator between the halves
/// splits each half on its own.
pub proof fn lemma_split_on_concat(x: Seq<char>, y: Seq<char>, sep: char)
    ensures
        spec_split_on(x + seq![sep] + y, sep) =~~= spec_split_on(x, sep) + spec_split_on(y, sep),
    decreases x.len(),
{
    let s = x + seq![sep] + y;
    if x.len() == 0 {
        assert(s =~= seq![sep] + y);
        assert(s[0] == sep);
        assert(s.drop_first() =~= y);
    } else {
        assert(s[0] == x[0]);
        assert(s.drop_first() =~= x.drop_first() + seq![sep] + y);
        lemma_split_on_concat(x.drop_first(), y, sep);
        lemma_split_on_len(x.drop_first(), sep);
        lemma_split_on_len(y, sep);
        let inner = spec_split_on(s.drop_first(), sep);
        let sx = spec_split_on(x.drop_first(), sep);
        let sy = spec_split_on(y, sep);
        assert(inner =~~= sx + sy);
        if x[0] != sep {
            assert(inner[0] == sx[0]);
            assert(inner.drop_first() =~~= sx.drop_first() + sy);
        }
    }
}

/// The lines of `s`: fields between `'\n'` characters, without a final empty
/// field when `s` ends in a newline — as with the standard `lines`.
pub open spec fn spec_split_lines(s: Seq<char>) -> Seq<Seq<char>> {
    let raw = spec_split_on(s, '\n');
    if raw.last().len() == 0 {
        raw.drop_last()
    } else {
        raw
    }
}

// ---------------------------------------------------------------------------
// Executable helpers
// ---------------------------------------------------------------------------

/// Relies on `String::push`: appends the character to the end of the string.
#[verifier::external_body]
pub fn push_char(s: &mut String, c: char)
    ensures
        final(s)@ == old(s)@.push(c),
{
    s.push(c);
}

pub fn digit_char(d: u8) -> (c: char)
    requires
        d < 10,
    ensures
        c == char_of_digit(d as int),
{
    match d {
        0 => '0',
        1 => '1',
        2 => '2',
        3 => '3',
        4 => '4',
        5 => '5',
        6 => '6',
        7 => '7',
        8 => '8',
        _ => '9',
    }
}

pub fn hex_char(d: u8) -> (c: char)
    requires
        d < 16,
    ensures
        c == char_of_hex(d as int),
{
    match d {
        0 => '0',
        1 => '1',
        2 => '2',
        3 => '3',
        4 => '4',
        5 => '5',
        6 => '6',
        7 => '7',
        8 => '8',
        9 => '9',
        10 => 'A',
        11 => 'B',
        12 => 'C',
        13 => 'D',
        14 => 'E',
        _ => 'F',
    }
}

/// Appends the two-digit zero-padded rendering of `n` to `out`.
pub fn push_pad2(out: &mut String, n: u8)
    requires
        n < 100,
    ensures
        final(out)@ == old(out)@ + spec_pad2(n as int),
{
    let ghost orig = out@;
    push_char(out, digit_char(n / 10));
    push_char(out, digit_char(n % 10));
    proof {
        assert(out@ =~= orig + spec_pad2(n as int));
    }
}

/// Appends the eight-digit zero-padded rendering of `n` to `out`.
pub fn push_dec8(out: &mut String, n: u32)
    requires
        n < 100_000_000,
    ensures
        final(out)@ == old(out)@ + spec_dec8(n as int),
{
    let ghost orig = out@;
    push_char(out, digit_char(((n / 10_000_000) % 10) as u8));
    push_char(out, digit_char(((n / 1_000_000) % 10) as u8));
    push_char(out, digit_char(((n / 100_000) % 10) as u8));
    push_char(out, digit_char(((n / 10_000) % 10) as u8));
    push_char(out, digit_char(((n / 1_000) % 10) as u8));
    push_char(out, digit_char(((n / 100) % 10) as u8));
    push_char(out, digit_char(((n / 10) % 10) as u8));
    push_char(out, digit_char((n % 10) as u8));
    proof {
        assert(out@ =~= orig + spec_dec8(n as int));
    }
}

/// The uppercase hexadecimal rendering of `bytes`.
pub fn hex_upper_string(bytes: &Vec<u8>) -> (r: String)
    ensures
        r@ == spec_hex_upper(bytes@),
{
    let mut out = String::new();
    let mut i: usize = 0;
    while i < bytes.len()
        invariant
            i <= bytes.len(),
            out@ == spec_hex_upper(bytes@.take(i as int)),
        decreases bytes.len() - i,
    {
        let b = bytes[i];
        push_char(&mut out, hex_char(b / 16));
        push_char(&mut out, hex_char(b % 16));
        proof {
            assert(bytes@.take(i + 1) =~= bytes@.take(i as int) + seq![bytes@[i as int]]);
            lemma_hex_upper_concat(bytes@.take(i as int), seq![bytes@[i as int]]);
            let single = seq![bytes@[i as int]];
            assert(single.drop_first() =~= Seq::<u8>::empty());
            assert(spec_hex_upper(Seq::<u8>::empty()) =~= Seq::<char>::empty());
            assert(single[0] == b);
            assert(spec_hex_upper(single) =~= seq![
                char_of_hex(b as int / 16),
                char_of_hex(b as int % 16),
            ]);
            assert(out@ =~= spec_hex_upper(bytes@.take(i + 1)));
        }
        i = i + 1;
    }
    proof {
        assert(bytes@.take(bytes@.len() as int) =~= bytes@);
    }
    out
}

/// A standard unsigned decimal parse of `s`, refusing values above `u32::MAX`.
pub fn parse_u32_str(s: &str) -> (r: Option<u32>)
    ensures
        r is Some <==> (spec_parse_uint(s@) is Some && spec_parse_uint(s@)->0 <= u32::MAX),
        r is Some ==> r->0 as int == spec_parse_uint(s@)->0,
{
    let n = s.unicode_len();
    let mut start: usize = 0;
    if n > 0 && s.get_char(0) == '+' {
        start = 1;
    }
    let ghost ds = if s@.len() > 0 && s@[0] == '+' {
        s@.drop_first()
    } else {
        s@
    };
    if n == start {
        return None;
    }
    let mut acc: u64 = 0;
    let mut i: usize = start;
    while i < n
        invariant
            start <= i <= n,
            n == s@.len(),
            start == 0 || start == 1,
            start == 1 ==> s@.len() > 0 && s@[0] == '+',
            start == 0 ==> !(s@.len() > 0 && s@[0] == '+'),
            ds == if s@.len() > 0 && s@[0] == '+' {
                s@.drop_first()
            } else {
                s@
            },
            all_digits(ds.take(i - start)),
            acc <= u32::MAX,
            acc as int == dec_val(ds.take(i - start)),
        decreases n - i,
    {
        let c = s.get_char(i);
        proof {
            assert(ds[i - start] == s@[i as int]);
        }
        if !('0' <= c && c <= '9') {
            proof {
                assert(!is_digit_char(ds[i - start]));
            }
            return None;
        }
        let d: u64 = (c as u32 as u64) - 48;
        proof {
            assert(d == digit_val(c));
        }
        let next: u64 = acc * 10 + d;
        proof {
            assert(ds.take(i - start + 1).drop_last() =~= ds.take(i - start));
            assert(dec_val(ds.take(i - start + 1)) == acc as int * 10 + d as int);
        }
        if next > u32::MAX as u64 {
            proof {
                assert(all_digits(ds.take(i - start + 1)));
                if all_digits(ds) {
                    lemma_dec_val_prefix(ds, i - start + 1);
                    assert(dec_val(ds) > u32::MAX);
                }
            }
            return None;
        }
        acc = next;
        i = i + 1;
    }
    proof {
        assert(ds.take(i - start) =~= ds);
    }
    Some(acc as u32)
}

/// A standard unsigned decimal parse of `s`, refusing values above `u8::MAX`.
pub fn parse_u8_str(s: &str) -> (r: Option<u8>)
    ensures
        r is Some <==> (spec_parse_uint(s@) is Some && spec_parse_uint(s@)->0 <= u8::MAX),
        r is Some ==> r->0 as int == spec_parse_uint(s@)->0,
{
    match parse_u32_str(s) {
        Some(v) => {
            if v <= u8::MAX as u32 {
                Some(v as u8)
            } else {
                None
            }
        },
        None => None,
    }
}

/// `s` without leading and trailing whitespace.
pub fn trim_str<'a>(s: &'a str) -> (r: &'a str)
    ensures
        r@ == spec_trim(s@),
{
    let n = s.unicode_len();
    let mut start: usize = 0;
    proof {
        assert(s@.skip(0) =~= s@);
    }
    while start < n && is_space(s.get_char(start))
        invariant
            0 <= start <= n,
            n == s@.len(),
            spec_trim_front(s@) == spec_trim_front(s@.skip(start as int)),
            forall|i: int| 0 <= i < start ==> is_space_char(#[trigger] s@[i]),
        decreases n - start,
    {
        proof {
            assert(s@.skip(start as int).drop_first() =~= s@.skip(start + 1));
        }
        start = start + 1;
    }
    proof {
        if start < n {
            assert(!is_space_char(s@.skip(start as int)[0]));
        }
        assert(spec_trim_front(s@) =~= s@.skip(start as int));
        assert(s@.skip(start as int) =~= s@.subrange(start as int, n as int));
    }
    let mut end: usize = n;
    while end > start && is_space(s.get_char(end - 1))
        invariant
            start <= end <= n,
            n == s@.len(),
            spec_trim_front(s@) =~= s@.skip(start as int),
            spec_trim_back(s@.skip(start as int)) == spec_trim_back(
                s@.subrange(start as int, end as int),
            ),
        decreases end,
    {
        proof {
            let cur = s@.subrange(start as int, end as int);
            assert(cur.last() == s@[end - 1]);
            assert(cur.drop_last() =~= s@.subrange(start as int, end - 1));
        }
        end = end - 1;
    }
    proof {
        let cur = s@.subrange(start as int, end as int);
        if end > start {
            assert(cur.last() == s@[end - 1]);
            assert(!is_space_char(cur.last()));
        }
        assert(spec_trim_back(cur) =~= cur);
        assert(spec_trim(s@) =~= s@.subrange(start as int, end as int));
    }
    s.substring_char(start, end)
}

pub fn is_space(c: char) -> (r: bool)
    ensures
        r == is_space_char(c),
{
    c == ' ' || c == '\t' || c == '\n' || c == '\r' || c == '\u{b}' || c == '\u{c}'
}

} // verus!
