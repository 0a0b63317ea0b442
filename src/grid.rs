//! Parsing of grid descriptors of the form `<columns>x<rows>`.

use vstd::prelude::*;
use vstd::utf8::{encode_scalar, encode_utf8, is_ascii_chars, is_ascii_chars_encode_utf8};

verus! {

/// Why a grid descriptor was rejected.
#[derive(Debug, Clone, Copy, PartialEq, Eq, Structural)]
pub enum GridError {
    /// The text does not hold exactly one `x`.
    Separator,
    /// One side of the `x` is not a decimal number that fits in 32 bits.
    Number,
}

pub open spec fn is_digit(b: u8) -> bool {
    48 <= b && b <= 57
}

pub open spec fn all_digits(s: Seq<u8>) -> bool {
    forall|i: int| 0 <= i < s.len() ==> is_digit(#[trigger] s[i])
}

/// The value of a sequence of decimal digits, most significant first.
pub open spec fn digits_value(s: Seq<u8>) -> nat
    decreases s.len(),
{
    if s.len() == 0 {
        0
    } else {
        digits_value(s.drop_last()) * 10 + (s.last() - 48) as nat
    }
}

/// The digits of a number's text, without its optional leading `+`.
pub open spec fn unsigned_part(s: Seq<u8>) -> Seq<u8> {
    if s.len() > 0 && s[0] == 43 {
        s.drop_first()
    } else {
        s
    }
}

/// The number a text stands for: an optional `+`, then at least one decimal
/// digit, with a value that fits in a `u32`.
pub open spec fn number_of(s: Seq<u8>) -> Option<u32> {
    let d = unsigned_part(s);
    if d.len() > 0 && all_digits(d) && digits_value(d) <= u32::MAX {
        Some(digits_value(d) as u32)
    } else {
        None
    }
}

/// `k` is the position of the one and only `x` in `s`.
pub open spec fn separator_at(s: Seq<u8>, k: int) -> bool {
    &&& 0 <= k < s.len()
    &&& s[k] == 120
    &&& forall|i: int| 0 <= i < s.len() && i != k ==> #[trigger] s[i] != 120
}

/// What a grid descriptor, as UTF-8 bytes, denotes: the two numbers on either
/// side of its single `x`, columns first.
#[verifier::opaque]
pub open spec fn grid_of(s: Seq<u8>) -> Result<(u32, u32), GridError> {
    if exists|k: int| separator_at(s, k) {
        let k = choose|k: int| separator_at(s, k);
        match (number_of(s.subrange(0, k)), number_of(s.subrange(k + 1, s.len() as int))) {
            (Some(a), Some(b)) => Ok((a, b)),
            _ => Err(GridError::Number),
        }
    } else {
        Err(GridError::Separator)
    }
}

proof fn lemma_digits_value_prefix(s: Seq<u8>, i: int)
    requires
        0 <= i <= s.len(),
        all_digits(s),
    ensures
        digits_value(s.subrange(0, i)) <= digits_value(s),
    decreases s.len() - i,
{
    if i < s.len() {
        lemma_digits_value_prefix(s, i + 1);
        let p = s.subrange(0, i + 1);
        assert(p.drop_last() =~= s.subrange(0, i));
    } else {
        assert(s.subrange(0, i) =~= s);
    }
}

/// Reads the number written in `s[start..end]`.
fn parse_number(s: &[u8], start: usize, end: usize) -> (r: Option<u32>)
    requires
        start <= end <= s@.len(),
    ensures
        r == number_of(s@.subrange(start as int, end as int)),
{
    let ghost t = s@.subrange(start as int, end as int);
    let mut i = start;
    if i < end && s[i] == 43 {
        i = i + 1;
    }
    let ghost d = s@.subrange(i as int, end as int);
    assert(d =~= unsigned_part(t));
    if i == end {
        return None;
    }
    let first = i;
    let mut value: u64 = 0;
    while i < end
        invariant
            first <= i <= end <= s@.len(),
            d == s@.subrange(first as int, end as int),
            t == s@.subrange(start as int, end as int),
            d == unsigned_part(t),
            all_digits(s@.subrange(first as int, i as int)),
            value == digits_value(s@.subrange(first as int, i as int)),
            value <= u32::MAX,
        decreases end - i,
    {
        let b = s[i];
        let ghost p = s@.subrange(first as int, i as int + 1);
        assert(p.drop_last() =~= s@.subrange(first as int, i as int));
        if b < 48 || b > 57 {
            assert(!is_digit(d[i - first]));
            return None;
        }
        let next = value * 10 + (b - 48) as u64;
        assert(digits_value(p) == next);
        if next > u32::MAX as u64 {
            proof {
                if all_digits(d) {
                    assert(d.subrange(0, i - first + 1) =~= p);
                    lemma_digits_value_prefix(d, i - first + 1);
                }
            }
            return None;
        }
        value = next;
        i = i + 1;
    }
    assert(s@.subrange(first as int, i as int) =~= d);
    Some(value as u32)
}

/// Parses a grid descriptor `<columns>x<rows>` from its bytes.
pub fn parse_grid_bytes(s: &[u8]) -> (r: Result<(u32, u32), GridError>)
    ensures
        r == grid_of(s@),
{
    reveal(grid_of);
    let mut k: usize = 0;
    while k < s.len() && s[k] != 120
        invariant
            k <= s@.len(),
            forall|i: int| 0 <= i < k ==> s@[i] != 120,
        decreases s.len() - k,
    {
        k = k + 1;
    }
    if k == s.len() {
        assert(!exists|j: int| separator_at(s@, j));
        return Err(GridError::Separator);
    }
    let mut j: usize = k + 1;
    while j < s.len()
        invariant
            k < j <= s@.len(),
            s@[k as int] == 120,
            forall|i: int| 0 <= i < k ==> s@[i] != 120,
            forall|i: int| k < i < j ==> s@[i] != 120,
        decreases s.len() - j,
    {
        if s[j] == 120 {
            reveal(grid_of);
            assert(!separator_at(s@, k as int) && !separator_at(s@, j as int));
            assert forall|m: int| !separator_at(s@, m) by {
                if separator_at(s@, m) {
                    assert(m == k || s@[k as int] != 120);
                    assert(m == j || s@[j as int] != 120);
                }
            }
            return Err(GridError::Separator);
        }
        j = j + 1;
    }
    assert(separator_at(s@, k as int));
    let ghost c = choose|m: int| separator_at(s@, m);
    assert(c == k);
    let columns = parse_number(s, 0, k);
    let rows = parse_number(s, k + 1, s.len());
    match (columns, rows) {
        (Some(a), Some(b)) => Ok((a, b)),
        _ => Err(GridError::Number),
    }
}

/// Parses a grid descriptor such as `"4x2"` into `(columns, rows)`.
///
/// The text must hold exactly one `x`, and each side of it must be a
/// non-negative decimal number that fits in a `u32`; zero is accepted here and
/// left for the caller to judge.
pub fn read_grid(grid: String) -> (r: Result<(u32, u32), GridError>)
    ensures
        r == grid_of(encode_utf8(grid@)),
{
    let text = grid.as_str();
    parse_grid_bytes(text.as_bytes())
}

/// Two runs of decimal digits joined by one `x`, each run of value at most
/// `u32::MAX`, read as the grid of those two values, columns first.
pub proof fn lemma_digits_grid(a: Seq<u8>, b: Seq<u8>)
    requires
        a.len() > 0,
        b.len() > 0,
        all_digits(a),
        all_digits(b),
        digits_value(a) <= u32::MAX,
        digits_value(b) <= u32::MAX,
    ensures
        grid_of(a + seq![120u8] + b) == Ok::<(u32, u32), GridError>(
            (digits_value(a) as u32, digits_value(b) as u32),
        ),
{
    reveal(grid_of);
    let s = a + seq![120u8] + b;
    let k = a.len() as int;
    assert forall|i: int| 0 <= i < s.len() && i != k implies #[trigger] s[i] != 120 by {
        if i < k {
            assert(s[i] == a[i] && is_digit(a[i]));
        } else {
            assert(s[i] == b[i - k - 1] && is_digit(b[i - k - 1]));
        }
    }
    assert(separator_at(s, k));
    let c = choose|m: int| separator_at(s, m);
    assert(c == k);
    assert(s.subrange(0, k) =~= a);
    assert(s.subrange(k + 1, s.len() as int) =~= b);
    assert(is_digit(a[0]) && is_digit(b[0]));
    assert(unsigned_part(a) == a);
    assert(unsigned_part(b) == b);
}

/// A descriptor with two or more `x` is rejected for its separator.
pub proof fn lemma_two_separators_rejected(s: Seq<u8>, i: int, j: int)
    requires
        0 <= i < j < s.len(),
        s[i] == 120,
        s[j] == 120,
    ensures
        grid_of(s) == Err::<(u32, u32), GridError>(GridError::Separator),
{
    reveal(grid_of);
    assert forall|m: int| !separator_at(s, m) by {
        if separator_at(s, m) {
            assert(m == i || s[i] != 120);
            assert(m == j || s[j] != 120);
        }
    }
}

/// A character is a decimal digit.
pub open spec fn is_digit_char(c: char) -> bool {
    '0' <= c && c <= '9'
}

/// The bytes of a text made of ASCII characters, one per character.
pub open spec fn ascii_bytes(s: Seq<char>) -> Seq<u8> {
    Seq::new(s.len(), |i: int| s[i] as u8)
}

proof fn lemma_ascii_encoding(s: Seq<char>)
    requires
        is_ascii_chars(s),
    ensures
        encode_utf8(s) == ascii_bytes(s),
{
    is_ascii_chars_encode_utf8(s);
    assert(encode_utf8(s) =~= ascii_bytes(s));
}

/// Two non-empty runs of decimal digit characters joined by one `x`, each of
/// value at most `u32::MAX`, read as the grid of those two values.
pub proof fn lemma_digit_text_grid(a: Seq<char>, b: Seq<char>)
    requires
        a.len() > 0,
        b.len() > 0,
        forall|i: int| 0 <= i < a.len() ==> is_digit_char(#[trigger] a[i]),
        forall|i: int| 0 <= i < b.len() ==> is_digit_char(#[trigger] b[i]),
        digits_value(ascii_bytes(a)) <= u32::MAX,
        digits_value(ascii_bytes(b)) <= u32::MAX,
    ensures
        grid_of(encode_utf8(a + seq!['x'] + b)) == Ok::<(u32, u32), GridError>(
            (digits_value(ascii_bytes(a)) as u32, digits_value(ascii_bytes(b)) as u32),
        ),
{
    let s = a + seq!['x'] + b;
    assert(is_ascii_chars(s));
    lemma_ascii_encoding(s);
    assert(ascii_bytes(s) =~= ascii_bytes(a) + seq![120u8] + ascii_bytes(b));
    assert(all_digits(ascii_bytes(a)));
    assert(all_digits(ascii_bytes(b)));
    lemma_digits_grid(ascii_bytes(a), ascii_bytes(b));
}

/// A side of a descriptor that is empty, or holds a byte that is neither a
/// digit nor `+`, is no number.
proof fn lemma_bad_number(t: Seq<u8>, m: int)
    requires
        t.len() == 0 || (0 <= m < t.len() && !is_digit(t[m]) && t[m] != 43),
    ensures
        number_of(t) is None,
{
    if t.len() > 0 {
        let d = unsigned_part(t);
        if d.len() > 0 && all_digits(d) {
            if t[0] == 43 {
                assert(m >= 1 && d[m - 1] == t[m]);
            } else {
                assert(d[m] == t[m]);
            }
        }
    }
}

/// An ASCII text with exactly one `x`, one of whose sides is empty or holds a
/// character that is neither a digit nor `+`, is rejected for its number.
pub proof fn lemma_bad_side_rejected(s: Seq<char>, k: int, m: int)
    requires
        is_ascii_chars(s),
        0 <= k < s.len(),
        s[k] == 'x',
        forall|i: int| 0 <= i < s.len() && i != k ==> #[trigger] s[i] != 'x',
        k == 0 || k == s.len() - 1 || (0 <= m < s.len() && m != k && !is_digit_char(s[m])
            && s[m] != '+'),
    ensures
        grid_of(encode_utf8(s)) == Err::<(u32, u32), GridError>(GridError::Number),
{
    reveal(grid_of);
    lemma_ascii_encoding(s);
    let t = ascii_bytes(s);
    assert forall|i: int| 0 <= i < t.len() && i != k implies #[trigger] t[i] != 120 by {
        assert(s[i] != 'x' && (s[i] as u32) < 128);
    }
    assert(separator_at(t, k));
    let c = choose|q: int| separator_at(t, q);
    assert(c == k);
    let left = t.subrange(0, k);
    let right = t.subrange(k + 1, t.len() as int);
    if k == 0 {
        lemma_bad_number(left, 0);
    } else if k == s.len() - 1 {
        lemma_bad_number(right, 0);
    } else {
        assert((s[m] as u32) < 128);
        if m < k {
            assert(left[m] == t[m]);
            lemma_bad_number(left, m);
        } else {
            assert(right[m - k - 1] == t[m]);
            lemma_bad_number(right, m - k - 1);
        }
    }
}

/// Number of `x` bytes in `t`.
pub open spec fn x_bytes(t: Seq<u8>) -> nat
    decreases t.len(),
{
    if t.len() == 0 {
        0
    } else {
        (if t[0] == 120 { 1nat } else { 0nat }) + x_bytes(t.drop_first())
    }
}

/// Number of `x` characters in `s`.
pub open spec fn x_chars(s: Seq<char>) -> nat
    decreases s.len(),
{
    if s.len() == 0 {
        0
    } else {
        (if s[0] == 'x' { 1nat } else { 0nat }) + x_chars(s.drop_first())
    }
}

proof fn lemma_x_bytes_concat(a: Seq<u8>, b: Seq<u8>)
    ensures
        x_bytes(a + b) == x_bytes(a) + x_bytes(b),
    decreases a.len(),
{
    if a.len() > 0 {
        lemma_x_bytes_concat(a.drop_first(), b);
        assert((a + b).drop_first() =~= a.drop_first() + b);
    } else {
        assert(a + b =~= b);
    }
}

proof fn lemma_scalar_x_bytes(c: char)
    ensures
        x_bytes(encode_scalar(c as u32)) == if c == 'x' { 1nat } else { 0nat },
{
    let v = c as u32;
    let e = encode_scalar(v);
    reveal_with_fuel(x_bytes, 5);
    assert(0xC0u8 | ((v >> 6u32) & 0x1Fu32) as u8 != 120u8) by (bit_vector);
    assert(0xE0u8 | ((v >> 12u32) & 0x0Fu32) as u8 != 120u8) by (bit_vector);
    assert(0xF0u8 | ((v >> 18u32) & 0x7u32) as u8 != 120u8) by (bit_vector);
    assert(0x80u8 | (v & 0x3Fu32) as u8 != 120u8) by (bit_vector);
    assert(0x80u8 | ((v >> 6u32) & 0x3Fu32) as u8 != 120u8) by (bit_vector);
    assert(0x80u8 | ((v >> 12u32) & 0x3Fu32) as u8 != 120u8) by (bit_vector);
    if v <= 0x7f {
        assert(((v & 0x7F) as u8 == 120) == (v == 120)) by (bit_vector)
            requires
                v <= 0x7f,
        ;
    }
    assert(e.len() >= 1 && e.len() <= 4);
    assert(e.drop_first().drop_first().drop_first().drop_first().len() == 0 || e.len() < 4);
}

proof fn lemma_encoding_x_count(s: Seq<char>)
    ensures
        x_bytes(encode_utf8(s)) == x_chars(s),
    decreases s.len(),
{
    if s.len() > 0 {
        lemma_encoding_x_count(s.drop_first());
        lemma_scalar_x_bytes(s[0]);
        lemma_x_bytes_concat(encode_scalar(s[0] as u32), encode_utf8(s.drop_first()));
    }
}

proof fn lemma_no_x_byte(t: Seq<u8>)
    requires
        forall|i: int| 0 <= i < t.len() ==> #[trigger] t[i] != 120,
    ensures
        x_bytes(t) == 0,
    decreases t.len(),
{
    if t.len() > 0 {
        assert(t[0] != 120);
        lemma_no_x_byte(t.drop_first());
    }
}

proof fn lemma_separator_count(t: Seq<u8>, k: int)
    requires
        separator_at(t, k),
    ensures
        x_bytes(t) == 1,
    decreases t.len(),
{
    let rest = t.drop_first();
    if k == 0 {
        assert forall|i: int| 0 <= i < rest.len() implies #[trigger] rest[i] != 120 by {
            assert(rest[i] == t[i + 1]);
        }
        lemma_no_x_byte(rest);
    } else {
        assert forall|i: int| 0 <= i < rest.len() && i != k - 1 implies #[trigger] rest[i] != 120 by {
            assert(rest[i] == t[i + 1]);
        }
        assert(separator_at(rest, k - 1));
        lemma_separator_count(rest, k - 1);
    }
}

proof fn lemma_x_chars_at_least(s: Seq<char>, i: int, j: int)
    requires
        0 <= i < j < s.len(),
        s[i] == 'x',
        s[j] == 'x',
    ensures
        x_chars(s) >= 2,
    decreases s.len(),
{
    let rest = s.drop_first();
    if i == 0 {
        assert(rest[j - 1] == 'x');
        lemma_x_chars_positive(rest, j - 1);
    } else {
        assert(rest[i - 1] == 'x' && rest[j - 1] == 'x');
        lemma_x_chars_at_least(rest, i - 1, j - 1);
    }
}

proof fn lemma_x_chars_positive(s: Seq<char>, i: int)
    requires
        0 <= i < s.len(),
        s[i] == 'x',
    ensures
        x_chars(s) >= 1,
    decreases s.len(),
{
    if i > 0 {
        let rest = s.drop_first();
        assert(rest[i - 1] == 'x');
        lemma_x_chars_positive(rest, i - 1);
    }
}

/// A text without an `x` is rejected for its separator.
pub proof fn lemma_text_without_separator_rejected(s: Seq<char>)
    requires
        forall|i: int| 0 <= i < s.len() ==> #[trigger] s[i] != 'x',
    ensures
        grid_of(encode_utf8(s)) == Err::<(u32, u32), GridError>(GridError::Separator),
{
    reveal(grid_of);
    assert(x_chars(s) == 0) by {
        if x_chars(s) != 0 {
            lemma_x_chars_zero(s);
        }
    }
    lemma_encoding_x_count(s);
    assert forall|k: int| !separator_at(encode_utf8(s), k) by {
        if separator_at(encode_utf8(s), k) {
            lemma_separator_count(encode_utf8(s), k);
        }
    }
}

proof fn lemma_x_chars_zero(s: Seq<char>)
    requires
        forall|i: int| 0 <= i < s.len() ==> #[trigger] s[i] != 'x',
    ensures
        x_chars(s) == 0,
    decreases s.len(),
{
    if s.len() > 0 {
        let rest = s.drop_first();
        assert(s[0] != 'x');
        assert forall|i: int| 0 <= i < rest.len() implies #[trigger] rest[i] != 'x' by {
            assert(rest[i] == s[i + 1]);
        }
        lemma_x_chars_zero(rest);
    }
}

/// A text with two or more `x` is rejected for its separator.
pub proof fn lemma_text_with_two_separators_rejected(s: Seq<char>, i: int, j: int)
    requires
        0 <= i < j < s.len(),
        s[i] == 'x',
        s[j] == 'x',
    ensures
        grid_of(encode_utf8(s)) == Err::<(u32, u32), GridError>(GridError::Separator),
{
    reveal(grid_of);
    lemma_x_chars_at_least(s, i, j);
    lemma_encoding_x_count(s);
    assert forall|k: int| !separator_at(encode_utf8(s), k) by {
        if separator_at(encode_utf8(s), k) {
            lemma_separator_count(encode_utf8(s), k);
        }
    }
}

} // verus!
