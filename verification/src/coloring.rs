//! Tag color utilities: a deterministic color hash for new tags, and the
//! conversions between the packed `0xRRGGBB` integer the store keeps and
//! the textual forms the command layer exchanges.

use vstd::prelude::*;

use crate::errors::AppError;

verus! {

pub const PRIME_MUL: u64 = 2147462143;

pub const PRIME_MOD: u64 = 998244353;

/// The rolling hash over the characters of a tag name: each step mixes the
/// next code point in and reduces modulo `PRIME_MOD`.
pub open spec fn color_hash(s: Seq<char>) -> int
    decreases s.len(),
{
    if s.len() == 0 {
        0
    } else {
        ((s.last() as int) * (PRIME_MUL as int) + color_hash(s.drop_last()) * 255) % (
        PRIME_MOD as int)
    }
}

/// The color a tag name hashes to: the low 24 bits of the rolling hash.
pub open spec fn string_color(s: Seq<char>) -> int {
    color_hash(s) % 0x1000000
}

/// The rolling hash stays within `[0, PRIME_MOD)`.
proof fn lemma_color_hash_range(s: Seq<char>)
    ensures
        0 <= color_hash(s) < PRIME_MOD,
    decreases s.len(),
{
    if s.len() > 0 {
        lemma_color_hash_range(s.drop_last());
    }
}

/// Hashes a tag name to a packed `0xRRGGBB` color.
pub fn string_to_color(input: &str) -> (r: i32)
    ensures
        r as int == string_color(input@),
        0 <= r < 0x1000000,
{
    let n = input.unicode_len();
    let mut hash: u64 = 0;
    let mut i: usize = 0;
    proof {
        assert(input@.take(0) =~= Seq::<char>::empty());
    }
    while i < n
        invariant
            i <= n,
            n == input@.len(),
            hash == color_hash(input@.take(i as int)),
            hash < PRIME_MOD,
        decreases n - i,
    {
        let c = input.get_char(i);
        proof {
            assert(input@.take(i + 1).drop_last() =~= input@.take(i as int));
            assert(input@.take(i + 1).last() == input@[i as int]);
            assert((c as u64) <= 0x10FFFF) by {
                assert((c as u32) <= 0x10FFFF);
            }
        }
        hash = ((c as u64) * PRIME_MUL + hash * 255) % PRIME_MOD;
        i = i + 1;
    }
    proof {
        assert(input@.take(n as int) =~= input@);
        assert(hash & 0xffffff == hash % 0x1000000) by (bit_vector);
        lemma_color_hash_range(input@);
    }
    (hash & 0xffffff) as i32
}

/// Splits a packed color into its red, green and blue components, each
/// still in its own byte position.
pub fn int_to_rgb(input: i32) -> (r: (i32, i32, i32))
    ensures
        r == (input & 0xff0000, input & 0xff00, input & 0xff),
{
    (input & 0xff0000, input & 0xff00, input & 0xff)
}

/// The numeric value of one hexadecimal digit; a non-digit maps to 16.
pub open spec fn hex_digit_value(c: char) -> int {
    let v = c as int;
    if 48 <= v <= 57 {
        v - 48
    } else if 97 <= v <= 102 {
        v - 97 + 10
    } else if 65 <= v <= 70 {
        v - 65 + 10
    } else {
        16
    }
}

/// Whether `c` is a hexadecimal digit (either case).
pub open spec fn is_hex_digit(c: char) -> bool {
    hex_digit_value(c) < 16
}

/// The value of a sequence of hexadecimal digits, most significant first.
pub open spec fn hex_value(s: Seq<char>) -> int
    decreases s.len(),
{
    if s.len() == 0 {
        0
    } else {
        hex_value(s.drop_last()) * 16 + hex_digit_value(s.last())
    }
}

/// The digit part of a hex numeral: everything after an optional sign.
pub open spec fn hex_digits_part(s: Seq<char>) -> Seq<char> {
    if s.len() > 0 && (s[0] == '+' || s[0] == '-') {
        s.skip(1)
    } else {
        s
    }
}

/// The sign of a hex numeral: `-1` for a leading minus, `1` otherwise.
pub open spec fn hex_sign(s: Seq<char>) -> int {
    if s.len() > 0 && s[0] == '-' {
        -1
    } else {
        1
    }
}

/// Whether `s` is a well-formed hex numeral: an optional sign followed by
/// one or more hexadecimal digits.
pub open spec fn parses_as_hex(s: Seq<char>) -> bool {
    &&& hex_digits_part(s).len() > 0
    &&& forall|i: int|
        0 <= i < hex_digits_part(s).len() ==> is_hex_digit(#[trigger] hex_digits_part(s)[i])
}

/// The signed value of a hex numeral.
pub open spec fn hex_signed_value(s: Seq<char>) -> int {
    hex_sign(s) * hex_value(hex_digits_part(s))
}

/// A digit string's value is never negative.
proof fn lemma_hex_value_nonneg(s: Seq<char>)
    ensures
        hex_value(s) >= 0,
    decreases s.len(),
{
    if s.len() > 0 {
        lemma_hex_value_nonneg(s.drop_last());
    }
}

/// Extending a digit string never lowers its value.
proof fn lemma_hex_value_prefix_le(s: Seq<char>, i: int)
    requires
        0 <= i <= s.len(),
    ensures
        hex_value(s.take(i)) <= hex_value(s),
    decreases s.len() - i,
{
    if i < s.len() {
        lemma_hex_value_prefix_le(s, i + 1);
        assert(s.take(i + 1).drop_last() =~= s.take(i));
        assert(s.take(i + 1).last() == s[i]);
        lemma_hex_value_nonneg(s.take(i));
    } else {
        assert(s.take(i) =~= s);
    }
}

/// The numeric value of one hexadecimal digit character, or 16 for any
/// other character.
fn hex_digit_of(c: char) -> (r: u32)
    ensures
        r == hex_digit_value(c),
{
    let v = c as u32;
    if 48 <= v && v <= 57 {
        v - 48
    } else if 97 <= v && v <= 102 {
        v - 97 + 10
    } else if 65 <= v && v <= 70 {
        v - 65 + 10
    } else {
        16
    }
}

/// Parses a hex numeral — an optional sign followed by hex digits — into a
/// packed color, exactly as parsing the string as a base-16 `i32` would:
/// a malformed numeral or one whose value does not fit is rejected with
/// `InvalidColor`.
pub fn rgb_string_to_int(input: &str) -> (r: Result<i32, AppError>)
    ensures
        parses_as_hex(input@) && i32::MIN <= hex_signed_value(input@) <= i32::MAX ==> (r matches Ok(
            v,
        ) && v as int == hex_signed_value(input@)),
        !(parses_as_hex(input@) && i32::MIN <= hex_signed_value(input@) <= i32::MAX) ==> r == Err::<
            i32,
            AppError,
        >(AppError::InvalidColor),
{
    let n = input.unicode_len();
    let mut start: usize = 0;
    let mut negative: bool = false;
    if n > 0 {
        let c0 = input.get_char(0);
        if c0 == '-' {
            negative = true;
            start = 1;
        } else if c0 == '+' {
            start = 1;
        }
    }
    let ghost digits = hex_digits_part(input@);
    proof {
        assert(digits =~= input@.skip(start as int));
        if input@.len() > 0 && (input@[0] == '+' || input@[0] == '-') {
            assert(start == 1);
        }
    }
    if start >= n {
        // empty input, or a sign with no digits
        return Err(AppError::InvalidColor);
    }
    let bound: u64 = if negative {
        0x80000000
    } else {
        0x7fffffff
    };
    let mut acc: u64 = 0;
    let mut i: usize = start;
    proof {
        assert(digits.take(0) =~= Seq::<char>::empty());
    }
    while i < n
        invariant
            start <= i <= n,
            n == input@.len(),
            digits == hex_digits_part(input@),
            digits == input@.skip(start as int),
            digits.len() == n - start,
            acc == hex_value(digits.take(i - start)),
            acc <= bound,
            bound == if negative {
                0x80000000u64
            } else {
                0x7fffffffu64
            },
            negative ==> hex_sign(input@) == -1,
            !negative ==> hex_sign(input@) == 1,
            forall|j: int| 0 <= j < i - start ==> is_hex_digit(#[trigger] digits[j]),
        decreases n - i,
    {
        let c = input.get_char(i);
        proof {
            assert(digits[i - start] == input@[i as int]);
            assert(digits.take(i - start + 1).drop_last() =~= digits.take(i - start));
            assert(digits.take(i - start + 1).last() == digits[i - start]);
        }
        let d = hex_digit_of(c);
        if d >= 16 {
            proof {
                assert(!is_hex_digit(digits[i - start]));
                assert(!parses_as_hex(input@));
            }
            return Err(AppError::InvalidColor);
        }
        acc = acc * 16 + d as u64;
        if acc > bound {
            // the remaining digits can only grow the value further
            proof {
                lemma_hex_value_prefix_le(digits, i - start + 1);
                lemma_hex_value_nonneg(digits.take(i - start + 1));
                assert(hex_value(digits) >= acc);
                if negative {
                    assert(hex_signed_value(input@) < i32::MIN);
                } else {
                    assert(hex_signed_value(input@) > i32::MAX);
                }
            }
            return Err(AppError::InvalidColor);
        }
        i = i + 1;
    }
    proof {
        assert(digits.take(n - start) =~= digits);
        assert(parses_as_hex(input@));
    }
    if negative {
        proof {
            lemma_hex_value_nonneg(digits);
        }
        Ok((acc as i64 * -1) as i32)
    } else {
        Ok(acc as i32)
    }
}

/// The uppercase character of one hexadecimal digit.
pub open spec fn hex_digit_char(d: int) -> char {
    if d == 0 {
        '0'
    } else if d == 1 {
        '1'
    } else if d == 2 {
        '2'
    } else if d == 3 {
        '3'
    } else if d == 4 {
        '4'
    } else if d == 5 {
        '5'
    } else if d == 6 {
        '6'
    } else if d == 7 {
        '7'
    } else if d == 8 {
        '8'
    } else if d == 9 {
        '9'
    } else if d == 10 {
        'A'
    } else if d == 11 {
        'B'
    } else if d == 12 {
        'C'
    } else if d == 13 {
        'D'
    } else if d == 14 {
        'E'
    } else {
        'F'
    }
}

/// One color byte as text: its uppercase hex numeral without a leading
/// zero, padded on the right with `'0'` to two characters.
pub open spec fn byte_hex(v: int) -> Seq<char> {
    if v < 16 {
        seq![hex_digit_char(v), '0']
    } else {
        seq![hex_digit_char(v / 16), hex_digit_char(v % 16)]
    }
}

/// The textual form of a packed color: `'#'` followed by the red, green
/// and blue bytes, each rendered by [`byte_hex`].
pub open spec fn color_string(input: i32) -> Seq<char> {
    seq!['#'] + byte_hex(((input >> 16) & 0xff) as int) + byte_hex(((input >> 8) & 0xff) as int)
        + byte_hex((input & 0xff) as int)
}

/// The one-character string of one hexadecimal digit.
fn hex_digit_str(d: u32) -> (r: &'static str)
    requires
        d < 16,
    ensures
        r@ =~= seq![hex_digit_char(d as int)],
{
    proof {
        reveal_strlit("0");
        reveal_strlit("1");
        reveal_strlit("2");
        reveal_strlit("3");
        reveal_strlit("4");
        reveal_strlit("5");
        reveal_strlit("6");
        reveal_strlit("7");
        reveal_strlit("8");
        reveal_strlit("9");
        reveal_strlit("A");
        reveal_strlit("B");
        reveal_strlit("C");
        reveal_strlit("D");
        reveal_strlit("E");
        reveal_strlit("F");
    }
    match d {
        0 => "0",
        1 => "1",
        2 => "2",
        3 => "3",
        4 => "4",
        5 => "5",
        6 => "6",
        7 => "7",
        8 => "8",
        9 => "9",
        10 => "A",
        11 => "B",
        12 => "C",
        13 => "D",
        14 => "E",
        _ => "F",
    }
}

/// Appends one color byte to `out` as [`byte_hex`] renders it.
fn push_byte_hex(out: &mut String, v: u32)
    requires
        v < 256,
    ensures
        final(out)@ == old(out)@ + byte_hex(v as int),
{
    if v < 16 {
        out.append(hex_digit_str(v));
        out.append(hex_digit_str(0));
        proof {
            assert(hex_digit_char(0) == '0');
            assert(old(out)@ + seq![hex_digit_char(v as int)] + seq!['0'] =~= old(out)@ + byte_hex(
                v as int,
            ));
        }
    } else {
        out.append(hex_digit_str(v / 16));
        out.append(hex_digit_str(v % 16));
        proof {
            assert(old(out)@ + seq![hex_digit_char(v as int / 16)] + seq![
                hex_digit_char(v as int % 16),
            ] =~= old(out)@ + byte_hex(v as int));
        }
    }
}

/// Renders a packed color as `"#RRGGBB"`-style text (each byte by
/// [`byte_hex`]), the form the command layer hands to the view.
pub fn rgb_int_to_string(input: i32) -> (r: String)
    ensures
        r@ == color_string(input),
{
    let red = (input >> 16) & 0xff;
    let green = (input >> 8) & 0xff;
    let blue = input & 0xff;
    proof {
        lemma_byte_mask_range(input >> 16);
        lemma_byte_mask_range(input >> 8);
        lemma_byte_mask_range(input);
        reveal_strlit("#");
    }
    let mut out = String::from_str("#");
    push_byte_hex(&mut out, red as u32);
    push_byte_hex(&mut out, green as u32);
    push_byte_hex(&mut out, blue as u32);
    proof {
        assert(out@ =~= color_string(input));
    }
    out
}

/// Masking an integer to its low byte lands in `[0, 255]`.
proof fn lemma_byte_mask_range(x: i32)
    ensures
        0 <= x & 0xff <= 255,
{
    assert(0 <= x & 0xff <= 255) by (bit_vector);
}

} // verus!
