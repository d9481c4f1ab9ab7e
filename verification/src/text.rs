//! ASCII text as bytes and as characters: case folding, the passage between
//! byte vectors and strings, and decimal numerals.

use vstd::prelude::*;
use vstd::string::*;
use vstd::utf8::*;

verus! {

/// Whether every byte is an ASCII character.
pub open spec fn is_ascii_bytes(bytes: Seq<u8>) -> bool {
    forall|i: int| 0 <= i < bytes.len() ==> #[trigger] bytes[i] < 0x80
}

/// The characters that ASCII bytes stand for.
pub open spec fn chars_of(bytes: Seq<u8>) -> Seq<char> {
    Seq::new(bytes.len(), |i: int| bytes[i] as char)
}

/// The bytes of ASCII characters.
pub open spec fn bytes_of(chars: Seq<char>) -> Seq<u8> {
    Seq::new(chars.len(), |i: int| chars[i] as u8)
}

/// An ASCII letter in lower case, any other byte as it is.
pub open spec fn lower_byte(byte: u8) -> u8 {
    if 0x41 <= byte <= 0x5a {
        (byte + 0x20) as u8
    } else {
        byte
    }
}

/// Every ASCII letter in lower case.
pub open spec fn lower_bytes(bytes: Seq<u8>) -> Seq<u8> {
    Seq::new(bytes.len(), |i: int| lower_byte(bytes[i]))
}

/// An ASCII letter in lower case, any other character as it is.
pub open spec fn lower_char(c: char) -> char {
    if 'A' <= c <= 'Z' {
        ((c as u8) + 0x20) as char
    } else {
        c
    }
}

/// Every ASCII letter in lower case.
pub open spec fn lower(chars: Seq<char>) -> Seq<char> {
    Seq::new(chars.len(), |i: int| lower_char(chars[i]))
}

/// Whether no character is an ASCII capital.
pub open spec fn is_lower(chars: Seq<char>) -> bool {
    forall|i: int| 0 <= i < chars.len() ==> !('A' <= #[trigger] chars[i] <= 'Z')
}

/// Folding case twice is folding it once.
pub proof fn lemma_lower_idempotent(chars: Seq<char>)
    ensures
        lower(lower(chars)) == lower(chars),
        is_lower(lower(chars)),
        is_ascii_chars(chars) ==> is_ascii_chars(lower(chars)),
        lower(chars).len() == chars.len(),
{
    assert(lower(lower(chars)) =~= lower(chars));
}

/// Text without capitals is its own lower case.
pub proof fn lemma_lower_of_lower(chars: Seq<char>)
    requires
        is_lower(chars),
    ensures
        lower(chars) == chars,
{
    assert(lower(chars) =~= chars);
}

/// ASCII characters and their bytes determine each other.
pub proof fn lemma_ascii_chars_bytes(chars: Seq<char>)
    requires
        is_ascii_chars(chars),
    ensures
        is_ascii_bytes(bytes_of(chars)),
        chars_of(bytes_of(chars)) == chars,
        encode_utf8(chars) == bytes_of(chars),
        lower_bytes(bytes_of(chars)) == bytes_of(lower(chars)),
{
    is_ascii_chars_encode_utf8(chars);
    assert(chars_of(bytes_of(chars)) =~= chars);
    assert(encode_utf8(chars) =~= bytes_of(chars));
    assert(lower_bytes(bytes_of(chars)) =~= bytes_of(lower(chars)));
}

/// ASCII bytes are valid UTF-8 and decode to the characters they stand for.
pub proof fn lemma_ascii_bytes_chars(bytes: Seq<u8>)
    requires
        is_ascii_bytes(bytes),
    ensures
        is_ascii_chars(chars_of(bytes)),
        bytes_of(chars_of(bytes)) == bytes,
        encode_utf8(chars_of(bytes)) == bytes,
        valid_utf8(bytes),
        decode_utf8(bytes) == chars_of(bytes),
{
    let chars = chars_of(bytes);
    assert(is_ascii_chars(chars));
    assert(bytes_of(chars) =~= bytes);
    lemma_ascii_chars_bytes(chars);
    encode_utf8_valid_utf8(chars);
    encode_utf8_decode_utf8(chars);
}

/// `String::from_utf8` of std: succeeds exactly on valid UTF-8, and the
/// string then holds the characters that the bytes encode.
#[verifier::external_body]
pub(crate) fn string_from_utf8(bytes: Vec<u8>) -> (text: Option<String>)
    ensures
        text is Some <==> valid_utf8(bytes@),
        text matches Some(s) ==> s@ == decode_utf8(bytes@),
{
    String::from_utf8(bytes).ok()
}

/// The string that ASCII bytes spell.
pub(crate) fn ascii_to_string(bytes: Vec<u8>) -> (text: String)
    requires
        is_ascii_bytes(bytes@),
    ensures
        text@ == chars_of(bytes@),
{
    proof {
        lemma_ascii_bytes_chars(bytes@);
    }
    match string_from_utf8(bytes) {
        Some(text) => text,
        None => String::new(),
    }
}

/// A copy of the bytes with every ASCII letter in lower case.
pub(crate) fn lowercase_ascii(bytes: &[u8]) -> (lowered: Vec<u8>)
    ensures
        lowered@ == lower_bytes(bytes@),
{
    let mut lowered: Vec<u8> = Vec::new();
    let mut i: usize = 0;
    while i < bytes.len()
        invariant
            i <= bytes@.len(),
            lowered@ == lower_bytes(bytes@.subrange(0, i as int)),
        decreases bytes@.len() - i,
    {
        let byte = bytes[i];
        let folded: u8 = if 0x41 <= byte && byte <= 0x5a { byte + 0x20 } else { byte };
        lowered.push(folded);
        i = i + 1;
        assert(lowered@ =~= lower_bytes(bytes@.subrange(0, i as int)));
    }
    assert(bytes@.subrange(0, i as int) =~= bytes@);
    lowered
}

/// The ASCII digit of a number below ten.
pub open spec fn digit_byte(digit: nat) -> u8 {
    (0x30 + digit % 10) as u8
}

/// The decimal numeral of a number, as ASCII bytes, without leading zeros.
pub open spec fn decimal_bytes(number: nat) -> Seq<u8>
    decreases number,
{
    if number < 10 {
        seq![digit_byte(number)]
    } else {
        decimal_bytes(number / 10).push(digit_byte(number % 10))
    }
}

/// The decimal numeral of a number.
pub open spec fn decimal(number: nat) -> Seq<char> {
    chars_of(decimal_bytes(number))
}

/// A numeral is made of ASCII digits.
pub proof fn lemma_decimal_ascii(number: nat)
    ensures
        is_ascii_bytes(decimal_bytes(number)),
        decimal_bytes(number).len() >= 1,
    decreases number,
{
    if number >= 10 {
        lemma_decimal_ascii(number / 10);
    }
}

/// Appends the decimal numeral of `number` to `target`.
fn write_decimal(target: &mut Vec<u8>, number: u64)
    ensures
        final(target)@ == old(target)@ + decimal_bytes(number as nat),
    decreases number,
{
    if number < 10 {
        target.push(0x30 + number as u8);
        assert(final(target)@ =~= old(target)@ + decimal_bytes(number as nat));
    } else {
        write_decimal(target, number / 10);
        target.push(0x30 + (number % 10) as u8);
        assert(final(target)@ =~= old(target)@ + decimal_bytes(number as nat));
    }
}

/// The decimal numeral of `number` as a string.
pub fn to_decimal(number: u64) -> (text: String)
    ensures
        text@ == decimal(number as nat),
{
    let mut digits: Vec<u8> = Vec::new();
    write_decimal(&mut digits, number);
    proof {
        lemma_decimal_ascii(number as nat);
        assert(digits@ =~= decimal_bytes(number as nat));
    }
    ascii_to_string(digits)
}

/// The lower-case hexadecimal digit of a number below sixteen.
pub open spec fn hex_digit(nibble: nat) -> char {
    if nibble % 16 < 10 {
        (0x30 + nibble % 16) as char
    } else {
        (0x57 + nibble % 16) as char
    }
}

/// Two lower-case hexadecimal digits for each byte, the high one first.
pub open spec fn hex_digits(bytes: Seq<u8>) -> Seq<char> {
    Seq::new(
        2 * bytes.len(),
        |i: int|
            if i % 2 == 0 {
                hex_digit((bytes[i / 2] / 16) as nat)
            } else {
                hex_digit((bytes[i / 2] % 16) as nat)
            },
    )
}

/// `hex::encode`: the bytes as lower-case hexadecimal digits, two for each
/// byte, the high one first.
#[verifier::external_body]
pub(crate) fn hex_encode(bytes: &[u8]) -> (text: String)
    ensures
        text@ == hex_digits(bytes@),
{
    hex::encode(bytes)
}

/// Whether two texts are equal.
pub(crate) fn str_eq(a: &str, b: &str) -> (same: bool)
    ensures
        same == (a@ == b@),
{
    proof {
        encode_utf8_decode_utf8(a@);
        encode_utf8_decode_utf8(b@);
    }
    bytes_eq(a.as_bytes(), b.as_bytes())
}

/// Whether two byte strings are equal.
pub(crate) fn bytes_eq(a: &[u8], b: &[u8]) -> (same: bool)
    ensures
        same == (a@ == b@),
{
    if a.len() != b.len() {
        return false;
    }
    let mut i: usize = 0;
    while i < a.len()
        invariant
            i <= a@.len() == b@.len(),
            a@.subrange(0, i as int) == b@.subrange(0, i as int),
        decreases a@.len() - i,
    {
        if a[i] != b[i] {
            return false;
        }
        i = i + 1;
        assert(a@.subrange(0, i as int) =~= a@.subrange(0, i - 1).push(a@[i - 1]));
        assert(b@.subrange(0, i as int) =~= b@.subrange(0, i - 1).push(b@[i - 1]));
    }
    assert(a@.subrange(0, i as int) =~= a@);
    assert(b@.subrange(0, i as int) =~= b@);
    true
}

} // verus!
