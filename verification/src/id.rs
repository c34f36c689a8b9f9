//! Node identifiers: 128-bit values, their text forms, and where they come from.

use vstd::prelude::*;

verus! {

/// A 128-bit identifier. The value zero is the nil identifier, which names
/// the virtual root and is never the identifier of a node made by
/// [`Uuid::new_v4`].
#[derive(Clone, Copy, Debug, PartialEq, Eq, Structural, PartialOrd, Ord, Hash)]
pub struct Uuid {
    pub value: u128,
}

/// Sixteen to the power `n`.
pub open spec fn pow16(n: nat) -> nat
    decreases n,
{
    if n == 0 {
        1
    } else {
        16 * pow16((n - 1) as nat)
    }
}

/// The `i`-th hexadecimal digit of `value`, counted from the most significant
/// of its 32 digits.
pub open spec fn nibble(value: u128, i: int) -> int {
    (value as int / pow16((31 - i) as nat) as int) % 16
}

/// The lower-case character that writes the digit `n`.
pub open spec fn hex_digit(n: int) -> char {
    if n == 0 {
        '0'
    } else if n == 1 {
        '1'
    } else if n == 2 {
        '2'
    } else if n == 3 {
        '3'
    } else if n == 4 {
        '4'
    } else if n == 5 {
        '5'
    } else if n == 6 {
        '6'
    } else if n == 7 {
        '7'
    } else if n == 8 {
        '8'
    } else if n == 9 {
        '9'
    } else if n == 10 {
        'a'
    } else if n == 11 {
        'b'
    } else if n == 12 {
        'c'
    } else if n == 13 {
        'd'
    } else if n == 14 {
        'e'
    } else {
        'f'
    }
}

/// The digit that a character writes, in either case, if it writes one.
pub open spec fn hex_value(c: char) -> Option<int> {
    if '0' <= c <= '9' {
        Some(c as int - '0' as int)
    } else if 'a' <= c <= 'f' {
        Some(c as int - 'a' as int + 10)
    } else if 'A' <= c <= 'F' {
        Some(c as int - 'A' as int + 10)
    } else {
        None
    }
}

/// The number that a run of hexadecimal digits writes, most significant
/// digit first; `None` if one of the characters is no digit.
pub open spec fn digits_value(digits: Seq<char>) -> Option<int>
    decreases digits.len(),
{
    if digits.len() == 0 {
        Some(0)
    } else {
        match (digits_value(digits.drop_last()), hex_value(digits.last())) {
            (Some(high), Some(low)) => Some(high * 16 + low),
            _ => None,
        }
    }
}

/// The compact text form: 32 lower-case hexadecimal digits.
pub open spec fn simple_text(value: u128) -> Seq<char> {
    Seq::new(32, |i: int| hex_digit(nibble(value, i)))
}

/// The canonical text form: the 32 digits in groups of 8, 4, 4, 4 and 12,
/// with a hyphen between groups.
pub open spec fn hyphenated_text(value: u128) -> Seq<char> {
    let digits = simple_text(value);
    digits.subrange(0, 8) + seq!['-'] + digits.subrange(8, 12) + seq!['-'] + digits.subrange(
        12,
        16,
    ) + seq!['-'] + digits.subrange(16, 20) + seq!['-'] + digits.subrange(20, 32)
}

/// The value of a text in the hyphenated form of 36 characters.
pub open spec fn hyphenated_value(text: Seq<char>) -> Option<int> {
    if text.len() == 36 && text[8] == '-' && text[13] == '-' && text[18] == '-' && text[23]
        == '-' {
        digits_value(
            text.subrange(0, 8) + text.subrange(9, 13) + text.subrange(14, 18) + text.subrange(
                19,
                23,
            ) + text.subrange(24, 36),
        )
    } else {
        None
    }
}

/// Whether `text` is `urn:uuid:` in any mix of upper and lower case.
pub open spec fn is_urn_prefix(text: Seq<char>) -> bool {
    &&& text.len() == 9
    &&& (text[0] == 'u' || text[0] == 'U')
    &&& (text[1] == 'r' || text[1] == 'R')
    &&& (text[2] == 'n' || text[2] == 'N')
    &&& text[3] == ':'
    &&& (text[4] == 'u' || text[4] == 'U')
    &&& (text[5] == 'u' || text[5] == 'U')
    &&& (text[6] == 'i' || text[6] == 'I')
    &&& (text[7] == 'd' || text[7] == 'D')
    &&& text[8] == ':'
}

/// The identifier that a text writes, in any of the accepted forms: 32
/// digits; the hyphenated form; the hyphenated form in braces; the
/// hyphenated form after `urn:uuid:`. Digits may be upper or lower case.
pub open spec fn parsed_value(text: Seq<char>) -> Option<int> {
    if text.len() == 32 {
        digits_value(text)
    } else if text.len() == 36 {
        hyphenated_value(text)
    } else if text.len() == 38 && text[0] == '{' && text[37] == '}' {
        hyphenated_value(text.subrange(1, 37))
    } else if text.len() == 45 && is_urn_prefix(text.subrange(0, 9)) {
        hyphenated_value(text.subrange(9, 45))
    } else {
        None
    }
}

/// Whether `value` carries the marks of a randomly generated identifier:
/// version 4 in the thirteenth digit and the variant bits `10` at the top of
/// the seventeenth.
pub open spec fn is_random_value(value: u128) -> bool {
    value & 0x0000_0000_0000_f000_c000_0000_0000_0000u128
        == 0x0000_0000_0000_4000_8000_0000_0000_0000u128
}

/// Reads an identifier from text.
///
/// Trusted: this is `uuid::Uuid::parse_str` followed by `Uuid::as_u128`. The
/// contract says that the call succeeds exactly on the four forms that
/// [`parsed_value`] accepts and gives the number that the digits write, the
/// first digit being the most significant.
#[verifier::external_body]
fn uuid_parse_str(text: &str) -> (value: Option<u128>)
    ensures
        match value {
            Some(v) => parsed_value(text@) == Some(v as int),
            None => parsed_value(text@) is None,
        },
{
    match uuid::Uuid::parse_str(text) {
        Ok(id) => Some(id.as_u128()),
        Err(_) => None,
    }
}

/// Writes an identifier in the hyphenated form.
///
/// Trusted: this is `uuid::Uuid::from_u128` followed by the `Display` of
/// `uuid::fmt::Hyphenated`. The contract says that the text is
/// [`hyphenated_text`] of the value: lower-case digits, most significant
/// first, hyphens after the 8th, 12th, 16th and 20th digit.
#[verifier::external_body]
fn uuid_hyphenated(value: u128) -> (text: String)
    ensures
        text@ == hyphenated_text(value),
{
    uuid::Uuid::from_u128(value).hyphenated().to_string()
}

/// Writes an identifier in the compact form.
///
/// Trusted: this is `uuid::Uuid::from_u128` followed by the `Display` of
/// `uuid::fmt::Simple`. The contract says that the text is [`simple_text`]
/// of the value: 32 lower-case digits, most significant first.
#[verifier::external_body]
fn uuid_simple(value: u128) -> (text: String)
    ensures
        text@ == simple_text(value),
{
    uuid::Uuid::from_u128(value).simple().to_string()
}

/// Draws a random identifier.
///
/// Trusted: this is `uuid::Uuid::new_v4` followed by `Uuid::as_u128`. Of the
/// value only the version and variant bits are known, which the crate sets
/// after drawing the rest from the operating system.
#[verifier::external_body]
fn uuid_new_v4() -> (value: u128)
    ensures
        is_random_value(value),
{
    uuid::Uuid::new_v4().as_u128()
}

impl Uuid {
    /// Whether this is the nil identifier.
    pub open spec fn is_nil_spec(&self) -> bool {
        self.value == 0
    }

    /// The nil identifier.
    pub fn nil() -> (id: Uuid)
        ensures
            id.value == 0,
    {
        Uuid { value: 0 }
    }

    /// Whether this is the nil identifier.
    #[verifier::when_used_as_spec(is_nil_spec)]
    pub fn is_nil(&self) -> (nil: bool)
        ensures
            nil == (self.value == 0),
    {
        self.value == 0
    }

    /// A fresh random identifier. It is never the nil identifier.
    pub fn new_v4() -> (id: Uuid)
        ensures
            is_random_value(id.value),
            id.value != 0,
    {
        let value = uuid_new_v4();
        assert(is_random_value(value) ==> value != 0) by (bit_vector);
        Uuid { value }
    }

    /// Reads an identifier from any of the text forms that [`parsed_value`]
    /// describes; `None` for any other text.
    pub fn parse_str(text: &str) -> (id: Option<Uuid>)
        ensures
            match id {
                Some(id) => parsed_value(text@) == Some(id.value as int),
                None => parsed_value(text@) is None,
            },
    {
        match uuid_parse_str(text) {
            Some(value) => Some(Uuid { value }),
            None => None,
        }
    }

    /// The canonical text of this identifier.
    pub fn to_hyphenated_string(&self) -> (text: String)
        ensures
            text@ == hyphenated_text(self.value),
    {
        uuid_hyphenated(self.value)
    }

    /// The compact text of this identifier.
    pub fn to_simple_string(&self) -> (text: String)
        ensures
            text@ == simple_text(self.value),
    {
        uuid_simple(self.value)
    }
}

} // verus!
