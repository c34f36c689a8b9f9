//! What is written can be read again: identifiers, attributes, records and
//! whole documents.

use crate::id::{
    digits_value, hex_digit, hex_value, hyphenated_text, hyphenated_value, nibble, parsed_value,
    pow16, simple_text,
};
use crate::id::Uuid;
use crate::node::{
    attribute_text, entry_text, record_line, record_lines, sofer_text, tree_records,
    AttributeView, NodeView,
};
use crate::order::{lemma_stable_sort, stable_sort};
use crate::reader::{
    attributes_from, attributes_of, digits_end, entry_at, find_char, is_decimal, is_digit, is_sign,
    part, record_of, records_from, records_of, view_key, ParseErrorView, RecordView,
};
use crate::tree::Tree;
use vstd::arithmetic::div_mod::{
    lemma_basic_div, lemma_div_denominator, lemma_div_pos_is_pos, lemma_fundamental_div_mod,
    lemma_mod_pos_bound,
};
use vstd::prelude::*;

verus! {

/// Sixteen to a power is positive, and the next power is sixteen times as
/// much.
pub proof fn lemma_pow16(n: nat)
    ensures
        pow16(n) > 0,
        pow16(n + 1) == 16 * pow16(n),
    decreases n,
{
    if n > 0 {
        lemma_pow16((n - 1) as nat);
    }
}

/// Sixteen to the power 32 is two to the power 128.
pub proof fn lemma_pow16_32()
    ensures
        pow16(32) == 0x1_0000_0000_0000_0000_0000_0000_0000_0000,
{
    assert(pow16(4) == 0x1_0000) by {
        reveal_with_fuel(pow16, 5);
    }
    assert(pow16(8) == 0x1_0000_0000) by {
        lemma_pow16_add(4, 4);
    }
    assert(pow16(16) == 0x1_0000_0000_0000_0000) by {
        lemma_pow16_add(8, 8);
    }
    assert(pow16(32) == 0x1_0000_0000_0000_0000_0000_0000_0000_0000) by {
        lemma_pow16_add(16, 16);
    }
}

/// Powers of sixteen multiply as their exponents add.
pub proof fn lemma_pow16_add(a: nat, b: nat)
    ensures
        pow16(a + b) == pow16(a) * pow16(b),
    decreases b,
{
    if b == 0 {
        assert(pow16(a) * 1 == pow16(a));
    } else {
        lemma_pow16_add(a, (b - 1) as nat);
        lemma_pow16((a + b - 1) as nat);
        lemma_pow16((b - 1) as nat);
        assert(pow16(a) * (16 * pow16((b - 1) as nat)) == 16 * (pow16(a) * pow16((b - 1) as nat)))
            by (nonlinear_arith);
    }
}

/// A digit is read as it is written.
pub proof fn lemma_hex_digit(n: int)
    requires
        0 <= n < 16,
    ensures
        hex_value(hex_digit(n)) == Some(n),
        hex_digit(n) != '-',
        hex_digit(n) != ' ',
        hex_digit(n) != '\n',
{
}

/// Every digit of a value is below sixteen.
pub proof fn lemma_nibble(value: u128, i: int)
    requires
        0 <= i < 32,
    ensures
        0 <= nibble(value, i) < 16,
{
    lemma_pow16((31 - i) as nat);
    lemma_div_pos_is_pos(value as int, pow16((31 - i) as nat) as int);
    lemma_mod_pos_bound(value as int / pow16((31 - i) as nat) as int, 16);
}

/// The first `k` digits of a value write the value without its last
/// `32 - k` digits.
pub proof fn lemma_digits_prefix(value: u128, k: nat)
    requires
        k <= 32,
    ensures
        digits_value(simple_text(value).subrange(0, k as int)) == Some(
            value as int / pow16((32 - k) as nat) as int,
        ),
    decreases k,
{
    let digits = simple_text(value);
    if k == 0 {
        lemma_pow16_32();
        lemma_basic_div(value as int, pow16(32) as int);
        assert(digits.subrange(0, 0) =~= Seq::<char>::empty());
    } else {
        let j = (k - 1) as nat;
        lemma_digits_prefix(value, j);
        let prefix = digits.subrange(0, k as int);
        assert(prefix.drop_last() =~= digits.subrange(0, j as int));
        assert(prefix.last() == hex_digit(nibble(value, j as int)));
        lemma_nibble(value, j as int);
        lemma_hex_digit(nibble(value, j as int));
        let low = pow16((31 - j) as nat) as int;
        lemma_pow16((31 - j) as nat);
        assert(pow16((32 - j) as nat) == 16 * pow16((31 - j) as nat));
        let x = value as int / low;
        lemma_div_denominator(value as int, low, 16);
        assert(low * 16 == 16 * low);
        assert(x / 16 == value as int / pow16((32 - j) as nat) as int);
        lemma_fundamental_div_mod(x, 16);
        assert(x == (x / 16) * 16 + x % 16);
    }
}

/// The compact text of an identifier writes the identifier.
pub proof fn lemma_simple_round_trip(value: u128)
    ensures
        digits_value(simple_text(value)) == Some(value as int),
        parsed_value(simple_text(value)) == Some(value as int),
{
    lemma_digits_prefix(value, 32);
    assert(simple_text(value).subrange(0, 32) =~= simple_text(value));
    assert(pow16((32 - 32) as nat) == 1);
    assert(value as int / 1 == value as int);
    assert(simple_text(value).len() == 32);
}

/// The hyphenated text of an identifier is read as the identifier.
pub proof fn lemma_hyphenated_round_trip(value: u128)
    ensures
        hyphenated_text(value).len() == 36,
        hyphenated_value(hyphenated_text(value)) == Some(value as int),
        parsed_value(hyphenated_text(value)) == Some(value as int),
{
    let digits = simple_text(value);
    let text = hyphenated_text(value);
    lemma_simple_round_trip(value);
    assert(text.len() == 36);
    assert(text[8] == '-' && text[13] == '-' && text[18] == '-' && text[23] == '-');
    assert(text.subrange(0, 8) + text.subrange(9, 13) + text.subrange(14, 18) + text.subrange(
        19,
        23,
    ) + text.subrange(24, 36) =~= digits);
}

/// The hyphenated text of an identifier holds digits and hyphens alone:
/// no space and no line feed.
pub proof fn lemma_hyphenated_chars(value: u128, i: int)
    requires
        0 <= i < 36,
    ensures
        hyphenated_text(value).len() == 36,
        hyphenated_text(value)[i] != ' ',
        hyphenated_text(value)[i] != '\n',
{
    let digits = simple_text(value);
    let text = hyphenated_text(value);
    assert(text.len() == 36);
    let j = if i < 8 {
        i
    } else if i < 13 {
        i - 1
    } else if i < 18 {
        i - 2
    } else if i < 23 {
        i - 3
    } else {
        i - 4
    };
    if i == 8 || i == 13 || i == 18 || i == 23 {
        assert(text[i] == '-');
    } else {
        assert(text[i] == digits[j]);
        lemma_nibble(value, j);
        lemma_hex_digit(nibble(value, j));
    }
}

/// Whether `c` stands nowhere in `text`.
pub open spec fn free_of(text: Seq<char>, c: char) -> bool {
    forall|i: int| 0 <= i < text.len() ==> text[i] != c
}

/// Whether a name can be written in an attribute text: it holds no `=`, no
/// `;`, no space and no line feed.
pub open spec fn writable_name(name: Seq<char>) -> bool {
    free_of(name, '=') && free_of(name, ';') && free_of(name, ' ') && free_of(name, '\n')
}

/// Whether an attribute can be written in an attribute text: its name can,
/// a text holds no double quote, no space and no line feed, and a number
/// is in decimal notation.
pub open spec fn writable_attribute(attribute: AttributeView) -> bool {
    match attribute {
        AttributeView::Text(name, value) => writable_name(name) && free_of(value, '"') && free_of(
            value,
            ' ',
        ) && free_of(value, '\n'),
        AttributeView::Number(name, value) => writable_name(name) && is_decimal(value),
        AttributeView::Boolean(name, _) => writable_name(name),
    }
}

/// Whether every attribute of a run can be written.
pub open spec fn writable_attributes(attributes: Seq<AttributeView>) -> bool {
    forall|i: int| 0 <= i < attributes.len() ==> writable_attribute(#[trigger] attributes[i])
}

/// The search for a character passes over what does not hold it.
pub proof fn lemma_find_char_skip(text: Seq<char>, c: char, from: int, at: int)
    requires
        0 <= from <= at <= text.len(),
        forall|i: int| from <= i < at ==> text[i] != c,
    ensures
        find_char(text, c, from) == find_char(text, c, at),
        at < text.len() && text[at] == c ==> find_char(text, c, from) == at,
        at == text.len() ==> find_char(text, c, from) == text.len(),
    decreases at - from,
{
    if from < at {
        lemma_find_char_skip(text, c, from + 1, at);
    }
}

/// Where the search for a character ends: at or after its start, inside
/// the text or at its end, with the character there if inside, and with no
/// such character before.
pub proof fn lemma_find_char(text: Seq<char>, c: char, from: int)
    requires
        0 <= from <= text.len(),
    ensures
        from <= find_char(text, c, from) <= text.len(),
        find_char(text, c, from) < text.len() ==> text[find_char(text, c, from)] == c,
        forall|i: int| from <= i < find_char(text, c, from) ==> text[i] != c,
    decreases text.len() - from,
{
    if from < text.len() && text[from] != c {
        lemma_find_char(text, c, from + 1);
    }
}

/// A run of digits holds digits alone.
pub proof fn lemma_digits_end(text: Seq<char>, from: int)
    requires
        0 <= from <= text.len(),
    ensures
        from <= digits_end(text, from) <= text.len(),
        forall|i: int| from <= i < digits_end(text, from) ==> is_digit(text[i]),
    decreases text.len() - from,
{
    if from < text.len() && is_digit(text[from]) {
        lemma_digits_end(text, from + 1);
    }
}

/// Whether `c` can stand in a decimal number.
pub open spec fn is_decimal_char(c: char) -> bool {
    is_digit(c) || is_sign(c) || c == '.' || c == 'e' || c == 'E'
}

/// A decimal number is not empty and holds digits, signs, points and the
/// letter `e` alone.
pub proof fn lemma_decimal_chars(text: Seq<char>)
    requires
        is_decimal(text),
    ensures
        text.len() > 0,
        forall|i: int| 0 <= i < text.len() ==> is_decimal_char(text[i]),
{
    let len = text.len() as int;
    let start = if len > 0 && is_sign(text[0]) {
        1int
    } else {
        0int
    };
    lemma_digits_end(text, start);
    let whole_end = digits_end(text, start);
    let has_point = whole_end < len && text[whole_end] == '.';
    if has_point {
        lemma_digits_end(text, whole_end + 1);
    }
    let mantissa_end = if has_point {
        digits_end(text, whole_end + 1)
    } else {
        whole_end
    };
    let has_exponent = mantissa_end < len && (text[mantissa_end] == 'e' || text[mantissa_end]
        == 'E');
    if has_exponent {
        let exponent_start = if mantissa_end + 1 < len && is_sign(text[mantissa_end + 1]) {
            mantissa_end + 2
        } else {
            mantissa_end + 1
        };
        lemma_digits_end(text, exponent_start);
    }
}

/// Where the name of an entry ends: at the first `=` after its start, with
/// no `;` before it.
pub proof fn lemma_entry_name(text: Seq<char>, from: int, name: Seq<char>)
    requires
        writable_name(name),
        0 <= from,
        from + name.len() < text.len(),
        forall|i: int| 0 <= i < name.len() ==> text[from + i] == name[i],
        text[from + name.len()] == '=',
    ensures
        find_char(text, '=', from) == from + name.len(),
        find_char(text, ';', from) >= from + name.len(),
        part(text, from, from + name.len()) == name,
{
    let equals = from + name.len();
    assert forall|i: int| from <= i < equals implies text[i] != '=' && text[i] != ';' by {
        assert(text[i] == name[i - from]);
    }
    lemma_find_char_skip(text, '=', from, equals);
    lemma_find_char_skip(text, ';', from, equals);
    lemma_find_char(text, ';', equals);
    assert(part(text, from, equals) =~= name);
}

/// A text attribute that can be written is read as it was written.
pub proof fn lemma_text_entry(
    before: Seq<char>,
    name: Seq<char>,
    value: Seq<char>,
    after: Seq<char>,
)
    requires
        writable_attribute(AttributeView::Text(name, value)),
    ensures
        entry_at(
            before + entry_text(AttributeView::Text(name, value)) + after,
            before.len() as int,
        ) == Some(
            (
                AttributeView::Text(name, value),
                (before.len() + entry_text(AttributeView::Text(name, value)).len()) as int,
            ),
        ),
{
    let entry = entry_text(AttributeView::Text(name, value));
    let text = before + entry + after;
    let from = before.len() as int;
    let equals = from + name.len();
    let close = equals + 2 + value.len();
    assert(entry.len() == name.len() + value.len() + 4);
    assert forall|i: int| 0 <= i < entry.len() implies text[from + i] == entry[i] by {}
    assert forall|i: int| 0 <= i < name.len() implies text[from + i] == name[i] by {
        assert(entry[i] == name[i]);
    }
    assert(text[equals] == entry[name.len() as int]);
    lemma_entry_name(text, from, name);
    assert(text[equals + 1] == entry[equals + 1 - from]);
    assert forall|i: int| equals + 2 <= i < close implies text[i] != '"' by {
        assert(text[i] == entry[i - from]);
        assert(entry[i - from] == value[i - equals - 2]);
    }
    assert(text[close] == entry[close - from]);
    assert(text[close + 1] == entry[close + 1 - from]);
    lemma_find_char_skip(text, '"', equals + 2, close);
    assert(part(text, equals + 2, close) =~= value);
}

/// A number that can be written is read as it was written.
pub proof fn lemma_number_entry(
    before: Seq<char>,
    name: Seq<char>,
    value: Seq<char>,
    after: Seq<char>,
)
    requires
        writable_attribute(AttributeView::Number(name, value)),
    ensures
        entry_at(
            before + entry_text(AttributeView::Number(name, value)) + after,
            before.len() as int,
        ) == Some(
            (
                AttributeView::Number(name, value),
                (before.len() + entry_text(AttributeView::Number(name, value)).len()) as int,
            ),
        ),
{
    let entry = entry_text(AttributeView::Number(name, value));
    let text = before + entry + after;
    let from = before.len() as int;
    let equals = from + name.len();
    let end = equals + 1 + value.len();
    lemma_decimal_chars(value);
    assert(entry.len() == name.len() + value.len() + 2);
    assert forall|i: int| 0 <= i < entry.len() implies text[from + i] == entry[i] by {}
    assert forall|i: int| 0 <= i < name.len() implies text[from + i] == name[i] by {
        assert(entry[i] == name[i]);
    }
    assert(text[equals] == entry[name.len() as int]);
    lemma_entry_name(text, from, name);
    assert forall|i: int| equals + 1 <= i < end implies text[i] != ';' by {
        assert(text[i] == entry[i - from]);
        assert(entry[i - from] == value[i - equals - 1]);
    }
    assert(text[equals + 1] == entry[equals + 1 - from]);
    assert(entry[equals + 1 - from] == value[0]);
    assert(text[end] == entry[end - from]);
    lemma_find_char_skip(text, ';', equals + 1, end);
    assert(part(text, equals + 1, end) =~= value);
    assert(value != seq!['T']) by {
        assert(seq!['T'][0] == 'T');
    }
    assert(value != seq!['F']) by {
        assert(seq!['F'][0] == 'F');
    }
}

/// A boolean is read as it was written.
pub proof fn lemma_boolean_entry(before: Seq<char>, name: Seq<char>, value: bool, after: Seq<char>)
    requires
        writable_attribute(AttributeView::Boolean(name, value)),
    ensures
        entry_at(
            before + entry_text(AttributeView::Boolean(name, value)) + after,
            before.len() as int,
        ) == Some(
            (
                AttributeView::Boolean(name, value),
                (before.len() + entry_text(AttributeView::Boolean(name, value)).len()) as int,
            ),
        ),
{
    let entry = entry_text(AttributeView::Boolean(name, value));
    let text = before + entry + after;
    let from = before.len() as int;
    let equals = from + name.len();
    let end = equals + 2;
    assert(entry.len() == name.len() + 3);
    assert forall|i: int| 0 <= i < entry.len() implies text[from + i] == entry[i] by {}
    assert forall|i: int| 0 <= i < name.len() implies text[from + i] == name[i] by {
        assert(entry[i] == name[i]);
    }
    assert(text[equals] == entry[name.len() as int]);
    lemma_entry_name(text, from, name);
    assert(text[equals + 1] == entry[equals + 1 - from]);
    assert(text[end] == entry[end - from]);
    lemma_find_char_skip(text, ';', equals + 1, end);
    assert(part(text, equals + 1, end) =~= seq![
        if value {
            'T'
        } else {
            'F'
        },
    ]);
    assert(seq!['T'] != seq!['F']) by {
        assert(seq!['T'][0] == 'T');
        assert(seq!['F'][0] == 'F');
    }
}

/// An attribute that can be written is read as it was written, whatever
/// stands before and after it.
pub proof fn lemma_entry_round_trip(before: Seq<char>, attribute: AttributeView, after: Seq<char>)
    requires
        writable_attribute(attribute),
    ensures
        entry_at(before + entry_text(attribute) + after, before.len() as int) == Some(
            (attribute, (before.len() + entry_text(attribute).len()) as int),
        ),
{
    match attribute {
        AttributeView::Text(name, value) => {
            lemma_text_entry(before, name, value, after);
        },
        AttributeView::Number(name, value) => {
            lemma_number_entry(before, name, value, after);
        },
        AttributeView::Boolean(name, value) => {
            lemma_boolean_entry(before, name, value, after);
        },
    }
}

/// Attributes that can be written are read as they were written, whatever
/// stands before them.
pub proof fn lemma_attributes_after(before: Seq<char>, attributes: Seq<AttributeView>)
    requires
        writable_attributes(attributes),
    ensures
        attributes_from(before + attribute_text(attributes), before.len() as int) == Some(
            attributes,
        ),
    decreases attributes.len(),
{
    let text = before + attribute_text(attributes);
    if attributes.len() == 0 {
        assert(text =~= before);
    } else {
        let first = attributes[0];
        let rest = attributes.drop_first();
        assert(writable_attribute(first));
        assert forall|i: int| 0 <= i < rest.len() implies writable_attribute(
            #[trigger] rest[i],
        ) by {
            assert(rest[i] == attributes[i + 1]);
        }
        lemma_entry_round_trip(before, first, attribute_text(rest));
        lemma_attributes_after(before + entry_text(first), rest);
        assert(text =~= before + entry_text(first) + attribute_text(rest));
        lemma_entry_len(first);
        assert(seq![first] + rest =~= attributes);
    }
}

/// No attribute is written as nothing.
pub proof fn lemma_entry_len(attribute: AttributeView)
    ensures
        entry_text(attribute).len() >= 2,
{
}

/// What `export_attributes` writes of attributes that can be written,
/// `read_attributes` reads as the same attributes.
pub proof fn lemma_attributes_round_trip(attributes: Seq<AttributeView>)
    requires
        writable_attributes(attributes),
    ensures
        attributes_of(attribute_text(attributes)) == Some(attributes),
{
    lemma_attributes_after(Seq::empty(), attributes);
    assert(Seq::<char>::empty() + attribute_text(attributes) =~= attribute_text(attributes));
}

/// The text of attributes that can be written holds no space and no line
/// feed.
pub proof fn lemma_attribute_text_chars(attributes: Seq<AttributeView>, i: int)
    requires
        writable_attributes(attributes),
        0 <= i < attribute_text(attributes).len(),
    ensures
        attribute_text(attributes)[i] != ' ',
        attribute_text(attributes)[i] != '\n',
    decreases attributes.len(),
{
    if attributes.len() > 0 {
        let first = attributes[0];
        let rest = attributes.drop_first();
        let entry = entry_text(first);
        assert(writable_attribute(first));
        if i < entry.len() {
            assert(attribute_text(attributes)[i] == entry[i]);
            match first {
                AttributeView::Text(name, value) => {
                    if i < name.len() {
                        assert(entry[i] == name[i]);
                    } else if name.len() + 2 <= i < name.len() + 2 + value.len() {
                        assert(entry[i] == value[i - name.len() - 2]);
                    }
                },
                AttributeView::Number(name, value) => {
                    lemma_decimal_chars(value);
                    if i < name.len() {
                        assert(entry[i] == name[i]);
                    } else if name.len() + 1 <= i < name.len() + 1 + value.len() {
                        assert(entry[i] == value[i - name.len() - 1]);
                    }
                },
                AttributeView::Boolean(name, value) => {
                    if i < name.len() {
                        assert(entry[i] == name[i]);
                    }
                },
            }
        } else {
            assert forall|k: int| 0 <= k < rest.len() implies writable_attribute(
                #[trigger] rest[k],
            ) by {
                assert(rest[k] == attributes[k + 1]);
            }
            lemma_attribute_text_chars(rest, i - entry.len());
            assert(attribute_text(attributes)[i] == attribute_text(rest)[i - entry.len()]);
        }
    }
}

/// Whether a record can be written as a line: its attributes can be
/// written, and its content holds no line feed.
pub open spec fn writable_record(record: RecordView) -> bool {
    writable_attributes(record.attributes) && free_of(record.content, '\n')
}

/// Whether every record of a run can be written.
pub open spec fn writable_records(records: Seq<RecordView>) -> bool {
    forall|i: int| 0 <= i < records.len() ==> writable_record(#[trigger] records[i])
}

/// The line of a record without the line feed that closes it.
pub open spec fn record_text(record: RecordView) -> Seq<char> {
    hyphenated_text(record.uuid.value) + seq![' '] + hyphenated_text(record.parent_uuid.value)
        + seq![' '] + attribute_text(record.attributes) + seq![' '] + record.content
}

/// The line of a record that can be written is read as the record, and
/// holds no line feed before the one that closes it.
pub proof fn lemma_record_round_trip(record: RecordView)
    requires
        writable_record(record),
    ensures
        record_of(record_text(record)) == Ok::<RecordView, ParseErrorView>(record),
        free_of(record_text(record), '\n'),
        record_line(record) == record_text(record) + seq!['\n'],
{
    reveal(record_of);
    let uuid = hyphenated_text(record.uuid.value);
    let parent = hyphenated_text(record.parent_uuid.value);
    let attributes = attribute_text(record.attributes);
    let line = record_text(record);
    lemma_hyphenated_round_trip(record.uuid.value);
    lemma_hyphenated_round_trip(record.parent_uuid.value);
    lemma_attributes_round_trip(record.attributes);
    let first = 36int;
    let second = 73int;
    let third = 74 + attributes.len() as int;
    assert(line.len() == third + 1 + record.content.len());
    assert forall|i: int| 0 <= i < line.len() implies (line[i] == ' ' <==> (i == first || i
        == second || i == third || (i > third && record.content[i - third - 1] == ' ')))
        && line[i] != '\n' by {
        if i < first {
            assert(line[i] == uuid[i]);
            lemma_hyphenated_chars(record.uuid.value, i);
        } else if first < i < second {
            assert(line[i] == parent[i - 37]);
            lemma_hyphenated_chars(record.parent_uuid.value, i - 37);
        } else if second < i < third {
            assert(line[i] == attributes[i - 74]);
            lemma_attribute_text_chars(record.attributes, i - 74);
        } else if i > third {
            assert(line[i] == record.content[i - third - 1]);
        }
    }
    lemma_find_char_skip(line, ' ', 0, first);
    lemma_find_char_skip(line, ' ', first + 1, second);
    lemma_find_char_skip(line, ' ', second + 1, third);
    assert(part(line, 0, first) =~= uuid);
    assert(part(line, first + 1, second) =~= parent);
    assert(part(line, second + 1, third) =~= attributes);
    assert(part(line, third + 1, line.len() as int) =~= record.content);
    assert(record_line(record) =~= line + seq!['\n']);
}

/// The records of a run that do not carry the nil identifier, in order.
pub open spec fn without_root(records: Seq<RecordView>) -> Seq<RecordView>
    decreases records.len(),
{
    if records.len() == 0 {
        Seq::empty()
    } else if records[0].uuid.value == 0 {
        without_root(records.drop_first())
    } else {
        seq![records[0]] + without_root(records.drop_first())
    }
}

/// A line that can be written is read as its record, and the reading goes
/// on behind it.
pub proof fn lemma_line_step(before: Seq<char>, record: RecordView, after: Seq<char>)
    requires
        writable_record(record),
    ensures
        records_from(before + record_line(record) + after, before.len() as int) == match records_from(
            before + record_line(record) + after,
            (before.len() + record_line(record).len()) as int,
        ) {
            Ok(rest) => Ok::<Seq<RecordView>, ParseErrorView>(seq![record] + rest),
            Err(error) => Err(error),
        },
{
    let line = record_text(record);
    let text = before + record_line(record) + after;
    let from = before.len() as int;
    let end = from + line.len();
    lemma_record_round_trip(record);
    lemma_hyphenated_round_trip(record.uuid.value);
    assert(line.len() >= 36);
    assert(record_line(record).len() == line.len() + 1);
    assert forall|i: int| from <= i < end implies text[i] != '\n' by {
        assert(text[i] == record_line(record)[i - from]);
        assert(record_line(record)[i - from] == line[i - from]);
    }
    assert(text[end] == record_line(record)[end - from]);
    assert(text[end] == '\n');
    lemma_find_char_skip(text, '\n', from, end);
    assert(text.subrange(from, end) =~= line);
}

/// The lines of records that can be written are read as the records,
/// whatever lines stand before them.
pub proof fn lemma_lines_after(before: Seq<char>, records: Seq<RecordView>)
    requires
        writable_records(records),
    ensures
        records_from(before + record_lines(records), before.len() as int) == Ok::<
            Seq<RecordView>,
            ParseErrorView,
        >(without_root(records)),
    decreases records.len(),
{
    let text = before + record_lines(records);
    if records.len() == 0 {
        assert(text =~= before);
    } else {
        let first = records[0];
        let rest = records.drop_first();
        assert(writable_record(first));
        assert forall|i: int| 0 <= i < rest.len() implies writable_record(#[trigger] rest[i]) by {
            assert(rest[i] == records[i + 1]);
        }
        if first.uuid.value == 0 {
            lemma_lines_after(before, rest);
        } else {
            lemma_line_step(before, first, record_lines(rest));
            lemma_lines_after(before + record_line(first), rest);
            assert(text =~= before + record_line(first) + record_lines(rest));
        }
    }
}

/// What `export_to_sofer` writes of a document whose records can all be
/// written, `read_nodes` reads without error, as the records of all nodes
/// that do not carry the nil identifier, in ascending order of
/// identifiers.
pub proof fn lemma_document_round_trip(tree: Tree<NodeView>, evaled: bool)
    requires
        writable_records(tree_records(tree, Uuid { value: 0 }, evaled)),
    ensures
        records_of(sofer_text(tree, evaled)) == Ok::<Seq<RecordView>, ParseErrorView>(
            without_root(
                stable_sort(tree_records(tree, Uuid { value: 0 }, evaled), view_key(false)),
            ),
        ),
{
    broadcast use vstd::seq_lib::group_to_multiset_ensures;

    let records = tree_records(tree, Uuid { value: 0 }, evaled);
    let sorted = stable_sort(records, view_key(false));
    lemma_stable_sort(records, view_key(false));
    assert forall|i: int| 0 <= i < sorted.len() implies writable_record(#[trigger] sorted[i]) by {
        assert(sorted.contains(sorted[i]));
        vstd::seq_lib::to_multiset_contains(sorted, sorted[i]);
        vstd::seq_lib::to_multiset_contains(records, sorted[i]);
        let k = choose|k: int| 0 <= k < records.len() && records[k] == sorted[i];
        assert(writable_record(records[k]));
    }
    lemma_lines_after(Seq::empty(), sorted);
    assert(Seq::<char>::empty() + record_lines(sorted) =~= record_lines(sorted));
}

} // verus!
