//! Reading the flat text format: one record per line, each with an
//! identifier, the identifier of its parent, its attributes and its text.

use crate::assemble::{
    forest_under, has_record, hangs_under, lemma_next_under, next_under, node_of, tree_of,
};
use crate::id::{hyphenated_value, Uuid};
use crate::node::{attribute_views, clone_attributes, Attribute, AttributeView, TreeNode};
use crate::order::{lemma_stable_sort_map, stable_sort, upper_bound};
use crate::text::{chars_of, text_of};
use crate::tree::{forest_view, Tree};
use vstd::prelude::*;

verus! {

/// The position of the first `c` in `text` at or after `from`; the length of
/// `text` where there is none.
pub open spec fn find_char(text: Seq<char>, c: char, from: int) -> int
    decreases text.len() - from,
{
    if from < 0 || from >= text.len() {
        text.len() as int
    } else if text[from] == c {
        from
    } else {
        find_char(text, c, from + 1)
    }
}

/// `text[from..to]`, or nothing where that is no range of `text`.
pub open spec fn part(text: Seq<char>, from: int, to: int) -> Seq<char> {
    if 0 <= from <= to <= text.len() {
        text.subrange(from, to)
    } else {
        Seq::empty()
    }
}

/// Whether `c` is one of the ten decimal digits.
pub open spec fn is_digit(c: char) -> bool {
    '0' <= c <= '9'
}

/// The position of the first character of `text` at or after `from` that is
/// no digit; the length of `text` where all are digits.
pub open spec fn digits_end(text: Seq<char>, from: int) -> int
    decreases text.len() - from,
{
    if from < 0 || from >= text.len() {
        text.len() as int
    } else if !is_digit(text[from]) {
        from
    } else {
        digits_end(text, from + 1)
    }
}

/// Whether `c` is a plus or a minus sign.
pub open spec fn is_sign(c: char) -> bool {
    c == '+' || c == '-'
}

/// Whether `text` writes a decimal number: an optional sign; digits with at
/// most one point among them and at least one digit; and optionally an
/// exponent, which is `e` or `E`, an optional sign and at least one digit.
pub open spec fn is_decimal(text: Seq<char>) -> bool {
    let len = text.len() as int;
    let start = if len > 0 && is_sign(text[0]) {
        1int
    } else {
        0int
    };
    let whole_end = digits_end(text, start);
    let has_point = whole_end < len && text[whole_end] == '.';
    let mantissa_end = if has_point {
        digits_end(text, whole_end + 1)
    } else {
        whole_end
    };
    let digits = if has_point {
        mantissa_end - start - 1
    } else {
        mantissa_end - start
    };
    let has_exponent = mantissa_end < len && (text[mantissa_end] == 'e' || text[mantissa_end]
        == 'E');
    let exponent_start = if mantissa_end + 1 < len && is_sign(text[mantissa_end + 1]) {
        mantissa_end + 2
    } else {
        mantissa_end + 1
    };
    &&& digits >= 1
    &&& if has_exponent {
        exponent_start < len && digits_end(text, exponent_start) == len
    } else {
        mantissa_end == len
    }
}

/// The attribute that is written at `from`, with the position after the
/// semicolon that ends it; `None` where no well-formed entry stands there.
///
/// An entry is a name, `=`, a value and `;`. The name runs to the first `=`
/// and holds no `;`. A value that opens with `"` is a text and runs to the
/// next `"`, which the semicolon must follow. Any other value runs to the
/// next `;` and is `T`, `F` or a decimal number.
pub open spec fn entry_at(text: Seq<char>, from: int) -> Option<(AttributeView, int)> {
    let len = text.len() as int;
    let equals = find_char(text, '=', from);
    let name = part(text, from, equals);
    if equals >= len || find_char(text, ';', from) < equals {
        None
    } else if equals + 1 < len && text[equals + 1] == '"' {
        let close = find_char(text, '"', equals + 2);
        if close + 1 < len && text[close + 1] == ';' {
            Some((AttributeView::Text(name, part(text, equals + 2, close)), close + 2))
        } else {
            None
        }
    } else {
        let end = find_char(text, ';', equals + 1);
        let value = part(text, equals + 1, end);
        if end >= len {
            None
        } else if value == seq!['T'] {
            Some((AttributeView::Boolean(name, true), end + 1))
        } else if value == seq!['F'] {
            Some((AttributeView::Boolean(name, false), end + 1))
        } else if is_decimal(value) {
            Some((AttributeView::Number(name, value), end + 1))
        } else {
            None
        }
    }
}

/// The attributes that `text` writes from `from` to its end: entry after
/// entry with nothing between them; `None` where an entry is malformed.
pub open spec fn attributes_from(text: Seq<char>, from: int) -> Option<Seq<AttributeView>>
    decreases text.len() - from,
{
    if from < 0 || from >= text.len() {
        Some(Seq::empty())
    } else {
        match entry_at(text, from) {
            None => None,
            Some((attribute, next)) => if next <= from {
                None
            } else {
                match attributes_from(text, next) {
                    None => None,
                    Some(rest) => Some(seq![attribute] + rest),
                }
            },
        }
    }
}

/// The attributes that an attribute text writes.
pub open spec fn attributes_of(text: Seq<char>) -> Option<Seq<AttributeView>> {
    attributes_from(text, 0)
}

/// The position of the first `c` at or after `from`.
pub fn find_from(chars: &Vec<char>, c: char, from: usize) -> (at: usize)
    ensures
        at == find_char(chars@, c, from as int),
        from <= chars.len() ==> from <= at <= chars.len(),
        at < chars.len() ==> chars[at as int] == c,
{
    if from >= chars.len() {
        return chars.len();
    }
    let mut at: usize = from;
    while at < chars.len() && chars[at] != c
        invariant
            from <= at <= chars.len(),
            find_char(chars@, c, from as int) == find_char(chars@, c, at as int),
        decreases chars.len() - at,
    {
        at += 1;
    }
    at
}

/// The position of the first character at or after `from` that is no digit.
fn skip_digits(chars: &Vec<char>, from: usize) -> (at: usize)
    ensures
        at == digits_end(chars@, from as int),
        from <= chars.len() ==> from <= at <= chars.len(),
{
    if from >= chars.len() {
        return chars.len();
    }
    let mut at: usize = from;
    while at < chars.len() && '0' <= chars[at] && chars[at] <= '9'
        invariant
            from <= at <= chars.len(),
            digits_end(chars@, from as int) == digits_end(chars@, at as int),
        decreases chars.len() - at,
    {
        at += 1;
    }
    at
}

/// Whether the characters write a decimal number.
pub fn is_decimal_text(chars: &Vec<char>) -> (decimal: bool)
    ensures
        decimal == is_decimal(chars@),
{
    let len = chars.len();
    let start: usize = if len > 0 && (chars[0] == '+' || chars[0] == '-') {
        1
    } else {
        0
    };
    let whole_end = skip_digits(chars, start);
    let has_point = whole_end < len && chars[whole_end] == '.';
    let mantissa_end = if has_point {
        skip_digits(chars, whole_end + 1)
    } else {
        whole_end
    };
    let digits = if has_point {
        mantissa_end - start - 1
    } else {
        mantissa_end - start
    };
    if digits < 1 {
        return false;
    }
    if mantissa_end < len && (chars[mantissa_end] == 'e' || chars[mantissa_end] == 'E') {
        let exponent_start: usize = if mantissa_end + 1 < len && (chars[mantissa_end + 1] == '+'
            || chars[mantissa_end + 1] == '-') {
            mantissa_end + 2
        } else {
            mantissa_end + 1
        };
        exponent_start < len && skip_digits(chars, exponent_start) == len
    } else {
        mantissa_end == len
    }
}

/// A copy of `chars[from..to]`.
pub fn slice_of(chars: &Vec<char>, from: usize, to: usize) -> (slice: Vec<char>)
    requires
        from <= to <= chars.len(),
    ensures
        slice@ == chars@.subrange(from as int, to as int),
{
    let mut slice: Vec<char> = Vec::new();
    let mut i: usize = from;
    while i < to
        invariant
            from <= i <= to <= chars.len(),
            slice@ == chars@.subrange(from as int, i as int),
        decreases to - i,
    {
        slice.push(chars[i]);
        i += 1;
    }
    slice
}

/// Reads the entry at `from`.
fn read_entry(chars: &Vec<char>, from: usize) -> (entry: Option<(Attribute, usize)>)
    requires
        from < chars.len(),
    ensures
        match entry {
            Some((attribute, next)) => entry_at(chars@, from as int) == Some(
                (attribute@, next as int),
            ) && from < next <= chars.len(),
            None => entry_at(chars@, from as int) is None,
        },
{
    let len = chars.len();
    let equals = find_from(chars, '=', from);
    if equals >= len || find_from(chars, ';', from) < equals {
        return None;
    }
    let name = text_of(chars, from, equals);
    if equals + 1 < len && chars[equals + 1] == '"' {
        let close = find_from(chars, '"', equals + 2);
        if close < len && close + 1 < len && chars[close + 1] == ';' {
            let value = text_of(chars, equals + 2, close);
            Some((Attribute::Text(name, value), close + 2))
        } else {
            None
        }
    } else {
        let end = find_from(chars, ';', equals + 1);
        if end >= len {
            return None;
        }
        let value = slice_of(chars, equals + 1, end);
        if value.len() == 1 && value[0] == 'T' {
            assert(value@ =~= seq!['T']);
            Some((Attribute::Boolean(name, true), end + 1))
        } else if value.len() == 1 && value[0] == 'F' {
            assert(value@ =~= seq!['F']);
            Some((Attribute::Boolean(name, false), end + 1))
        } else if is_decimal_text(&value) {
            assert(seq!['T'].len() == 1 && seq!['T'][0] == 'T');
            assert(seq!['F'].len() == 1 && seq!['F'][0] == 'F');
            let number = text_of(&value, 0, value.len());
            assert(value@.subrange(0, value@.len() as int) =~= value@);
            Some((Attribute::Number(name, number), end + 1))
        } else {
            assert(seq!['T'].len() == 1 && seq!['T'][0] == 'T');
            assert(seq!['F'].len() == 1 && seq!['F'][0] == 'F');
            None
        }
    }
}

/// Reads an attribute text: entries of the form `name=value;`, one after
/// the other. A value is a text in double quotes, `T`, `F` or a decimal
/// number. The result is `None` exactly where the text is malformed.
pub fn read_attributes(attributes_string: &str) -> (attributes: Option<Vec<Attribute>>)
    ensures
        match attributes {
            Some(list) => attributes_of(attributes_string@) == Some(attribute_views(list@)),
            None => attributes_of(attributes_string@) is None,
        },
{
    let chars = chars_of(attributes_string);
    let mut list: Vec<Attribute> = Vec::new();
    let mut at: usize = 0;
    while at < chars.len()
        invariant
            at <= chars.len(),
            chars@ == attributes_string@,
            attributes_from(chars@, 0) == match attributes_from(chars@, at as int) {
                Some(rest) => Some(attribute_views(list@) + rest),
                None => None,
            },
        decreases chars.len() - at,
    {
        match read_entry(&chars, at) {
            None => {
                return None;
            },
            Some((attribute, next)) => {
                proof {
                    let rest = attributes_from(chars@, next as int);
                    if rest is Some {
                        assert(attribute_views(list@.push(attribute)) + rest.unwrap()
                            =~= attribute_views(list@) + (seq![attribute@] + rest.unwrap()));
                    }
                }
                list.push(attribute);
                at = next;
            },
        }
    }
    proof {
        assert(attribute_views(list@) + Seq::<AttributeView>::empty() =~= attribute_views(list@));
    }
    Some(list)
}

/// One record of the flat text format: a node and the place where it hangs.
#[derive(Debug, PartialEq)]
pub struct Node {
    pub content: String,
    pub attributes: Vec<Attribute>,
    pub uuid: Uuid,
    pub parent_uuid: Uuid,
}

/// What a record holds, as plain values.
pub struct RecordView {
    pub content: Seq<char>,
    pub attributes: Seq<AttributeView>,
    pub uuid: Uuid,
    pub parent_uuid: Uuid,
}

impl View for Node {
    type V = RecordView;

    open spec fn view(&self) -> RecordView {
        RecordView {
            content: self.content@,
            attributes: attribute_views(self.attributes@),
            uuid: self.uuid,
            parent_uuid: self.parent_uuid,
        }
    }
}

/// Why a text is no document in the flat format.
#[derive(Debug, PartialEq)]
pub enum ParseError {
    /// This field should have been an identifier.
    WrongUuid(String),
    /// This field should have been an attribute text.
    WrongAttributes(String),
}

/// What a [`ParseError`] holds, as plain values.
pub enum ParseErrorView {
    WrongUuid(Seq<char>),
    WrongAttributes(Seq<char>),
}

impl View for ParseError {
    type V = ParseErrorView;

    open spec fn view(&self) -> ParseErrorView {
        match *self {
            ParseError::WrongUuid(text) => ParseErrorView::WrongUuid(text@),
            ParseError::WrongAttributes(text) => ParseErrorView::WrongAttributes(text@),
        }
    }
}

/// The function that takes a record to its view.
pub open spec fn view_of() -> spec_fn(Node) -> RecordView {
    |node: Node| node@
}

/// The views of a run of records, in order.
pub open spec fn record_views(nodes: Seq<Node>) -> Seq<RecordView> {
    nodes.map_values(view_of())
}

/// The number by which records are ordered: the identifier of the parent,
/// or the record's own.
pub open spec fn record_key(by_parent: bool) -> spec_fn(Node) -> int {
    |node: Node|
        if by_parent {
            node.parent_uuid.value as int
        } else {
            node.uuid.value as int
        }
}

/// The same number, of a view.
pub open spec fn view_key(by_parent: bool) -> spec_fn(RecordView) -> int {
    |record: RecordView|
        if by_parent {
            record.parent_uuid.value as int
        } else {
            record.uuid.value as int
        }
}

/// The record that a line writes, or what is wrong with the line.
///
/// The first three spaces of the line part four fields: the identifier, the
/// parent's identifier, the attribute text, and the content, which runs to
/// the end of the line and may hold spaces. A field that the line does not
/// reach is empty. Both identifiers stand in the hyphenated form.
#[verifier::opaque]
pub open spec fn record_of(line: Seq<char>) -> Result<RecordView, ParseErrorView> {
    let first = find_char(line, ' ', 0);
    let second = find_char(line, ' ', first + 1);
    let third = find_char(line, ' ', second + 1);
    let uuid_text = part(line, 0, first);
    let parent_text = part(line, first + 1, second);
    let attribute_text = part(line, second + 1, third);
    let content = part(line, third + 1, line.len() as int);
    match hyphenated_value(uuid_text) {
        None => Err(ParseErrorView::WrongUuid(uuid_text)),
        Some(uuid) => match hyphenated_value(parent_text) {
            None => Err(ParseErrorView::WrongUuid(parent_text)),
            Some(parent) => match attributes_of(attribute_text) {
                None => Err(ParseErrorView::WrongAttributes(attribute_text)),
                Some(attributes) => Ok(
                    RecordView {
                        content,
                        attributes,
                        uuid: Uuid { value: uuid as u128 },
                        parent_uuid: Uuid { value: parent as u128 },
                    },
                ),
            },
        },
    }
}

/// The records that `text` writes from `from` on, line after line, or what
/// is wrong with the first line that is malformed. Every line ends with a
/// line feed; what stands after the last line feed is no line. An empty
/// line at the very end of the text ends the document; an empty line
/// anywhere else is malformed.
pub open spec fn records_from(text: Seq<char>, from: int) -> Result<
    Seq<RecordView>,
    ParseErrorView,
>
    decreases text.len() - from,
{
    let end = find_char(text, '\n', from);
    if from < 0 || end < from || end >= text.len() {
        Ok(Seq::empty())
    } else if end == from && end + 1 == text.len() {
        Ok(Seq::empty())
    } else {
        match record_of(text.subrange(from, end)) {
            Err(error) => Err(error),
            Ok(record) => match records_from(text, end + 1) {
                Err(error) => Err(error),
                Ok(rest) => Ok(seq![record] + rest),
            },
        }
    }
}

/// The records that a document in the flat format writes, in the order of
/// its lines.
pub open spec fn records_of(text: Seq<char>) -> Result<Seq<RecordView>, ParseErrorView> {
    records_from(text, 0)
}

impl Node {
    /// The record's identifier, its parent's identifier and its content,
    /// with a space between them.
    pub fn to_string(&self) -> (text: String)
        ensures
            text@ == crate::id::hyphenated_text(self.uuid.value) + seq![' ']
                + crate::id::hyphenated_text(self.parent_uuid.value) + seq![' ']
                + self.content@,
    {
        let mut text = self.uuid.to_hyphenated_string();
        crate::text::push_char(&mut text, ' ');
        let parent = self.parent_uuid.to_hyphenated_string();
        text.append(parent.as_str());
        crate::text::push_char(&mut text, ' ');
        text.append(self.content.as_str());
        text
    }
}

/// Reads an identifier in the hyphenated form; no other form is taken.
pub fn read_hyphenated(text: &String) -> (id: Option<Uuid>)
    ensures
        match id {
            Some(id) => hyphenated_value(text@) == Some(id.value as int),
            None => hyphenated_value(text@) is None,
        },
{
    let chars = chars_of(text.as_str());
    if chars.len() == 36 {
        Uuid::parse_str(text.as_str())
    } else {
        None
    }
}

/// Reads one line.
pub fn read_record(line: &Vec<char>) -> (record: Result<Node, ParseError>)
    ensures
        match record {
            Ok(node) => record_of(line@) == Ok::<RecordView, ParseErrorView>(node@),
            Err(error) => record_of(line@) == Err::<RecordView, ParseErrorView>(error@),
        },
{
    reveal(record_of);
    let len = line.len();
    let first = find_from(line, ' ', 0);
    let uuid_text = text_of(line, 0, first);
    let second = if first < len {
        find_from(line, ' ', first + 1)
    } else {
        len
    };
    let parent_text = if first < len {
        text_of(line, first + 1, second)
    } else {
        String::new()
    };
    let third = if second < len {
        find_from(line, ' ', second + 1)
    } else {
        len
    };
    let attribute_text = if second < len {
        text_of(line, second + 1, third)
    } else {
        String::new()
    };
    let content = if third < len {
        text_of(line, third + 1, len)
    } else {
        String::new()
    };
    let uuid = match read_hyphenated(&uuid_text) {
        Some(uuid) => uuid,
        None => {
            return Err(ParseError::WrongUuid(uuid_text));
        },
    };
    let parent_uuid = match read_hyphenated(&parent_text) {
        Some(uuid) => uuid,
        None => {
            return Err(ParseError::WrongUuid(parent_text));
        },
    };
    match read_attributes(attribute_text.as_str()) {
        None => Err(ParseError::WrongAttributes(attribute_text)),
        Some(attributes) => Ok(Node { content, attributes, uuid, parent_uuid }),
    }
}

/// The number by which a record is ordered.
fn key_of(node: &Node, by_parent: bool) -> (key: u128)
    ensures
        key as int == record_key(by_parent)(*node),
{
    if by_parent {
        node.parent_uuid.value
    } else {
        node.uuid.value
    }
}

/// Sorts records by the identifier of their parent, or by their own, and
/// keeps records of equal key in the order in which they stood.
pub fn sort_records(nodes: &mut Vec<Node>, by_parent: bool)
    ensures
        final(nodes)@ == stable_sort(old(nodes)@, record_key(by_parent)),
{
    let ghost given = nodes@;
    let ghost key = record_key(by_parent);
    let ghost mut done: int = 0;
    let mut placed: Vec<Node> = Vec::new();
    while nodes.len() > 0
        invariant
            0 <= done <= given.len(),
            key == record_key(by_parent),
            nodes@ == given.subrange(done, given.len() as int),
            placed@ == stable_sort(given.subrange(0, done), key),
        decreases nodes.len(),
    {
        let node = nodes.remove(0);
        let k = key_of(&node, by_parent);
        let mut at: usize = 0;
        while at < placed.len() && key_of(&placed[at], by_parent) <= k
            invariant
                at <= placed.len(),
                key == record_key(by_parent),
                upper_bound(placed@, key, k as int, 0) == upper_bound(
                    placed@,
                    key,
                    k as int,
                    at as int,
                ),
            decreases placed.len() - at,
        {
            at += 1;
        }
        proof {
            let next = given.subrange(0, done + 1);
            assert(next.drop_last() =~= given.subrange(0, done));
            assert(next.last() == node);
            assert(nodes@ =~= given.subrange(done + 1, given.len() as int));
            done = done + 1;
        }
        placed.insert(at, node);
    }
    proof {
        assert(given.subrange(0, done) =~= given);
    }
    *nodes = placed;
}

/// Sorts records by the identifier of their parent, and keeps records of
/// one parent in the order in which they stood.
pub fn sort_nodes(nodes: &mut Vec<Node>)
    ensures
        final(nodes)@ == stable_sort(old(nodes)@, record_key(true)),
{
    sort_records(nodes, true)
}

/// Sorting records and viewing them is viewing them and sorting the views.
pub proof fn lemma_sorted_views(nodes: Seq<Node>, by_parent: bool)
    ensures
        record_views(stable_sort(nodes, record_key(by_parent))) == stable_sort(
            record_views(nodes),
            view_key(by_parent),
        ),
{
    let f = view_of();
    let key_a = record_key(by_parent);
    let key_b = view_key(by_parent);
    assert forall|a: Node| #[trigger] key_b(f(a)) == key_a(a) by {}
    lemma_stable_sort_map(nodes, f, key_a, key_b);
}

/// Reads a document in the flat format: one record per line, sorted by the
/// identifier of the parent, records of one parent in the order of their
/// lines. What stands after the last line feed is ignored, and so is an
/// empty line at the very end. The first malformed field of the first
/// malformed line is the error.
pub fn read_nodes(str: &str) -> (records: Result<Vec<Node>, ParseError>)
    ensures
        match records {
            Ok(nodes) => match records_of(str@) {
                Ok(read) => record_views(nodes@) == stable_sort(read, view_key(true)),
                Err(_) => false,
            },
            Err(error) => records_of(str@) == Err::<Seq<RecordView>, ParseErrorView>(error@),
        },
{
    let chars = chars_of(str);
    let mut nodes: Vec<Node> = Vec::new();
    let mut at: usize = 0;
    loop
        invariant
            at <= chars.len(),
            chars@ == str@,
            records_from(chars@, 0) == match records_from(chars@, at as int) {
                Ok(rest) => Ok::<Seq<RecordView>, ParseErrorView>(record_views(nodes@) + rest),
                Err(error) => Err(error),
            },
        ensures
            records_from(chars@, 0) == Ok::<Seq<RecordView>, ParseErrorView>(record_views(nodes@)),
        decreases chars.len() - at,
    {
        let end = find_from(&chars, '\n', at);
        if end >= chars.len() || (end == at && end + 1 == chars.len()) {
            proof {
                assert(record_views(nodes@) + Seq::<RecordView>::empty() =~= record_views(
                    nodes@,
                ));
            }
            break ;
        }
        let line = slice_of(&chars, at, end);
        match read_record(&line) {
            Err(error) => {
                return Err(error);
            },
            Ok(node) => {
                proof {
                    if let Ok(rest) = records_from(chars@, end as int + 1) {
                        assert(record_views(nodes@.push(node)) + rest =~= record_views(nodes@) + (
                        seq![node@] + rest));
                    }
                }
                nodes.push(node);
            },
        }
        at = end + 1;
    }
    proof {
        lemma_sorted_views(nodes@, true);
    }
    sort_nodes(&mut nodes);
    Ok(nodes)
}

/// Whether some record carries `id`.
fn has_uuid(nodes: &Vec<Node>, id: Uuid) -> (found: bool)
    ensures
        found == has_record(record_views(nodes@), id),
{
    let mut i: usize = 0;
    while i < nodes.len()
        invariant
            i <= nodes.len(),
            forall|j: int| 0 <= j < i ==> (#[trigger] record_views(nodes@)[j]).uuid != id,
        decreases nodes.len() - i,
    {
        if nodes[i].uuid == id {
            assert(record_views(nodes@)[i as int].uuid == id);
            return true;
        }
        i += 1;
    }
    false
}

/// For every record, whether it goes to the top level.
fn top_level_flags(nodes: &Vec<Node>) -> (flags: Vec<bool>)
    ensures
        flags.len() == nodes.len(),
        forall|i: int|
            0 <= i < nodes.len() ==> #[trigger] flags[i] == hangs_under(
                record_views(nodes@),
                record_views(nodes@)[i],
                None,
            ),
{
    let mut flags: Vec<bool> = Vec::new();
    let mut i: usize = 0;
    while i < nodes.len()
        invariant
            i <= nodes.len(),
            flags.len() == i,
            forall|j: int|
                0 <= j < i ==> #[trigger] flags[j] == hangs_under(
                    record_views(nodes@),
                    record_views(nodes@)[j],
                    None,
                ),
        decreases nodes.len() - i,
    {
        let known = has_uuid(nodes, nodes[i].parent_uuid);
        flags.push(!known);
        i += 1;
    }
    flags
}

/// The value above which the search starts: below every identifier where
/// there is none.
pub open spec fn floor_of(above: Option<u128>) -> int {
    match above {
        Some(value) => value as int,
        None => -1,
    }
}

/// The position of the next child of `parent` after `above`.
fn next_child(
    nodes: &Vec<Node>,
    top: &Vec<bool>,
    parent: Option<Uuid>,
    above: Option<u128>,
) -> (found: Option<usize>)
    requires
        top.len() == nodes.len(),
        forall|i: int|
            0 <= i < nodes.len() ==> #[trigger] top[i] == hangs_under(
                record_views(nodes@),
                record_views(nodes@)[i],
                None,
            ),
    ensures
        match found {
            Some(i) => next_under(
                record_views(nodes@),
                parent,
                floor_of(above),
                nodes.len() as int,
            ) == Some(i as int) && i < nodes.len(),
            None => next_under(record_views(nodes@), parent, floor_of(above), nodes.len() as int)
                is None,
        },
{
    let ghost records = record_views(nodes@);
    let mut best: Option<usize> = None;
    let mut i: usize = 0;
    while i < nodes.len()
        invariant
            i <= nodes.len(),
            records == record_views(nodes@),
            top.len() == nodes.len(),
            forall|k: int|
                0 <= k < nodes.len() ==> #[trigger] top[k] == hangs_under(
                    records,
                    records[k],
                    None,
                ),
            match best {
                Some(b) => next_under(records, parent, floor_of(above), i as int) == Some(
                    b as int,
                ) && b < i,
                None => next_under(records, parent, floor_of(above), i as int) is None,
            },
        decreases nodes.len() - i,
    {
        let node = &nodes[i];
        let hangs = match parent {
            Some(id) => node.parent_uuid == id,
            None => top[i],
        };
        let after = match above {
            Some(value) => node.uuid.value > value,
            None => true,
        };
        let better = match best {
            Some(b) => node.uuid.value < nodes[b].uuid.value,
            None => true,
        };
        proof {
            assert(records[i as int] == node@);
            assert(hangs == hangs_under(records, records[i as int], parent));
            assert(after == (node.uuid.value > floor_of(above)));
        }
        if hangs && after && better {
            best = Some(i);
        }
        i += 1;
    }
    best
}

/// Builds the children of `parent` that come after `above`, each with all
/// that hangs under it.
fn build_under(
    nodes: &Vec<Node>,
    top: &Vec<bool>,
    parent: Option<Uuid>,
    above: Option<u128>,
    depth: usize,
) -> (forest: Option<Box<TreeNode>>)
    requires
        top.len() == nodes.len(),
        forall|i: int|
            0 <= i < nodes.len() ==> #[trigger] top[i] == hangs_under(
                record_views(nodes@),
                record_views(nodes@)[i],
                None,
            ),
    ensures
        forest_view(forest) == forest_under(
            record_views(nodes@),
            parent,
            floor_of(above),
            depth as nat,
        ),
    decreases depth,
{
    let ghost records = record_views(nodes@);
    if depth == 0 {
        return None;
    }
    // The children, in ascending order of their identifiers.
    let mut children: Vec<usize> = Vec::new();
    let mut last = above;
    loop
        invariant
            records == record_views(nodes@),
            top.len() == nodes.len(),
            forall|i: int|
                0 <= i < nodes.len() ==> #[trigger] top[i] == hangs_under(
                    records,
                    records[i],
                    None,
                ),
            floor_of(last) == if children.len() == 0 {
                floor_of(above)
            } else {
                records[children[children.len() - 1] as int].uuid.value as int
            },
            forall|k: int|
                0 <= k < children.len() ==> {
                    &&& (#[trigger] children[k]) < nodes.len()
                    &&& next_under(
                        records,
                        parent,
                        if k == 0 {
                            floor_of(above)
                        } else {
                            records[children[k - 1] as int].uuid.value as int
                        },
                        nodes.len() as int,
                    ) == Some(children[k] as int)
                    &&& records[children[k] as int].uuid.value > if k == 0 {
                        floor_of(above)
                    } else {
                        records[children[k - 1] as int].uuid.value as int
                    }
                },
        ensures
            next_under(records, parent, floor_of(last), nodes.len() as int) is None,
        decreases u128::MAX - floor_of(last),
    {
        match next_child(nodes, top, parent, last) {
            None => {
                break ;
            },
            Some(i) => {
                proof {
                    lemma_next_under(records, parent, floor_of(last), nodes.len() as int);
                    assert(records[i as int] == nodes[i as int]@);
                }
                children.push(i);
                last = Some(nodes[i].uuid.value);
            },
        }
    }
    // The chain, from its last node to its first.
    let mut forest: Option<Box<TreeNode>> = None;
    let mut k: usize = children.len();
    while k > 0
        invariant
            k <= children.len(),
            depth > 0,
            records == record_views(nodes@),
            top.len() == nodes.len(),
            forall|i: int|
                0 <= i < nodes.len() ==> #[trigger] top[i] == hangs_under(
                    records,
                    records[i],
                    None,
                ),
            forall|j: int|
                0 <= j < children.len() ==> {
                    &&& (#[trigger] children[j]) < nodes.len()
                    &&& next_under(
                        records,
                        parent,
                        if j == 0 {
                            floor_of(above)
                        } else {
                            records[children[j - 1] as int].uuid.value as int
                        },
                        nodes.len() as int,
                    ) == Some(children[j] as int)
                    &&& records[children[j] as int].uuid.value > if j == 0 {
                        floor_of(above)
                    } else {
                        records[children[j - 1] as int].uuid.value as int
                    }
                },
            forest_view(forest) == forest_under(
                records,
                parent,
                if k == 0 {
                    floor_of(above)
                } else {
                    records[children[k - 1] as int].uuid.value as int
                },
                depth as nat,
            ),
        decreases k,
    {
        k -= 1;
        let i = children[k];
        let node = &nodes[i];
        let below = build_under(nodes, top, Some(node.uuid), None, depth - 1);
        let value = crate::node::Node::new(node.content.clone(), clone_attributes(&node.attributes));
        proof {
            assert(records[i as int] == node@);
            assert(value@ == node_of(records[i as int]));
        }
        forest = Some(
            Box::new(Tree { value, uuid: node.uuid, first_child: below, next_sibling: forest }),
        );
    }
    forest
}

/// Builds the document that the records describe. Its root carries the nil
/// identifier and an empty node. A record hangs under the record whose
/// identifier it names as its parent; one that names no record of the set
/// hangs under the root. Children stand in ascending order of their
/// identifiers, whatever the order of the records. A record that can be
/// reached from no top-level record is left out.
pub fn nodes_to_tree_node(nodes: Vec<Node>) -> (tree: TreeNode)
    ensures
        tree@ == tree_of(record_views(nodes@)),
{
    let top = top_level_flags(&nodes);
    let below = build_under(&nodes, &top, None, None, nodes.len());
    let value = crate::node::Node::new(String::new(), Vec::new());
    proof {
        assert(value@.attributes =~= Seq::<AttributeView>::empty());
        assert(record_views(nodes@).len() == nodes.len());
    }
    Tree { value, uuid: Uuid::nil(), first_child: below, next_sibling: None }
}

} // verus!
