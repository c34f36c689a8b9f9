//! How nodes and trees are shown to scripts, and how a tree is read from
//! what a script hands over.

use crate::id::{parsed_value, simple_text, Uuid};
use crate::node::{Attribute, AttributeView, Node, NodeView};
use crate::reader::{is_decimal, is_decimal_text};
use crate::script::{
    entry_views, integer_text, integer_to_text, is_key, kind_of, lemma_entry_decreases,
    script_view, storable, Kind, ScriptValue, ScriptView,
};
use crate::tree::{forest_view, lemma_view_with_child, Tree};
use vstd::prelude::*;

verus! {

/// What a script value should have been.
#[derive(Clone, Copy, Debug, PartialEq, Eq, Structural)]
pub enum Shape {
    /// A table with the keys `value`, `uuid` and `children`.
    Tree,
    /// A table with the key `raw`.
    Node,
    /// A text, the raw text of a node.
    Raw,
    /// A text or nil, the evaluated text of a node.
    Evaled,
    /// A table of attributes, or nil.
    Attributes,
    /// A text, the identifier of a node.
    Uuid,
    /// A table, the list of the children of a node.
    Children,
    /// A text, the whole payload of a node.
    Text,
}

/// Why a script value is no tree.
#[derive(Debug, PartialEq)]
pub enum ConversionError {
    /// A value of one shape was expected and a value of this kind was
    /// found.
    Mismatch { expected: Shape, found: Kind },
    /// This text should have been an identifier.
    WrongUuid(String),
}

/// What a [`ConversionError`] holds, as plain values.
pub enum ConversionErrorView {
    Mismatch { expected: Shape, found: Kind },
    WrongUuid(Seq<char>),
}

impl View for ConversionError {
    type V = ConversionErrorView;

    open spec fn view(&self) -> ConversionErrorView {
        match *self {
            ConversionError::Mismatch { expected, found } => ConversionErrorView::Mismatch {
                expected,
                found,
            },
            ConversionError::WrongUuid(text) => ConversionErrorView::WrongUuid(text@),
        }
    }
}

/// A payload that can be read from what a script hands over.
pub trait FromScript: View + Sized {
    /// The payload that a script value describes, or why it describes none.
    spec fn of_script(value: ScriptView) -> Result<Self::V, ConversionErrorView>;

    /// Reads the payload that a script value describes.
    fn from_script(value: &ScriptValue) -> (payload: Result<Self, ConversionError>)
        ensures
            match payload {
                Ok(read) => Self::of_script(value@) == Ok::<Self::V, ConversionErrorView>(read@),
                Err(error) => Self::of_script(value@) == Err::<Self::V, ConversionErrorView>(
                    error@,
                ),
            },
    ;
}

/// A payload that can be shown to a script.
pub trait ToScript: View + Sized {
    /// How the payload is shown to a script.
    spec fn script_of(value: Self::V) -> ScriptView;

    /// Shows the payload to a script.
    fn to_script(&self) -> (value: ScriptValue)
        ensures
            value@ == Self::script_of(self@),
    ;
}

/// The key after `index` in a list; the last key that there is stays.
pub open spec fn next_index(index: i64) -> i64 {
    if index < i64::MAX {
        (index + 1) as i64
    } else {
        index
    }
}

/// How a node is shown to a script: a table with its raw text under `raw`.
pub open spec fn node_script(node: NodeView) -> ScriptView {
    ScriptView::Table(seq![(ScriptView::Text("raw"@), ScriptView::Text(node.raw))])
}

/// How a sibling chain is shown to a script: the entries of a list whose
/// keys count up from `index`.
pub open spec fn chain_script<T: ToScript>(link: Option<Box<Tree<T::V>>>, index: i64) -> Seq<
    (ScriptView, ScriptView),
>
    decreases link,
{
    match link {
        None => Seq::empty(),
        Some(tree) => seq![(ScriptView::Integer(index), tree_script::<T>(*tree))]
            + chain_script::<T>(tree.next_sibling, next_index(index)),
    }
}

/// How a tree is shown to a script: a table with the payload under
/// `value`, the identifier in its compact form under `uuid`, and the list
/// of the children, each shown in the same way, under `children`.
pub open spec fn tree_script<T: ToScript>(tree: Tree<T::V>) -> ScriptView
    decreases tree,
{
    ScriptView::Table(
        seq![
            (ScriptView::Text("value"@), T::script_of(tree.value)),
            (ScriptView::Text("uuid"@), ScriptView::Text(simple_text(tree.uuid.value))),
            (
                ScriptView::Text("children"@),
                ScriptView::Table(chain_script::<T>(tree.first_child, 1)),
            ),
        ],
    )
}

/// As a sibling chain of nodes is shown, it can go into the engine.
pub proof fn lemma_chain_script_storable(link: Option<Box<Tree<NodeView>>>, index: i64, i: int)
    requires
        0 <= i < chain_script::<Node>(link, index).len(),
    ensures
        is_key(chain_script::<Node>(link, index)[i].0),
        storable(chain_script::<Node>(link, index)[i].1),
    decreases link, 0nat,
{
    match link {
        None => {},
        Some(tree) => {
            if i == 0 {
                lemma_tree_script_storable(*tree);
            } else {
                lemma_chain_script_storable(tree.next_sibling, next_index(index), i - 1);
            }
        },
    }
}

/// As a document is shown to a script, it can go into the engine: every
/// key is a text or an integer, so that the function that a formula gives
/// can be called with the document.
pub proof fn lemma_tree_script_storable(tree: Tree<NodeView>)
    ensures
        storable(tree_script::<Node>(tree)),
    decreases tree, 1nat,
{
    let children = chain_script::<Node>(tree.first_child, 1);
    assert forall|i: int| 0 <= i < children.len() implies is_key((#[trigger] children[i]).0)
        && storable(children[i].1) by {
        lemma_chain_script_storable(tree.first_child, 1, i);
    }
    assert(storable(ScriptView::Table(children)));
    let shown = seq![(ScriptView::Text("raw"@), ScriptView::Text(tree.value.raw))];
    assert forall|i: int| 0 <= i < shown.len() implies is_key((#[trigger] shown[i]).0) && storable(
        shown[i].1,
    ) by {
        assert(storable(ScriptView::Text(tree.value.raw)));
    }
    assert(storable(node_script(tree.value)));
    let whole = seq![
        (ScriptView::Text("value"@), node_script(tree.value)),
        (ScriptView::Text("uuid"@), ScriptView::Text(simple_text(tree.uuid.value))),
        (ScriptView::Text("children"@), ScriptView::Table(children)),
    ];
    assert forall|i: int| 0 <= i < whole.len() implies is_key((#[trigger] whole[i]).0) && storable(
        whole[i].1,
    ) by {
        assert(storable(ScriptView::Text(simple_text(tree.uuid.value))));
    }
}

/// The position of the first entry at or after `from` whose key is `key`;
/// the number of entries where there is none.
pub open spec fn position(entries: Seq<(ScriptView, ScriptView)>, key: ScriptView, from: int) -> int
    decreases entries.len() - from,
{
    if from < 0 || from >= entries.len() {
        entries.len() as int
    } else if entries[from].0 == key {
        from
    } else {
        position(entries, key, from + 1)
    }
}

/// The value under `key`; nil where the table has no such key.
pub open spec fn lookup(entries: Seq<(ScriptView, ScriptView)>, key: ScriptView) -> ScriptView {
    let at = position(entries, key, 0);
    if 0 <= at < entries.len() {
        entries[at].1
    } else {
        ScriptView::Nil
    }
}

/// The attribute that one entry of an attribute table describes: the key
/// is its name, the kind of the value is its kind. An entry whose key is no
/// text, or whose value is no text, number or boolean, describes none; nor
/// does a number that has no decimal notation.
pub open spec fn attribute_of_entry(entry: (ScriptView, ScriptView)) -> Option<AttributeView> {
    match entry.0 {
        ScriptView::Text(name) => match entry.1 {
            ScriptView::Text(value) => Some(AttributeView::Text(name, value)),
            ScriptView::Number(value) => if is_decimal(value) {
                Some(AttributeView::Number(name, value))
            } else {
                None
            },
            ScriptView::Integer(value) => Some(
                AttributeView::Number(name, integer_text(value as int)),
            ),
            ScriptView::Boolean(value) => Some(AttributeView::Boolean(name, value)),
            _ => None,
        },
        _ => None,
    }
}

/// The attributes that the entries of an attribute table describe, in the
/// order of the entries.
pub open spec fn attributes_of_entries(entries: Seq<(ScriptView, ScriptView)>) -> Seq<
    AttributeView,
>
    decreases entries.len(),
{
    if entries.len() == 0 {
        Seq::empty()
    } else {
        match attribute_of_entry(entries[0]) {
            Some(attribute) => seq![attribute] + attributes_of_entries(entries.drop_first()),
            None => attributes_of_entries(entries.drop_first()),
        }
    }
}

/// The node that a script value describes: a table with a text under
/// `raw`; under `evaled` a text or nothing; under `attributes` a table or
/// nothing.
pub open spec fn node_of_script(value: ScriptView) -> Result<NodeView, ConversionErrorView> {
    match value {
        ScriptView::Table(entries) => match lookup(entries, ScriptView::Text("raw"@)) {
            ScriptView::Text(raw) => match lookup(entries, ScriptView::Text("evaled"@)) {
                ScriptView::Text(_) | ScriptView::Nil => match lookup(
                    entries,
                    ScriptView::Text("attributes"@),
                ) {
                    ScriptView::Table(_) | ScriptView::Nil => Ok(
                        NodeView {
                            raw,
                            evaled: match lookup(entries, ScriptView::Text("evaled"@)) {
                                ScriptView::Text(text) => Some(text),
                                _ => None,
                            },
                            attributes: match lookup(entries, ScriptView::Text("attributes"@)) {
                                ScriptView::Table(list) => attributes_of_entries(list),
                                _ => Seq::empty(),
                            },
                        },
                    ),
                    other => Err(
                        ConversionErrorView::Mismatch {
                            expected: Shape::Attributes,
                            found: kind_of(other),
                        },
                    ),
                },
                other => Err(
                    ConversionErrorView::Mismatch { expected: Shape::Evaled, found: kind_of(other) },
                ),
            },
            other => Err(
                ConversionErrorView::Mismatch { expected: Shape::Raw, found: kind_of(other) },
            ),
        },
        other => Err(ConversionErrorView::Mismatch { expected: Shape::Node, found: kind_of(other) }),
    }
}

/// A tree after each of `children` in turn was attached as the last child
/// of its root.
pub open spec fn with_children<V>(tree: Tree<V>, children: Seq<Tree<V>>) -> Tree<V>
    decreases children.len(),
{
    if children.len() == 0 {
        tree
    } else {
        with_children(tree.with_child(tree.uuid, children[0]), children.drop_first())
    }
}

/// The trees that the items of a list describe: the values under the keys
/// `index`, `index + 1` and so on, up to the first key that is missing, and
/// at most `count` of them. The first item that is no tree is the error.
pub open spec fn children_of_script<T: FromScript>(
    entries: Seq<(ScriptView, ScriptView)>,
    index: i64,
    count: nat,
) -> Result<Seq<Tree<T::V>>, ConversionErrorView>
    decreases entries, count,
{
    let at = position(entries, ScriptView::Integer(index), 0);
    if count == 0 || !(0 <= at < entries.len()) || entries[at].1 is Nil {
        Ok(Seq::empty())
    } else {
        match tree_of_script::<T>(entries[at].1) {
            Err(error) => Err(error),
            Ok(tree) => match children_of_script::<T>(
                entries,
                next_index(index),
                (count - 1) as nat,
            ) {
                Err(error) => Err(error),
                Ok(rest) => Ok(seq![tree] + rest),
            },
        }
    }
}

/// The tree that a script value describes: a table with a node under
/// `value`, the text of an identifier under `uuid`, and a list of trees
/// under `children`, which become the children of the node in the order of
/// the list. What is wrong with `value` is reported first, then `uuid`,
/// then `children`.
pub open spec fn tree_of_script<T: FromScript>(value: ScriptView) -> Result<
    Tree<T::V>,
    ConversionErrorView,
>
    decreases value, 0nat,
{
    match value {
        ScriptView::Table(entries) => {
            let at = position(entries, ScriptView::Text("children"@), 0);
            match T::of_script(lookup(entries, ScriptView::Text("value"@))) {
                Err(error) => Err(error),
                Ok(node) => match lookup(entries, ScriptView::Text("uuid"@)) {
                    ScriptView::Text(text) => match parsed_value(text) {
                        None => Err(ConversionErrorView::WrongUuid(text)),
                        Some(id) => if 0 <= at < entries.len() && entries[at].1 is Table {
                            match children_of_script::<T>(
                                entries[at].1->Table_0,
                                1,
                                entries[at].1->Table_0.len(),
                            ) {
                                Err(error) => Err(error),
                                Ok(children) => Ok(
                                    with_children(
                                        Tree {
                                            value: node,
                                            uuid: Uuid { value: id as u128 },
                                            first_child: None,
                                            next_sibling: None,
                                        },
                                        children,
                                    ),
                                ),
                            }
                        } else {
                            Err(
                                ConversionErrorView::Mismatch {
                                    expected: Shape::Children,
                                    found: kind_of(lookup(entries, ScriptView::Text("children"@))),
                                },
                            )
                        },
                    },
                    other => Err(
                        ConversionErrorView::Mismatch {
                            expected: Shape::Uuid,
                            found: kind_of(other),
                        },
                    ),
                },
            }
        },
        other => Err(ConversionErrorView::Mismatch { expected: Shape::Tree, found: kind_of(other) }),
    }
}

/// The key after `index` in a list.
fn following(index: i64) -> (next: i64)
    ensures
        next == next_index(index),
{
    if index < i64::MAX {
        index + 1
    } else {
        index
    }
}

/// A text value.
fn text_value(text: &str) -> (value: ScriptValue)
    ensures
        value@ == ScriptView::Text(text@),
{
    ScriptValue::Text(String::from_str(text))
}

/// The views of the entries after one more entry.
proof fn lemma_entry_views_push(
    entries: Seq<(ScriptValue, ScriptValue)>,
    entry: (ScriptValue, ScriptValue),
)
    ensures
        entry_views(entries.push(entry)) == entry_views(entries).push(
            (script_view(entry.0), script_view(entry.1)),
        ),
{
    assert(entry_views(entries.push(entry)) =~= entry_views(entries).push(
        (script_view(entry.0), script_view(entry.1)),
    ));
}

impl ToScript for String {
    /// A text is shown as it is.
    open spec fn script_of(value: Seq<char>) -> ScriptView {
        ScriptView::Text(value)
    }

    /// Shows a payload that is a text.
    fn to_script(&self) -> (value: ScriptValue) {
        ScriptValue::Text(self.clone())
    }
}

impl ToScript for Node {
    open spec fn script_of(value: NodeView) -> ScriptView {
        node_script(value)
    }

    /// Shows this node to a script: a table with the raw text under `raw`.
    /// Neither the attributes nor the evaluated text are shown.
    fn to_script(&self) -> (value: ScriptValue) {
        let mut list: Vec<(ScriptValue, ScriptValue)> = Vec::new();
        let entry = (text_value("raw"), ScriptValue::Text(self.raw.clone()));
        proof {
            lemma_entry_views_push(list@, entry);
        }
        list.push(entry);
        assert(entry_views(list@) =~= seq![
            (ScriptView::Text("raw"@), ScriptView::Text(self.raw@)),
        ]);
        ScriptValue::Table(list)
    }
}

/// Appends the entries that show a sibling chain as a list.
fn chain_to_script<T: ToScript>(
    link: &Option<Box<Tree<T>>>,
    index: i64,
    out: &mut Vec<(ScriptValue, ScriptValue)>,
)
    ensures
        entry_views(final(out)@) == entry_views(old(out)@) + chain_script::<T>(
            forest_view(*link),
            index,
        ),
    decreases link, 0nat,
{
    match link {
        None => {
            assert(entry_views(out@) + Seq::<(ScriptView, ScriptView)>::empty() =~= entry_views(
                out@,
            ));
        },
        Some(tree) => {
            let ghost before = entry_views(out@);
            let entry = (ScriptValue::Integer(index), tree_to_script::<T>(tree));
            proof {
                lemma_entry_views_push(out@, entry);
            }
            out.push(entry);
            chain_to_script::<T>(&tree.next_sibling, following(index), out);
            assert(entry_views(out@) =~= before + chain_script::<T>(forest_view(*link), index));
        },
    }
}

/// Shows a tree to a script.
fn tree_to_script<T: ToScript>(tree: &Tree<T>) -> (value: ScriptValue)
    ensures
        value@ == tree_script::<T>(tree@),
    decreases tree, 1nat,
{
    let mut children: Vec<(ScriptValue, ScriptValue)> = Vec::new();
    assert(entry_views(children@) =~= Seq::<(ScriptView, ScriptView)>::empty());
    chain_to_script::<T>(&tree.first_child, 1, &mut children);
    assert(entry_views(children@) =~= chain_script::<T>(forest_view(tree.first_child), 1));
    let mut list: Vec<(ScriptValue, ScriptValue)> = Vec::new();
    let first = (text_value("value"), tree.value.to_script());
    let second = (text_value("uuid"), ScriptValue::Text(tree.uuid.to_simple_string()));
    let third = (text_value("children"), ScriptValue::Table(children));
    proof {
        lemma_entry_views_push(list@, first);
        lemma_entry_views_push(list@.push(first), second);
        lemma_entry_views_push(list@.push(first).push(second), third);
    }
    list.push(first);
    list.push(second);
    list.push(third);
    assert(entry_views(list@) =~= seq![
        (ScriptView::Text("value"@), T::script_of(tree@.value)),
        (ScriptView::Text("uuid"@), ScriptView::Text(simple_text(tree.uuid.value))),
        (
            ScriptView::Text("children"@),
            ScriptView::Table(chain_script::<T>(forest_view(tree.first_child), 1)),
        ),
    ]);
    ScriptValue::Table(list)
}

/// The position of the first entry whose key is the text `name`.
fn position_of_text(entries: &Vec<(ScriptValue, ScriptValue)>, name: &str) -> (at: usize)
    ensures
        at == position(entry_views(entries@), ScriptView::Text(name@), 0),
        at <= entries.len(),
{
    let wanted = String::from_str(name);
    let ghost views = entry_views(entries@);
    let ghost key = ScriptView::Text(name@);
    let mut at: usize = 0;
    while at < entries.len()
        invariant
            at <= entries.len(),
            views == entry_views(entries@),
            key == ScriptView::Text(name@),
            wanted@ == name@,
            position(views, key, 0) == position(views, key, at as int),
        decreases entries.len() - at,
    {
        let found = match &entries[at].0 {
            ScriptValue::Text(text) => *text == wanted,
            _ => false,
        };
        assert(found == (views[at as int].0 == key));
        if found {
            return at;
        }
        at += 1;
    }
    at
}

/// The position of the first entry whose key is the integer `index`.
fn position_of_integer(entries: &Vec<(ScriptValue, ScriptValue)>, index: i64) -> (at: usize)
    ensures
        at == position(entry_views(entries@), ScriptView::Integer(index), 0),
        at <= entries.len(),
{
    let ghost views = entry_views(entries@);
    let ghost key = ScriptView::Integer(index);
    let mut at: usize = 0;
    while at < entries.len()
        invariant
            at <= entries.len(),
            views == entry_views(entries@),
            key == ScriptView::Integer(index),
            position(views, key, 0) == position(views, key, at as int),
        decreases entries.len() - at,
    {
        let found = match &entries[at].0 {
            ScriptValue::Integer(i) => *i == index,
            _ => false,
        };
        assert(found == (views[at as int].0 == key));
        if found {
            return at;
        }
        at += 1;
    }
    at
}

/// Reads the attributes that the entries of an attribute table describe.
fn attributes_from_entries(entries: &Vec<(ScriptValue, ScriptValue)>) -> (attributes: Vec<
    Attribute,
>)
    ensures
        crate::node::attribute_views(attributes@) == attributes_of_entries(entry_views(entries@)),
{
    let ghost views = entry_views(entries@);
    let mut attributes: Vec<Attribute> = Vec::new();
    let mut i: usize = 0;
    proof {
        assert(views.skip(0) =~= views);
        assert(crate::node::attribute_views(attributes@) + attributes_of_entries(views)
            =~= attributes_of_entries(views));
    }
    while i < entries.len()
        invariant
            i <= entries.len(),
            views == entry_views(entries@),
            crate::node::attribute_views(attributes@) + attributes_of_entries(views.skip(i as int))
                == attributes_of_entries(views),
        decreases entries.len() - i,
    {
        let ghost before = crate::node::attribute_views(attributes@);
        proof {
            assert(views.skip(i as int).drop_first() =~= views.skip(i as int + 1));
            assert(views.skip(i as int)[0] == views[i as int]);
        }
        let read = match &entries[i].0 {
            ScriptValue::Text(name) => match &entries[i].1 {
                ScriptValue::Text(value) => Some(Attribute::Text(name.clone(), value.clone())),
                ScriptValue::Number(value) => {
                    let chars = crate::text::chars_of(value.as_str());
                    if is_decimal_text(&chars) {
                        Some(Attribute::Number(name.clone(), value.clone()))
                    } else {
                        None
                    }
                },
                ScriptValue::Integer(value) => Some(
                    Attribute::Number(name.clone(), integer_to_text(*value)),
                ),
                ScriptValue::Boolean(value) => Some(Attribute::Boolean(name.clone(), *value)),
                _ => None,
            },
            _ => None,
        };
        match read {
            Some(attribute) => {
                assert(attribute_of_entry(views[i as int]) == Some(attribute@));
                attributes.push(attribute);
                assert(crate::node::attribute_views(attributes@) =~= before + seq![attribute@]);
                assert(before + seq![attribute@] + attributes_of_entries(views.skip(i as int + 1))
                    =~= before + attributes_of_entries(views.skip(i as int)));
            },
            None => {
                assert(attribute_of_entry(views[i as int]) is None);
            },
        }
        i += 1;
    }
    proof {
        assert(views.skip(i as int) =~= Seq::<(ScriptView, ScriptView)>::empty());
        assert(crate::node::attribute_views(attributes@) + Seq::<AttributeView>::empty()
            =~= crate::node::attribute_views(attributes@));
    }
    attributes
}

/// The value under the text key `name`, if the table has that key.
fn value_under<'a>(entries: &'a Vec<(ScriptValue, ScriptValue)>, name: &str) -> (value: Option<
    &'a ScriptValue,
>)
    ensures
        match value {
            Some(held) => held@ == lookup(entry_views(entries@), ScriptView::Text(name@))
                && position(entry_views(entries@), ScriptView::Text(name@), 0) < entries.len()
                && *held == entries[position(
                entry_views(entries@),
                ScriptView::Text(name@),
                0,
            )].1,
            None => lookup(entry_views(entries@), ScriptView::Text(name@)) is Nil && position(
                entry_views(entries@),
                ScriptView::Text(name@),
                0,
            ) >= entries.len(),
        },
{
    let at = position_of_text(entries, name);
    if at < entries.len() {
        Some(&entries[at].1)
    } else {
        None
    }
}

impl FromScript for Node {
    open spec fn of_script(value: ScriptView) -> Result<NodeView, ConversionErrorView> {
        node_of_script(value)
    }

    /// Reads a node from what a script handed over: a table with a text
    /// under `raw`; under `evaled` a text or nothing; under `attributes` a
    /// table or nothing. An attribute takes its kind from the kind of its
    /// value.
    fn from_script(value: &ScriptValue) -> (node: Result<Node, ConversionError>) {
        let entries = match value {
            ScriptValue::Table(entries) => entries,
            other => {
                return Err(
                    ConversionError::Mismatch { expected: Shape::Node, found: other.kind() },
                );
            },
        };
        let raw = match value_under(entries, "raw") {
            Some(ScriptValue::Text(text)) => text.clone(),
            Some(other) => {
                return Err(ConversionError::Mismatch { expected: Shape::Raw, found: other.kind() });
            },
            None => {
                return Err(ConversionError::Mismatch { expected: Shape::Raw, found: Kind::Nil });
            },
        };
        let evaled = match value_under(entries, "evaled") {
            Some(ScriptValue::Text(text)) => Some(text.clone()),
            Some(ScriptValue::Nil) => None,
            None => None,
            Some(other) => {
                return Err(
                    ConversionError::Mismatch { expected: Shape::Evaled, found: other.kind() },
                );
            },
        };
        let attributes = match value_under(entries, "attributes") {
            Some(ScriptValue::Table(list)) => attributes_from_entries(list),
            Some(ScriptValue::Nil) => Vec::new(),
            None => Vec::new(),
            Some(other) => {
                return Err(
                    ConversionError::Mismatch { expected: Shape::Attributes, found: other.kind() },
                );
            },
        };
        let node = Node { raw, evaled, attributes };
        proof {
            assert(node@.attributes =~= match lookup(
                entry_views(entries@),
                ScriptView::Text("attributes"@),
            ) {
                ScriptView::Table(list) => attributes_of_entries(list),
                _ => Seq::empty(),
            });
        }
        Ok(node)
    }
}

impl FromScript for String {
    /// A text is the payload; anything else is none.
    open spec fn of_script(value: ScriptView) -> Result<Seq<char>, ConversionErrorView> {
        match value {
            ScriptView::Text(text) => Ok(text),
            other => Err(
                ConversionErrorView::Mismatch { expected: Shape::Text, found: kind_of(other) },
            ),
        }
    }

    /// Reads a payload that is a text.
    fn from_script(value: &ScriptValue) -> (text: Result<String, ConversionError>) {
        match value {
            ScriptValue::Text(text) => Ok(text.clone()),
            other => Err(ConversionError::Mismatch { expected: Shape::Text, found: other.kind() }),
        }
    }
}

/// Reads the trees that the items of a list describe.
fn children_from_script<T: FromScript>(
    entries: &Vec<(ScriptValue, ScriptValue)>,
    Ghost(list): Ghost<ScriptValue>,
) -> (children: Result<Vec<Tree<T>>, ConversionError>)
    requires
        list == ScriptValue::Table(*entries),
    ensures
        match children {
            Ok(trees) => children_of_script::<T>(entry_views(entries@), 1, entries.len() as nat) == Ok::<
                Seq<Tree<T::V>>,
                ConversionErrorView,
            >(Seq::new(trees.len() as nat, |i: int| trees[i]@)),
            Err(error) => children_of_script::<T>(entry_views(entries@), 1, entries.len() as nat)
                == Err::<Seq<Tree<T::V>>, ConversionErrorView>(error@),
        },
    decreases list, 0nat,
{
    let ghost views = entry_views(entries@);
    let mut trees: Vec<Tree<T>> = Vec::new();
    let mut index: i64 = 1;
    let mut left: usize = entries.len();
    proof {
        assert(Seq::new(trees.len() as nat, |i: int| trees[i]@) =~= Seq::<Tree<T::V>>::empty());
    }
    loop
        invariant
            views == entry_views(entries@),
            list == ScriptValue::Table(*entries),
            left <= entries.len(),
            children_of_script::<T>(views, 1, entries.len() as nat) == match children_of_script::<T>(
                views,
                index,
                left as nat,
            ) {
                Ok(rest) => Ok::<Seq<Tree<T::V>>, ConversionErrorView>(
                    Seq::new(trees.len() as nat, |i: int| trees[i]@) + rest,
                ),
                Err(error) => Err(error),
            },
        ensures
            children_of_script::<T>(views, 1, entries.len() as nat) == Ok::<
                Seq<Tree<T::V>>,
                ConversionErrorView,
            >(Seq::new(trees.len() as nat, |i: int| trees[i]@)),
        decreases left,
    {
        let ghost so_far = Seq::new(trees.len() as nat, |i: int| trees[i]@);
        let at = position_of_integer(entries, index);
        let stop = left == 0 || at >= entries.len() || match &entries[at].1 {
            ScriptValue::Nil => true,
            _ => false,
        };
        if stop {
            proof {
                assert(so_far + Seq::<Tree<T::V>>::empty() =~= so_far);
            }
            break ;
        }
        proof {
            lemma_entry_decreases(list, at as int);
        }
        match tree_from_script::<T>(&entries[at].1) {
            Err(error) => {
                return Err(error);
            },
            Ok(tree) => {
                proof {
                    if let Ok(rest) = children_of_script::<T>(
                        views,
                        next_index(index),
                        (left - 1) as nat,
                    ) {
                        assert(so_far.push(tree@) + rest =~= so_far + (seq![tree@] + rest));
                    }
                }
                trees.push(tree);
                assert(Seq::new(trees.len() as nat, |i: int| trees[i]@) =~= so_far.push(
                    trees[trees.len() - 1]@,
                ));
            },
        }
        index = following(index);
        left -= 1;
    }
    Ok(trees)
}

/// Reads a tree from what a script handed over.
fn tree_from_script<T: FromScript>(value: &ScriptValue) -> (tree: Result<
    Tree<T>,
    ConversionError,
>)
    ensures
        match tree {
            Ok(read) => tree_of_script::<T>(value@) == Ok::<Tree<T::V>, ConversionErrorView>(read@),
            Err(error) => tree_of_script::<T>(value@) == Err::<Tree<T::V>, ConversionErrorView>(
                error@,
            ),
        },
    decreases *value, 1nat,
{
    let entries = match value {
        ScriptValue::Table(entries) => entries,
        other => {
            return Err(ConversionError::Mismatch { expected: Shape::Tree, found: other.kind() });
        },
    };
    let ghost views = entry_views(entries@);
    let node = match value_under(entries, "value") {
        Some(held) => T::from_script(held),
        None => T::from_script(&ScriptValue::Nil),
    };
    let node = match node {
        Ok(node) => node,
        Err(error) => {
            return Err(error);
        },
    };
    let uuid_text = match value_under(entries, "uuid") {
        Some(ScriptValue::Text(text)) => text,
        Some(other) => {
            return Err(ConversionError::Mismatch { expected: Shape::Uuid, found: other.kind() });
        },
        None => {
            return Err(ConversionError::Mismatch { expected: Shape::Uuid, found: Kind::Nil });
        },
    };
    let uuid = match Uuid::parse_str(uuid_text.as_str()) {
        Some(uuid) => uuid,
        None => {
            return Err(ConversionError::WrongUuid(uuid_text.clone()));
        },
    };
    let at = position_of_text(entries, "children");
    let list = match value_under(entries, "children") {
        Some(ScriptValue::Table(list)) => list,
        Some(other) => {
            return Err(
                ConversionError::Mismatch { expected: Shape::Children, found: other.kind() },
            );
        },
        None => {
            return Err(ConversionError::Mismatch { expected: Shape::Children, found: Kind::Nil });
        },
    };
    proof {
        lemma_entry_decreases(*value, at as int);
        assert(views[at as int].1 == ScriptView::Table(entry_views(list@)));
    }
    let children = match children_from_script::<T>(list, Ghost(entries[at as int].1)) {
        Ok(children) => children,
        Err(error) => {
            return Err(error);
        },
    };
    let ghost child_views = Seq::new(children.len() as nat, |i: int| children[i]@);
    let mut tree = Tree { value: node, uuid, first_child: None, next_sibling: None };
    let ghost start = tree@;
    let mut children = children;
    let ghost mut done: int = 0;
    proof {
        assert(child_views.skip(0) =~= child_views);
    }
    while children.len() > 0
        invariant
            0 <= done <= child_views.len(),
            tree.uuid == uuid,
            Seq::new(children.len() as nat, |i: int| children[i]@) == child_views.skip(done),
            with_children(tree@, child_views.skip(done)) == with_children(start, child_views),
        decreases children.len(),
    {
        let ghost rest = child_views.skip(done);
        let ghost was = tree;
        let child = children.remove(0);
        proof {
            assert(rest[0] == child@);
            assert(rest.drop_first() =~= child_views.skip(done + 1));
            assert(Seq::new(children.len() as nat, |i: int| children[i]@) =~= child_views.skip(
                done + 1,
            ));
            lemma_view_with_child(was, uuid, child);
            done = done + 1;
        }
        tree.insert(uuid, child);
    }
    proof {
        assert(child_views.skip(done) =~= Seq::<Tree<T::V>>::empty());
    }
    Ok(tree)
}

impl<T: ToScript> Tree<T> {
    /// Shows this tree to a script: a table with the payload under
    /// `value`, the identifier in its compact form under `uuid`, and under
    /// `children` the list of the children, each shown in the same way.
    pub fn to_script(&self) -> (value: ScriptValue)
        ensures
            value@ == tree_script::<T>(self@),
    {
        tree_to_script::<T>(self)
    }
}

impl<T: FromScript> Tree<T> {
    /// Reads a tree from what a script handed over: a table with the
    /// payload under `value`, the text of an identifier under `uuid`, and a
    /// list of trees under `children`. Any other value is refused, with
    /// what was expected and what was found.
    pub fn from_script(value: &ScriptValue) -> (tree: Result<Tree<T>, ConversionError>)
        ensures
            match tree {
                Ok(read) => tree_of_script::<T>(value@) == Ok::<Tree<T::V>, ConversionErrorView>(
                    read@,
                ),
                Err(error) => tree_of_script::<T>(value@) == Err::<
                    Tree<T::V>,
                    ConversionErrorView,
                >(error@),
            },
    {
        tree_from_script::<T>(value)
    }
}

} // verus!
