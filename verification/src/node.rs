//! The payload of a document node: its text, the text it last evaluated to,
//! and its attributes.

use crate::id::{hyphenated_text, Uuid};
use crate::order::stable_sort;
use crate::reader::{record_views, sort_records, view_key, RecordView};
use crate::text::push_char;
use crate::tree::{deepen, forest_preorder, forest_view, tree_view, Tree};
use vstd::prelude::*;

verus! {

/// A named value attached to a node.
///
/// A number is held in its decimal notation, as it is written in the flat
/// text format.
#[derive(Debug, PartialEq)]
pub enum Attribute {
    Text(String, String),
    Number(String, String),
    Boolean(String, bool),
}

/// What an [`Attribute`] holds, as plain values.
pub enum AttributeView {
    Text(Seq<char>, Seq<char>),
    Number(Seq<char>, Seq<char>),
    Boolean(Seq<char>, bool),
}

impl View for Attribute {
    type V = AttributeView;

    open spec fn view(&self) -> AttributeView {
        match *self {
            Attribute::Text(name, value) => AttributeView::Text(name@, value@),
            Attribute::Number(name, value) => AttributeView::Number(name@, value@),
            Attribute::Boolean(name, value) => AttributeView::Boolean(name@, value),
        }
    }
}

impl Clone for Attribute {
    fn clone(&self) -> (copy: Self)
        ensures
            copy == *self,
    {
        match self {
            Attribute::Text(name, value) => Attribute::Text(name.clone(), value.clone()),
            Attribute::Number(name, value) => Attribute::Number(name.clone(), value.clone()),
            Attribute::Boolean(name, value) => Attribute::Boolean(name.clone(), *value),
        }
    }
}

/// The views of a run of attributes, in order.
pub open spec fn attribute_views(attributes: Seq<Attribute>) -> Seq<AttributeView> {
    Seq::new(attributes.len(), |i: int| attributes[i]@)
}

/// A copy of a list of attributes.
pub fn clone_attributes(attributes: &Vec<Attribute>) -> (copy: Vec<Attribute>)
    ensures
        copy@ == attributes@,
{
    let mut copy: Vec<Attribute> = Vec::new();
    let mut i: usize = 0;
    while i < attributes.len()
        invariant
            i <= attributes.len(),
            copy@ == attributes@.subrange(0, i as int),
        decreases attributes.len() - i,
    {
        copy.push(attributes[i].clone());
        i += 1;
    }
    copy
}

/// The payload of a tree node.
#[derive(Debug, PartialEq)]
pub struct Node {
    /// The authored text, which may hold a formula after its first `@`.
    pub raw: String,
    /// The text of the last evaluation, if there was one.
    pub evaled: Option<String>,
    /// The attributes, in the order in which they were declared.
    pub attributes: Vec<Attribute>,
}

/// What a [`Node`] holds, as plain values.
pub struct NodeView {
    pub raw: Seq<char>,
    pub evaled: Option<Seq<char>>,
    pub attributes: Seq<AttributeView>,
}

impl View for Node {
    type V = NodeView;

    open spec fn view(&self) -> NodeView {
        NodeView {
            raw: self.raw@,
            evaled: match self.evaled {
                Some(text) => Some(text@),
                None => None,
            },
            attributes: attribute_views(self.attributes@),
        }
    }
}

impl Clone for Node {
    fn clone(&self) -> (copy: Self)
        ensures
            copy@ == self@,
            copy.raw == self.raw,
            copy.evaled == self.evaled,
            copy.attributes@ == self.attributes@,
    {
        Node {
            raw: self.raw.clone(),
            evaled: match &self.evaled {
                Some(text) => Some(text.clone()),
                None => None,
            },
            attributes: clone_attributes(&self.attributes),
        }
    }
}

impl Node {
    /// A node that was never evaluated.
    pub fn new(raw: String, attributes: Vec<Attribute>) -> (node: Node)
        ensures
            node.raw == raw,
            node.evaled is None,
            node.attributes == attributes,
    {
        Node { raw, evaled: None, attributes }
    }
}

/// A document: a tree whose payload is a [`Node`].
pub type TreeNode = Tree<Node>;

/// A copy of a forest of nodes, as `traverse`, `get_children` and
/// `get_siblings` hand it out, has the view of the forest.
pub proof fn lemma_copied_forest(
    link: Option<Box<Tree<Node>>>,
    copy: Option<Box<Tree<Node>>>,
)
    requires
        crate::tree::forest_cloned(link, copy),
    ensures
        forest_view(link) == forest_view(copy),
    decreases link,
{
    match (link, copy) {
        (Some(a), Some(b)) => {
            lemma_copied_tree(*a, *b);
        },
        _ => {},
    }
}

/// A copy of a document has the view of the document.
pub proof fn lemma_copied_tree(tree: Tree<Node>, copy: Tree<Node>)
    requires
        tree.cloned_as(copy),
    ensures
        tree@ == copy@,
    decreases tree,
{
    lemma_copied_forest(tree.first_child, copy.first_child);
    lemma_copied_forest(tree.next_sibling, copy.next_sibling);
}

/// How one attribute is written: its name, `=`, its value and `;`. A text
/// stands in double quotes as it is; a number in its decimal notation; a
/// boolean as `T` or `F`.
pub open spec fn entry_text(attribute: AttributeView) -> Seq<char> {
    match attribute {
        AttributeView::Text(name, value) => name + seq!['=', '"'] + value + seq!['"', ';'],
        AttributeView::Number(name, value) => name + seq!['='] + value + seq![';'],
        AttributeView::Boolean(name, value) => name + seq![
            '=',
            if value {
                'T'
            } else {
                'F'
            },
            ';',
        ],
    }
}

/// The attribute text: every attribute written in turn, with nothing
/// between them.
pub open spec fn attribute_text(attributes: Seq<AttributeView>) -> Seq<char>
    decreases attributes.len(),
{
    if attributes.len() == 0 {
        Seq::empty()
    } else {
        entry_text(attributes[0]) + attribute_text(attributes.drop_first())
    }
}

/// The text of a node that goes out: the evaluated text where it is asked
/// for and there is one, the raw text otherwise.
pub open spec fn selected_text(node: NodeView, evaled: bool) -> Seq<char> {
    match node.evaled {
        Some(text) if evaled => text,
        _ => node.raw,
    }
}

/// The flat records of the forest that starts at `link`, in pre-order. The
/// nodes of the chain name `parent` as their parent, a node below them the
/// node it hangs under.
pub open spec fn forest_records(
    link: Option<Box<Tree<NodeView>>>,
    parent: Uuid,
    evaled: bool,
) -> Seq<RecordView>
    decreases link,
{
    match link {
        None => Seq::empty(),
        Some(tree) => tree_records(*tree, parent, evaled),
    }
}

/// The flat records of a node, of all below it and of all after it, in
/// pre-order.
pub open spec fn tree_records(tree: Tree<NodeView>, parent: Uuid, evaled: bool) -> Seq<
    RecordView,
>
    decreases tree,
{
    seq![
        RecordView {
            content: selected_text(tree.value, evaled),
            attributes: tree.value.attributes,
            uuid: tree.uuid,
            parent_uuid: parent,
        },
    ] + forest_records(tree.first_child, tree.uuid, evaled) + forest_records(
        tree.next_sibling,
        parent,
        evaled,
    )
}

/// The line of a record: the two identifiers in their hyphenated form, the
/// attribute text and the content, parted by single spaces and closed by a
/// line feed.
pub open spec fn record_line(record: RecordView) -> Seq<char> {
    hyphenated_text(record.uuid.value) + seq![' '] + hyphenated_text(record.parent_uuid.value)
        + seq![' '] + attribute_text(record.attributes) + seq![' '] + record.content + seq![
        '\n',
    ]
}

/// The lines of the records in turn; a record that carries the nil
/// identifier stands for the root and has no line.
pub open spec fn record_lines(records: Seq<RecordView>) -> Seq<char>
    decreases records.len(),
{
    if records.len() == 0 {
        Seq::empty()
    } else if records[0].uuid.value == 0 {
        record_lines(records.drop_first())
    } else {
        record_line(records[0]) + record_lines(records.drop_first())
    }
}

/// The document in the flat text format: the records of all nodes, with the
/// nil identifier as the parent of the node itself and of its siblings,
/// sorted by identifier, one line each.
pub open spec fn sofer_text(tree: Tree<NodeView>, evaled: bool) -> Seq<char> {
    record_lines(stable_sort(tree_records(tree, Uuid { value: 0 }, evaled), view_key(false)))
}

/// Four spaces for every level.
pub open spec fn indent(depth: nat) -> Seq<char>
    decreases depth,
{
    if depth == 0 {
        Seq::empty()
    } else {
        indent((depth - 1) as nat) + seq![' ', ' ', ' ', ' ']
    }
}

/// The lines of an outline: for every entry of the walk its text, indented
/// by its depth counted from `base`, and a line feed.
pub open spec fn outline_text(walk: Seq<(nat, Tree<NodeView>)>, base: nat, evaled: bool) -> Seq<
    char,
>
    decreases walk.len(),
{
    if walk.len() == 0 {
        Seq::empty()
    } else {
        indent(base + walk[0].0) + selected_text(walk[0].1.value, evaled) + seq!['\n']
            + outline_text(walk.drop_first(), base, evaled)
    }
}

/// The outline of one walk after another is the two outlines one after the
/// other.
pub proof fn lemma_outline_concat(
    a: Seq<(nat, Tree<NodeView>)>,
    b: Seq<(nat, Tree<NodeView>)>,
    base: nat,
    evaled: bool,
)
    ensures
        outline_text(a + b, base, evaled) == outline_text(a, base, evaled) + outline_text(
            b,
            base,
            evaled,
        ),
    decreases a.len(),
{
    if a.len() == 0 {
        assert(a + b =~= b);
    } else {
        assert((a + b).drop_first() =~= a.drop_first() + b);
        lemma_outline_concat(a.drop_first(), b, base, evaled);
    }
}

/// The outline of a walk one level down is the outline from a base one
/// higher.
pub proof fn lemma_outline_deepen(walk: Seq<(nat, Tree<NodeView>)>, base: nat, evaled: bool)
    ensures
        outline_text(deepen(walk), base, evaled) == outline_text(walk, base + 1, evaled),
    decreases walk.len(),
{
    if walk.len() > 0 {
        assert(deepen(walk).drop_first() =~= deepen(walk.drop_first()));
        lemma_outline_deepen(walk.drop_first(), base, evaled);
    }
}

/// The outline of a node: its own line, the outline of what is below it one
/// level down, and the outline of what comes after it.
pub proof fn lemma_outline_unfold(tree: Tree<NodeView>, base: nat, evaled: bool)
    ensures
        outline_text(tree.preorder(), base, evaled) == indent(base) + selected_text(
            tree.value,
            evaled,
        ) + seq!['\n'] + outline_text(forest_preorder(tree.first_child), base + 1, evaled)
            + outline_text(forest_preorder(tree.next_sibling), base, evaled),
{
    let head = seq![(0nat, tree)];
    let below = forest_preorder(tree.first_child);
    let after = forest_preorder(tree.next_sibling);
    lemma_outline_concat(head + deepen(below), after, base, evaled);
    lemma_outline_concat(head, deepen(below), base, evaled);
    lemma_outline_deepen(below, base, evaled);
    assert(head.drop_first() =~= Seq::<(nat, Tree<NodeView>)>::empty());
    assert(outline_text(head.drop_first(), base, evaled) =~= Seq::<char>::empty());
    assert(outline_text(head, base, evaled) =~= indent(base) + selected_text(tree.value, evaled)
        + seq!['\n']);
}

/// The text of a node that goes out.
fn select_text(node: &Node, evaled: bool) -> (text: &String)
    ensures
        text@ == selected_text(node@, evaled),
{
    if evaled {
        match &node.evaled {
            Some(text) => text,
            None => &node.raw,
        }
    } else {
        &node.raw
    }
}

/// Writes the attributes of a node in the form that the flat text format
/// holds: `name=value;` for each, a text in double quotes, a number in its
/// decimal notation, a boolean as `T` or `F`.
pub fn export_attribute_list(attributes: &Vec<Attribute>) -> (text: String)
    ensures
        text@ == attribute_text(attribute_views(attributes@)),
{
    let ghost views = attribute_views(attributes@);
    let mut text = String::new();
    let mut i: usize = 0;
    proof {
        assert(views.skip(0) =~= views);
        assert(text@ + attribute_text(views) =~= attribute_text(views));
    }
    while i < attributes.len()
        invariant
            i <= attributes.len(),
            views == attribute_views(attributes@),
            text@ + attribute_text(views.skip(i as int)) == attribute_text(views),
        decreases attributes.len() - i,
    {
        let ghost before = text@;
        proof {
            assert(views.skip(i as int).drop_first() =~= views.skip(i as int + 1));
            assert(views.skip(i as int)[0] == attributes[i as int]@);
        }
        match &attributes[i] {
            Attribute::Text(name, value) => {
                text.append(name.as_str());
                push_char(&mut text, '=');
                push_char(&mut text, '"');
                text.append(value.as_str());
                push_char(&mut text, '"');
                push_char(&mut text, ';');
                assert(text@ =~= before + entry_text(attributes[i as int]@));
            },
            Attribute::Number(name, value) => {
                text.append(name.as_str());
                push_char(&mut text, '=');
                text.append(value.as_str());
                push_char(&mut text, ';');
                assert(text@ =~= before + entry_text(attributes[i as int]@));
            },
            Attribute::Boolean(name, value) => {
                text.append(name.as_str());
                push_char(&mut text, '=');
                push_char(
                    &mut text,
                    if *value {
                        'T'
                    } else {
                        'F'
                    },
                );
                push_char(&mut text, ';');
                assert(text@ =~= before + entry_text(attributes[i as int]@));
            },
        }
        proof {
            assert(before + entry_text(attributes[i as int]@) + attribute_text(
                views.skip(i as int + 1),
            ) =~= before + attribute_text(views.skip(i as int)));
        }
        i += 1;
    }
    proof {
        assert(views.skip(i as int) =~= Seq::<AttributeView>::empty());
        assert(text@ + Seq::<char>::empty() =~= text@);
    }
    text
}

/// Appends the flat records of a forest to `out`.
fn flatten_forest(
    link: &Option<Box<TreeNode>>,
    parent: Uuid,
    evaled: bool,
    out: &mut Vec<crate::reader::Node>,
)
    ensures
        record_views(final(out)@) == record_views(old(out)@) + forest_records(
            forest_view(*link),
            parent,
            evaled,
        ),
    decreases link,
{
    match link {
        None => {
            assert(record_views(out@) + Seq::<RecordView>::empty() =~= record_views(out@));
        },
        Some(tree) => {
            let ghost before = record_views(out@);
            let record = crate::reader::Node {
                content: select_text(&tree.value, evaled).clone(),
                attributes: clone_attributes(&tree.value.attributes),
                uuid: tree.uuid,
                parent_uuid: parent,
            };
            let ghost head = record@;
            out.push(record);
            assert(record_views(out@) =~= before + seq![head]);
            flatten_forest(&tree.first_child, tree.uuid, evaled, out);
            flatten_forest(&tree.next_sibling, parent, evaled, out);
            proof {
                let view = tree_view(**tree);
                assert(forest_view(*link) == Some(Box::new(view)));
                assert(record_views(out@) =~= before + tree_records(view, parent, evaled));
            }
        },
    }
}

/// Appends the outline of a forest to `out`; `margin` is what every line of
/// the chain starts with.
fn print_forest(
    link: &Option<Box<TreeNode>>,
    margin: &String,
    Ghost(depth): Ghost<nat>,
    evaled: bool,
    out: &mut String,
)
    requires
        margin@ == indent(depth),
    ensures
        final(out)@ == old(out)@ + outline_text(forest_preorder(forest_view(*link)), depth, evaled),
    decreases link,
{
    match link {
        None => {
            assert(out@ + Seq::<char>::empty() =~= out@);
        },
        Some(tree) => {
            assert(forest_preorder(forest_view(*link)) == tree_view(**tree).preorder());
            print_tree(tree, margin, Ghost(depth), evaled, out);
        },
    }
}

/// Appends the outline of a node, of all below it and of all after it;
/// `margin` is what the line of the node starts with.
fn print_tree(
    tree: &TreeNode,
    margin: &String,
    Ghost(depth): Ghost<nat>,
    evaled: bool,
    out: &mut String,
)
    requires
        margin@ == indent(depth),
    ensures
        final(out)@ == old(out)@ + outline_text(tree@.preorder(), depth, evaled),
    decreases tree,
{
    let ghost before = out@;
    let ghost view = tree@;
    let ghost below = forest_preorder(view.first_child);
    let ghost after = forest_preorder(view.next_sibling);
    out.append(margin.as_str());
    out.append(select_text(&tree.value, evaled).as_str());
    push_char(out, '\n');
    let ghost first = out@;
    if tree.first_child.is_some() {
        let mut deeper = margin.clone();
        deeper.append("    ");
        proof {
            reveal_strlit("    ");
            assert("    "@ =~= seq![' ', ' ', ' ', ' ']);
        }
        print_forest(&tree.first_child, &deeper, Ghost(depth + 1), evaled, out);
    } else {
        assert(out@ + Seq::<char>::empty() =~= out@);
    }
    let ghost second = out@;
    print_forest(&tree.next_sibling, margin, Ghost(depth), evaled, out);
    proof {
        lemma_outline_unfold(view, depth, evaled);
        assert(first =~= before + (indent(depth) + selected_text(view.value, evaled) + seq![
            '\n',
        ]));
        assert(second == first + outline_text(below, depth + 1, evaled));
        assert(out@ == second + outline_text(after, depth, evaled));
        assert(out@ =~= before + outline_text(view.preorder(), depth, evaled));
    }
}

impl Tree<Node> {
    /// Writes the attributes of this node in the form that the flat text
    /// format holds.
    pub fn export_attributes(&self) -> (text: String)
        ensures
            text@ == attribute_text(self@.value.attributes),
    {
        export_attribute_list(&self.value.attributes)
    }

    /// Writes the document in the flat text format: one line for every node
    /// but those that carry the nil identifier, in ascending order of
    /// identifiers. With `evaled`, a node goes out with its evaluated text
    /// where it has one.
    pub fn export_to_sofer(&self, evaled: bool) -> (text: String)
        ensures
            text@ == sofer_text(self@, evaled),
    {
        let mut records: Vec<crate::reader::Node> = Vec::new();
        let record = crate::reader::Node {
            content: select_text(&self.value, evaled).clone(),
            attributes: clone_attributes(&self.value.attributes),
            uuid: self.uuid,
            parent_uuid: Uuid::nil(),
        };
        let ghost head = record@;
        records.push(record);
        assert(record_views(records@) =~= seq![head]);
        flatten_forest(&self.first_child, self.uuid, evaled, &mut records);
        flatten_forest(&self.next_sibling, Uuid::nil(), evaled, &mut records);
        assert(record_views(records@) =~= tree_records(self@, Uuid { value: 0 }, evaled));
        proof {
            crate::reader::lemma_sorted_views(records@, false);
        }
        sort_records(&mut records, false);
        let ghost sorted = record_views(records@);
        let mut text = String::new();
        let mut i: usize = 0;
        proof {
            assert(sorted.skip(0) =~= sorted);
            assert(text@ + record_lines(sorted) =~= record_lines(sorted));
        }
        while i < records.len()
            invariant
                i <= records.len(),
                sorted == record_views(records@),
                text@ + record_lines(sorted.skip(i as int)) == record_lines(sorted),
            decreases records.len() - i,
        {
            let record = &records[i];
            let ghost before = text@;
            proof {
                assert(sorted.skip(i as int).drop_first() =~= sorted.skip(i as int + 1));
                assert(sorted.skip(i as int)[0] == record@);
            }
            if !record.uuid.is_nil() {
                let uuid = record.uuid.to_hyphenated_string();
                let parent = record.parent_uuid.to_hyphenated_string();
                let attributes = export_attribute_list(&record.attributes);
                text.append(uuid.as_str());
                push_char(&mut text, ' ');
                text.append(parent.as_str());
                push_char(&mut text, ' ');
                text.append(attributes.as_str());
                push_char(&mut text, ' ');
                text.append(record.content.as_str());
                push_char(&mut text, '\n');
                proof {
                    assert(text@ =~= before + record_line(record@));
                    assert(before + record_line(record@) + record_lines(sorted.skip(i as int + 1))
                        =~= before + record_lines(sorted.skip(i as int)));
                }
            }
            i += 1;
        }
        proof {
            assert(sorted.skip(i as int) =~= Seq::<RecordView>::empty());
            assert(text@ + Seq::<char>::empty() =~= text@);
        }
        text
    }

    /// Reads a document from the flat text format. The first malformed
    /// field of the first malformed line is the error; there is no
    /// document with a part left out.
    pub fn import_from_sofer(str: &str) -> (tree: Result<TreeNode, crate::reader::ParseError>)
        ensures
            match tree {
                Ok(read) => match crate::reader::records_of(str@) {
                    Ok(records) => read@ == crate::assemble::tree_of(
                        stable_sort(records, view_key(true)),
                    ),
                    Err(_) => false,
                },
                Err(error) => crate::reader::records_of(str@) == Err::<
                    Seq<RecordView>,
                    crate::reader::ParseErrorView,
                >(error@),
            },
    {
        match crate::reader::read_nodes(str) {
            Ok(nodes) => Ok(crate::reader::nodes_to_tree_node(nodes)),
            Err(error) => Err(error),
        }
    }

    /// Writes the outline: one line for every node in pre-order, indented
    /// by four spaces for every level below this node. With `evaled`, a
    /// node goes out with its evaluated text where it has one.
    pub fn print(&self, evaled: bool) -> (text: String)
        ensures
            text@ == outline_text(self@.preorder(), 0, evaled),
    {
        let mut text = String::new();
        let margin = String::new();
        assert(margin@ =~= indent(0));
        assert(forest_view(Some(Box::new(*self))) == Some(Box::new(self@)));
        print_tree(self, &margin, Ghost(0), evaled, &mut text);
        assert(Seq::<char>::empty() + outline_text(self@.preorder(), 0, evaled) =~= outline_text(
            self@.preorder(),
            0,
            evaled,
        ));
        text
    }
}

} // verus!
