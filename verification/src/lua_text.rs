//! Writing a document as the source of a script that gives the document
//! back.

use crate::id::hyphenated_text;
use crate::node::{attribute_views, Attribute, AttributeView, Node, NodeView, TreeNode};
use crate::tree::{forest_view, tree_view, Tree};
use vstd::prelude::*;

verus! {

/// The `Debug` text of a string: the string in double quotes, with escapes
/// in place of the characters that cannot stand in a string literal.
pub uninterp spec fn debug_quoted(text: Seq<char>) -> Seq<char>;

/// Writes a string as a string literal.
///
/// Trusted: this is the `Debug` formatting of `str`, through `format!`. It
/// is a function of the string alone, and its result has the name
/// [`debug_quoted`].
#[verifier::external_body]
fn quote(text: &str) -> (quoted: String)
    ensures
        quoted@ == debug_quoted(text@),
{
    format!("{:?}", text)
}

/// How an attribute is written: its name in brackets and double quotes,
/// `=`, its value and `;`. A text is written as a string literal, a number
/// in its decimal notation, a boolean as `true` or `false`.
pub open spec fn attribute_lua(attribute: AttributeView) -> Seq<char> {
    match attribute {
        AttributeView::Text(name, value) => "[\""@ + name + "\"]="@ + debug_quoted(value) + ";"@,
        AttributeView::Number(name, value) => "[\""@ + name + "\"]="@ + value + ";"@,
        AttributeView::Boolean(name, value) => "[\""@ + name + "\"]="@ + (if value {
            "true"@
        } else {
            "false"@
        }) + ";"@,
    }
}

/// The attributes written one after the other.
pub open spec fn attributes_lua(attributes: Seq<AttributeView>) -> Seq<char>
    decreases attributes.len(),
{
    if attributes.len() == 0 {
        Seq::empty()
    } else {
        attribute_lua(attributes[0]) + attributes_lua(attributes.drop_first())
    }
}

/// How a node is written: a table with its raw text, its evaluated text or
/// `nil`, and its attributes.
pub open spec fn node_lua(node: NodeView) -> Seq<char> {
    "{raw="@ + debug_quoted(node.raw) + ",evaled="@ + (match node.evaled {
        Some(text) => debug_quoted(text),
        None => "nil"@,
    }) + ",attributes={"@ + attributes_lua(node.attributes) + "}}"@
}

/// How a sibling chain is written: tree after tree, with a comma between
/// them.
pub open spec fn chain_lua(link: Option<Box<Tree<NodeView>>>) -> Seq<char>
    decreases link,
{
    match link {
        None => Seq::empty(),
        Some(tree) => tree_lua(*tree) + (if tree.next_sibling is Some {
            ","@
        } else {
            Seq::empty()
        }) + chain_lua(tree.next_sibling),
    }
}

/// How a tree is written: a table with the node under `value`, the
/// identifier in its hyphenated form under `uuid`, and the children under
/// `children`.
pub open spec fn tree_lua(tree: Tree<NodeView>) -> Seq<char>
    decreases tree,
{
    "{value="@ + node_lua(tree.value) + ",uuid=\""@ + hyphenated_text(tree.uuid.value)
        + "\",children={"@ + chain_lua(tree.first_child) + "}}"@
}

/// Appends the attributes.
fn write_attributes(attributes: &Vec<Attribute>, out: &mut String)
    ensures
        final(out)@ == old(out)@ + attributes_lua(attribute_views(attributes@)),
{
    let ghost views = attribute_views(attributes@);
    let ghost start = out@;
    let mut i: usize = 0;
    proof {
        assert(views.skip(0) =~= views);
    }
    while i < attributes.len()
        invariant
            i <= attributes.len(),
            views == attribute_views(attributes@),
            out@ + attributes_lua(views.skip(i as int)) == start + attributes_lua(views),
        decreases attributes.len() - i,
    {
        let ghost before = out@;
        proof {
            assert(views.skip(i as int).drop_first() =~= views.skip(i as int + 1));
            assert(views.skip(i as int)[0] == attributes[i as int]@);
        }
        match &attributes[i] {
            Attribute::Text(name, value) => {
                out.append("[\"");
                out.append(name.as_str());
                out.append("\"]=");
                let quoted = quote(value.as_str());
                out.append(quoted.as_str());
                out.append(";");
            },
            Attribute::Number(name, value) => {
                out.append("[\"");
                out.append(name.as_str());
                out.append("\"]=");
                out.append(value.as_str());
                out.append(";");
            },
            Attribute::Boolean(name, value) => {
                out.append("[\"");
                out.append(name.as_str());
                out.append("\"]=");
                if *value {
                    out.append("true");
                } else {
                    out.append("false");
                }
                out.append(";");
            },
        }
        proof {
            assert(out@ =~= before + attribute_lua(attributes[i as int]@));
            assert(before + attribute_lua(attributes[i as int]@) + attributes_lua(
                views.skip(i as int + 1),
            ) =~= before + attributes_lua(views.skip(i as int)));
        }
        i += 1;
    }
    proof {
        assert(views.skip(i as int) =~= Seq::<AttributeView>::empty());
        assert(out@ + Seq::<char>::empty() =~= out@);
    }
}

/// Appends a node.
fn write_node(node: &Node, out: &mut String)
    ensures
        final(out)@ == old(out)@ + node_lua(node@),
{
    let ghost before = out@;
    out.append("{raw=");
    let raw = quote(node.raw.as_str());
    out.append(raw.as_str());
    out.append(",evaled=");
    match &node.evaled {
        Some(text) => {
            let quoted = quote(text.as_str());
            out.append(quoted.as_str());
        },
        None => {
            out.append("nil");
        },
    }
    out.append(",attributes={");
    write_attributes(&node.attributes, out);
    out.append("}}");
    assert(out@ =~= before + node_lua(node@));
}

/// Appends a sibling chain.
fn write_chain(link: &Option<Box<TreeNode>>, out: &mut String)
    ensures
        final(out)@ == old(out)@ + chain_lua(forest_view(*link)),
    decreases link, 0nat,
{
    match link {
        None => {
            assert(out@ + Seq::<char>::empty() =~= out@);
        },
        Some(tree) => {
            let ghost before = out@;
            write_tree(tree, out);
            if tree.next_sibling.is_some() {
                out.append(",");
            }
            let ghost middle = out@;
            write_chain(&tree.next_sibling, out);
            proof {
                let view = tree_view(**tree);
                assert(forest_view(*link) == Some(Box::new(view)));
                assert(view.next_sibling is Some == tree.next_sibling is Some);
                assert(middle =~= before + (tree_lua(view) + (if view.next_sibling is Some {
                    ","@
                } else {
                    Seq::empty()
                })));
                assert(out@ =~= before + chain_lua(forest_view(*link)));
            }
        },
    }
}

/// Appends a tree.
fn write_tree(tree: &TreeNode, out: &mut String)
    ensures
        final(out)@ == old(out)@ + tree_lua(tree@),
    decreases tree, 1nat,
{
    let ghost before = out@;
    out.append("{value=");
    write_node(&tree.value, out);
    out.append(",uuid=\"");
    let uuid = tree.uuid.to_hyphenated_string();
    out.append(uuid.as_str());
    out.append("\",children={");
    write_chain(&tree.first_child, out);
    out.append("}}");
    assert(out@ =~= before + tree_lua(tree@));
}

impl Tree<Node> {
    /// Writes the document as the source of a script: nested tables with
    /// every node under `value`, its identifier under `uuid` and its
    /// children under `children`. Texts are written as string literals.
    pub fn export_to_lua(&self) -> (text: String)
        ensures
            text@ == tree_lua(self@),
    {
        let mut text = String::new();
        write_tree(self, &mut text);
        assert(Seq::<char>::empty() + tree_lua(self@) =~= tree_lua(self@));
        text
    }
}

} // verus!
