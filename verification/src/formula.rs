//! Formulas: the part of a node's text behind its first `@`, run by the
//! scripting engine, and the text that a node evaluates to.

use crate::bridge::{tree_of_script, ConversionError, ConversionErrorView};
use crate::node::{Node, NodeView, TreeNode};
use crate::reader::{find_char, find_from, part};
use crate::script::{
    nested_within, outcome_text, run_formula, run_script, text_of_outcome, FormulaOutcome,
    ScriptValue, NESTING_LIMIT,
};
use crate::text::{chars_of, text_of};
use crate::tree::{forest_preorder, Tree};
use vstd::prelude::*;

verus! {

/// The literal part of a node's text: what stands before the first `@`, or
/// all of it where there is no `@`.
pub open spec fn literal_prefix(raw: Seq<char>) -> Seq<char> {
    part(raw, 0, find_char(raw, '@', 0))
}

/// The formula of a node's text: what stands behind the first `@`; nothing
/// where there is no `@`.
pub open spec fn formula_source(raw: Seq<char>) -> Seq<char> {
    part(raw, find_char(raw, '@', 0) + 1, raw.len() as int)
}

/// The text that a node evaluates to: its literal part, and behind it what
/// the formula came to, if there is a formula.
pub open spec fn evaluated_text(raw: Seq<char>, outcome: Option<FormulaOutcome>) -> Seq<char> {
    match outcome {
        Some(outcome) => literal_prefix(raw) + outcome_text(outcome),
        None => literal_prefix(raw),
    }
}

/// Whether `text` is what a node with the raw text `raw` can evaluate to:
/// its literal part alone where there is no formula, and else its literal
/// part with what some outcome of the formula puts behind it.
pub open spec fn is_evaluation(raw: Seq<char>, text: Seq<char>) -> bool {
    if formula_source(raw).len() == 0 {
        text == literal_prefix(raw)
    } else {
        exists|outcome: FormulaOutcome| text == evaluated_text(raw, Some(outcome))
    }
}

/// Parts a node's text into its literal part and its formula.
pub fn split_formula(raw: &str) -> (parts: (String, String))
    ensures
        parts.0@ == literal_prefix(raw@),
        parts.1@ == formula_source(raw@),
{
    let chars = chars_of(raw);
    let at = find_from(&chars, '@', 0);
    let prefix = text_of(&chars, 0, at);
    let formula = if at < chars.len() {
        text_of(&chars, at + 1, chars.len())
    } else {
        String::new()
    };
    (prefix, formula)
}

/// The text that a node evaluates to, given what its formula came to.
pub fn fold_outcome(raw: &str, outcome: Option<FormulaOutcome>) -> (text: String)
    ensures
        text@ == evaluated_text(raw@, outcome),
{
    let (prefix, _) = split_formula(raw);
    match outcome {
        Some(outcome) => {
            let suffix = text_of_outcome(outcome);
            prefix.concat(suffix.as_str())
        },
        None => prefix,
    }
}

/// Whether `after` is `before` with every node evaluated: the same shape,
/// identifiers, raw texts and attributes, and at every node an evaluated
/// text that the node can evaluate to.
pub open spec fn evaluated_tree(before: Tree<NodeView>, after: Tree<NodeView>) -> bool
    decreases before,
{
    &&& after.uuid == before.uuid
    &&& after.value.raw == before.value.raw
    &&& after.value.attributes == before.value.attributes
    &&& match after.value.evaled {
        Some(text) => is_evaluation(before.value.raw, text),
        None => false,
    }
    &&& evaluated_forest(before.first_child, after.first_child)
    &&& evaluated_forest(before.next_sibling, after.next_sibling)
}

/// Whether `after` is the forest `before` with every node evaluated.
pub open spec fn evaluated_forest(
    before: Option<Box<Tree<NodeView>>>,
    after: Option<Box<Tree<NodeView>>>,
) -> bool
    decreases before,
{
    match (before, after) {
        (None, None) => true,
        (Some(a), Some(b)) => evaluated_tree(*a, *b),
        _ => false,
    }
}

/// After a pass over the whole tree every node is evaluated, whatever its
/// formula came to: the walk has the length it had, and at every position
/// stands the node that stood there, at its depth, with an evaluated text.
pub proof fn lemma_evaluated_everywhere(before: Tree<NodeView>, after: Tree<NodeView>, i: int)
    requires
        evaluated_tree(before, after),
        0 <= i < before.preorder().len(),
    ensures
        after.preorder().len() == before.preorder().len(),
        after.preorder()[i].0 == before.preorder()[i].0,
        after.preorder()[i].1.uuid == before.preorder()[i].1.uuid,
        after.preorder()[i].1.value.raw == before.preorder()[i].1.value.raw,
        after.preorder()[i].1.value.evaled is Some,
        is_evaluation(
            before.preorder()[i].1.value.raw,
            after.preorder()[i].1.value.evaled.unwrap(),
        ),
    decreases before,
{
    lemma_evaluated_len(before, after);
    let below = forest_preorder(before.first_child);
    let after_below = forest_preorder(after.first_child);
    match (before.first_child, after.first_child) {
        (Some(a), Some(b)) => {
            lemma_evaluated_len(*a, *b);
            if 1 <= i < 1 + below.len() {
                lemma_evaluated_everywhere(*a, *b, i - 1);
                assert(before.preorder()[i] == crate::tree::deepen(below)[i - 1]);
                assert(after.preorder()[i] == crate::tree::deepen(after_below)[i - 1]);
            }
        },
        _ => {},
    }
    match (before.next_sibling, after.next_sibling) {
        (Some(a), Some(b)) => {
            lemma_evaluated_len(*a, *b);
            if i >= 1 + below.len() {
                lemma_evaluated_everywhere(*a, *b, i - 1 - below.len());
                assert(before.preorder()[i] == a.preorder()[i - 1 - below.len()]);
                assert(after.preorder()[i] == b.preorder()[i - 1 - after_below.len()]);
            }
        },
        _ => {},
    }
}

/// A pass over the whole tree keeps the number of nodes.
pub proof fn lemma_evaluated_len(before: Tree<NodeView>, after: Tree<NodeView>)
    requires
        evaluated_tree(before, after),
    ensures
        after.preorder().len() == before.preorder().len(),
    decreases before,
{
    match (before.first_child, after.first_child) {
        (Some(a), Some(b)) => {
            lemma_evaluated_len(*a, *b);
        },
        _ => {},
    }
    match (before.next_sibling, after.next_sibling) {
        (Some(a), Some(b)) => {
            lemma_evaluated_len(*a, *b);
        },
        _ => {},
    }
}

/// Why a script is no document.
#[derive(Debug, PartialEq)]
pub enum ImportError {
    /// The script could not be run; this is the engine's description.
    Script(String),
    /// The script ran, and what it gave is no tree.
    Conversion(ConversionError),
}

impl<T: crate::bridge::FromScript> Tree<T> {
    /// Reads a tree from the source of a script: the script is run, and
    /// what it gives is read as [`Tree::from_script`] reads it. Of what
    /// the script gives, tables are taken out down to [`NESTING_LIMIT`]
    /// levels; a table that lies deeper is taken for a value of no kind,
    /// so that a tree with more levels than that is refused.
    pub fn from_lua(lua_code: &str) -> (tree: Result<Tree<T>, ImportError>)
        ensures
            match tree {
                Ok(read) => exists|value: ScriptValue|
                    nested_within(value@, NESTING_LIMIT as nat) && tree_of_script::<T>(value@)
                        == Ok::<Tree<T::V>, ConversionErrorView>(read@),
                Err(ImportError::Conversion(error)) => exists|value: ScriptValue|
                    nested_within(value@, NESTING_LIMIT as nat) && tree_of_script::<T>(value@)
                        == Err::<Tree<T::V>, ConversionErrorView>(error@),
                Err(ImportError::Script(_)) => true,
            },
    {
        match run_script(lua_code) {
            Err(text) => Err(ImportError::Script(text)),
            Ok(value) => match Tree::<T>::from_script(&value) {
                Ok(tree) => Ok(tree),
                Err(error) => Err(ImportError::Conversion(error)),
            },
        }
    }
}

impl Tree<Node> {
    /// The text that this node evaluates to. The part of the raw text
    /// before the first `@` is kept as it is. What stands behind the `@`
    /// is run as a formula: where it gives a function, the function is
    /// called with this tree, shown as [`TreeNode::to_script`] shows it,
    /// and what it returns is put behind the literal part; where the call
    /// fails, a fixed text stands in its place; any other value, and any
    /// failure to run, is described in words. A text without a formula
    /// evaluates to its literal part.
    pub fn eval(&self) -> (text: String)
        ensures
            is_evaluation(self.value.raw@, text@),
    {
        let (_, formula) = split_formula(self.value.raw.as_str());
        let formula_chars = chars_of(formula.as_str());
        if formula_chars.len() == 0 {
            fold_outcome(self.value.raw.as_str(), None)
        } else {
            let argument = self.to_script();
            let outcome = run_formula(formula.as_str(), &argument);
            fold_outcome(self.value.raw.as_str(), Some(outcome))
        }
    }

    /// Evaluates every node of the tree, in pre-order, and keeps the text
    /// in the node. No formula stops the pass, whatever it comes to.
    pub fn eval_all(&mut self)
        ensures
            evaluated_tree(old(self)@, final(self)@),
        decreases *old(self),
    {
        let text = self.eval();
        self.value.evaled = Some(text);
        match self.first_child.take() {
            Some(mut child) => {
                child.eval_all();
                self.first_child = Some(child);
            },
            None => {},
        }
        match self.next_sibling.take() {
            Some(mut next) => {
                next.eval_all();
                self.next_sibling = Some(next);
            },
            None => {},
        }
    }

    /// Reads a document from the source of a script: the script is run,
    /// and what it gives is read as [`TreeNode::from_script`] reads it,
    /// with tables taken out down to [`NESTING_LIMIT`] levels.
    pub fn import_from_lua(lua_code: &str) -> (tree: Result<TreeNode, ImportError>)
        ensures
            match tree {
                Ok(read) => exists|value: ScriptValue|
                    nested_within(value@, NESTING_LIMIT as nat) && tree_of_script::<Node>(value@)
                        == Ok::<Tree<NodeView>, ConversionErrorView>(read@),
                Err(ImportError::Conversion(error)) => exists|value: ScriptValue|
                    nested_within(value@, NESTING_LIMIT as nat) && tree_of_script::<Node>(value@)
                        == Err::<Tree<NodeView>, ConversionErrorView>(error@),
                Err(ImportError::Script(_)) => true,
            },
    {
        Tree::<Node>::from_lua(lua_code)
    }
}

} // verus!
