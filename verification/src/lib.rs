//! An outline engine: hierarchically nested text nodes, a flat text format
//! that keeps them, and formulas embedded in the text of a node.
//!
//! - [`tree`] is the tree itself: nodes keyed by identifiers, in
//!   first-child / next-sibling form, with insertion under a parent,
//!   search and the pre-order walk.
//! - [`id`] holds the identifiers and their text forms.
//! - [`node`] is the payload of a document node, and writes documents in
//!   the flat text format and as indented outlines.
//! - [`reader`] reads the flat text format; [`assemble`] says which tree a
//!   set of records describes; [`order`] is the stable sort by a key.
//! - [`formula`] evaluates the formulas of nodes; [`script`] is the
//!   scripting engine and the values that cross into and out of it;
//!   [`bridge`] shows trees to scripts and reads trees from them;
//!   [`lua_text`] writes a document as the source of a script; [`config`]
//!   reads key bindings from a script.
//! - [`opml`] reads outlines from OPML documents.
//! - [`round_trip`] and [`rebuild`] prove that what is written is read
//!   again as it was.

pub mod assemble;
pub mod bridge;
pub mod config;
pub mod formula;
pub mod id;
pub mod lua_text;
pub mod node;
pub mod opml;
pub mod order;
pub mod reader;
pub mod rebuild;
pub mod round_trip;
pub mod script;
pub mod text;
pub mod tree;
