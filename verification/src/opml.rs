//! Reading an outline from an OPML document: every element inside `body`
//! becomes a node under the node of the element around it.

use crate::id::{is_random_value, Uuid};
use crate::node::{Node, NodeView, TreeNode};
use crate::tree::{lemma_view_with_child, Tree};
use vstd::prelude::*;

verus! {

/// What a reader of XML comes upon, as far as outlines deal with it.
#[derive(Debug, PartialEq)]
pub enum OutlineEvent {
    /// An element opens: its local name, and the local names and values of
    /// its attributes in their order.
    Start { name: String, attributes: Vec<(String, String)> },
    /// An element closes: its local name.
    End { name: String },
    /// The document cannot be read further.
    Failure,
    /// Anything else.
    Other,
}

/// What an [`OutlineEvent`] holds, as plain values.
pub enum OutlineEventView {
    Start { name: Seq<char>, attributes: Seq<(Seq<char>, Seq<char>)> },
    End { name: Seq<char> },
    Failure,
    Other,
}

/// The views of a run of attributes.
pub open spec fn pair_views(pairs: Seq<(String, String)>) -> Seq<(Seq<char>, Seq<char>)> {
    Seq::new(pairs.len(), |i: int| (pairs[i].0@, pairs[i].1@))
}

impl View for OutlineEvent {
    type V = OutlineEventView;

    open spec fn view(&self) -> OutlineEventView {
        match *self {
            OutlineEvent::Start { name, attributes } => OutlineEventView::Start {
                name: name@,
                attributes: pair_views(attributes@),
            },
            OutlineEvent::End { name } => OutlineEventView::End { name: name@ },
            OutlineEvent::Failure => OutlineEventView::Failure,
            OutlineEvent::Other => OutlineEventView::Other,
        }
    }
}

/// The views of a run of events.
pub open spec fn event_views(events: Seq<OutlineEvent>) -> Seq<OutlineEventView> {
    Seq::new(events.len(), |i: int| events[i]@)
}

/// The events that an XML reader comes upon in a text, up to and with the
/// end of the document or the first failure.
pub uninterp spec fn xml_events_of(text: Seq<char>) -> Seq<OutlineEventView>;

/// Reads a text as XML.
///
/// Trusted: this is `xml::reader::EventReader::from_str` and the iterator
/// over its events, which ends after the end of the document or after the
/// first error. Every event is taken as it comes: of an opening element the
/// local name and the attributes, of a closing element the local name, an
/// error as `Failure`, anything else as `Other`. The events are a function
/// of the text alone, and have the name [`xml_events_of`].
#[verifier::external_body]
fn xml_events(text: &str) -> (events: Vec<OutlineEvent>)
    ensures
        event_views(events@) == xml_events_of(text@),
{
    xml::reader::EventReader::from_str(text).into_iter().map(
        |event|
            match event {
                Ok(xml::reader::XmlEvent::StartElement { name, attributes, .. }) => OutlineEvent::Start {
                    name: name.local_name,
                    attributes: attributes.into_iter().map(|a| (a.name.local_name, a.value)).collect(),
                },
                Ok(xml::reader::XmlEvent::EndElement { name }) => OutlineEvent::End {
                    name: name.local_name,
                },
                Ok(_) => OutlineEvent::Other,
                Err(_) => OutlineEvent::Failure,
            },
    ).collect()
}

/// The value of the first attribute at or after `from` that is called
/// `text`; nothing where there is none.
pub open spec fn text_attribute(attributes: Seq<(Seq<char>, Seq<char>)>, from: int) -> Seq<char>
    decreases attributes.len() - from,
{
    if from < 0 || from >= attributes.len() {
        Seq::empty()
    } else if attributes[from].0 == "text"@ {
        attributes[from].1
    } else {
        text_attribute(attributes, from + 1)
    }
}

/// Where the reading of an outline stands.
pub struct OutlineState {
    /// The tree so far.
    pub tree: Tree<NodeView>,
    /// The identifiers of the nodes that are open, the root first.
    pub open: Seq<Uuid>,
    /// Whether the reader is inside `body`.
    pub reading: bool,
    /// Whether the reader has stopped at a failure.
    pub stopped: bool,
}

/// The state before the first event: the root alone, open.
pub open spec fn outline_start() -> OutlineState {
    OutlineState {
        tree: Tree {
            value: crate::assemble::root_node(),
            uuid: Uuid { value: 0 },
            first_child: None,
            next_sibling: None,
        },
        open: seq![Uuid { value: 0 }],
        reading: false,
        stopped: false,
    }
}

/// The state after one more event; `id` is the identifier that a new node
/// gets.
///
/// Inside `body`, an element that opens becomes a node with the value of
/// its attribute `text` as its text, the last child of the innermost open
/// node, and is open from then on; an element that closes is open no more.
/// An element `body` that opens starts the reading, one that closes ends
/// it. A failure stops everything.
pub open spec fn outline_step(state: OutlineState, event: OutlineEventView, id: Uuid) -> OutlineState {
    if state.stopped {
        state
    } else {
        match event {
            OutlineEventView::Start { name, attributes } => {
                let added = state.reading && state.open.len() > 0;
                OutlineState {
                    tree: if added {
                        state.tree.with_child(
                            state.open.last(),
                            Tree {
                                value: NodeView {
                                    raw: text_attribute(attributes, 0),
                                    evaled: None,
                                    attributes: Seq::empty(),
                                },
                                uuid: id,
                                first_child: None,
                                next_sibling: None,
                            },
                        )
                    } else {
                        state.tree
                    },
                    open: if added {
                        state.open.push(id)
                    } else {
                        state.open
                    },
                    reading: state.reading || name == "body"@,
                    stopped: false,
                }
            },
            OutlineEventView::End { name } => {
                let reading = state.reading && name != "body"@;
                OutlineState {
                    tree: state.tree,
                    open: if reading && state.open.len() > 0 {
                        state.open.drop_last()
                    } else {
                        state.open
                    },
                    reading,
                    stopped: false,
                }
            },
            OutlineEventView::Failure => OutlineState {
                tree: state.tree,
                open: state.open,
                reading: state.reading,
                stopped: true,
            },
            OutlineEventView::Other => state,
        }
    }
}

/// The state after the first `count` events, the `i`-th of which has
/// `ids[i]` at hand for a new node.
pub open spec fn outline_after(events: Seq<OutlineEventView>, ids: Seq<Uuid>, count: nat) -> OutlineState
    decreases count,
{
    if count == 0 {
        outline_start()
    } else {
        outline_step(
            outline_after(events, ids, (count - 1) as nat),
            events[count - 1],
            ids[count - 1],
        )
    }
}

/// The outline that a run of events describes, with `ids[i]` as the
/// identifier of the node that the `i`-th event makes.
pub open spec fn outline_of(events: Seq<OutlineEventView>, ids: Seq<Uuid>) -> Tree<NodeView> {
    outline_after(events, ids, events.len()).tree
}

/// The value of the attribute `text`.
fn text_of_attributes(attributes: &Vec<(String, String)>) -> (text: String)
    ensures
        text@ == text_attribute(pair_views(attributes@), 0),
{
    let wanted = String::from_str("text");
    let mut i: usize = 0;
    while i < attributes.len()
        invariant
            i <= attributes.len(),
            wanted@ == "text"@,
            text_attribute(pair_views(attributes@), 0) == text_attribute(
                pair_views(attributes@),
                i as int,
            ),
        decreases attributes.len() - i,
    {
        assert(pair_views(attributes@)[i as int].0 == attributes[i as int].0@);
        if attributes[i].0 == wanted {
            return attributes[i].1.clone();
        }
        i += 1;
    }
    String::new()
}

/// Builds the outline that a run of events describes. The node that the
/// `i`-th event makes, if it makes one, gets `ids[i]` as its identifier.
pub fn outline_from_events(events: &Vec<OutlineEvent>, ids: &Vec<Uuid>) -> (tree: TreeNode)
    requires
        ids.len() == events.len(),
    ensures
        tree@ == outline_of(event_views(events@), ids@),
{
    let ghost views = event_views(events@);
    let mut tree = Tree::new_tree(Node::new(String::new(), Vec::new()));
    let mut open: Vec<Uuid> = Vec::new();
    open.push(tree.uuid);
    let mut reading = false;
    let mut stopped = false;
    let body = String::from_str("body");
    let mut i: usize = 0;
    proof {
        assert(tree@.value.attributes =~= Seq::<crate::node::AttributeView>::empty());
        assert(open@ =~= seq![Uuid { value: 0 }]);
    }
    while i < events.len()
        invariant
            i <= events.len(),
            ids.len() == events.len(),
            views == event_views(events@),
            body@ == "body"@,
            outline_after(views, ids@, i as nat) == (OutlineState {
                tree: tree@,
                open: open@,
                reading,
                stopped,
            }),
        decreases events.len() - i,
    {
        let ghost state = outline_after(views, ids@, i as nat);
        assert(views[i as int] == events[i as int]@);
        if !stopped {
            match &events[i] {
                OutlineEvent::Start { name, attributes } => {
                    if reading && open.len() > 0 {
                        let parent = open[open.len() - 1];
                        let text = text_of_attributes(attributes);
                        let node = Tree::with_uuid(Node::new(text, Vec::new()), ids[i]);
                        proof {
                            assert(node@.value.attributes =~= Seq::<
                                crate::node::AttributeView,
                            >::empty());
                            lemma_view_with_child(tree, parent, node);
                        }
                        tree.insert(parent, node);
                        open.push(ids[i]);
                    }
                    if *name == body {
                        reading = true;
                    }
                },
                OutlineEvent::End { name } => {
                    if *name == body {
                        reading = false;
                    }
                    if reading && open.len() > 0 {
                        open.pop();
                    }
                },
                OutlineEvent::Failure => {
                    stopped = true;
                },
                OutlineEvent::Other => {},
            }
        }
        i += 1;
        assert(outline_after(views, ids@, i as nat) == outline_step(
            state,
            views[i - 1],
            ids@[i - 1],
        ));
    }
    tree
}

/// Draws `count` fresh identifiers.
fn fresh_ids(count: usize) -> (ids: Vec<Uuid>)
    ensures
        ids.len() == count,
        forall|i: int| 0 <= i < count ==> is_random_value(#[trigger] ids[i].value),
{
    let mut ids: Vec<Uuid> = Vec::new();
    while ids.len() < count
        invariant
            ids.len() <= count,
            forall|i: int| 0 <= i < ids.len() ==> is_random_value(#[trigger] ids[i].value),
        decreases count - ids.len(),
    {
        ids.push(Uuid::new_v4());
    }
    ids
}

impl Tree<Node> {
    /// Reads an outline from an OPML document. The root carries the nil
    /// identifier; every element inside `body` becomes a node with a fresh
    /// random identifier and the value of its attribute `text` as its text.
    /// Where the document cannot be read further, the outline holds what
    /// came before.
    pub fn import_from_opml(str: &str) -> (tree: TreeNode)
        ensures
            exists|ids: Seq<Uuid>|
                {
                    &&& ids.len() == xml_events_of(str@).len()
                    &&& forall|i: int| 0 <= i < ids.len() ==> is_random_value(#[trigger] ids[i].value)
                    &&& tree@ == outline_of(xml_events_of(str@), ids)
                },
    {
        let events = xml_events(str);
        let ids = fresh_ids(events.len());
        let tree = outline_from_events(&events, &ids);
        assert(ids@.len() == xml_events_of(str@).len());
        tree
    }
}

} // verus!
