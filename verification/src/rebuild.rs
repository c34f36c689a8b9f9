//! A document that was written and read again is the document: the proof
//! that the tree built from the records of a tree is that tree.

use crate::assemble::{
    distinct_ids, forest_under, has_record, is_candidate, lemma_next_under, next_under, node_of,
    root_node, tree_of,
};
use crate::id::Uuid;
use crate::node::{forest_records, record_lines, sofer_text, tree_records, NodeView};
use crate::order::{lemma_stable_sort, stable_sort};
use crate::reader::{records_of, view_key, RecordView};
use crate::round_trip::{lemma_document_round_trip, without_root, writable_records};
use crate::tree::{
    deepen, forest_preorder, forest_size, lemma_forest_preorder_len, lemma_preorder_steps, Tree,
};
use vstd::multiset::Multiset;
use vstd::prelude::*;

verus! {

/// The record of a node that hangs under the node with the identifier
/// `parent`, with its raw text as the content.
pub open spec fn record_of_node(node: Tree<NodeView>, parent: Uuid) -> RecordView {
    RecordView {
        content: node.value.raw,
        attributes: node.value.attributes,
        uuid: node.uuid,
        parent_uuid: parent,
    }
}

/// The records of the nodes along a sibling chain, without what is below
/// them.
pub open spec fn chain_records(link: Option<Box<Tree<NodeView>>>, parent: Uuid) -> Seq<RecordView>
    decreases link,
{
    match link {
        None => Seq::empty(),
        Some(tree) => seq![record_of_node(*tree, parent)] + chain_records(
            tree.next_sibling,
            parent,
        ),
    }
}

/// A forest without the evaluated texts of its nodes.
pub open spec fn raw_forest(link: Option<Box<Tree<NodeView>>>) -> Option<Box<Tree<NodeView>>>
    decreases link,
{
    match link {
        None => None,
        Some(tree) => Some(
            Box::new(
                Tree {
                    value: NodeView {
                        raw: tree.value.raw,
                        evaled: None,
                        attributes: tree.value.attributes,
                    },
                    uuid: tree.uuid,
                    first_child: raw_forest(tree.first_child),
                    next_sibling: raw_forest(tree.next_sibling),
                },
            ),
        ),
    }
}

/// How many levels a forest has.
pub open spec fn height(link: Option<Box<Tree<NodeView>>>) -> nat
    decreases link,
{
    match link {
        None => 0,
        Some(tree) => {
            let below = 1 + height(tree.first_child);
            let after = height(tree.next_sibling);
            if below >= after {
                below
            } else {
                after
            }
        },
    }
}

/// Whether in every sibling chain of a forest the identifiers rise from
/// node to node, the first of the chain at `link` being above `above`.
pub open spec fn ascending_forest(link: Option<Box<Tree<NodeView>>>, above: int) -> bool
    decreases link,
{
    match link {
        None => true,
        Some(tree) => tree.uuid.value > above && ascending_forest(tree.first_child, -1)
            && ascending_forest(tree.next_sibling, tree.uuid.value as int),
    }
}

/// Whether the records that hang under `parent` with identifiers above
/// `above` are exactly the records of the chain at `link`.
pub open spec fn candidates_are(
    records: Seq<RecordView>,
    parent: Option<Uuid>,
    above: int,
    link: Option<Box<Tree<NodeView>>>,
    id: Uuid,
) -> bool {
    forall|x: RecordView|
        (records.contains(x) && is_candidate(records, x, parent, above)) <==> #[trigger] chain_records(
            link,
            id,
        ).contains(x)
}

/// Whether for every node of a forest the records that name it as their
/// parent are exactly the records of its children.
pub open spec fn known_below(records: Seq<RecordView>, link: Option<Box<Tree<NodeView>>>) -> bool
    decreases link,
{
    match link {
        None => true,
        Some(tree) => candidates_are(
            records,
            Some(tree.uuid),
            -1,
            tree.first_child,
            tree.uuid,
        ) && known_below(records, tree.first_child) && known_below(records, tree.next_sibling),
    }
}

/// The records of an ascending chain carry identifiers above `above`.
pub proof fn lemma_chain_above(
    link: Option<Box<Tree<NodeView>>>,
    parent: Uuid,
    above: int,
    x: RecordView,
)
    requires
        ascending_forest(link, above),
        chain_records(link, parent).contains(x),
    ensures
        x.uuid.value > above,
        x.parent_uuid == parent,
    decreases link,
{
    match link {
        None => {},
        Some(tree) => {
            let rest = chain_records(tree.next_sibling, parent);
            let i = choose|i: int|
                0 <= i < chain_records(link, parent).len() && chain_records(link, parent)[i] == x;
            if i > 0 {
                assert(rest[i - 1] == x);
                lemma_chain_above(tree.next_sibling, parent, tree.uuid.value as int, x);
            }
        },
    }
}

/// The tree that is built from records is the forest whose records they
/// are: where the records that hang under `parent` above `above` are those
/// of the chain at `link`, and the like holds for every node below, the
/// forest built under `parent` is the forest at `link` without its
/// evaluated texts.
pub proof fn lemma_rebuild(
    records: Seq<RecordView>,
    link: Option<Box<Tree<NodeView>>>,
    id: Uuid,
    parent: Option<Uuid>,
    above: int,
    depth: nat,
)
    requires
        ascending_forest(link, above),
        candidates_are(records, parent, above, link, id),
        known_below(records, link),
        depth >= height(link),
    ensures
        forest_under(records, parent, above, depth) == raw_forest(link),
    decreases link,
{
    lemma_next_under(records, parent, above, records.len() as int);
    match link {
        None => {
            match next_under(records, parent, above, records.len() as int) {
                None => {},
                Some(i) => {
                    assert(records.contains(records[i]));
                    assert(chain_records(link, id).contains(records[i]));
                },
            }
        },
        Some(tree) => {
            let head = record_of_node(*tree, id);
            let chain = chain_records(link, id);
            let rest = chain_records(tree.next_sibling, id);
            assert(chain[0] == head);
            assert(chain.contains(head));
            assert(records.contains(head) && is_candidate(records, head, parent, above));
            let k = choose|k: int| 0 <= k < records.len() && records[k] == head;
            assert(is_candidate(records, records[k], parent, above));
            let i = next_under(records, parent, above, records.len() as int).unwrap();
            let found = records[i];
            assert(records.contains(found));
            assert(chain.contains(found));
            assert(found.uuid.value <= records[k].uuid.value);
            let at = choose|at: int| 0 <= at < chain.len() && chain[at] == found;
            if at > 0 {
                assert(rest[at - 1] == found);
                lemma_chain_above(tree.next_sibling, id, tree.uuid.value as int, found);
            }
            assert(found == head);
            assert(node_of(found) == (NodeView {
                raw: tree.value.raw,
                evaled: None,
                attributes: tree.value.attributes,
            }));
            lemma_rebuild(
                records,
                tree.first_child,
                tree.uuid,
                Some(tree.uuid),
                -1,
                (depth - 1) as nat,
            );
            assert forall|x: RecordView|
                (records.contains(x) && is_candidate(
                    records,
                    x,
                    parent,
                    tree.uuid.value as int,
                )) <==> #[trigger] rest.contains(x) by {
                if records.contains(x) && is_candidate(records, x, parent, tree.uuid.value as int) {
                    assert(is_candidate(records, x, parent, above));
                    assert(chain.contains(x));
                    let j = choose|j: int| 0 <= j < chain.len() && chain[j] == x;
                    assert(j > 0);
                    assert(rest[j - 1] == x);
                }
                if rest.contains(x) {
                    let j = choose|j: int| 0 <= j < rest.len() && rest[j] == x;
                    assert(chain[j + 1] == x);
                    assert(chain.contains(x));
                    lemma_chain_above(tree.next_sibling, id, tree.uuid.value as int, x);
                }
            }
            lemma_rebuild(
                records,
                tree.next_sibling,
                id,
                parent,
                tree.uuid.value as int,
                depth,
            );
        },
    }
}

/// The records of a forest stand in the order of its walk, one for every
/// node, each with the identifier of its node.
pub proof fn lemma_records_align(link: Option<Box<Tree<NodeView>>>, parent: Uuid, i: int)
    requires
        0 <= i < forest_preorder(link).len(),
    ensures
        forest_records(link, parent, false).len() == forest_preorder(link).len(),
        forest_records(link, parent, false)[i].uuid == forest_preorder(link)[i].1.uuid,
    decreases link,
{
    lemma_records_len(link, parent);
    match link {
        None => {},
        Some(tree) => {
            let below = forest_preorder(tree.first_child);
            let after = forest_preorder(tree.next_sibling);
            lemma_records_len(tree.first_child, tree.uuid);
            lemma_records_len(tree.next_sibling, parent);
            if 1 <= i < 1 + below.len() {
                lemma_records_align(tree.first_child, tree.uuid, i - 1);
                assert(forest_preorder(link)[i] == deepen(below)[i - 1]);
            } else if i >= 1 + below.len() {
                lemma_records_align(tree.next_sibling, parent, i - 1 - below.len());
                assert(forest_preorder(link)[i] == after[i - 1 - below.len()]);
            }
        },
    }
}

/// A forest has one record for every node.
pub proof fn lemma_records_len(link: Option<Box<Tree<NodeView>>>, parent: Uuid)
    ensures
        forest_records(link, parent, false).len() == forest_preorder(link).len(),
    decreases link,
{
    match link {
        None => {},
        Some(tree) => {
            lemma_records_len(tree.first_child, tree.uuid);
            lemma_records_len(tree.next_sibling, parent);
        },
    }
}

/// Where a record of a forest stands: in the chain at the top, or in the
/// chain of the children of one of the nodes.
pub proof fn lemma_record_placed(link: Option<Box<Tree<NodeView>>>, parent: Uuid, x: RecordView)
    requires
        forest_records(link, parent, false).contains(x),
    ensures
        chain_records(link, parent).contains(x) || exists|j: int|
            0 <= j < forest_preorder(link).len() && chain_records(
                (#[trigger] forest_preorder(link)[j]).1.first_child,
                forest_preorder(link)[j].1.uuid,
            ).contains(x),
    decreases link,
{
    match link {
        None => {},
        Some(tree) => {
            let records = forest_records(link, parent, false);
            let below = forest_records(tree.first_child, tree.uuid, false);
            let after = forest_records(tree.next_sibling, parent, false);
            let walk = forest_preorder(link);
            let walk_below = forest_preorder(tree.first_child);
            let walk_after = forest_preorder(tree.next_sibling);
            let chain = chain_records(link, parent);
            lemma_records_len(tree.first_child, tree.uuid);
            let i = choose|i: int| 0 <= i < records.len() && records[i] == x;
            if i == 0 {
                assert(chain[0] == x);
            } else if i < 1 + below.len() {
                assert(below[i - 1] == x);
                assert(below.contains(x));
                lemma_record_placed(tree.first_child, tree.uuid, x);
                if chain_records(tree.first_child, tree.uuid).contains(x) {
                    assert(walk[0].1 == *tree);
                } else {
                    let j = choose|j: int|
                        0 <= j < walk_below.len() && chain_records(
                            (#[trigger] walk_below[j]).1.first_child,
                            walk_below[j].1.uuid,
                        ).contains(x);
                    assert(walk[j + 1].1 == walk_below[j].1) by {
                        assert(walk[j + 1] == deepen(walk_below)[j]);
                    }
                }
            } else {
                assert(after[i - 1 - below.len()] == x);
                assert(after.contains(x));
                lemma_record_placed(tree.next_sibling, parent, x);
                if chain_records(tree.next_sibling, parent).contains(x) {
                    let k = choose|k: int|
                        0 <= k < chain_records(tree.next_sibling, parent).len() && chain_records(
                            tree.next_sibling,
                            parent,
                        )[k] == x;
                    assert(chain[k + 1] == x);
                } else {
                    let j = choose|j: int|
                        0 <= j < walk_after.len() && chain_records(
                            (#[trigger] walk_after[j]).1.first_child,
                            walk_after[j].1.uuid,
                        ).contains(x);
                    assert(walk[j + 1 + walk_below.len()] == walk_after[j]);
                }
            }
        },
    }
}

/// The records of the chain at the top of a forest are records of the
/// forest.
pub proof fn lemma_chain_in_forest(link: Option<Box<Tree<NodeView>>>, parent: Uuid, x: RecordView)
    requires
        chain_records(link, parent).contains(x),
    ensures
        forest_records(link, parent, false).contains(x),
        x.parent_uuid == parent,
    decreases link,
{
    match link {
        None => {},
        Some(tree) => {
            let records = forest_records(link, parent, false);
            let below = forest_records(tree.first_child, tree.uuid, false);
            let after = forest_records(tree.next_sibling, parent, false);
            let chain = chain_records(link, parent);
            let i = choose|i: int| 0 <= i < chain.len() && chain[i] == x;
            if i == 0 {
                assert(records[0] == x);
            } else {
                assert(chain_records(tree.next_sibling, parent)[i - 1] == x);
                lemma_chain_in_forest(tree.next_sibling, parent, x);
                let k = choose|k: int| 0 <= k < after.len() && after[k] == x;
                assert(records[1 + below.len() + k] == x);
            }
        },
    }
}

/// The records of the children of a node of a forest are records of the
/// forest.
pub proof fn lemma_children_in_forest(
    link: Option<Box<Tree<NodeView>>>,
    parent: Uuid,
    j: int,
    x: RecordView,
)
    requires
        0 <= j < forest_preorder(link).len(),
        chain_records(
            forest_preorder(link)[j].1.first_child,
            forest_preorder(link)[j].1.uuid,
        ).contains(x),
    ensures
        forest_records(link, parent, false).contains(x),
    decreases link,
{
    match link {
        None => {},
        Some(tree) => {
            let records = forest_records(link, parent, false);
            let below = forest_records(tree.first_child, tree.uuid, false);
            let after = forest_records(tree.next_sibling, parent, false);
            let walk = forest_preorder(link);
            let walk_below = forest_preorder(tree.first_child);
            let walk_after = forest_preorder(tree.next_sibling);
            lemma_records_len(tree.first_child, tree.uuid);
            if j == 0 {
                lemma_chain_in_forest(tree.first_child, tree.uuid, x);
                let k = choose|k: int| 0 <= k < below.len() && below[k] == x;
                assert(records[1 + k] == x);
            } else if j < 1 + walk_below.len() {
                assert(walk[j] == deepen(walk_below)[j - 1]);
                lemma_children_in_forest(tree.first_child, tree.uuid, j - 1, x);
                let k = choose|k: int| 0 <= k < below.len() && below[k] == x;
                assert(records[1 + k] == x);
            } else {
                assert(walk[j] == walk_after[j - 1 - walk_below.len()]);
                lemma_children_in_forest(tree.next_sibling, parent, j - 1 - walk_below.len(), x);
                let k = choose|k: int| 0 <= k < after.len() && after[k] == x;
                assert(records[1 + below.len() + k] == x);
            }
        },
    }
}

/// Whether `node` is a node of `tree` other than its root.
pub open spec fn inside(tree: Tree<NodeView>, node: Tree<NodeView>) -> bool {
    exists|j: int| 1 <= j < tree.preorder().len() && (#[trigger] tree.preorder()[j]).1 == node
}

/// A record of a chain is the record of a node of the chain; where the
/// chain hangs inside a tree, so does the node.
pub proof fn lemma_chain_member(
    tree: Tree<NodeView>,
    link: Option<Box<Tree<NodeView>>>,
    parent: Uuid,
    x: RecordView,
)
    requires
        chain_records(link, parent).contains(x),
        match link {
            Some(head) => inside(tree, *head),
            None => true,
        },
    ensures
        exists|node: Tree<NodeView>| inside(tree, node) && x == record_of_node(node, parent),
    decreases link,
{
    match link {
        None => {},
        Some(head) => {
            let chain = chain_records(link, parent);
            let i = choose|i: int| 0 <= i < chain.len() && chain[i] == x;
            if i == 0 {
                assert(inside(tree, *head) && x == record_of_node(*head, parent));
            } else {
                assert(chain_records(head.next_sibling, parent)[i - 1] == x);
                match head.next_sibling {
                    None => {},
                    Some(next) => {
                        lemma_inside_steps(tree, *head);
                    },
                }
                lemma_chain_member(tree, head.next_sibling, parent, x);
            }
        },
    }
}

/// The first child and the next sibling of a node inside a tree are inside
/// the tree.
pub proof fn lemma_inside_steps(tree: Tree<NodeView>, node: Tree<NodeView>)
    requires
        inside(tree, node),
    ensures
        match node.first_child {
            Some(child) => inside(tree, *child),
            None => true,
        },
        match node.next_sibling {
            Some(next) => inside(tree, *next),
            None => true,
        },
{
    let j = choose|j: int| 1 <= j < tree.preorder().len() && (#[trigger] tree.preorder()[j]).1
        == node;
    lemma_preorder_steps(tree, j);
    match node.first_child {
        Some(child) => {
            assert(tree.preorder()[j + 1].1 == *child);
        },
        None => {},
    }
    match node.next_sibling {
        Some(next) => {
            let k = j + 1 + forest_size(node.first_child);
            assert(tree.preorder()[k].1 == *next);
        },
        None => {},
    }
}

/// Whether a tree is a document: its root carries the nil identifier and
/// has no sibling, and no identifier stands twice.
pub open spec fn is_rooted(tree: Tree<NodeView>) -> bool {
    &&& tree.uuid.value == 0
    &&& tree.next_sibling is None
    &&& tree.unique_ids()
}

/// Whether a tree is a document as it is read: a document in which the
/// identifiers rise along every sibling chain.
pub open spec fn is_document(tree: Tree<NodeView>) -> bool {
    is_rooted(tree) && ascending_forest(tree.first_child, -1)
}

/// Whether `records` holds the records of all nodes of `tree` but its
/// root, and nothing else.
pub open spec fn holds_records_of(records: Seq<RecordView>, tree: Tree<NodeView>) -> bool {
    forall|x: RecordView|
        records.contains(x) <==> (tree_records(tree, Uuid { value: 0 }, false).contains(x)
            && x.uuid.value != 0)
}

/// A node inside a document does not carry the nil identifier, and its
/// record is among the records of the document.
pub proof fn lemma_inside_record(
    tree: Tree<NodeView>,
    records: Seq<RecordView>,
    node: Tree<NodeView>,
)
    requires
        is_rooted(tree),
        holds_records_of(records, tree),
        inside(tree, node),
    ensures
        node.uuid.value != 0,
        has_record(records, node.uuid),
{
    let all = tree_records(tree, Uuid { value: 0 }, false);
    let j = choose|j: int| 1 <= j < tree.preorder().len() && (#[trigger] tree.preorder()[j]).1
        == node;
    assert(forest_preorder(Some(Box::new(tree))) == tree.preorder());
    assert(forest_records(Some(Box::new(tree)), Uuid { value: 0 }, false) == all);
    lemma_records_align(Some(Box::new(tree)), Uuid { value: 0 }, j);
    lemma_preorder_steps(tree, 0);
    assert(tree.preorder()[0].1.uuid != tree.preorder()[j].1.uuid);
    assert(all.contains(all[j]));
    assert(records.contains(all[j]));
    let k = choose|k: int| 0 <= k < records.len() && records[k] == all[j];
    assert(records[k].uuid == node.uuid);
}

/// In a document, the records that name a node as their parent are the
/// records of its children.
pub proof fn lemma_node_known(
    tree: Tree<NodeView>,
    records: Seq<RecordView>,
    node: Tree<NodeView>,
)
    requires
        is_rooted(tree),
        holds_records_of(records, tree),
        inside(tree, node),
    ensures
        candidates_are(records, Some(node.uuid), -1, node.first_child, node.uuid),
{
    let nil = Uuid { value: 0 };
    let whole = Some(Box::new(tree));
    let all = tree_records(tree, nil, false);
    let jn = choose|j: int| 1 <= j < tree.preorder().len() && (#[trigger] tree.preorder()[j]).1
        == node;
    assert(forest_preorder(whole) == tree.preorder());
    assert(forest_records(whole, nil, false) == all);
    lemma_inside_record(tree, records, node);
    lemma_inside_steps(tree, node);
    assert forall|x: RecordView|
        (records.contains(x) && is_candidate(records, x, Some(node.uuid), -1))
            <==> #[trigger] chain_records(node.first_child, node.uuid).contains(x) by {
        if chain_records(node.first_child, node.uuid).contains(x) {
            lemma_chain_in_forest(node.first_child, node.uuid, x);
            lemma_children_in_forest(whole, nil, jn, x);
            lemma_chain_member(tree, node.first_child, node.uuid, x);
            let child = choose|child: Tree<NodeView>|
                inside(tree, child) && x == record_of_node(child, node.uuid);
            lemma_inside_record(tree, records, child);
        }
        if records.contains(x) && is_candidate(records, x, Some(node.uuid), -1) {
            assert(all.contains(x));
            lemma_record_placed(whole, nil, x);
            if chain_records(whole, nil).contains(x) {
                let k = choose|k: int|
                    0 <= k < chain_records(whole, nil).len() && chain_records(whole, nil)[k] == x;
                assert(chain_records(tree.next_sibling, nil).len() == 0);
                assert(x == record_of_node(tree, nil));
            } else {
                let j = choose|j: int|
                    0 <= j < forest_preorder(whole).len() && chain_records(
                        (#[trigger] forest_preorder(whole)[j]).1.first_child,
                        forest_preorder(whole)[j].1.uuid,
                    ).contains(x);
                let other = tree.preorder()[j].1;
                lemma_chain_in_forest(other.first_child, other.uuid, x);
                assert(other.uuid == node.uuid);
                if j != jn {
                    if j < jn {
                        assert(tree.preorder()[j].1.uuid != tree.preorder()[jn].1.uuid);
                    } else {
                        assert(tree.preorder()[jn].1.uuid != tree.preorder()[j].1.uuid);
                    }
                }
            }
        }
    }
}

/// In a document, the records that name no record as their parent are the
/// records of the children of the root.
pub proof fn lemma_top_known(tree: Tree<NodeView>, records: Seq<RecordView>)
    requires
        is_rooted(tree),
        holds_records_of(records, tree),
    ensures
        candidates_are(records, None, -1, tree.first_child, Uuid { value: 0 }),
{
    let nil = Uuid { value: 0 };
    let whole = Some(Box::new(tree));
    let all = tree_records(tree, nil, false);
    assert(forest_preorder(whole) == tree.preorder());
    assert(forest_records(whole, nil, false) == all);
    lemma_preorder_steps(tree, 0);
    assert(!has_record(records, nil)) by {
        if has_record(records, nil) {
            let j = choose|j: int| 0 <= j < records.len() && (#[trigger] records[j]).uuid == nil;
            assert(records.contains(records[j]));
        }
    }
    match tree.first_child {
        Some(child) => {
            assert(tree.preorder()[1].1 == *child);
            assert(inside(tree, *child));
        },
        None => {},
    }
    assert forall|x: RecordView|
        (records.contains(x) && is_candidate(records, x, None, -1)) <==> #[trigger] chain_records(
            tree.first_child,
            nil,
        ).contains(x) by {
        if chain_records(tree.first_child, nil).contains(x) {
            lemma_chain_in_forest(tree.first_child, nil, x);
            lemma_children_in_forest(whole, nil, 0, x);
            lemma_chain_member(tree, tree.first_child, nil, x);
            let child = choose|child: Tree<NodeView>|
                inside(tree, child) && x == record_of_node(child, nil);
            lemma_inside_record(tree, records, child);
        }
        if records.contains(x) && is_candidate(records, x, None, -1) {
            assert(all.contains(x));
            lemma_record_placed(whole, nil, x);
            if chain_records(whole, nil).contains(x) {
                assert(chain_records(tree.next_sibling, nil).len() == 0);
                assert(x == record_of_node(tree, nil));
            } else {
                let j = choose|j: int|
                    0 <= j < forest_preorder(whole).len() && chain_records(
                        (#[trigger] forest_preorder(whole)[j]).1.first_child,
                        forest_preorder(whole)[j].1.uuid,
                    ).contains(x);
                let other = tree.preorder()[j].1;
                lemma_chain_in_forest(other.first_child, other.uuid, x);
                if j != 0 {
                    assert(inside(tree, other));
                    lemma_inside_record(tree, records, other);
                }
            }
        }
    }
}

/// In a document, what holds of every node holds all through every forest
/// inside it.
pub proof fn lemma_known_below(
    tree: Tree<NodeView>,
    records: Seq<RecordView>,
    link: Option<Box<Tree<NodeView>>>,
)
    requires
        is_rooted(tree),
        holds_records_of(records, tree),
        match link {
            Some(head) => inside(tree, *head),
            None => true,
        },
    ensures
        known_below(records, link),
    decreases link,
{
    match link {
        None => {},
        Some(head) => {
            lemma_node_known(tree, records, *head);
            lemma_inside_steps(tree, *head);
            lemma_known_below(tree, records, head.first_child);
            lemma_known_below(tree, records, head.next_sibling);
        },
    }
}

/// A forest has no more levels than nodes.
pub proof fn lemma_height(link: Option<Box<Tree<NodeView>>>)
    ensures
        height(link) <= forest_size(link),
    decreases link,
{
    match link {
        None => {},
        Some(tree) => {
            lemma_height(tree.first_child);
            lemma_height(tree.next_sibling);
        },
    }
}

/// The document without its evaluated texts and with an empty root: what
/// reading gives of what writing wrote.
pub open spec fn as_read(tree: Tree<NodeView>) -> Tree<NodeView> {
    Tree {
        value: root_node(),
        uuid: Uuid { value: 0 },
        first_child: raw_forest(tree.first_child),
        next_sibling: None,
    }
}

/// The tree that is built from the records of a document is the document:
/// the same nodes with the same identifiers, texts and attributes in the
/// same places.
pub proof fn lemma_rebuild_document(tree: Tree<NodeView>, records: Seq<RecordView>)
    requires
        is_document(tree),
        holds_records_of(records, tree),
        records.len() >= forest_size(tree.first_child),
    ensures
        tree_of(records) == as_read(tree),
{
    lemma_top_known(tree, records);
    lemma_preorder_steps(tree, 0);
    match tree.first_child {
        Some(child) => {
            assert(tree.preorder()[1].1 == *child);
            assert(inside(tree, *child));
        },
        None => {},
    }
    lemma_known_below(tree, records, tree.first_child);
    lemma_height(tree.first_child);
    lemma_rebuild(records, tree.first_child, Uuid { value: 0 }, None, -1, records.len());
}

/// A sequence that holds the records of another, each as often, holds no
/// identifier twice if the other holds none twice.
pub proof fn lemma_permutation_distinct(a: Seq<RecordView>, b: Seq<RecordView>)
    requires
        distinct_ids(a),
        a.to_multiset() == b.to_multiset(),
    ensures
        distinct_ids(b),
        a.len() == b.len(),
        forall|x: RecordView| a.contains(x) <==> b.contains(x),
{
    broadcast use vstd::seq_lib::group_to_multiset_ensures;

    vstd::seq_lib::to_multiset_len(a);
    vstd::seq_lib::to_multiset_len(b);
    assert forall|x: RecordView| a.contains(x) <==> b.contains(x) by {
        vstd::seq_lib::to_multiset_contains(a, x);
        vstd::seq_lib::to_multiset_contains(b, x);
    }
    assert(a.no_duplicates()) by {
        assert forall|i: int, j: int|
            0 <= i < a.len() && 0 <= j < a.len() && i != j implies a[i] != a[j] by {
            if i < j {
                assert(a[i].uuid != a[j].uuid);
            } else {
                assert(a[j].uuid != a[i].uuid);
            }
        }
    }
    a.lemma_multiset_has_no_duplicates();
    b.lemma_multiset_has_no_duplicates_conv();
    assert forall|j: int, k: int| 0 <= j < k < b.len() implies (#[trigger] b[j]).uuid != (
    #[trigger] b[k]).uuid by {
        assert(b[j] != b[k]);
        assert(b.contains(b[j]));
        assert(b.contains(b[k]));
        let m = choose|m: int| 0 <= m < a.len() && a[m] == b[j];
        let n = choose|n: int| 0 <= n < a.len() && a[n] == b[k];
        if m < n {
            assert(a[m].uuid != a[n].uuid);
        } else {
            assert(a[n].uuid != a[m].uuid);
        }
    }
}

/// Leaving out the records of the nil identifier keeps all other records.
pub proof fn lemma_without_root(records: Seq<RecordView>)
    ensures
        forall|x: RecordView|
            without_root(records).contains(x) <==> (records.contains(x) && x.uuid.value != 0),
        without_root(records).len() <= records.len(),
        (forall|i: int| 0 <= i < records.len() ==> (#[trigger] records[i]).uuid.value != 0)
            ==> without_root(records) == records,
    decreases records.len(),
{
    if records.len() > 0 {
        let rest = records.drop_first();
        let kept = without_root(rest);
        lemma_without_root(rest);
        assert forall|x: RecordView|
            without_root(records).contains(x) <==> (records.contains(x) && x.uuid.value
                != 0) by {
            if without_root(records).contains(x) {
                let i = choose|i: int|
                    0 <= i < without_root(records).len() && without_root(records)[i] == x;
                if records[0].uuid.value != 0 && i > 0 {
                    assert(kept[i - 1] == x);
                    assert(kept.contains(x));
                }
                if records[0].uuid.value == 0 {
                    assert(kept.contains(x));
                }
                if rest.contains(x) {
                    let k = choose|k: int| 0 <= k < rest.len() && rest[k] == x;
                    assert(records[k + 1] == x);
                } else {
                    assert(records[0] == x);
                }
            }
            if records.contains(x) && x.uuid.value != 0 {
                let i = choose|i: int| 0 <= i < records.len() && records[i] == x;
                if i == 0 {
                    assert(without_root(records)[0] == x);
                } else {
                    assert(rest[i - 1] == x);
                    assert(rest.contains(x));
                    let k = choose|k: int| 0 <= k < kept.len() && kept[k] == x;
                    if records[0].uuid.value != 0 {
                        assert(without_root(records)[k + 1] == x);
                    }
                }
            }
        }
        if forall|i: int| 0 <= i < records.len() ==> (#[trigger] records[i]).uuid.value != 0 {
            assert forall|i: int| 0 <= i < rest.len() implies (#[trigger] rest[i]).uuid.value
                != 0 by {
                assert(rest[i] == records[i + 1]);
            }
            assert(records[0].uuid.value != 0);
            assert(seq![records[0]] + rest =~= records);
        }
    }
}

/// Of records that hold no identifier twice, at most one is left out with
/// the nil identifier.
pub proof fn lemma_without_root_len(records: Seq<RecordView>)
    requires
        distinct_ids(records),
    ensures
        without_root(records).len() + 1 >= records.len(),
    decreases records.len(),
{
    if records.len() > 0 {
        let rest = records.drop_first();
        assert forall|j: int, k: int| 0 <= j < k < rest.len() implies (#[trigger] rest[j]).uuid
            != (#[trigger] rest[k]).uuid by {
            assert(rest[j] == records[j + 1]);
            assert(rest[k] == records[k + 1]);
        }
        if records[0].uuid.value == 0 {
            assert forall|i: int| 0 <= i < rest.len() implies (#[trigger] rest[i]).uuid.value
                != 0 by {
                assert(rest[i] == records[i + 1]);
                assert(records[0].uuid != records[i + 1].uuid);
            }
            lemma_without_root(rest);
        } else {
            lemma_without_root_len(rest);
        }
    }
}

/// What `export_to_sofer` writes of a document, `import_from_sofer` reads
/// as the same document: every node with its identifier, its raw text and
/// its attributes, under the same parent and between the same siblings.
/// The evaluated texts are not written, and the root is read as an empty
/// node.
///
/// The document is one as it is read: the root carries the nil identifier
/// and has no sibling, no identifier stands twice, and siblings stand in
/// ascending order of their identifiers. Its texts hold no line feed; the
/// names and texts of its attributes hold no space, no line feed and none
/// of the characters that part an attribute text (`=` and `;` in names,
/// `"` in texts), and its numbers are in decimal notation.
pub proof fn lemma_round_trip(tree: Tree<NodeView>)
    requires
        is_document(tree),
        writable_records(tree_records(tree, Uuid { value: 0 }, false)),
    ensures
        match records_of(sofer_text(tree, false)) {
            Ok(read) => tree_of(stable_sort(read, view_key(true))) == as_read(tree),
            Err(_) => false,
        },
{
    let records = lemma_read_records(tree);
    lemma_rebuild_document(tree, records);
}

/// Whether `node` is one of the nodes along the sibling chain at `link`.
pub open spec fn in_chain(link: Option<Box<Tree<NodeView>>>, node: Tree<NodeView>) -> bool
    decreases link,
{
    match link {
        None => false,
        Some(head) => *head == node || in_chain(head.next_sibling, node),
    }
}

/// Whether in every sibling chain of a forest no identifier stands twice.
pub open spec fn distinct_forest(link: Option<Box<Tree<NodeView>>>) -> bool
    decreases link,
{
    match link {
        None => true,
        Some(head) => (forall|node: Tree<NodeView>|
            in_chain(head.next_sibling, node) ==> node.uuid != head.uuid) && distinct_forest(
            head.first_child,
        ) && distinct_forest(head.next_sibling),
    }
}

/// The records of the nodes of a chain whose identifiers are above `above`,
/// each with the records of all that is below it.
pub open spec fn part_above(link: Option<Box<Tree<NodeView>>>, parent: Uuid, above: int) -> Multiset<
    RecordView,
>
    decreases link,
{
    match link {
        None => Multiset::empty(),
        Some(head) => (if head.uuid.value > above {
            Multiset::singleton(record_of_node(*head, parent)).add(
                forest_records(head.first_child, head.uuid, false).to_multiset(),
            )
        } else {
            Multiset::empty()
        }).add(part_above(head.next_sibling, parent, above)),
    }
}

/// A record of a chain is the record of one of its nodes.
pub proof fn lemma_chain_node(link: Option<Box<Tree<NodeView>>>, parent: Uuid, x: RecordView)
    requires
        chain_records(link, parent).contains(x),
    ensures
        exists|node: Tree<NodeView>| in_chain(link, node) && x == record_of_node(node, parent),
    decreases link,
{
    match link {
        None => {},
        Some(head) => {
            let chain = chain_records(link, parent);
            let i = choose|i: int| 0 <= i < chain.len() && chain[i] == x;
            if i == 0 {
                assert(in_chain(link, *head) && x == record_of_node(*head, parent));
            } else {
                assert(chain_records(head.next_sibling, parent)[i - 1] == x);
                lemma_chain_node(head.next_sibling, parent, x);
                let node = choose|node: Tree<NodeView>|
                    in_chain(head.next_sibling, node) && x == record_of_node(node, parent);
                assert(in_chain(link, node));
            }
        },
    }
}

/// The record of a node of a chain is a record of the chain.
pub proof fn lemma_in_chain_record(
    link: Option<Box<Tree<NodeView>>>,
    parent: Uuid,
    node: Tree<NodeView>,
)
    requires
        in_chain(link, node),
    ensures
        chain_records(link, parent).contains(record_of_node(node, parent)),
    decreases link,
{
    match link {
        None => {},
        Some(head) => {
            let chain = chain_records(link, parent);
            if *head == node {
                assert(chain[0] == record_of_node(node, parent));
            } else {
                lemma_in_chain_record(head.next_sibling, parent, node);
                let rest = chain_records(head.next_sibling, parent);
                let k = choose|k: int|
                    0 <= k < rest.len() && rest[k] == record_of_node(node, parent);
                assert(chain[k + 1] == record_of_node(node, parent));
            }
        },
    }
}

/// What is known of a forest is known of what is below each node of its
/// chain.
pub proof fn lemma_chain_facts(
    records: Seq<RecordView>,
    link: Option<Box<Tree<NodeView>>>,
    node: Tree<NodeView>,
)
    requires
        in_chain(link, node),
        known_below(records, link),
        distinct_forest(link),
    ensures
        candidates_are(records, Some(node.uuid), -1, node.first_child, node.uuid),
        known_below(records, node.first_child),
        distinct_forest(node.first_child),
        height(link) >= 1 + height(node.first_child),
    decreases link,
{
    match link {
        None => {},
        Some(head) => {
            if *head != node {
                lemma_chain_facts(records, head.next_sibling, node);
            }
        },
    }
}

/// Where no node of a chain has an identifier above `above`, there is
/// nothing above `above`.
pub proof fn lemma_part_none(link: Option<Box<Tree<NodeView>>>, parent: Uuid, above: int)
    requires
        forall|node: Tree<NodeView>| in_chain(link, node) ==> node.uuid.value <= above,
    ensures
        part_above(link, parent, above) == Multiset::<RecordView>::empty(),
    decreases link,
{
    match link {
        None => {},
        Some(head) => {
            assert(in_chain(link, *head));
            assert forall|node: Tree<NodeView>|
                in_chain(head.next_sibling, node) implies node.uuid.value <= above by {
                assert(in_chain(link, node));
            }
            lemma_part_none(head.next_sibling, parent, above);
            assert(Multiset::<RecordView>::empty().add(Multiset::<RecordView>::empty())
                =~= Multiset::<RecordView>::empty());
        },
    }
}

/// Two bounds that part the nodes of a chain alike have the same above
/// them.
pub proof fn lemma_part_same(
    link: Option<Box<Tree<NodeView>>>,
    parent: Uuid,
    above: int,
    other: int,
)
    requires
        forall|node: Tree<NodeView>|
            in_chain(link, node) ==> (node.uuid.value > above <==> node.uuid.value > other),
    ensures
        part_above(link, parent, above) == part_above(link, parent, other),
    decreases link,
{
    match link {
        None => {},
        Some(head) => {
            assert(in_chain(link, *head));
            assert forall|node: Tree<NodeView>| in_chain(head.next_sibling, node) implies (
            node.uuid.value > above <==> node.uuid.value > other) by {
                assert(in_chain(link, node));
            }
            lemma_part_same(head.next_sibling, parent, above, other);
        },
    }
}

/// Above every identifier stand all the records of a forest.
pub proof fn lemma_part_all(link: Option<Box<Tree<NodeView>>>, parent: Uuid)
    ensures
        part_above(link, parent, -1) == forest_records(link, parent, false).to_multiset(),
    decreases link,
{
    broadcast use vstd::seq_lib::group_to_multiset_ensures;

    match link {
        None => {
            assert(forest_records(link, parent, false).to_multiset() =~= Multiset::<
                RecordView,
            >::empty());
        },
        Some(head) => {
            let first = seq![record_of_node(*head, parent)];
            let below = forest_records(head.first_child, head.uuid, false);
            let after = forest_records(head.next_sibling, parent, false);
            lemma_part_all(head.next_sibling, parent);
            assert(forest_records(link, parent, false) == first + below + after);
            vstd::seq_lib::lemma_multiset_commutative(first + below, after);
            vstd::seq_lib::lemma_multiset_commutative(first, below);
            assert(first.to_multiset() =~= Multiset::singleton(record_of_node(*head, parent))) by {
                assert(first =~= Seq::<RecordView>::empty().push(record_of_node(*head, parent)));
                vstd::seq_lib::to_multiset_build(
                    Seq::<RecordView>::empty(),
                    record_of_node(*head, parent),
                );
            }
        },
    }
}

/// What stands above a bound is the node with the lowest identifier above
/// it, with all that is below that node, and what stands above that
/// identifier.
pub proof fn lemma_part_split(
    link: Option<Box<Tree<NodeView>>>,
    parent: Uuid,
    above: int,
    lowest: Tree<NodeView>,
)
    requires
        distinct_forest(link),
        in_chain(link, lowest),
        lowest.uuid.value > above,
        forall|node: Tree<NodeView>|
            in_chain(link, node) && node.uuid.value > above ==> node.uuid.value
                >= lowest.uuid.value,
    ensures
        part_above(link, parent, above) == Multiset::singleton(
            record_of_node(lowest, parent),
        ).add(forest_records(lowest.first_child, lowest.uuid, false).to_multiset()).add(
            part_above(link, parent, lowest.uuid.value as int),
        ),
    decreases link,
{
    match link {
        None => {},
        Some(head) => {
            let own = Multiset::singleton(record_of_node(lowest, parent)).add(
                forest_records(lowest.first_child, lowest.uuid, false).to_multiset(),
            );
            let m = lowest.uuid.value as int;
            assert(in_chain(link, *head));
            if *head == lowest {
                assert forall|node: Tree<NodeView>| in_chain(head.next_sibling, node) implies (
                node.uuid.value > above <==> node.uuid.value > m) by {
                    assert(in_chain(link, node));
                    assert(node.uuid != head.uuid);
                }
                lemma_part_same(head.next_sibling, parent, above, m);
                assert(part_above(link, parent, above) =~= own.add(
                    part_above(link, parent, m),
                ));
            } else {
                assert(in_chain(head.next_sibling, lowest));
                assert(lowest.uuid != head.uuid);
                assert forall|node: Tree<NodeView>|
                    in_chain(head.next_sibling, node) && node.uuid.value
                        > above implies node.uuid.value >= lowest.uuid.value by {
                    assert(in_chain(link, node));
                }
                lemma_part_split(head.next_sibling, parent, above, lowest);
                assert(head.uuid.value > above <==> head.uuid.value > m);
                assert(part_above(link, parent, above) =~= own.add(
                    part_above(link, parent, m),
                ));
            }
        },
    }
}

/// The tree that is built from records holds the records of the forest
/// whose records they are, each once: where the records that hang under
/// `parent` are those of the chain at `link`, and the like holds for every
/// node below, the forest built under `parent` above `above` has the
/// records of the nodes of the chain above `above`, with all that is below
/// them.
pub proof fn lemma_rebuild_records(
    records: Seq<RecordView>,
    link: Option<Box<Tree<NodeView>>>,
    id: Uuid,
    parent: Option<Uuid>,
    above: int,
    depth: nat,
)
    requires
        -1 <= above <= u128::MAX,
        distinct_forest(link),
        candidates_are(records, parent, -1, link, id),
        known_below(records, link),
        depth >= height(link),
    ensures
        forest_records(forest_under(records, parent, above, depth), id, false).to_multiset()
            == part_above(link, id, above),
    decreases depth, u128::MAX - above,
{
    broadcast use vstd::seq_lib::group_to_multiset_ensures;

    lemma_next_under(records, parent, above, records.len() as int);
    match next_under(records, parent, above, records.len() as int) {
        None => {
            assert forall|node: Tree<NodeView>| in_chain(link, node) implies node.uuid.value
                <= above by {
                lemma_in_chain_record(link, id, node);
                let x = record_of_node(node, id);
                assert(chain_records(link, id).contains(x));
                assert(records.contains(x) && is_candidate(records, x, parent, -1));
                let k = choose|k: int| 0 <= k < records.len() && records[k] == x;
                assert(!is_candidate(records, records[k], parent, above));
            }
            lemma_part_none(link, id, above);
            assert(forest_records(None, id, false).to_multiset() =~= Multiset::<
                RecordView,
            >::empty());
        },
        Some(i) => {
            let x = records[i];
            assert(records.contains(x));
            assert(is_candidate(records, x, parent, -1));
            assert(chain_records(link, id).contains(x));
            lemma_chain_node(link, id, x);
            let lowest = choose|node: Tree<NodeView>|
                in_chain(link, node) && x == record_of_node(node, id);
            lemma_chain_facts(records, link, lowest);
            assert forall|node: Tree<NodeView>|
                in_chain(link, node) && node.uuid.value > above implies node.uuid.value
                    >= lowest.uuid.value by {
                lemma_in_chain_record(link, id, node);
                let y = record_of_node(node, id);
                assert(chain_records(link, id).contains(y));
                assert(records.contains(y) && is_candidate(records, y, parent, -1));
                let k = choose|k: int| 0 <= k < records.len() && records[k] == y;
                assert(is_candidate(records, records[k], parent, above));
            }
            lemma_part_split(link, id, above, lowest);
            let below = forest_under(records, Some(x.uuid), -1, (depth - 1) as nat);
            let after = forest_under(records, parent, x.uuid.value as int, depth);
            lemma_rebuild_records(
                records,
                lowest.first_child,
                lowest.uuid,
                Some(lowest.uuid),
                -1,
                (depth - 1) as nat,
            );
            lemma_part_all(lowest.first_child, lowest.uuid);
            lemma_rebuild_records(records, link, id, parent, x.uuid.value as int, depth);
            let built = forest_under(records, parent, above, depth);
            let first = seq![x];
            let below_records = forest_records(below, x.uuid, false);
            let after_records = forest_records(after, id, false);
            assert(built == Some(
                Box::new(
                    Tree {
                        value: node_of(x),
                        uuid: x.uuid,
                        first_child: below,
                        next_sibling: after,
                    },
                ),
            ));
            assert(forest_records(built, id, false) == first + below_records + after_records);
            vstd::seq_lib::lemma_multiset_commutative(first + below_records, after_records);
            vstd::seq_lib::lemma_multiset_commutative(first, below_records);
            assert(first.to_multiset() =~= Multiset::singleton(x)) by {
                assert(first =~= Seq::<RecordView>::empty().push(x));
                vstd::seq_lib::to_multiset_build(Seq::<RecordView>::empty(), x);
            }
        },
    }
}

/// A node further along a sibling chain stands later in the walk.
pub proof fn lemma_chain_later(
    tree: Tree<NodeView>,
    j: int,
    link: Option<Box<Tree<NodeView>>>,
    node: Tree<NodeView>,
)
    requires
        0 <= j < tree.preorder().len(),
        link == tree.preorder()[j].1.next_sibling,
        in_chain(link, node),
    ensures
        exists|k: int| j < k < tree.preorder().len() && (#[trigger] tree.preorder()[k]).1 == node,
    decreases link,
{
    match link {
        None => {},
        Some(next) => {
            lemma_preorder_steps(tree, j);
            let k = j + 1 + forest_size(tree.preorder()[j].1.first_child);
            assert(tree.preorder()[k].1 == *next);
            if *next != node {
                lemma_chain_later(tree, k, next.next_sibling, node);
            }
        },
    }
}

/// In a tree in which no identifier stands twice, none stands twice in a
/// sibling chain.
pub proof fn lemma_distinct_forest(tree: Tree<NodeView>, j: int)
    requires
        tree.unique_ids(),
        0 <= j < tree.preorder().len(),
    ensures
        distinct_forest(Some(Box::new(tree.preorder()[j].1))),
    decreases tree.preorder()[j].1,
{
    let head = tree.preorder()[j].1;
    lemma_preorder_steps(tree, j);
    assert forall|node: Tree<NodeView>| in_chain(head.next_sibling, node) implies node.uuid
        != head.uuid by {
        lemma_chain_later(tree, j, head.next_sibling, node);
        let k = choose|k: int|
            j < k < tree.preorder().len() && (#[trigger] tree.preorder()[k]).1 == node;
        assert(tree.preorder()[j].1.uuid != tree.preorder()[k].1.uuid);
    }
    match head.first_child {
        None => {},
        Some(child) => {
            assert(tree.preorder()[j + 1].1 == *child);
            lemma_distinct_forest(tree, j + 1);
            assert(head.first_child == Some(Box::new(tree.preorder()[j + 1].1)));
        },
    }
    match head.next_sibling {
        None => {},
        Some(next) => {
            let k = j + 1 + forest_size(head.first_child);
            assert(tree.preorder()[k].1 == *next);
            lemma_distinct_forest(tree, k);
            assert(head.next_sibling == Some(Box::new(tree.preorder()[k].1)));
        },
    }
    assert(distinct_forest(head.first_child));
    assert(distinct_forest(head.next_sibling));
}

/// The tree that is built from the records of a document holds every
/// record of the document once, whatever the order of its siblings: the
/// same identifiers with the same parents, texts and attributes.
pub proof fn lemma_rebuild_keeps_records(tree: Tree<NodeView>, records: Seq<RecordView>)
    requires
        is_rooted(tree),
        holds_records_of(records, tree),
        records.len() >= forest_size(tree.first_child),
    ensures
        forest_records(tree_of(records).first_child, Uuid { value: 0 }, false).to_multiset()
            == forest_records(tree.first_child, Uuid { value: 0 }, false).to_multiset(),
{
    let nil = Uuid { value: 0 };
    lemma_top_known(tree, records);
    lemma_preorder_steps(tree, 0);
    lemma_distinct_forest(tree, 0);
    match tree.first_child {
        Some(child) => {
            assert(tree.preorder()[1].1 == *child);
            assert(inside(tree, *child));
        },
        None => {},
    }
    lemma_known_below(tree, records, tree.first_child);
    lemma_height(tree.first_child);
    lemma_rebuild_records(records, tree.first_child, nil, None, -1, records.len());
    lemma_part_all(tree.first_child, nil);
}

/// What `export_to_sofer` writes of a document, `import_from_sofer` reads
/// as a document with the same records: every node with its identifier,
/// its parent, its raw text and its attributes, each once. This holds
/// whatever the order of the siblings; where the siblings stand in
/// ascending order of their identifiers, the document itself comes back,
/// as [`lemma_round_trip`] says.
pub proof fn lemma_round_trip_records(tree: Tree<NodeView>)
    requires
        is_rooted(tree),
        writable_records(tree_records(tree, Uuid { value: 0 }, false)),
    ensures
        match records_of(sofer_text(tree, false)) {
            Ok(read) => forest_records(
                tree_of(stable_sort(read, view_key(true))).first_child,
                Uuid { value: 0 },
                false,
            ).to_multiset() == forest_records(
                tree.first_child,
                Uuid { value: 0 },
                false,
            ).to_multiset(),
            Err(_) => false,
        },
{
    let records = lemma_read_records(tree);
    lemma_rebuild_keeps_records(tree, records);
}

/// What is read of what was written of a document: the records of all its
/// nodes but the root, and as many as it has nodes but the root.
pub proof fn lemma_read_records(tree: Tree<NodeView>) -> (records: Seq<RecordView>)
    requires
        is_rooted(tree),
        writable_records(tree_records(tree, Uuid { value: 0 }, false)),
    ensures
        records_of(sofer_text(tree, false)) matches Ok(read) && records == stable_sort(
            read,
            view_key(true),
        ),
        holds_records_of(records, tree),
        records.len() >= forest_size(tree.first_child),
{
    let nil = Uuid { value: 0 };
    let whole = Some(Box::new(tree));
    let all = tree_records(tree, nil, false);
    let sorted = stable_sort(all, view_key(false));
    let read = without_root(sorted);
    let records = stable_sort(read, view_key(true));
    lemma_document_round_trip(tree, false);
    assert(forest_preorder(whole) == tree.preorder());
    assert(forest_records(whole, nil, false) == all);
    lemma_records_len(whole, nil);
    assert forall|j: int, k: int| 0 <= j < k < all.len() implies (#[trigger] all[j]).uuid != (
    #[trigger] all[k]).uuid by {
        lemma_records_align(whole, nil, j);
        lemma_records_align(whole, nil, k);
    }
    lemma_stable_sort(all, view_key(false));
    lemma_permutation_distinct(all, sorted);
    lemma_without_root(sorted);
    lemma_without_root_len(sorted);
    lemma_stable_sort(read, view_key(true));
    assert forall|x: RecordView| records.contains(x) <==> read.contains(x) by {
        vstd::seq_lib::to_multiset_contains(records, x);
        vstd::seq_lib::to_multiset_contains(read, x);
    }
    crate::tree::lemma_preorder_len(tree);
    lemma_forest_preorder_len(tree.first_child);
    assert(tree.size() == 1 + forest_size(tree.first_child));
    records
}

/// The records of a run that carry the nil identifier have no line, so
/// the lines of the run are the lines of the others.
pub proof fn lemma_lines_without_root(records: Seq<RecordView>)
    ensures
        record_lines(records) == record_lines(without_root(records)),
    decreases records.len(),
{
    if records.len() > 0 {
        let rest = records.drop_first();
        lemma_lines_without_root(rest);
        if records[0].uuid.value != 0 {
            let kept = without_root(records);
            assert(kept[0] == records[0]);
            assert(kept.drop_first() =~= without_root(rest));
        }
    }
}

/// Whether the identifiers rise from every record to the next.
pub open spec fn rising(records: Seq<RecordView>) -> bool {
    forall|i: int, j: int|
        0 <= i < j < records.len() ==> (#[trigger] records[i]).uuid.value < (
        #[trigger] records[j]).uuid.value
}

/// Leaving out the records of the nil identifier keeps the identifiers
/// rising.
pub proof fn lemma_rising_without_root(records: Seq<RecordView>)
    requires
        rising(records),
    ensures
        rising(without_root(records)),
    decreases records.len(),
{
    if records.len() > 0 {
        let rest = records.drop_first();
        assert forall|i: int, j: int| 0 <= i < j < rest.len() implies (#[trigger] rest[i]).uuid.value
            < (#[trigger] rest[j]).uuid.value by {
            assert(rest[i] == records[i + 1]);
            assert(rest[j] == records[j + 1]);
        }
        lemma_rising_without_root(rest);
        lemma_without_root(rest);
        if records[0].uuid.value != 0 {
            let kept = without_root(records);
            let kept_rest = without_root(rest);
            assert(kept =~= seq![records[0]] + kept_rest);
            assert forall|i: int, j: int| 0 <= i < j < kept.len() implies (
            #[trigger] kept[i]).uuid.value < (#[trigger] kept[j]).uuid.value by {
                assert(kept[j] == kept_rest[j - 1]);
                if i == 0 {
                    assert(kept_rest.contains(kept_rest[j - 1]));
                    assert(rest.contains(kept[j]));
                    let k = choose|k: int| 0 <= k < rest.len() && rest[k] == kept[j];
                    assert(records[k + 1] == kept[j]);
                    assert(records[0].uuid.value < records[k + 1].uuid.value);
                } else {
                    assert(kept[i] == kept_rest[i - 1]);
                }
            }
        }
    }
}

/// Two runs of rising identifiers that hold the same records are the same
/// run.
pub proof fn lemma_rising_unique(a: Seq<RecordView>, b: Seq<RecordView>)
    requires
        rising(a),
        rising(b),
        forall|x: RecordView| a.contains(x) <==> b.contains(x),
    ensures
        a == b,
    decreases a.len(),
{
    if a.len() == 0 {
        if b.len() > 0 {
            assert(b.contains(b[0]));
        }
        assert(a =~= b);
    } else {
        assert(a.contains(a[0]));
        let j = choose|j: int| 0 <= j < b.len() && b[j] == a[0];
        assert(b.contains(b[0]));
        let i = choose|i: int| 0 <= i < a.len() && a[i] == b[0];
        if i > 0 {
            assert(a[0].uuid.value < a[i].uuid.value);
        }
        if j > 0 {
            assert(b[0].uuid.value < b[j].uuid.value);
        }
        assert(a[0] == b[0]);
        let rest_a = a.drop_first();
        let rest_b = b.drop_first();
        assert forall|m: int, n: int| 0 <= m < n < rest_a.len() implies (
        #[trigger] rest_a[m]).uuid.value < (#[trigger] rest_a[n]).uuid.value by {
            assert(rest_a[m] == a[m + 1]);
            assert(rest_a[n] == a[n + 1]);
        }
        assert forall|m: int, n: int| 0 <= m < n < rest_b.len() implies (
        #[trigger] rest_b[m]).uuid.value < (#[trigger] rest_b[n]).uuid.value by {
            assert(rest_b[m] == b[m + 1]);
            assert(rest_b[n] == b[n + 1]);
        }
        assert forall|x: RecordView| rest_a.contains(x) <==> rest_b.contains(x) by {
            if rest_a.contains(x) {
                let k = choose|k: int| 0 <= k < rest_a.len() && rest_a[k] == x;
                assert(a[k + 1] == x);
                assert(a[0].uuid.value < a[k + 1].uuid.value);
                assert(a.contains(x));
                let m = choose|m: int| 0 <= m < b.len() && b[m] == x;
                assert(m > 0);
                assert(rest_b[m - 1] == x);
            }
            if rest_b.contains(x) {
                let k = choose|k: int| 0 <= k < rest_b.len() && rest_b[k] == x;
                assert(b[k + 1] == x);
                assert(b[0].uuid.value < b[k + 1].uuid.value);
                assert(b.contains(x));
                let m = choose|m: int| 0 <= m < a.len() && a[m] == x;
                assert(m > 0);
                assert(rest_a[m - 1] == x);
            }
        }
        lemma_rising_unique(rest_a, rest_b);
        assert(a =~= seq![a[0]] + rest_a);
        assert(b =~= seq![b[0]] + rest_b);
    }
}

/// Sorted by identifier, records that hold no identifier twice have rising
/// identifiers.
pub proof fn lemma_sorted_rising(records: Seq<RecordView>)
    requires
        distinct_ids(records),
    ensures
        rising(stable_sort(records, view_key(false))),
        forall|x: RecordView|
            stable_sort(records, view_key(false)).contains(x) <==> records.contains(x),
{
    let sorted = stable_sort(records, view_key(false));
    lemma_stable_sort(records, view_key(false));
    lemma_permutation_distinct(records, sorted);
    assert forall|i: int, j: int| 0 <= i < j < sorted.len() implies (
    #[trigger] sorted[i]).uuid.value < (#[trigger] sorted[j]).uuid.value by {
        assert(view_key(false)(sorted[i]) <= view_key(false)(sorted[j]));
        assert(sorted[i].uuid != sorted[j].uuid);
    }
}

/// Two sets of records that hold no identifier twice, and the same records
/// but for those of the nil identifier, are written as the same text.
pub proof fn lemma_same_lines(a: Seq<RecordView>, b: Seq<RecordView>)
    requires
        distinct_ids(a),
        distinct_ids(b),
        forall|x: RecordView|
            (a.contains(x) && x.uuid.value != 0) <==> (b.contains(x) && x.uuid.value != 0),
    ensures
        record_lines(stable_sort(a, view_key(false))) == record_lines(
            stable_sort(b, view_key(false)),
        ),
{
    let sorted_a = stable_sort(a, view_key(false));
    let sorted_b = stable_sort(b, view_key(false));
    lemma_sorted_rising(a);
    lemma_sorted_rising(b);
    lemma_rising_without_root(sorted_a);
    lemma_rising_without_root(sorted_b);
    lemma_without_root(sorted_a);
    lemma_without_root(sorted_b);
    assert forall|x: RecordView|
        without_root(sorted_a).contains(x) <==> without_root(sorted_b).contains(x) by {
        assert(without_root(sorted_a).contains(x) <==> (sorted_a.contains(x) && x.uuid.value
            != 0));
        assert(without_root(sorted_b).contains(x) <==> (sorted_b.contains(x) && x.uuid.value
            != 0));
        assert(sorted_a.contains(x) <==> a.contains(x));
        assert(sorted_b.contains(x) <==> b.contains(x));
    }
    lemma_rising_unique(without_root(sorted_a), without_root(sorted_b));
    lemma_lines_without_root(sorted_a);
    lemma_lines_without_root(sorted_b);
}

/// The records of a tree in which no identifier stands twice hold no
/// identifier twice.
pub proof fn lemma_records_distinct(tree: Tree<NodeView>)
    requires
        tree.unique_ids(),
    ensures
        distinct_ids(tree_records(tree, Uuid { value: 0 }, false)),
        tree_records(tree, Uuid { value: 0 }, false).len() == tree.preorder().len(),
{
    let nil = Uuid { value: 0 };
    let whole = Some(Box::new(tree));
    let all = tree_records(tree, nil, false);
    assert(forest_preorder(whole) == tree.preorder());
    assert(forest_records(whole, nil, false) == all);
    lemma_records_len(whole, nil);
    assert forall|j: int, k: int| 0 <= j < k < all.len() implies (#[trigger] all[j]).uuid != (
    #[trigger] all[k]).uuid by {
        lemma_records_align(whole, nil, j);
        lemma_records_align(whole, nil, k);
    }
}

/// What `export_to_sofer` writes of a document, `import_from_sofer` reads
/// as a document of which `export_to_sofer` writes the same text again.
pub proof fn lemma_round_trip_text(tree: Tree<NodeView>)
    requires
        is_rooted(tree),
        writable_records(tree_records(tree, Uuid { value: 0 }, false)),
    ensures
        match records_of(sofer_text(tree, false)) {
            Ok(read) => sofer_text(tree_of(stable_sort(read, view_key(true))), false)
                == sofer_text(tree, false),
            Err(_) => false,
        },
{
    broadcast use vstd::seq_lib::group_to_multiset_ensures;

    let nil = Uuid { value: 0 };
    let records = lemma_read_records(tree);
    lemma_rebuild_keeps_records(tree, records);
    let again = tree_of(records);
    let a = tree_records(tree, nil, false);
    let b = tree_records(again, nil, false);
    let below = forest_records(tree.first_child, nil, false);
    let rebuilt = forest_records(again.first_child, nil, false);
    lemma_records_distinct(tree);
    assert(a =~= seq![a[0]] + below);
    assert(b =~= seq![b[0]] + rebuilt);
    assert(a[0].uuid.value == 0);
    assert(b[0].uuid.value == 0);
    assert forall|j: int, k: int| 0 <= j < k < below.len() implies (#[trigger] below[j]).uuid != (
    #[trigger] below[k]).uuid by {
        assert(below[j] == a[j + 1]);
        assert(below[k] == a[k + 1]);
    }
    assert forall|j: int| 0 <= j < below.len() implies (#[trigger] below[j]).uuid.value != 0 by {
        assert(below[j] == a[j + 1]);
        assert(a[0].uuid != a[j + 1].uuid);
    }
    lemma_permutation_distinct(below, rebuilt);
    assert forall|j: int| 0 <= j < rebuilt.len() implies (#[trigger] rebuilt[j]).uuid.value
        != 0 by {
        assert(rebuilt.contains(rebuilt[j]));
        let k = choose|k: int| 0 <= k < below.len() && below[k] == rebuilt[j];
        assert(below[k].uuid.value != 0);
    }
    assert forall|j: int, k: int| 0 <= j < k < b.len() implies (#[trigger] b[j]).uuid != (
    #[trigger] b[k]).uuid by {
        assert(b[k] == rebuilt[k - 1]);
        if j > 0 {
            assert(b[j] == rebuilt[j - 1]);
        }
    }
    assert forall|x: RecordView|
        (a.contains(x) && x.uuid.value != 0) <==> (b.contains(x) && x.uuid.value != 0) by {
        if a.contains(x) && x.uuid.value != 0 {
            let k = choose|k: int| 0 <= k < a.len() && a[k] == x;
            assert(below[k - 1] == x);
            assert(below.contains(x));
            let m = choose|m: int| 0 <= m < rebuilt.len() && rebuilt[m] == x;
            assert(b[m + 1] == x);
        }
        if b.contains(x) && x.uuid.value != 0 {
            let k = choose|k: int| 0 <= k < b.len() && b[k] == x;
            assert(rebuilt[k - 1] == x);
            assert(rebuilt.contains(x));
            let m = choose|m: int| 0 <= m < below.len() && below[m] == x;
            assert(a[m + 1] == x);
        }
    }
    lemma_same_lines(b, a);
}

} // verus!
