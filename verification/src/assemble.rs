//! The tree that a set of records describes.
//!
//! A record goes under the record whose identifier it names as its parent.
//! A record that names no record of the set goes to the top level, under
//! the root. The children of a node stand in ascending order of their
//! identifiers, so the tree does not depend on the order of the records.

use crate::id::Uuid;
use crate::node::NodeView;
use crate::reader::RecordView;
use crate::tree::Tree;
use vstd::prelude::*;

verus! {

/// Whether some record carries `id`.
pub open spec fn has_record(records: Seq<RecordView>, id: Uuid) -> bool {
    exists|j: int| 0 <= j < records.len() && (#[trigger] records[j]).uuid == id
}

/// Whether `record` hangs directly under `parent`; under the root, where
/// `parent` is `None`.
pub open spec fn hangs_under(
    records: Seq<RecordView>,
    record: RecordView,
    parent: Option<Uuid>,
) -> bool {
    match parent {
        Some(id) => record.parent_uuid == id,
        None => !has_record(records, record.parent_uuid),
    }
}

/// Whether `record` is a child of `parent` that comes after the identifier
/// value `above`.
pub open spec fn is_candidate(
    records: Seq<RecordView>,
    record: RecordView,
    parent: Option<Uuid>,
    above: int,
) -> bool {
    hangs_under(records, record, parent) && record.uuid.value > above
}

/// Among the first `upto` records, the position of the child of `parent`
/// with the lowest identifier above `above`; of several with that
/// identifier, the first.
pub open spec fn next_under(
    records: Seq<RecordView>,
    parent: Option<Uuid>,
    above: int,
    upto: int,
) -> Option<int>
    decreases upto,
{
    if upto <= 0 {
        None
    } else {
        let before = next_under(records, parent, above, upto - 1);
        let record = records[upto - 1];
        if is_candidate(records, record, parent, above) && match before {
            None => true,
            Some(best) => record.uuid.value < records[best].uuid.value,
        } {
            Some(upto - 1)
        } else {
            before
        }
    }
}

/// The payload that a record describes: its content and attributes, never
/// evaluated.
pub open spec fn node_of(record: RecordView) -> NodeView {
    NodeView { raw: record.content, evaled: None, attributes: record.attributes }
}

/// The children of `parent` whose identifiers are above `above`, each with
/// all that hangs under it, as a sibling chain in ascending order of
/// identifiers. Nothing hangs deeper than `depth` levels down.
pub open spec fn forest_under(
    records: Seq<RecordView>,
    parent: Option<Uuid>,
    above: int,
    depth: nat,
) -> Option<Box<Tree<NodeView>>>
    decreases depth, u128::MAX - above,
{
    match next_under(records, parent, above, records.len() as int) {
        None => None,
        Some(i) => if depth == 0 || records[i].uuid.value <= above {
            None
        } else {
            Some(
                Box::new(
                    Tree {
                        value: node_of(records[i]),
                        uuid: records[i].uuid,
                        first_child: forest_under(
                            records,
                            Some(records[i].uuid),
                            -1,
                            (depth - 1) as nat,
                        ),
                        next_sibling: forest_under(
                            records,
                            parent,
                            records[i].uuid.value as int,
                            depth,
                        ),
                    },
                ),
            )
        },
    }
}

/// The payload of the root of a document: no text and no attributes.
pub open spec fn root_node() -> NodeView {
    NodeView { raw: Seq::empty(), evaled: None, attributes: Seq::empty() }
}

/// The document that a set of records describes: a root with the nil
/// identifier, and under it the records in their places.
pub open spec fn tree_of(records: Seq<RecordView>) -> Tree<NodeView> {
    Tree {
        value: root_node(),
        uuid: Uuid { value: 0 },
        first_child: forest_under(records, None, -1, records.len()),
        next_sibling: None,
    }
}

/// Whether no two records carry the same identifier.
pub open spec fn distinct_ids(records: Seq<RecordView>) -> bool {
    forall|j: int, k: int|
        0 <= j < k < records.len() ==> (#[trigger] records[j]).uuid != (#[trigger] records[k]).uuid
}

/// What `next_under` picks: a candidate, with no candidate of a lower
/// identifier among the records searched; nothing only where there is no
/// candidate.
pub proof fn lemma_next_under(
    records: Seq<RecordView>,
    parent: Option<Uuid>,
    above: int,
    upto: int,
)
    requires
        0 <= upto <= records.len(),
    ensures
        match next_under(records, parent, above, upto) {
            None => forall|j: int|
                0 <= j < upto ==> !is_candidate(records, #[trigger] records[j], parent, above),
            Some(i) => 0 <= i < upto && is_candidate(records, records[i], parent, above)
                && forall|j: int|
                0 <= j < upto && is_candidate(records, #[trigger] records[j], parent, above)
                    ==> records[i].uuid.value <= records[j].uuid.value,
        },
    decreases upto,
{
    if upto > 0 {
        lemma_next_under(records, parent, above, upto - 1);
    }
}

/// Two sets of the same records, each with distinct identifiers, have the
/// same next child.
pub proof fn lemma_next_under_same(
    a: Seq<RecordView>,
    b: Seq<RecordView>,
    parent: Option<Uuid>,
    above: int,
)
    requires
        distinct_ids(a),
        forall|x: RecordView| a.contains(x) <==> b.contains(x),
    ensures
        match (
            next_under(a, parent, above, a.len() as int),
            next_under(b, parent, above, b.len() as int),
        ) {
            (None, None) => true,
            (Some(i), Some(j)) => 0 <= i < a.len() && 0 <= j < b.len() && a[i] == b[j],
            _ => false,
        },
{
    lemma_next_under(a, parent, above, a.len() as int);
    lemma_next_under(b, parent, above, b.len() as int);
    lemma_same_candidates(a, b, parent, above);
    match next_under(a, parent, above, a.len() as int) {
        None => {
            match next_under(b, parent, above, b.len() as int) {
                None => {},
                Some(j) => {
                    assert(b.contains(b[j]));
                    let i = choose|i: int| 0 <= i < a.len() && a[i] == b[j];
                    assert(is_candidate(a, a[i], parent, above));
                },
            }
        },
        Some(i) => {
            assert(a.contains(a[i]));
            let j0 = choose|j: int| 0 <= j < b.len() && b[j] == a[i];
            assert(is_candidate(b, b[j0], parent, above));
            let j = next_under(b, parent, above, b.len() as int).unwrap();
            assert(b.contains(b[j]));
            let i0 = choose|i: int| 0 <= i < a.len() && a[i] == b[j];
            assert(is_candidate(a, a[i0], parent, above));
            assert(a[i0].uuid.value == a[i].uuid.value);
            if i0 != i {
                if i0 < i {
                    assert(a[i0].uuid != a[i].uuid);
                } else {
                    assert(a[i].uuid != a[i0].uuid);
                }
            }
        },
    }
}

/// Two sets of the same records have the same candidates.
pub proof fn lemma_same_candidates(
    a: Seq<RecordView>,
    b: Seq<RecordView>,
    parent: Option<Uuid>,
    above: int,
)
    requires
        forall|x: RecordView| a.contains(x) <==> b.contains(x),
    ensures
        forall|x: RecordView|
            is_candidate(a, x, parent, above) <==> is_candidate(b, x, parent, above),
{
    assert forall|id: Uuid| has_record(a, id) <==> has_record(b, id) by {
        if has_record(a, id) {
            let j = choose|j: int| 0 <= j < a.len() && (#[trigger] a[j]).uuid == id;
            assert(a.contains(a[j]));
            let k = choose|k: int| 0 <= k < b.len() && b[k] == a[j];
            assert(b[k].uuid == id);
        }
        if has_record(b, id) {
            let j = choose|j: int| 0 <= j < b.len() && (#[trigger] b[j]).uuid == id;
            assert(b.contains(b[j]));
            let k = choose|k: int| 0 <= k < a.len() && a[k] == b[j];
            assert(a[k].uuid == id);
        }
    }
    assert forall|x: RecordView|
        is_candidate(a, x, parent, above) <==> is_candidate(b, x, parent, above) by {
        assert(has_record(a, x.parent_uuid) <==> has_record(b, x.parent_uuid));
    }
}

/// Two sets of the same records, each with distinct identifiers, have the
/// same forest under every parent.
pub proof fn lemma_forest_under_same(
    a: Seq<RecordView>,
    b: Seq<RecordView>,
    parent: Option<Uuid>,
    above: int,
    depth: nat,
)
    requires
        distinct_ids(a),
        forall|x: RecordView| a.contains(x) <==> b.contains(x),
    ensures
        forest_under(a, parent, above, depth) == forest_under(b, parent, above, depth),
    decreases depth, u128::MAX - above,
{
    lemma_next_under_same(a, b, parent, above);
    match next_under(a, parent, above, a.len() as int) {
        None => {},
        Some(i) => {
            if depth > 0 && a[i].uuid.value > above {
                lemma_forest_under_same(a, b, Some(a[i].uuid), -1, (depth - 1) as nat);
                lemma_forest_under_same(a, b, parent, a[i].uuid.value as int, depth);
            }
        },
    }
}

/// The tree does not depend on the order of the records: two sequences that
/// hold the same records, none of them twice, and no identifier twice,
/// describe the same tree.
pub proof fn lemma_tree_of_any_order(a: Seq<RecordView>, b: Seq<RecordView>)
    requires
        distinct_ids(a),
        a.to_multiset() == b.to_multiset(),
    ensures
        tree_of(a) == tree_of(b),
{
    broadcast use vstd::seq_lib::group_to_multiset_ensures;

    assert(a.len() == b.len()) by {
        vstd::seq_lib::to_multiset_len(a);
        vstd::seq_lib::to_multiset_len(b);
    }
    assert forall|x: RecordView| a.contains(x) <==> b.contains(x) by {
        vstd::seq_lib::to_multiset_contains(a, x);
        vstd::seq_lib::to_multiset_contains(b, x);
    }
    lemma_forest_under_same(a, b, None, -1, a.len());
}

} // verus!
