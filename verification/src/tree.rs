//! An ordered rose tree in first-child / next-sibling form, keyed by
//! identifiers.
//!
//! A [`Tree`] value is a node together with everything it owns: the forest
//! below it, reached through `first_child`, and the siblings after it,
//! reached through `next_sibling`. The root of a document has no sibling.

use crate::id::Uuid;
use vstd::prelude::*;

verus! {

/// A node with its payload, its identifier and the two links it owns.
#[derive(Debug, PartialEq)]
pub struct Tree<T> {
    pub value: T,
    pub uuid: Uuid,
    pub first_child: Option<Box<Tree<T>>>,
    pub next_sibling: Option<Box<Tree<T>>>,
}

/// The pre-order walk of the forest that starts at `link`.
pub open spec fn forest_preorder<T>(link: Option<Box<Tree<T>>>) -> Seq<(nat, Tree<T>)>
    decreases link,
{
    match link {
        None => Seq::empty(),
        Some(tree) => tree.preorder(),
    }
}

/// The same walk, one level further down.
pub open spec fn deepen<T>(walk: Seq<(nat, Tree<T>)>) -> Seq<(nat, Tree<T>)> {
    Seq::new(walk.len(), |i: int| ((walk[i].0 + 1) as nat, walk[i].1))
}

/// The first node of a walk that carries `id`.
pub open spec fn first_with_id<T>(walk: Seq<(nat, Tree<T>)>, id: Uuid) -> Option<Tree<T>>
    decreases walk.len(),
{
    if walk.len() == 0 {
        None
    } else if walk[0].1.uuid == id {
        Some(walk[0].1)
    } else {
        first_with_id(walk.drop_first(), id)
    }
}

/// Whether some node of the forest that starts at `link` carries `id`.
pub open spec fn forest_contains<T>(link: Option<Box<Tree<T>>>, id: Uuid) -> bool
    decreases link,
{
    match link {
        None => false,
        Some(tree) => tree.contains(id),
    }
}

/// The number of nodes of the forest that starts at `link`.
pub open spec fn forest_size<T>(link: Option<Box<Tree<T>>>) -> nat
    decreases link,
{
    match link {
        None => 0,
        Some(tree) => tree.size(),
    }
}

/// The nodes along the sibling chain that starts at `link`, in order.
pub open spec fn chain<T>(link: Option<Box<Tree<T>>>) -> Seq<Tree<T>>
    decreases link,
{
    match link {
        None => Seq::empty(),
        Some(tree) => seq![*tree] + chain(tree.next_sibling),
    }
}

/// The forest that starts at `link` after `node` was attached under the
/// first node in pre-order that carries `parent`.
pub open spec fn forest_with_child<T>(
    link: Option<Box<Tree<T>>>,
    parent: Uuid,
    node: Tree<T>,
) -> Option<Box<Tree<T>>>
    decreases link,
{
    match link {
        None => None,
        Some(tree) => Some(Box::new(tree.with_child(parent, node))),
    }
}

/// Whether `copy` has the shape and identifiers of the forest at `link`, and
/// at each node a clone of the payload.
pub open spec fn forest_cloned<T: Clone>(
    link: Option<Box<Tree<T>>>,
    copy: Option<Box<Tree<T>>>,
) -> bool
    decreases link,
{
    match (link, copy) {
        (None, None) => true,
        (Some(a), Some(b)) => a.cloned_as(*b),
        _ => false,
    }
}

/// Whether `out` is the walk `walk` with every depth raised by `base` and a
/// clone in place of every node.
pub open spec fn copies_walk<T: Clone>(
    out: Seq<(usize, Tree<T>)>,
    walk: Seq<(nat, Tree<T>)>,
    base: nat,
) -> bool {
    &&& out.len() == walk.len()
    &&& forall|k: int|
        0 <= k < walk.len() ==> (#[trigger] out[k]).0 == base + walk[k].0 && walk[k].1.cloned_as(
            out[k].1,
        )
}

/// Whether `out` holds a clone of every node of `nodes`, in order.
pub open spec fn copies_nodes<T: Clone>(out: Seq<Tree<T>>, nodes: Seq<Tree<T>>) -> bool {
    &&& out.len() == nodes.len()
    &&& forall|k: int| 0 <= k < nodes.len() ==> nodes[k].cloned_as(#[trigger] out[k])
}

impl<T> Tree<T> {
    /// The pre-order walk from this node: the node at depth 0, the forest
    /// below it one level down, then the siblings after it at its own level.
    pub open spec fn preorder(self) -> Seq<(nat, Tree<T>)>
        decreases self,
    {
        seq![(0nat, self)] + deepen(forest_preorder(self.first_child)) + forest_preorder(
            self.next_sibling,
        )
    }

    /// The number of nodes reachable from this node, itself included.
    pub open spec fn size(self) -> nat
        decreases self,
    {
        1 + forest_size(self.first_child) + forest_size(self.next_sibling)
    }

    /// Whether this node, a node below it or a node after it carries `id`.
    pub open spec fn contains(self, id: Uuid) -> bool
        decreases self,
    {
        self.uuid == id || forest_contains(self.first_child, id) || forest_contains(
            self.next_sibling,
            id,
        )
    }

    /// The first node in pre-order that carries `id`.
    pub open spec fn find_spec(self, id: Uuid) -> Option<Tree<T>> {
        first_with_id(self.preorder(), id)
    }

    /// This node with `node` put at the end of its sibling chain.
    pub open spec fn with_last_sibling(self, node: Tree<T>) -> Tree<T>
        decreases self,
    {
        Tree {
            value: self.value,
            uuid: self.uuid,
            first_child: self.first_child,
            next_sibling: Some(
                Box::new(
                    match self.next_sibling {
                        None => node,
                        Some(next) => next.with_last_sibling(node),
                    },
                ),
            ),
        }
    }

    /// This node after `node` was attached as the last child of the first
    /// node in pre-order that carries `parent`; the node itself where none
    /// does.
    pub open spec fn with_child(self, parent: Uuid, node: Tree<T>) -> Tree<T>
        decreases self,
    {
        if self.uuid == parent {
            Tree {
                value: self.value,
                uuid: self.uuid,
                first_child: Some(
                    Box::new(
                        match self.first_child {
                            None => node,
                            Some(child) => child.with_last_sibling(node),
                        },
                    ),
                ),
                next_sibling: self.next_sibling,
            }
        } else if forest_contains(self.first_child, parent) {
            Tree {
                value: self.value,
                uuid: self.uuid,
                first_child: forest_with_child(self.first_child, parent, node),
                next_sibling: self.next_sibling,
            }
        } else {
            Tree {
                value: self.value,
                uuid: self.uuid,
                first_child: self.first_child,
                next_sibling: forest_with_child(self.next_sibling, parent, node),
            }
        }
    }

    /// The children of this node, in order.
    pub open spec fn children(self) -> Seq<Tree<T>> {
        chain(self.first_child)
    }

    /// The siblings after this node, in order.
    pub open spec fn siblings(self) -> Seq<Tree<T>> {
        chain(self.next_sibling)
    }
}

impl<T: Clone> Tree<T> {
    /// Whether `copy` has the shape and identifiers of this node's forest,
    /// and at each node a clone of the payload.
    pub open spec fn cloned_as(self, copy: Tree<T>) -> bool
        decreases self,
    {
        &&& cloned(self.value, copy.value)
        &&& self.uuid == copy.uuid
        &&& forest_cloned(self.first_child, copy.first_child)
        &&& forest_cloned(self.next_sibling, copy.next_sibling)
    }
}

/// Attaching under an identifier that no node carries changes nothing.
pub proof fn lemma_with_child_absent<T>(tree: Tree<T>, parent: Uuid, node: Tree<T>)
    requires
        !tree.contains(parent),
    ensures
        tree.with_child(parent, node) == tree,
    decreases tree,
{
    match tree.next_sibling {
        None => {},
        Some(next) => {
            lemma_with_child_absent(*next, parent, node);
        },
    }
}

impl<T> Tree<T> {
    /// A single node with the nil identifier: the root of a new document.
    pub fn new_tree(value: T) -> (tree: Tree<T>)
        ensures
            tree.value == value,
            tree.uuid.value == 0,
            tree.first_child is None,
            tree.next_sibling is None,
    {
        Tree { value, uuid: Uuid::nil(), first_child: None, next_sibling: None }
    }

    /// A single node with the given identifier.
    pub fn with_uuid(value: T, uuid: Uuid) -> (tree: Tree<T>)
        ensures
            tree.value == value,
            tree.uuid == uuid,
            tree.first_child is None,
            tree.next_sibling is None,
    {
        Tree { value, uuid, first_child: None, next_sibling: None }
    }

    /// A single node with a fresh random identifier, which is never nil.
    pub fn new_child(value: T) -> (tree: Tree<T>)
        ensures
            tree.value == value,
            crate::id::is_random_value(tree.uuid.value),
            tree.uuid.value != 0,
            tree.first_child is None,
            tree.next_sibling is None,
    {
        Tree::with_uuid(value, Uuid::new_v4())
    }

    /// Puts `new_node` at the end of this node's sibling chain.
    pub fn insert_to_sibling(&mut self, new_node: Tree<T>)
        ensures
            *final(self) == old(self).with_last_sibling(new_node),
        decreases *old(self),
    {
        match self.next_sibling.take() {
            Some(mut next) => {
                next.insert_to_sibling(new_node);
                self.next_sibling = Some(next);
            },
            None => {
                self.next_sibling = Some(Box::new(new_node));
            },
        }
    }

    /// Attaches `new_node` as the last child of the first node in pre-order
    /// that carries `parent_uuid`, and hands it back where no node does.
    fn attach(&mut self, parent_uuid: Uuid, new_node: Tree<T>) -> (rejected: Option<Tree<T>>)
        ensures
            *final(self) == old(self).with_child(parent_uuid, new_node),
            rejected is None <==> old(self).contains(parent_uuid),
            rejected is Some ==> rejected == Some(new_node) && *final(self) == *old(self),
        decreases *old(self),
    {
        proof {
            if !self.contains(parent_uuid) {
                lemma_with_child_absent(*self, parent_uuid, new_node);
            }
        }
        if self.uuid == parent_uuid {
            match self.first_child.take() {
                Some(mut child) => {
                    child.insert_to_sibling(new_node);
                    self.first_child = Some(child);
                },
                None => {
                    self.first_child = Some(Box::new(new_node));
                },
            }
            None
        } else {
            let below = match self.first_child.take() {
                Some(mut child) => {
                    let rejected = child.attach(parent_uuid, new_node);
                    self.first_child = Some(child);
                    rejected
                },
                None => Some(new_node),
            };
            match below {
                None => None,
                Some(node) => match self.next_sibling.take() {
                    Some(mut next) => {
                        let rejected = next.attach(parent_uuid, node);
                        self.next_sibling = Some(next);
                        rejected
                    },
                    None => Some(node),
                },
            }
        }
    }

    /// Attaches `new_node` as the last child of the first node in pre-order
    /// that carries `parent_uuid`. Where no node carries it, the tree stays
    /// as it was and the result is `false`.
    pub fn insert(&mut self, parent_uuid: Uuid, new_node: Tree<T>) -> (inserted: bool)
        ensures
            inserted == old(self).contains(parent_uuid),
            *final(self) == old(self).with_child(parent_uuid, new_node),
            !inserted ==> *final(self) == *old(self),
    {
        self.attach(parent_uuid, new_node).is_none()
    }
}

/// Searching two walks one after the other searches the first, then the
/// second.
pub proof fn lemma_first_with_id_concat<T>(
    a: Seq<(nat, Tree<T>)>,
    b: Seq<(nat, Tree<T>)>,
    id: Uuid,
)
    ensures
        first_with_id(a + b, id) == match first_with_id(a, id) {
            Some(node) => Some(node),
            None => first_with_id(b, id),
        },
    decreases a.len(),
{
    if a.len() == 0 {
        assert(a + b =~= b);
    } else {
        assert((a + b).drop_first() =~= a.drop_first() + b);
        lemma_first_with_id_concat(a.drop_first(), b, id);
    }
}

/// Searching does not look at depths.
pub proof fn lemma_first_with_id_deepen<T>(walk: Seq<(nat, Tree<T>)>, id: Uuid)
    ensures
        first_with_id(deepen(walk), id) == first_with_id(walk, id),
    decreases walk.len(),
{
    if walk.len() > 0 {
        assert(deepen(walk).drop_first() =~= deepen(walk.drop_first()));
        lemma_first_with_id_deepen(walk.drop_first(), id);
    }
}

/// How the search goes through a node: the node itself, then the forest
/// below it, then the siblings after it.
pub proof fn lemma_find_unfold<T>(tree: Tree<T>, id: Uuid)
    ensures
        tree.find_spec(id) == if tree.uuid == id {
            Some(tree)
        } else {
            match first_with_id(forest_preorder(tree.first_child), id) {
                Some(node) => Some(node),
                None => first_with_id(forest_preorder(tree.next_sibling), id),
            }
        },
{
    let head = seq![(0nat, tree)];
    let below = deepen(forest_preorder(tree.first_child));
    let after = forest_preorder(tree.next_sibling);
    assert(tree.preorder() == head + below + after);
    lemma_first_with_id_concat(head + below, after, id);
    lemma_first_with_id_concat(head, below, id);
    lemma_first_with_id_deepen(forest_preorder(tree.first_child), id);
    assert(head.drop_first() =~= Seq::<(nat, Tree<T>)>::empty());
    assert(first_with_id(head.drop_first(), id) is None);
    assert(first_with_id(head, id) == if tree.uuid == id {
        Some(tree)
    } else {
        None
    });
}

/// A node carries `id` exactly if the search for `id` finds one, and what
/// the search finds carries `id`.
pub proof fn lemma_find_contains<T>(tree: Tree<T>, id: Uuid)
    ensures
        tree.find_spec(id) is Some <==> tree.contains(id),
        tree.find_spec(id) is Some ==> tree.find_spec(id).unwrap().uuid == id,
    decreases tree,
{
    lemma_find_unfold(tree, id);
    match tree.first_child {
        None => {},
        Some(child) => {
            lemma_find_contains(*child, id);
        },
    }
    match tree.next_sibling {
        None => {},
        Some(next) => {
            lemma_find_contains(*next, id);
        },
    }
}

impl<T> Tree<T> {
    /// The first node in pre-order that carries `uuid`, or `None` where no
    /// node does.
    pub fn find(&self, uuid: Uuid) -> (found: Option<&Tree<T>>)
        ensures
            match found {
                Some(node) => self.find_spec(uuid) == Some(*node),
                None => self.find_spec(uuid) is None,
            },
            found is Some <==> self.contains(uuid),
        decreases self,
    {
        proof {
            lemma_find_unfold(*self, uuid);
            lemma_find_contains(*self, uuid);
        }
        if self.uuid == uuid {
            Some(self)
        } else {
            let below = match &self.first_child {
                Some(child) => child.find(uuid),
                None => None,
            };
            match below {
                Some(node) => Some(node),
                None => match &self.next_sibling {
                    Some(next) => next.find(uuid),
                    None => None,
                },
            }
        }
    }
}

impl<T: Clone> Clone for Tree<T> {
    /// A copy of this node's whole forest, with a clone of every payload.
    fn clone(&self) -> (copy: Self)
        ensures
            self.cloned_as(copy),
        decreases self,
    {
        Tree {
            value: self.value.clone(),
            uuid: self.uuid,
            first_child: match &self.first_child {
                Some(child) => Some(Box::new((&**child).clone())),
                None => None,
            },
            next_sibling: match &self.next_sibling {
                Some(next) => Some(Box::new((&**next).clone())),
                None => None,
            },
        }
    }
}

impl<T: Clone> Tree<T> {
    /// Appends the walk from this node to `walk`, with depths counted from
    /// `depth`.
    fn traverse_into(&self, depth: usize, walk: &mut Vec<(usize, Tree<T>)>)
        requires
            depth <= old(walk).len(),
        ensures
            final(walk)@.len() == old(walk)@.len() + self.preorder().len(),
            final(walk)@.subrange(0, old(walk)@.len() as int) == old(walk)@,
            copies_walk(
                final(walk)@.subrange(old(walk)@.len() as int, final(walk)@.len() as int),
                self.preorder(),
                depth as nat,
            ),
        decreases self,
    {
        let ghost before = walk@;
        let ghost below = forest_preorder(self.first_child);
        let ghost after = forest_preorder(self.next_sibling);
        walk.push((depth, self.clone()));
        let pushed = walk.len();
        let ghost first = walk@;
        match &self.first_child {
            Some(child) => {
                child.traverse_into(depth + 1, walk);
            },
            None => {},
        }
        let ghost second = walk@;
        match &self.next_sibling {
            Some(next) => {
                next.traverse_into(depth, walk);
            },
            None => {},
        }
        proof {
            let n = before.len() as int;
            let out = walk@.subrange(n, walk@.len() as int);
            let pre = self.preorder();
            assert(first == before.push((depth, first[n].1)));
            assert(second.len() == first.len() + below.len());
            assert forall|j: int| 0 <= j < first.len() implies second[j] == first[j] by {
                assert(second.subrange(0, first.len() as int)[j] == second[j]);
            }
            assert(walk@.len() == second.len() + after.len());
            assert forall|j: int| 0 <= j < second.len() implies walk@[j] == second[j] by {
                assert(walk@.subrange(0, second.len() as int)[j] == walk@[j]);
            }
            assert(walk@.subrange(0, n) =~= before);
            assert forall|k: int| 0 <= k < pre.len() implies (#[trigger] out[k]).0 == depth
                + pre[k].0 && pre[k].1.cloned_as(out[k].1) by {
                if k == 0 {
                    assert(out[0] == first[n]);
                } else if k < 1 + below.len() {
                    let inner = second.subrange(first.len() as int, second.len() as int);
                    assert(out[k] == second[n + k]);
                    assert(out[k] == inner[k - 1]);
                    assert(pre[k] == deepen(below)[k - 1]);
                } else {
                    let inner = walk@.subrange(second.len() as int, walk@.len() as int);
                    assert(out[k] == inner[k - 1 - below.len()]);
                    assert(pre[k] == after[k - 1 - below.len()]);
                }
            }
        }
    }

    /// The full pre-order walk from this node: each node with its depth, the
    /// node itself at depth 0, a child one deeper than its parent, a sibling
    /// at the depth of the node before it in the chain. Every entry is a
    /// copy of the node with all that it owns.
    pub fn traverse(&self) -> (walk: Vec<(usize, Tree<T>)>)
        ensures
            copies_walk(walk@, self.preorder(), 0),
    {
        let mut walk: Vec<(usize, Tree<T>)> = Vec::new();
        self.traverse_into(0, &mut walk);
        assert(walk@.subrange(0, walk@.len() as int) =~= walk@);
        walk
    }

    /// Copies of the siblings after this node, in order.
    pub fn get_siblings(&self) -> (siblings: Vec<Tree<T>>)
        ensures
            copies_nodes(siblings@, self.siblings()),
    {
        let mut siblings: Vec<Tree<T>> = Vec::new();
        let mut current = &self.next_sibling;
        loop
            invariant
                siblings@.len() + chain(*current).len() == chain(self.next_sibling).len(),
                forall|k: int|
                    0 <= k < siblings@.len() ==> chain(self.next_sibling)[k].cloned_as(
                        #[trigger] siblings@[k],
                    ),
                forall|k: int|
                    0 <= k < chain(*current).len() ==> chain(*current)[k] == chain(
                        self.next_sibling,
                    )[siblings@.len() + k],
            decreases *current,
        {
            match current {
                Some(sibling) => {
                    siblings.push((&**sibling).clone());
                    proof {
                        let rest = chain(sibling.next_sibling);
                        assert forall|k: int| 0 <= k < rest.len() implies rest[k] == chain(
                            self.next_sibling,
                        )[siblings@.len() + k] by {
                            assert(rest[k] == chain(*current)[k + 1]);
                        }
                        assert(chain(*current)[0] == **sibling);
                    }
                    current = &sibling.next_sibling;
                },
                None => {
                    return siblings;
                },
            }
        }
    }

    /// Copies of the children of this node, in order.
    pub fn get_children(&self) -> (children: Vec<Tree<T>>)
        ensures
            copies_nodes(children@, self.children()),
    {
        match &self.first_child {
            Some(first) => {
                let mut children: Vec<Tree<T>> = Vec::new();
                children.push((&**first).clone());
                let mut more = first.get_siblings();
                let ghost rest = more@;
                children.append(&mut more);
                proof {
                    assert(self.children() == seq![**first] + first.siblings());
                    assert forall|k: int| 0 <= k < self.children().len() implies self.children()[k].cloned_as(
                     #[trigger] children@[k]) by {
                        if k > 0 {
                            assert(children@[k] == rest[k - 1]);
                            assert(self.children()[k] == first.siblings()[k - 1]);
                        }
                    }
                }
                children
            },
            None => Vec::new(),
        }
    }
}

impl<T> Tree<T> {
    /// Whether no two nodes reachable from this node carry the same
    /// identifier.
    pub open spec fn unique_ids(self) -> bool {
        forall|j: int, k: int|
            0 <= j < k < self.preorder().len() ==> self.preorder()[j].1.uuid
                != self.preorder()[k].1.uuid
    }
}

/// The walk has one entry for every node.
pub proof fn lemma_preorder_len<T>(tree: Tree<T>)
    ensures
        tree.preorder().len() == tree.size(),
    decreases tree,
{
    match tree.first_child {
        None => {},
        Some(child) => {
            lemma_preorder_len(*child);
        },
    }
    match tree.next_sibling {
        None => {},
        Some(next) => {
            lemma_preorder_len(*next);
        },
    }
}

/// The walk has one entry for every node of the forest.
pub proof fn lemma_forest_preorder_len<T>(link: Option<Box<Tree<T>>>)
    ensures
        forest_preorder(link).len() == forest_size(link),
{
    match link {
        None => {},
        Some(tree) => {
            lemma_preorder_len(*tree);
        },
    }
}

/// Depths along the walk. The walk has one entry for every node, the root
/// included. The first child of the node at position `i` stands right after
/// it, one level deeper. Its next sibling stands right after all that is
/// below the node, at the node's own depth.
pub proof fn lemma_preorder_steps<T>(tree: Tree<T>, i: int)
    requires
        0 <= i < tree.preorder().len(),
    ensures
        tree.preorder().len() == tree.size(),
        tree.preorder()[0] == (0nat, tree),
        match tree.preorder()[i].1.first_child {
            Some(child) => i + 1 < tree.preorder().len() && tree.preorder()[i + 1] == (
                (tree.preorder()[i].0 + 1) as nat,
                *child,
            ),
            None => true,
        },
        match tree.preorder()[i].1.next_sibling {
            Some(next) => {
                let j = i + 1 + forest_size(tree.preorder()[i].1.first_child);
                j < tree.preorder().len() && tree.preorder()[j] == (tree.preorder()[i].0, *next)
            },
            None => true,
        },
    decreases tree,
{
    let below = forest_preorder(tree.first_child);
    let after = forest_preorder(tree.next_sibling);
    let pre = tree.preorder();
    lemma_preorder_len(tree);
    lemma_forest_preorder_len(tree.first_child);
    lemma_forest_preorder_len(tree.next_sibling);
    assert(pre == seq![(0nat, tree)] + deepen(below) + after);
    if i == 0 {
        match tree.first_child {
            None => {},
            Some(child) => {
                assert(below[0] == (0nat, *child));
                assert(pre[1] == deepen(below)[0]);
            },
        }
        match tree.next_sibling {
            None => {},
            Some(next) => {
                assert(after[0] == (0nat, *next));
                assert(pre[1 + below.len() as int] == after[0]);
            },
        }
    } else if i < 1 + below.len() {
        let child = tree.first_child.unwrap();
        lemma_preorder_steps(*child, i - 1);
        let node = below[i - 1].1;
        assert(pre[i] == deepen(below)[i - 1]);
        match node.first_child {
            None => {},
            Some(c) => {
                assert(pre[i + 1] == deepen(below)[i]);
            },
        }
        match node.next_sibling {
            None => {},
            Some(n) => {
                let j = i - 1 + 1 + forest_size(node.first_child);
                assert(pre[j + 1] == deepen(below)[j]);
            },
        }
    } else {
        let next = tree.next_sibling.unwrap();
        let shift = 1 + below.len() as int;
        lemma_preorder_steps(*next, i - shift);
        let node = after[i - shift].1;
        assert(pre[i] == after[i - shift]);
        match node.first_child {
            None => {},
            Some(c) => {
                assert(pre[i + 1] == after[i + 1 - shift]);
            },
        }
        match node.next_sibling {
            None => {},
            Some(n) => {
                let j = i - shift + 1 + forest_size(node.first_child);
                assert(pre[j + shift] == after[j]);
            },
        }
    }
}

/// In a walk, the search for the identifier at position `i` finds the node
/// at that position, if no earlier node carries the same identifier.
pub proof fn lemma_first_with_id_at<T>(walk: Seq<(nat, Tree<T>)>, i: int)
    requires
        0 <= i < walk.len(),
        forall|j: int| 0 <= j < i ==> (#[trigger] walk[j]).1.uuid != walk[i].1.uuid,
    ensures
        first_with_id(walk, walk[i].1.uuid) == Some(walk[i].1),
    decreases walk.len(),
{
    if i > 0 {
        let rest = walk.drop_first();
        assert(rest[i - 1] == walk[i]);
        assert forall|j: int| 0 <= j < i - 1 implies (#[trigger] rest[j]).1.uuid != rest[i - 1].1.uuid by {
            assert(rest[j] == walk[j + 1]);
        }
        lemma_first_with_id_at(rest, i - 1);
        assert(walk[0].1.uuid != walk[i].1.uuid);
    }
}

/// Every node that is in a tree of unique identifiers is found by its
/// identifier.
pub proof fn lemma_find_present<T>(tree: Tree<T>, i: int)
    requires
        tree.unique_ids(),
        0 <= i < tree.preorder().len(),
    ensures
        tree.find_spec(tree.preorder()[i].1.uuid) == Some(tree.preorder()[i].1),
{
    lemma_first_with_id_at(tree.preorder(), i);
}

/// The search for an identifier that no node of a walk carries finds
/// nothing, and the other way round.
pub proof fn lemma_first_with_id_none<T>(walk: Seq<(nat, Tree<T>)>, id: Uuid)
    ensures
        first_with_id(walk, id) is None <==> forall|j: int|
            0 <= j < walk.len() ==> walk[j].1.uuid != id,
    decreases walk.len(),
{
    if walk.len() > 0 {
        let rest = walk.drop_first();
        lemma_first_with_id_none(rest, id);
        if walk[0].1.uuid != id {
            if first_with_id(rest, id) is None {
                assert forall|j: int| 0 <= j < walk.len() implies walk[j].1.uuid != id by {
                    if j > 0 {
                        assert(rest[j - 1] == walk[j]);
                    }
                }
            } else {
                let j = choose|j: int| 0 <= j < rest.len() && rest[j].1.uuid == id;
                assert(walk[j + 1] == rest[j]);
            }
        }
    }
}

/// The search for an identifier that no node of the tree carries finds
/// nothing.
pub proof fn lemma_find_absent<T>(tree: Tree<T>, id: Uuid)
    requires
        forall|j: int| 0 <= j < tree.preorder().len() ==> tree.preorder()[j].1.uuid != id,
    ensures
        tree.find_spec(id) is None,
        !tree.contains(id),
{
    lemma_first_with_id_none(tree.preorder(), id);
    lemma_find_contains(tree, id);
}

/// Whether `after` is the chain `before` with the chain `added` behind it:
/// the nodes of `before` with their payloads, identifiers and children, and
/// then the nodes of `added` as they are.
pub open spec fn extends_chain<T>(
    before: Seq<Tree<T>>,
    after: Seq<Tree<T>>,
    added: Seq<Tree<T>>,
) -> bool {
    &&& after.len() == before.len() + added.len()
    &&& forall|i: int|
        0 <= i < before.len() ==> (#[trigger] after[i]).value == before[i].value && after[i].uuid
            == before[i].uuid && after[i].first_child == before[i].first_child
    &&& forall|i: int| 0 <= i < added.len() ==> #[trigger] after[before.len() + i] == added[i]
}

/// A sibling chain with one more node at its end is the chain with that
/// node, and the siblings that the node brings, behind it.
pub proof fn lemma_chain_with_last_sibling<T>(tree: Tree<T>, node: Tree<T>)
    ensures
        extends_chain(
            chain(Some(Box::new(tree))),
            chain(Some(Box::new(tree.with_last_sibling(node)))),
            chain(Some(Box::new(node))),
        ),
    decreases tree,
{
    let joined = tree.with_last_sibling(node);
    let before = chain(Some(Box::new(tree)));
    let after = chain(Some(Box::new(joined)));
    let added = chain(Some(Box::new(node)));
    match tree.next_sibling {
        None => {
            assert(chain(tree.next_sibling) =~= Seq::<Tree<T>>::empty());
            assert(before =~= seq![tree]);
            assert(after =~= seq![joined] + added);
            assert forall|i: int| 0 <= i < added.len() implies #[trigger] after[before.len() + i]
                == added[i] by {}
        },
        Some(next) => {
            lemma_chain_with_last_sibling(*next, node);
            let rest_before = chain(Some(next));
            let rest_after = chain(Some(Box::new(next.with_last_sibling(node))));
            assert(before == seq![tree] + rest_before);
            assert(after == seq![joined] + rest_after);
            assert forall|i: int| 0 <= i < before.len() implies (#[trigger] after[i]).value
                == before[i].value && after[i].uuid == before[i].uuid && after[i].first_child
                == before[i].first_child by {
                if i > 0 {
                    assert(after[i] == rest_after[i - 1]);
                    assert(before[i] == rest_before[i - 1]);
                }
            }
            assert forall|i: int| 0 <= i < added.len() implies #[trigger] after[before.len() + i]
                == added[i] by {
                assert(after[before.len() + i] == rest_after[rest_before.len() + i]);
            }
        },
    }
}

/// What a node carries after another was put at the end of its sibling
/// chain: what it carried, and what the other carries.
pub proof fn lemma_with_last_sibling_contains<T>(tree: Tree<T>, node: Tree<T>, id: Uuid)
    ensures
        tree.with_last_sibling(node).contains(id) == (tree.contains(id) || node.contains(id)),
    decreases tree,
{
    match tree.next_sibling {
        None => {},
        Some(next) => {
            lemma_with_last_sibling_contains(*next, node, id);
        },
    }
}

/// What a tree carries after a node was attached: what it carried, and
/// what the node carries if there was a place for it.
pub proof fn lemma_with_child_contains<T>(tree: Tree<T>, parent: Uuid, node: Tree<T>, id: Uuid)
    ensures
        tree.with_child(parent, node).contains(id) == (tree.contains(id) || (tree.contains(parent)
            && node.contains(id))),
    decreases tree,
{
    if tree.uuid == parent {
        match tree.first_child {
            None => {},
            Some(child) => {
                lemma_with_last_sibling_contains(*child, node, id);
            },
        }
    } else {
        match tree.first_child {
            None => {},
            Some(child) => {
                lemma_with_child_contains(*child, parent, node, id);
            },
        }
        match tree.next_sibling {
            None => {},
            Some(next) => {
                lemma_with_child_contains(*next, parent, node, id);
            },
        }
    }
}

/// Where a node is attached: the first node in pre-order that carries the
/// identifier of the parent is, after the attachment, still the first that
/// carries it, with its payload, and has its children as they were, with
/// the new node, and the siblings that the new node brings, behind them.
pub proof fn lemma_with_child_children<T>(tree: Tree<T>, parent: Uuid, node: Tree<T>)
    requires
        tree.contains(parent),
    ensures
        tree.find_spec(parent) is Some,
        tree.with_child(parent, node).find_spec(parent) is Some,
        tree.with_child(parent, node).find_spec(parent).unwrap().uuid == parent,
        tree.with_child(parent, node).find_spec(parent).unwrap().value == tree.find_spec(
            parent,
        ).unwrap().value,
        extends_chain(
            tree.find_spec(parent).unwrap().children(),
            tree.with_child(parent, node).find_spec(parent).unwrap().children(),
            chain(Some(Box::new(node))),
        ),
    decreases tree,
{
    let after = tree.with_child(parent, node);
    lemma_find_unfold(tree, parent);
    lemma_find_unfold(after, parent);
    lemma_find_contains(tree, parent);
    if tree.uuid == parent {
        match tree.first_child {
            None => {
                assert(tree.children() =~= Seq::<Tree<T>>::empty());
            },
            Some(child) => {
                lemma_chain_with_last_sibling(*child, node);
            },
        }
    } else if forest_contains(tree.first_child, parent) {
        let child = tree.first_child.unwrap();
        lemma_find_contains(*child, parent);
        lemma_with_child_children(*child, parent, node);
    } else {
        match tree.first_child {
            None => {},
            Some(child) => {
                lemma_find_contains(*child, parent);
            },
        }
        let next = tree.next_sibling.unwrap();
        lemma_find_contains(*next, parent);
        lemma_with_child_children(*next, parent, node);
    }
}

/// The forest that starts at `link`, with the view of every payload in
/// place of the payload.
pub open spec fn forest_view<T: View>(link: Option<Box<Tree<T>>>) -> Option<Box<Tree<T::V>>>
    decreases link,
{
    match link {
        None => None,
        Some(tree) => Some(Box::new(tree_view(*tree))),
    }
}

/// The tree with the view of every payload in place of the payload.
pub open spec fn tree_view<T: View>(tree: Tree<T>) -> Tree<T::V>
    decreases tree,
{
    Tree {
        value: tree.value@,
        uuid: tree.uuid,
        first_child: forest_view(tree.first_child),
        next_sibling: forest_view(tree.next_sibling),
    }
}

impl<T: View> View for Tree<T> {
    type V = Tree<T::V>;

    /// The same tree with the view of every payload in place of the payload.
    open spec fn view(&self) -> Tree<T::V> {
        tree_view(*self)
    }
}

/// A tree carries an identifier exactly if its view does.
pub proof fn lemma_view_contains<T: View>(tree: Tree<T>, id: Uuid)
    ensures
        tree_view(tree).contains(id) == tree.contains(id),
    decreases tree,
{
    match tree.first_child {
        None => {},
        Some(child) => {
            lemma_view_contains(*child, id);
        },
    }
    match tree.next_sibling {
        None => {},
        Some(next) => {
            lemma_view_contains(*next, id);
        },
    }
}

/// Putting a node at the end of a sibling chain and viewing the result is
/// viewing both and putting the one at the end of the other.
pub proof fn lemma_view_with_last_sibling<T: View>(tree: Tree<T>, node: Tree<T>)
    ensures
        tree_view(tree.with_last_sibling(node)) == tree_view(tree).with_last_sibling(
            tree_view(node),
        ),
    decreases tree,
{
    match tree.next_sibling {
        None => {},
        Some(next) => {
            lemma_view_with_last_sibling(*next, node);
        },
    }
}

/// Attaching a node and viewing the result is viewing both and attaching
/// the one to the other.
pub proof fn lemma_view_with_child<T: View>(tree: Tree<T>, parent: Uuid, node: Tree<T>)
    ensures
        tree_view(tree.with_child(parent, node)) == tree_view(tree).with_child(
            parent,
            tree_view(node),
        ),
    decreases tree,
{
    if tree.uuid == parent {
        match tree.first_child {
            None => {},
            Some(child) => {
                lemma_view_with_last_sibling(*child, node);
            },
        }
    } else {
        match tree.first_child {
            None => {},
            Some(child) => {
                lemma_view_contains(*child, parent);
                lemma_view_with_child(*child, parent, node);
            },
        }
        match tree.next_sibling {
            None => {},
            Some(next) => {
                lemma_view_with_child(*next, parent, node);
            },
        }
    }
}

} // verus!
