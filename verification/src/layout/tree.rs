use vstd::prelude::*;

use super::graph::{
    acyclic, descends, ends, lemma_acyclic_restrict, lemma_cycle_never_ends, lemma_descends_step,
    lemma_reaches_closed,
    lemma_relink_acyclic, lemma_ends_extend, lemma_reaches_restrict,
    lemma_reaches_trans, reaches,
};
use super::style::LayoutStyle;
use crate::geometry::{Insets, Rect};
use crate::platform::{hash_unit, random_state};

verus! {

/// Stable, library-owned identity for a node in one layout tree.
#[derive(Clone, Copy, Debug, Eq, Hash, PartialEq, Structural)]
pub struct LayoutNodeId {
    tree: u64,
    index: usize,
    generation: u64,
}

impl LayoutNodeId {
    /// Identity of the tree that issued this id.
    pub closed spec fn tree_of(self) -> u64 {
        self.tree
    }

    /// Slot index of this id.
    pub closed spec fn slot(self) -> usize {
        self.index
    }

    /// Generation of the slot when this id was issued.
    pub closed spec fn generation_of(self) -> u64 {
        self.generation
    }

    /// Slot index of this id.
    pub(crate) fn index(self) -> (index: usize)
        ensures
            index == self.slot(),
    {
        self.index
    }
}

/// Integer-cell geometry computed for one layout node.
#[derive(Clone, Copy, Debug, Default, Eq, Hash, PartialEq, Structural)]
pub struct ComputedLayout {
    /// Border-box bounds in root coordinates.
    pub bounds: Rect,
    /// Content-box bounds in root coordinates.
    pub content: Rect,
    /// Resolved padding.
    pub padding: Insets,
    /// Resolved border thickness.
    pub border: Insets,
    /// Relative paint order assigned by the layout engine.
    pub order: u32,
}

/// Errors produced by layout tree operations.
#[derive(Clone, Debug, Eq, PartialEq)]
pub enum LayoutError {
    /// A node does not belong to this tree.
    UnknownNode(LayoutNodeId),
    /// The same child was supplied more than once.
    DuplicateChild(LayoutNodeId),
    /// Assigning the children would create a cycle.
    Cycle(LayoutNodeId),
    /// Geometry has not been computed for the node.
    NotComputed(LayoutNodeId),
    /// The layout engine rejected an operation.
    Engine(String),
}

/// One retained node: its style and its place in the tree.
#[derive(Clone, Debug)]
pub struct Node {
    /// Flexbox properties.
    pub style: LayoutStyle,
    /// Parent, if attached.
    pub parent: Option<LayoutNodeId>,
    /// Children in order.
    pub children: Vec<LayoutNodeId>,
}

/// One arena slot: the generation of its current or next occupant, and the occupant.
pub struct NodeSlot {
    generation: u64,
    node: Option<Node>,
}

/// Generational arena of layout nodes.
pub struct NodeStore {
    slots: Vec<NodeSlot>,
    free: Vec<usize>,
    len: usize,
}

/// Number of occupied slots.
spec fn occupied_count(slots: Seq<NodeSlot>) -> nat
    decreases slots.len(),
{
    if slots.len() == 0 {
        0
    } else {
        occupied_count(slots.drop_last()) + if slots.last().node is Some {
            1nat
        } else {
            0nat
        }
    }
}

proof fn lemma_occupied_count_bounded(slots: Seq<NodeSlot>)
    ensures
        occupied_count(slots) <= slots.len(),
    decreases slots.len(),
{
    if slots.len() > 0 {
        lemma_occupied_count_bounded(slots.drop_last());
    }
}

proof fn lemma_occupied_count_update(slots: Seq<NodeSlot>, i: int, slot: NodeSlot)
    requires
        0 <= i < slots.len(),
    ensures
        occupied_count(slots.update(i, slot)) + (if slots[i].node is Some {
            1int
        } else {
            0int
        }) == occupied_count(slots) + (if slot.node is Some {
            1int
        } else {
            0int
        }),
    decreases slots.len(),
{
    if i < slots.len() - 1 {
        lemma_occupied_count_update(slots.drop_last(), i, slot);
        assert(slots.update(i, slot).drop_last() =~= slots.drop_last().update(i, slot));
    } else {
        assert(slots.update(i, slot).drop_last() =~= slots.drop_last());
    }
}

proof fn lemma_occupied_count_push(slots: Seq<NodeSlot>, slot: NodeSlot)
    ensures
        occupied_count(slots.push(slot)) == occupied_count(slots) + if slot.node is Some {
            1nat
        } else {
            0nat
        },
{
    assert(slots.push(slot).drop_last() =~= slots);
}

impl NodeStore {
    /// Number of slots ever allocated.
    pub closed spec fn slot_count(self) -> nat {
        self.slots@.len()
    }

    /// Whether `id` names the current occupant of its slot.
    pub closed spec fn contains(self, id: LayoutNodeId) -> bool {
        &&& id.index < self.slots@.len()
        &&& self.slots@[id.index as int].generation == id.generation
        &&& self.slots@[id.index as int].node is Some
    }

    /// The node `id` names, when [`Self::contains`] holds.
    pub closed spec fn node(self, id: LayoutNodeId) -> Node {
        self.slots@[id.index as int].node->0
    }

    /// Generation currently stored in slot `index`.
    pub closed spec fn generation_at(self, index: int) -> u64 {
        self.slots@[index].generation
    }

    /// Whether slot `index` is empty and can never be occupied again.
    pub closed spec fn retired(self, index: int) -> bool {
        &&& 0 <= index < self.slots@.len()
        &&& self.slots@[index].node is None
        &&& self.slots@[index].generation == u64::MAX
        &&& !self.free@.contains(index as usize)
    }

    /// Whether `id` can never name an occupant of this store again.
    pub open spec fn forgets(self, id: LayoutNodeId) -> bool {
        &&& id.slot() < self.slot_count()
        &&& (self.generation_at(id.slot() as int) > id.generation_of() || self.retired(
            id.slot() as int,
        ))
    }

    /// Number of occupied slots.
    pub closed spec fn spec_len(self) -> nat {
        occupied_count(self.slots@)
    }

    /// How later states of a store relate to earlier ones: slots are never
    /// dropped, generations never decrease, and retired slots stay retired.
    pub closed spec fn evolves_to(self, later: Self) -> bool {
        &&& self.slots@.len() <= later.slots@.len()
        &&& forall|i: int|
            0 <= i < self.slots@.len() ==> #[trigger] self.slots@[i].generation
                <= later.slots@[i].generation
        &&& forall|i: int| #[trigger] self.retired(i) ==> later.retired(i)
    }

    /// The arena invariant: free slots are distinct empty slots, and the
    /// stored length counts the occupied slots.
    pub closed spec fn wf(self) -> bool {
        &&& forall|k: int|
            0 <= k < self.free@.len() ==> {
                &&& #[trigger] self.free@[k] < self.slots@.len()
                &&& self.slots@[self.free@[k] as int].node is None
            }
        &&& forall|k: int, j: int|
            0 <= k < self.free@.len() && 0 <= j < self.free@.len() && k != j ==> self.free@[k]
                != self.free@[j]
        &&& self.len == occupied_count(self.slots@)
    }

    /// Whether `later` differs from `self` only in slot `index`.
    pub closed spec fn same_except(self, later: Self, index: int) -> bool {
        forall|id: LayoutNodeId|
            id.index != index ==> {
                &&& #[trigger] later.contains(id) == self.contains(id)
                &&& self.contains(id) ==> later.node(id) == self.node(id)
            }
    }

    /// Creates an empty store.
    pub fn new() -> (store: Self)
        ensures
            store.wf(),
            store.slot_count() == 0,
            store.spec_len() == 0,
            forall|id: LayoutNodeId| !store.contains(id),
    {
        NodeStore { slots: Vec::new(), free: Vec::new(), len: 0 }
    }

    /// Stores `node` in a fresh identity of `tree`, reusing a freed slot when possible.
    pub fn insert(&mut self, tree: u64, node: Node) -> (id: LayoutNodeId)
        requires
            old(self).wf(),
        ensures
            final(self).wf(),
            id.tree_of() == tree,
            final(self).contains(id),
            final(self).node(id) == node,
            forall|other: LayoutNodeId| #[trigger] old(self).contains(other) ==> other.slot()
                != id.slot(),
            old(self).same_except(*final(self), id.slot() as int),
            final(self).spec_len() == old(self).spec_len() + 1,
            old(self).evolves_to(*final(self)),
            (final(self).slot_count() == old(self).slot_count() && id.slot() < old(self).slot_count())
                || (final(self).slot_count() == old(self).slot_count() + 1 && id.slot()
                == old(self).slot_count()),
    {
        let ghost old_store = *self;
        match self.free.pop() {
            Some(index) => {
                proof {
                    assert(old_store.free@[old_store.free@.len() - 1] == index);
                }
                let generation = self.slots[index].generation;
                self.slots[index].node = Some(node);
                proof {
                    assert(self.slots@ =~= old_store.slots@.update(
                        index as int,
                        NodeSlot { generation, node: Some(node) },
                    ));
                    lemma_occupied_count_update(
                        old_store.slots@,
                        index as int,
                        NodeSlot { generation, node: Some(node) },
                    );
                    lemma_occupied_count_bounded(self.slots@);
                }
                let slot_count = self.slots.len();
                assert(self.len < slot_count);
                self.len = self.len + 1;
                let id = LayoutNodeId { tree, index, generation };
                proof {
                    assert forall|k: int, j: int|
                        0 <= k < self.free@.len() && 0 <= j < self.free@.len() && k
                            != j implies self.free@[k] != self.free@[j] by {
                        assert(self.free@[k] == old_store.free@[k]);
                        assert(self.free@[j] == old_store.free@[j]);
                    }
                    assert forall|k: int| 0 <= k < self.free@.len() implies {
                        &&& #[trigger] self.free@[k] < self.slots@.len()
                        &&& self.slots@[self.free@[k] as int].node is None
                    } by {
                        assert(self.free@[k] == old_store.free@[k]);
                        assert(old_store.free@[k] != old_store.free@[old_store.free@.len() - 1]);
                    }
                    assert forall|i: int| #[trigger] old_store.retired(i) implies self.retired(
                        i,
                    ) by {
                        assert(!old_store.free@.contains(i as usize));
                        if self.free@.contains(i as usize) {
                            let k = choose|k: int|
                                0 <= k < self.free@.len() && self.free@[k] == i as usize;
                            assert(old_store.free@[k] == i as usize);
                        }
                    }
                }
                id
            },
            None => {
                let index = self.slots.len();
                self.slots.push(NodeSlot { generation: 0, node: Some(node) });
                proof {
                    lemma_occupied_count_push(
                        old_store.slots@,
                        NodeSlot { generation: 0, node: Some(node) },
                    );
                    lemma_occupied_count_bounded(self.slots@);
                }
                let slot_count = self.slots.len();
                assert(self.len < slot_count);
                self.len = self.len + 1;
                let id = LayoutNodeId { tree, index, generation: 0 };
                proof {
                    assert forall|i: int| #[trigger] old_store.retired(i) implies self.retired(
                        i,
                    ) by {
                        assert(self.slots@[i] == old_store.slots@[i]);
                    }
                }
                id
            },
        }
    }

    /// Returns the node that `id` names.
    pub fn get(&self, id: LayoutNodeId) -> (node: Option<&Node>)
        ensures
            node == if self.contains(id) {
                Some(&self.node(id))
            } else {
                None::<&Node>
            },
    {
        if id.index >= self.slots.len() {
            return None;
        }
        let slot = &self.slots[id.index];
        if slot.generation != id.generation {
            return None;
        }
        slot.node.as_ref()
    }

    /// Removes the node that `id` names and frees its slot for a later generation.
    ///
    /// A slot whose generation is exhausted is retired instead of reused.
    pub fn remove(&mut self, id: LayoutNodeId) -> (removed: Option<Node>)
        requires
            old(self).wf(),
        ensures
            final(self).wf(),
            removed == if old(self).contains(id) {
                Some(old(self).node(id))
            } else {
                None::<Node>
            },
            !old(self).contains(id) ==> *final(self) == *old(self),
            old(self).contains(id) ==> {
                &&& !final(self).contains(id)
                &&& final(self).forgets(id)
                &&& final(self).spec_len() + 1 == old(self).spec_len()
                &&& old(self).same_except(*final(self), id.slot() as int)
                &&& forall|other: LayoutNodeId|
                    other.slot() == id.slot() ==> !#[trigger] final(self).contains(other)
            },
            old(self).evolves_to(*final(self)),
            final(self).slot_count() == old(self).slot_count(),
    {
        if id.index >= self.slots.len() {
            return None;
        }
        if self.slots[id.index].generation != id.generation {
            return None;
        }
        if self.slots[id.index].node.is_none() {
            return None;
        }
        let ghost old_store = *self;
        let generation = self.slots[id.index].generation;
        let mut taken: Option<Node> = None;
        std::mem::swap(&mut taken, &mut self.slots[id.index].node);
        if generation < u64::MAX {
            self.slots[id.index].generation = generation + 1;
            proof {
                assert forall|k: int| 0 <= k < self.free@.len() implies self.free@[k]
                    != id.index by {
                    assert(old_store.slots@[self.free@[k] as int].node is None);
                }
            }
            self.free.push(id.index);
        }
        proof {
            assert(self.slots@ =~= old_store.slots@.update(
                id.index as int,
                NodeSlot { generation: self.slots@[id.index as int].generation, node: None },
            ));
            lemma_occupied_count_update(
                old_store.slots@,
                id.index as int,
                NodeSlot { generation: self.slots@[id.index as int].generation, node: None },
            );
        }
        self.len = self.len - 1;
        proof {
            assert forall|i: int| #[trigger] old_store.retired(i) implies self.retired(i) by {
                if i == id.index {
                    assert(old_store.slots@[i].node is Some);
                }
                if self.free@.contains(i as usize) {
                    let k = choose|k: int|
                        0 <= k < self.free@.len() && self.free@[k] == i as usize;
                    if k < old_store.free@.len() {
                        assert(old_store.free@[k] == i as usize);
                    }
                }
            }
            if generation == u64::MAX {
                assert(!self.free@.contains(id.index)) by {
                    if self.free@.contains(id.index) {
                        let k = choose|k: int|
                            0 <= k < self.free@.len() && self.free@[k] == id.index;
                        assert(old_store.slots@[self.free@[k] as int].node is None);
                    }
                }
            }
        }
        taken
    }


    /// Replaces the parent of the node `id` names.
    pub fn set_parent(&mut self, id: LayoutNodeId, parent: Option<LayoutNodeId>)
        requires
            old(self).wf(),
            old(self).contains(id),
        ensures
            final(self).wf(),
            final(self).contains(id),
            final(self).node(id) == (Node { parent, ..old(self).node(id) }),
            old(self).same_except(*final(self), id.slot() as int),
            final(self).spec_len() == old(self).spec_len(),
            final(self).slot_count() == old(self).slot_count(),
            old(self).evolves_to(*final(self)),
    {
        let ghost old_store = *self;
        match &mut self.slots[id.index].node {
            Some(node) => {
                node.parent = parent;
            },
            None => {},
        }
        proof { self.lemma_changed_occupant(old_store, id); }
    }

    /// Replaces the style of the node `id` names.
    pub fn set_style(&mut self, id: LayoutNodeId, style: LayoutStyle)
        requires
            old(self).wf(),
            old(self).contains(id),
        ensures
            final(self).wf(),
            final(self).contains(id),
            final(self).node(id) == (Node { style, ..old(self).node(id) }),
            old(self).same_except(*final(self), id.slot() as int),
            final(self).spec_len() == old(self).spec_len(),
            final(self).slot_count() == old(self).slot_count(),
            old(self).evolves_to(*final(self)),
    {
        let ghost old_store = *self;
        match &mut self.slots[id.index].node {
            Some(node) => {
                node.style = style;
            },
            None => {},
        }
        proof { self.lemma_changed_occupant(old_store, id); }
    }

    /// Replaces the children of the node `id` names and returns the previous ones.
    pub fn swap_children(&mut self, id: LayoutNodeId, children: Vec<LayoutNodeId>) -> (previous:
        Vec<LayoutNodeId>)
        requires
            old(self).wf(),
            old(self).contains(id),
        ensures
            final(self).wf(),
            final(self).contains(id),
            final(self).node(id) == (Node { children, ..old(self).node(id) }),
            previous == old(self).node(id).children,
            old(self).same_except(*final(self), id.slot() as int),
            final(self).spec_len() == old(self).spec_len(),
            final(self).slot_count() == old(self).slot_count(),
            old(self).evolves_to(*final(self)),
    {
        let ghost old_store = *self;
        let mut children = children;
        match &mut self.slots[id.index].node {
            Some(node) => {
                std::mem::swap(&mut node.children, &mut children);
            },
            None => {},
        }
        proof { self.lemma_changed_occupant(old_store, id); }
        children
    }

    proof fn lemma_changed_occupant(self, before: Self, id: LayoutNodeId)
        requires
            before.wf(),
            before.contains(id),
            self.free == before.free,
            self.len == before.len,
            self.slots@.len() == before.slots@.len(),
            self.slots@[id.index as int].generation == before.slots@[id.index as int].generation,
            self.slots@[id.index as int].node is Some,
            forall|i: int|
                0 <= i < self.slots@.len() && i != id.index ==> self.slots@[i]
                    == before.slots@[i],
        ensures
            self.wf(),
            self.contains(id),
            before.same_except(self, id.slot() as int),
            self.spec_len() == before.spec_len(),
            before.evolves_to(self),
    {
        assert(self.slots@ =~= before.slots@.update(id.index as int, self.slots@[id.index as int]));
        lemma_occupied_count_update(before.slots@, id.index as int, self.slots@[id.index as int]);
    }

    /// The ids of all occupants, stamped with `tree`, in slot order.
    pub fn live(&self, tree: u64) -> (live: Vec<LayoutNodeId>)
        ensures
            forall|id: LayoutNodeId| #[trigger]
                live@.contains(id) <==> id.tree_of() == tree && self.contains(id),
            forall|i: int, j: int| 0 <= i < j < live@.len() ==> #[trigger] live@[i] != #[trigger] live@[j],
            forall|i: int, j: int|
                0 <= i < j < live@.len() ==> (#[trigger] live@[i]).slot() < (#[trigger] live@[j]).slot(),
    {
        let mut live: Vec<LayoutNodeId> = Vec::new();
        let mut index: usize = 0;
        while index < self.slots.len()
            invariant
                0 <= index <= self.slots@.len(),
                forall|id: LayoutNodeId| #[trigger]
                    live@.contains(id) <==> id.tree == tree && id.index < index && self.contains(id),
                forall|k: int| 0 <= k < live@.len() ==> #[trigger] live@[k].index < index,
                forall|i: int, j: int| 0 <= i < j < live@.len() ==> #[trigger] live@[i].index < #[trigger] live@[j].index,
            decreases self.slots@.len() - index,
        {
            let ghost previous = live@;
            match &self.slots[index].node {
                Some(_) => {
                    let id = LayoutNodeId { tree, index, generation: self.slots[index].generation };
                    live.push(id);
                    proof {
                        assert forall|other: LayoutNodeId| #[trigger] live@.contains(other) <==> other.tree
                            == tree && other.index < index + 1 && self.contains(other) by {
                            if live@.contains(other) {
                                let k = choose|k: int| 0 <= k < live@.len() && live@[k] == other;
                                if k < previous.len() {
                                    assert(previous.contains(other));
                                }
                            }
                            if other.tree == tree && other.index < index + 1 && self.contains(other) {
                                if other.index == index {
                                    assert(live@[live@.len() - 1] == other);
                                } else {
                                    assert(previous.contains(other));
                                    let k = choose|k: int| 0 <= k < previous.len() && previous[k] == other;
                                    assert(live@[k] == other);
                                }
                            }
                        }
                    }
                },
                None => {
                    proof {
                        assert forall|other: LayoutNodeId| #[trigger] live@.contains(other) <==> other.tree
                            == tree && other.index < index + 1 && self.contains(other) by {
                            if other.index == index {
                                assert(!self.contains(other));
                            }
                        }
                    }
                },
            }
            index += 1;
        }
        proof {
            assert forall|i: int, j: int| 0 <= i < j < live@.len() implies #[trigger] live@[i]
                != #[trigger] live@[j] by {
                assert(live@[i].index < live@[j].index);
            }
        }
        live
    }

    /// Two contained ids of one tree that share a slot are the same id.
    pub proof fn lemma_slot_identifies(self, first: LayoutNodeId, second: LayoutNodeId)
        requires
            self.contains(first),
            self.contains(second),
            first.tree_of() == second.tree_of(),
            first.slot() == second.slot(),
        ensures
            first == second,
    {
    }

    /// Number of occupied slots.
    pub fn len(&self) -> (len: usize)
        requires
            self.wf(),
        ensures
            len == self.spec_len(),
    {
        self.len
    }
}

/// Whether `node` names a node of `nodes` under tree identity `tree`.
pub open spec fn known_in(tree: u64, nodes: NodeStore, node: LayoutNodeId) -> bool {
    node.tree_of() == tree && nodes.contains(node)
}

/// Every child of a node is a distinct node of the tree that names it as parent.
pub open spec fn children_linked(tree: u64, nodes: NodeStore) -> bool {
    &&& forall|node: LayoutNodeId, i: int|
        known_in(tree, nodes, node) && 0 <= i < nodes.node(node).children@.len() ==> {
            &&& known_in(tree, nodes, #[trigger] nodes.node(node).children@[i])
            &&& nodes.node(nodes.node(node).children@[i]).parent == Some(node)
        }
    &&& forall|node: LayoutNodeId, i: int, j: int|
        known_in(tree, nodes, node) && 0 <= i < j < nodes.node(node).children@.len()
            ==> #[trigger] nodes.node(node).children@[i] != #[trigger] nodes.node(
            node,
        ).children@[j]
}

/// Every parent is a node of the tree that lists the child.
pub open spec fn parents_linked(tree: u64, nodes: NodeStore) -> bool {
    forall|node: LayoutNodeId|
        #[trigger] known_in(tree, nodes, node) && nodes.node(node).parent is Some ==> {
            &&& known_in(tree, nodes, nodes.node(node).parent->0)
            &&& nodes.node(nodes.node(node).parent->0).children@.contains(node)
        }
}

/// Membership of `nodes` under tree identity `tree`, as a predicate.
pub open spec fn known_fn(tree: u64, nodes: NodeStore) -> spec_fn(LayoutNodeId) -> bool {
    |node: LayoutNodeId| known_in(tree, nodes, node)
}

/// Parent links of `nodes`, as a function.
pub open spec fn parent_fn(nodes: NodeStore) -> spec_fn(LayoutNodeId) -> Option<LayoutNodeId> {
    |node: LayoutNodeId| nodes.node(node).parent
}

/// A known parent of `node` lists it among its children.
pub open spec fn listed(tree: u64, nodes: NodeStore, node: LayoutNodeId) -> bool {
    match nodes.node(node).parent {
        Some(parent) => known_in(tree, nodes, parent) ==> nodes.node(parent).children@.contains(
            node,
        ),
        None => true,
    }
}

/// `node` is known but its parent is not.
pub open spec fn dangling(tree: u64, nodes: NodeStore, node: LayoutNodeId) -> bool {
    &&& known_in(tree, nodes, node)
    &&& nodes.node(node).parent matches Some(parent) && !known_in(tree, nodes, parent)
}

/// After removals that keep the survivors unchanged and create no dangling
/// node, nothing below a removed node survives.
proof fn lemma_removed_below(
    tree: u64,
    before: NodeStore,
    after: NodeStore,
    top: LayoutNodeId,
    from: LayoutNodeId,
    steps: nat,
)
    requires
        reaches(known_fn(tree, before), parent_fn(before), Some(from), top, steps),
        !known_in(tree, after, top),
        forall|node: LayoutNodeId| #[trigger]
            known_in(tree, after, node) ==> known_in(tree, before, node) && after.node(node)
                == before.node(node),
        forall|node: LayoutNodeId| #[trigger]
            dangling(tree, after, node) ==> dangling(tree, before, node),
    ensures
        !known_in(tree, after, from),
    decreases steps,
{
    if from != top {
        let known = known_fn(tree, before);
        let parent = parent_fn(before);
        assert(known(from));
        assert(parent(from) == before.node(from).parent);
        assert(reaches(known, parent, parent(from), top, (steps - 1) as nat));
        let up = before.node(from).parent->0;
        lemma_removed_below(tree, before, after, top, up, (steps - 1) as nat);
        if known_in(tree, after, from) {
            assert(dangling(tree, after, from));
        }
    }
}

/// Ids of `seq` are pairwise distinct.
pub open spec fn distinct(seq: Seq<LayoutNodeId>) -> bool {
    forall|i: int, j: int| 0 <= i < j < seq.len() ==> #[trigger] seq[i] != #[trigger] seq[j]
}

/// The ids other than `node`.
pub open spec fn other_than(node: LayoutNodeId) -> spec_fn(LayoutNodeId) -> bool {
    |candidate: LayoutNodeId| candidate != node
}

/// Filtering a prefix one element further.
proof fn lemma_filter_prefix_step(seq: Seq<LayoutNodeId>, keep: spec_fn(LayoutNodeId) -> bool, end: int)
    requires
        0 <= end < seq.len(),
    ensures
        seq.subrange(0, end + 1).filter(keep) == if keep(seq[end]) {
            seq.subrange(0, end).filter(keep).push(seq[end])
        } else {
            seq.subrange(0, end).filter(keep)
        },
{
    reveal(Seq::filter);
    assert(seq.subrange(0, end + 1).drop_last() =~= seq.subrange(0, end));
}

/// Filtering keeps exactly the kept elements, and keeps them distinct.
proof fn lemma_filter_members(seq: Seq<LayoutNodeId>, keep: spec_fn(LayoutNodeId) -> bool)
    ensures
        forall|id: LayoutNodeId| #[trigger]
            seq.filter(keep).contains(id) <==> seq.contains(id) && keep(id),
        distinct(seq) ==> distinct(seq.filter(keep)),
    decreases seq.len(),
{
    reveal(Seq::filter);
    broadcast use vstd::seq_lib::group_filter_ensures;

    assert forall|id: LayoutNodeId| #[trigger]
        seq.filter(keep).contains(id) implies seq.contains(id) && keep(id) by {
        seq.lemma_filter_contains_rev(keep, id);
        let i = choose|i: int| 0 <= i < seq.filter(keep).len() && seq.filter(keep)[i] == id;
        seq.lemma_filter_pred(keep, i);
    }
    assert forall|id: LayoutNodeId| seq.contains(id) && keep(id) implies #[trigger] seq.filter(
        keep,
    ).contains(id) by {
        let i = choose|i: int| 0 <= i < seq.len() && seq[i] == id;
        seq.lemma_filter_contains(keep, i);
    }
    if seq.len() > 0 && distinct(seq) {
        let rest = seq.drop_last();
        lemma_filter_members(rest, keep);
        assert(distinct(rest)) by {
            assert forall|i: int, j: int| 0 <= i < j < rest.len() implies #[trigger] rest[i]
                != #[trigger] rest[j] by {
                assert(rest[i] == seq[i] && rest[j] == seq[j]);
            }
        }
        if keep(seq.last()) {
            assert(!rest.contains(seq.last())) by {
                if rest.contains(seq.last()) {
                    let i = choose|i: int| 0 <= i < rest.len() && rest[i] == seq.last();
                    assert(seq[i] == seq[seq.len() - 1]);
                }
            }
            let kept = rest.filter(keep);
            assert(!kept.contains(seq.last()));
            assert forall|i: int, j: int| 0 <= i < j < kept.push(seq.last()).len() implies #[trigger] kept.push(seq.last())[i]
                != #[trigger] kept.push(seq.last())[j] by {
                if j == kept.len() {
                    assert(kept.contains(kept[i]));
                }
            }
        }
    }
}

/// The ids that `excluded` does not contain.
pub open spec fn not_in(excluded: Seq<LayoutNodeId>) -> spec_fn(LayoutNodeId) -> bool {
    |candidate: LayoutNodeId| !excluded.contains(candidate)
}

/// Filtering keeps a sequence whose every element passes.
proof fn lemma_filter_all(seq: Seq<LayoutNodeId>, keep: spec_fn(LayoutNodeId) -> bool)
    requires
        forall|i: int| 0 <= i < seq.len() ==> #[trigger] keep(seq[i]),
    ensures
        seq.filter(keep) == seq,
    decreases seq.len(),
{
    reveal(Seq::filter);
    if seq.len() > 0 {
        let rest = seq.drop_last();
        assert forall|i: int| 0 <= i < rest.len() implies #[trigger] keep(rest[i]) by {
            assert(rest[i] == seq[i]);
        }
        lemma_filter_all(rest, keep);
        assert(keep(seq[seq.len() - 1]));
        assert(rest.push(seq.last()) =~= seq);
    }
}

/// Filtering twice is filtering once by both conditions.
proof fn lemma_filter_twice(
    seq: Seq<LayoutNodeId>,
    first: spec_fn(LayoutNodeId) -> bool,
    second: spec_fn(LayoutNodeId) -> bool,
    both: spec_fn(LayoutNodeId) -> bool,
)
    requires
        forall|id: LayoutNodeId| #[trigger] both(id) == (first(id) && second(id)),
    ensures
        seq.filter(first).filter(second) == seq.filter(both),
    decreases seq.len(),
{
    reveal(Seq::filter);
    if seq.len() > 0 {
        let rest = seq.drop_last();
        let last = seq.last();
        lemma_filter_twice(rest, first, second, both);
        if first(last) {
            assert(rest.filter(first).push(last).drop_last() =~= rest.filter(first));
        }
        assert(both(last) == (first(last) && second(last)));
    }
}

/// A vector holding the ids of `ids` in order.
fn copy_ids(ids: &[LayoutNodeId]) -> (copied: Vec<LayoutNodeId>)
    ensures
        copied@ == ids@,
{
    let mut copied: Vec<LayoutNodeId> = Vec::new();
    let mut index: usize = 0;
    while index < ids.len()
        invariant
            0 <= index <= ids@.len(),
            copied@ == ids@.subrange(0, index as int),
        decreases ids@.len() - index,
    {
        copied.push(ids[index]);
        index += 1;
        proof {
            assert(copied@ =~= ids@.subrange(0, index as int));
        }
    }
    proof {
        assert(ids@.subrange(0, ids@.len() as int) =~= ids@);
    }
    copied
}

/// The ids of `children` other than `node`, in order.
fn without(children: &Vec<LayoutNodeId>, node: LayoutNodeId) -> (kept: Vec<LayoutNodeId>)
    ensures
        kept@ == children@.filter(other_than(node)),
{
    let mut kept: Vec<LayoutNodeId> = Vec::new();
    let mut index: usize = 0;
    while index < children.len()
        invariant
            0 <= index <= children@.len(),
            kept@ == children@.subrange(0, index as int).filter(other_than(node)),
        decreases children@.len() - index,
    {
        proof {
            lemma_filter_prefix_step(children@, other_than(node), index as int);
        }
        let candidate = children[index];
        if candidate != node {
            kept.push(candidate);
        }
        index += 1;
    }
    proof {
        assert(children@.subrange(0, children@.len() as int) =~= children@);
    }
    kept
}

/// Detaching `node` from its parent's child list leaves a tree in which the
/// subtree under `node` can be removed: the same nodes and parent links, no
/// node lists `node`, and every other known parent lists its children.
proof fn lemma_detached(tree: u64, before: NodeStore, mid: NodeStore, node: LayoutNodeId)
    requires
        children_linked(tree, before),
        parents_linked(tree, before),
        acyclic(known_fn(tree, before), parent_fn(before)),
        known_in(tree, before, node),
        forall|other: LayoutNodeId| #[trigger]
            known_in(tree, mid, other) <==> known_in(tree, before, other),
        forall|other: LayoutNodeId| #[trigger]
            known_in(tree, mid, other) ==> mid.node(other) == if before.node(node).parent == Some(
                other,
            ) {
                Node { children: mid.node(other).children, ..before.node(other) }
            } else {
                before.node(other)
            },
        before.node(node).parent matches Some(parent) ==> mid.node(parent).children@
            == before.node(parent).children@.filter(other_than(node)),
    ensures
        children_linked(tree, mid),
        acyclic(known_fn(tree, mid), parent_fn(mid)),
        forall|other: LayoutNodeId| #[trigger]
            known_in(tree, mid, other) && other != node ==> listed(tree, mid, other),
        forall|other: LayoutNodeId| #[trigger]
            known_in(tree, mid, other) ==> !mid.node(other).children@.contains(node),
        forall|other: LayoutNodeId| !#[trigger] dangling(tree, mid, other),
        forall|other: LayoutNodeId, steps: nat| #[trigger]
            reaches(known_fn(tree, mid), parent_fn(mid), Some(other), node, steps) == reaches(
                known_fn(tree, before),
                parent_fn(before),
                Some(other),
                node,
                steps,
            ),
{
    let parent = before.node(node).parent;
    if let Some(up) = parent {
        lemma_filter_members(before.node(up).children@, other_than(node));
    }
    assert forall|other: LayoutNodeId| #[trigger] known_fn(tree, mid)(other) implies known_fn(
        tree,
        before,
    )(other) && parent_fn(mid)(other) == parent_fn(before)(other) by {
        assert(known_in(tree, mid, other));
    }
    assert forall|other: LayoutNodeId| #[trigger] known_fn(tree, before)(other) implies known_fn(
        tree,
        mid,
    )(other) && parent_fn(mid)(other) == parent_fn(before)(other) by {
        assert(known_in(tree, mid, other));
    }
    lemma_acyclic_restrict(known_fn(tree, before), parent_fn(before), known_fn(tree, mid), parent_fn(mid));
    assert forall|other: LayoutNodeId, i: int|
        known_in(tree, mid, other) && 0 <= i < mid.node(other).children@.len() implies {
        &&& known_in(tree, mid, #[trigger] mid.node(other).children@[i])
        &&& mid.node(mid.node(other).children@[i]).parent == Some(other)
    } by {
        let child = mid.node(other).children@[i];
        assert(known_in(tree, before, other));
        if parent == Some(other) {
            assert(mid.node(other).children@.contains(child));
            assert(before.node(other).children@.contains(child));
            let j = choose|j: int|
                0 <= j < before.node(other).children@.len() && before.node(other).children@[j] == child;
            assert(before.node(other).children@[j] == child);
        } else {
            assert(before.node(other).children@[i] == child);
        }
        assert(known_in(tree, before, child));
        assert(known_in(tree, mid, child));
        assert(mid.node(child).parent == before.node(child).parent);
    }
    assert forall|other: LayoutNodeId, i: int, j: int|
        known_in(tree, mid, other) && 0 <= i < j < mid.node(other).children@.len() implies #[trigger] mid.node(
        other,
    ).children@[i] != #[trigger] mid.node(other).children@[j] by {
        assert(known_in(tree, before, other));
        if parent == Some(other) {
            assert(distinct(before.node(other).children@)) by {
                assert forall|a: int, b: int|
                    0 <= a < b < before.node(other).children@.len() implies #[trigger] before.node(
                    other,
                ).children@[a] != #[trigger] before.node(other).children@[b] by {
                    assert(before.node(other).children@[a] != before.node(other).children@[b]);
                }
            }
            assert(distinct(mid.node(other).children@));
        }
    }
    assert forall|other: LayoutNodeId| #[trigger]
        known_in(tree, mid, other) && other != node implies listed(tree, mid, other) by {
        assert(known_in(tree, before, other));
        if before.node(other).parent is Some {
            let up = before.node(other).parent->0;
            assert(before.node(up).children@.contains(other));
            if parent == Some(up) {
                assert(other_than(node)(other));
            }
        }
    }
    assert forall|other: LayoutNodeId| #[trigger]
        known_in(tree, mid, other) implies !mid.node(other).children@.contains(node) by {
        assert(known_in(tree, before, other));
        if mid.node(other).children@.contains(node) && parent != Some(other) {
            let i = choose|i: int|
                0 <= i < before.node(other).children@.len() && before.node(other).children@[i] == node;
            assert(before.node(before.node(other).children@[i]).parent == Some(other));
        }
    }
    assert forall|other: LayoutNodeId| !#[trigger] dangling(tree, mid, other) by {
        if known_in(tree, mid, other) {
            assert(known_in(tree, before, other));
            if before.node(other).parent is Some {
                assert(known_in(tree, before, before.node(other).parent->0));
            }
        }
    }
    assert forall|other: LayoutNodeId, steps: nat| #[trigger]
        reaches(known_fn(tree, mid), parent_fn(mid), Some(other), node, steps) == reaches(
            known_fn(tree, before),
            parent_fn(before),
            Some(other),
            node,
            steps,
        ) by {
        if reaches(known_fn(tree, mid), parent_fn(mid), Some(other), node, steps) {
            lemma_reaches_restrict(
                known_fn(tree, before),
                parent_fn(before),
                known_fn(tree, mid),
                parent_fn(mid),
                Some(other),
                node,
                steps,
            );
        }
        if reaches(known_fn(tree, before), parent_fn(before), Some(other), node, steps) {
            lemma_reaches_restrict(
                known_fn(tree, mid),
                parent_fn(mid),
                known_fn(tree, before),
                parent_fn(before),
                Some(other),
                node,
                steps,
            );
        }
    }
}

/// Draws a nonzero identity for a new tree.
///
/// Identities come from randomly keyed hashing, so two trees share one only
/// with negligible probability.
fn next_tree_id() -> (id: u64)
    ensures
        id != 0,
{
    let id = hash_unit(&random_state());
    if id == 0 {
        1
    } else {
        id
    }
}

/// Mutable tree of layout styles and computed integer geometry.
pub struct LayoutTree {
    tree_id: u64,
    nodes: NodeStore,
    layouts: Vec<Option<ComputedLayout>>,
}

impl LayoutTree {
    /// Whether `node` names a node of this tree.
    pub closed spec fn knows(self, node: LayoutNodeId) -> bool {
        known_in(self.tree_id, self.nodes, node)
    }

    /// Style of a known node.
    pub closed spec fn style_of(self, node: LayoutNodeId) -> LayoutStyle {
        self.nodes.node(node).style
    }

    /// Parent of a known node.
    pub closed spec fn parent_of(self, node: LayoutNodeId) -> Option<LayoutNodeId> {
        self.nodes.node(node).parent
    }

    /// Children of a known node, in order.
    pub closed spec fn children_of(self, node: LayoutNodeId) -> Seq<LayoutNodeId> {
        self.nodes.node(node).children@
    }

    /// Geometry last recorded for a known node.
    pub closed spec fn layout_of(self, node: LayoutNodeId) -> Option<ComputedLayout> {
        if node.index < self.layouts@.len() {
            self.layouts@[node.index as int]
        } else {
            None
        }
    }

    /// Whether both trees hold the same nodes under the same identity.
    pub closed spec fn same_nodes(self, other: Self) -> bool {
        self.tree_id == other.tree_id && self.nodes == other.nodes
    }

    /// Number of nodes in the tree.
    pub closed spec fn node_count(self) -> nat {
        self.nodes.spec_len()
    }

    /// Identity this tree stamps on its node ids.
    pub closed spec fn identity(self) -> u64 {
        self.tree_id
    }

    /// The tree invariant: a well-formed arena with one geometry slot per arena
    /// slot, no nodes before the tree has an identity, and parent and child
    /// links that agree.
    pub closed spec fn wf(self) -> bool {
        &&& self.nodes.wf()
        &&& self.layouts@.len() == self.nodes.slot_count()
        &&& self.tree_id == 0 ==> forall|node: LayoutNodeId| !self.nodes.contains(node)
        &&& children_linked(self.tree_id, self.nodes)
        &&& parents_linked(self.tree_id, self.nodes)
        &&& acyclic(known_fn(self.tree_id, self.nodes), parent_fn(self.nodes))
    }

    /// Whether `ancestor` is `node` itself or one of its ancestors.
    pub closed spec fn descends_from(self, node: Option<LayoutNodeId>, ancestor: LayoutNodeId) -> bool {
        descends(known_fn(self.tree_id, self.nodes), parent_fn(self.nodes), node, ancestor)
    }

    /// What is wrong with the child at `index` of `children`, if anything,
    /// when `children` are to be given to `parent`.
    pub open spec fn child_problem(
        self,
        parent: Option<LayoutNodeId>,
        children: Seq<LayoutNodeId>,
        index: int,
    ) -> Option<LayoutError> {
        let child = children[index];
        if !self.knows(child) {
            Some(LayoutError::UnknownNode(child))
        } else if children.subrange(0, index).contains(child) {
            Some(LayoutError::DuplicateChild(child))
        } else if self.descends_from(parent, child) {
            Some(LayoutError::Cycle(child))
        } else {
            None
        }
    }

    /// The first problem among `children` from `start` on.
    pub open spec fn problem_from(
        self,
        parent: Option<LayoutNodeId>,
        children: Seq<LayoutNodeId>,
        start: int,
    ) -> Option<LayoutError>
        decreases children.len() - start,
    {
        if start < 0 || start >= children.len() {
            None
        } else {
            match self.child_problem(parent, children, start) {
                Some(problem) => Some(problem),
                None => self.problem_from(parent, children, start + 1),
            }
        }
    }

    /// The first problem with giving `children` to `parent`: a child that is
    /// not in the tree, a child listed twice, or a child that is `parent`
    /// itself or one of its ancestors.
    pub open spec fn children_problem(
        self,
        parent: Option<LayoutNodeId>,
        children: Seq<LayoutNodeId>,
    ) -> Option<LayoutError> {
        self.problem_from(parent, children, 0)
    }

    /// Creates an empty layout tree.
    pub fn new() -> (tree: Self)
        ensures
            tree.wf(),
            tree.node_count() == 0,
            forall|node: LayoutNodeId| !tree.knows(node),
    {
        LayoutTree { tree_id: 0, nodes: NodeStore::new(), layouts: Vec::new() }
    }

    /// Returns the number of nodes in the tree.
    pub fn len(&self) -> (len: usize)
        requires
            self.wf(),
        ensures
            len == self.node_count(),
    {
        self.nodes.len()
    }

    fn node(&self, node: LayoutNodeId) -> (found: Result<&Node, LayoutError>)
        ensures
            self.knows(node) ==> found == Ok::<&Node, LayoutError>(&self.nodes.node(node)),
            !self.knows(node) ==> found == Err::<&Node, LayoutError>(LayoutError::UnknownNode(node)),
    {
        if node.tree != self.tree_id {
            return Err(LayoutError::UnknownNode(node));
        }
        match self.nodes.get(node) {
            Some(found) => Ok(found),
            None => Err(LayoutError::UnknownNode(node)),
        }
    }

    /// Adds an unattached node.
    pub fn add(&mut self, style: LayoutStyle) -> (node: LayoutNodeId)
        requires
            old(self).wf(),
        ensures
            final(self).wf(),
            !old(self).knows(node),
            final(self).knows(node),
            final(self).style_of(node) == style,
            final(self).parent_of(node) is None,
            final(self).children_of(node).len() == 0,
            final(self).layout_of(node) is None,
            final(self).node_count() == old(self).node_count() + 1,
            old(self).identity() != 0 ==> final(self).identity() == old(self).identity(),
            forall|other: LayoutNodeId| #[trigger]
                final(self).knows(other) ==> other == node || old(self).knows(other),
            forall|other: LayoutNodeId| #[trigger]
                old(self).knows(other) ==> {
                    &&& final(self).knows(other)
                    &&& other != node
                    &&& final(self).style_of(other) == old(self).style_of(other)
                    &&& final(self).parent_of(other) == old(self).parent_of(other)
                    &&& final(self).children_of(other) == old(self).children_of(other)
                    &&& final(self).layout_of(other) == old(self).layout_of(other)
                },
    {
        let ghost original = *self;
        if self.tree_id == 0 {
            self.tree_id = next_tree_id();
        }
        let ghost before = *self;
        let node = self.nodes.insert(
            self.tree_id,
            Node { style, parent: None, children: Vec::new() },
        );
        if node.index() == self.layouts.len() {
            self.layouts.push(None);
        } else {
            self.layouts.set(node.index(), None);
        }
        proof {
            assert forall|other: LayoutNodeId| #[trigger] before.knows(other) implies {
                &&& self.knows(other)
                &&& other.index != node.index
            } by {
                assert(before.nodes.contains(other));
            }
            assert forall|other: LayoutNodeId| #[trigger]
                self.knows(other) implies other == node || before.knows(other) by {
                if other.index == node.index {
                    assert(other.generation == node.generation);
                }
            }
            let tree = self.tree_id;
            let nodes = self.nodes;
            assert forall|other: LayoutNodeId, i: int|
                known_in(tree, nodes, other) && 0 <= i < nodes.node(other).children@.len() implies {
                &&& known_in(tree, nodes, #[trigger] nodes.node(other).children@[i])
                &&& nodes.node(nodes.node(other).children@[i]).parent == Some(other)
            } by {
                if other != node {
                    assert(before.knows(other));
                    assert(before.knows(before.children_of(other)[i]));
                }
            }
            assert forall|other: LayoutNodeId, i: int, j: int|
                known_in(tree, nodes, other) && 0 <= i < j < nodes.node(other).children@.len()
                implies #[trigger] nodes.node(other).children@[i] != #[trigger] nodes.node(
                other,
            ).children@[j] by {
                if other != node {
                    assert(before.knows(other));
                }
            }
            assert forall|other: LayoutNodeId|
                #[trigger] known_in(tree, nodes, other) && nodes.node(other).parent is Some implies {
                &&& known_in(tree, nodes, nodes.node(other).parent->0)
                &&& nodes.node(nodes.node(other).parent->0).children@.contains(other)
            } by {
                if other != node {
                    assert(before.knows(other));
                    assert(before.knows(before.parent_of(other)->0));
                }
            }
            let known = known_fn(tree, nodes);
            let parent = parent_fn(nodes);
            let old_known = known_fn(before.tree_id, before.nodes);
            let old_parent = parent_fn(before.nodes);
            assert forall|other: LayoutNodeId| #[trigger] old_known(other) implies known(other) && parent(
                other,
            ) == old_parent(other) by {
                assert(before.knows(other));
            }
            assert forall|other: LayoutNodeId| #[trigger] known(other) implies exists|steps: nat| #[trigger]
                ends(known, parent, Some(other), steps) by {
                if other == node {
                    assert(parent(node) is None);
                    assert(ends(known, parent, None, 0));
                    assert(ends(known, parent, Some(other), 1));
                } else {
                    assert(old_known(other));
                    assert(original.tree_id == before.tree_id);
                    assert(known_fn(original.tree_id, original.nodes)(other));
                    let steps = choose|steps: nat| #[trigger] ends(old_known, old_parent, Some(other), steps);
                    lemma_ends_extend(old_known, old_parent, known, parent, Some(other), steps);
                }
            }
        }
        node
    }

    /// Removes every node and computed layout. Ids issued before are rejected afterwards.
    pub fn clear(&mut self)
        requires
            old(self).wf(),
        ensures
            final(self).wf(),
            final(self).node_count() == 0,
            forall|node: LayoutNodeId| !final(self).knows(node),
            final(self).identity() != 0,
    {
        self.tree_id = next_tree_id();
        self.nodes = NodeStore::new();
        self.layouts = Vec::new();
    }

    /// Parent of `node` once the nodes of `moved` hang under `parent` and the
    /// nodes of `cut` are detached.
    pub open spec fn relinked_parent(
        self,
        parent: LayoutNodeId,
        moved: Seq<LayoutNodeId>,
        cut: Seq<LayoutNodeId>,
        node: LayoutNodeId,
    ) -> Option<LayoutNodeId> {
        if moved.contains(node) {
            Some(parent)
        } else if cut.contains(node) {
            None
        } else {
            self.parent_of(node)
        }
    }

    /// Whether `ancestor` is `node` or above it once `children` hang under
    /// `parent` and the former children of `parent` are detached.
    pub closed spec fn relinked_descends(
        self,
        parent: LayoutNodeId,
        children: Seq<LayoutNodeId>,
        node: LayoutNodeId,
        ancestor: LayoutNodeId,
    ) -> bool {
        descends(
            known_fn(self.tree_id, self.nodes),
            |other: LayoutNodeId| self.relinked_parent(parent, children, self.children_of(parent), other),
            Some(node),
            ancestor,
        )
    }

    /// Whether giving `children` to `parent` removes `node`: after re-linking
    /// it hangs below a former child of `parent` that is not given back.
    pub open spec fn pruned(self, parent: LayoutNodeId, children: Seq<LayoutNodeId>, node: LayoutNodeId) -> bool {
        exists|detached: LayoutNodeId|
            #![trigger self.relinked_descends(parent, children, node, detached)]
            self.children_of(parent).contains(detached) && !children.contains(detached)
                && self.relinked_descends(parent, children, node, detached)
    }

    /// `self` is `before` after `parent` was given `children`: the children
    /// hang under `parent` in the given order, other nodes no longer list
    /// them, the former children of `parent` that were not given back are
    /// removed with everything that hangs below them, and no geometry remains.
    pub open spec fn relinks(self, before: Self, parent: LayoutNodeId, children: Seq<LayoutNodeId>) -> bool {
        &&& self.identity() == before.identity()
        &&& forall|node: LayoutNodeId| #[trigger]
            self.knows(node) <==> before.knows(node) && !before.pruned(parent, children, node)
        &&& forall|node: LayoutNodeId| #[trigger]
            self.knows(node) ==> {
                &&& self.style_of(node) == before.style_of(node)
                &&& self.parent_of(node) == before.relinked_parent(
                    parent,
                    children,
                    before.children_of(parent),
                    node,
                )
                &&& self.children_of(node) == if node == parent {
                    children
                } else {
                    before.children_of(node).filter(not_in(children))
                }
            }
        &&& forall|node: LayoutNodeId| #[trigger] self.layout_of(node) is None
    }

    /// Halfway through re-linking: the nodes and styles of `before`, the nodes
    /// of `moved` under `parent`, the nodes of `cut` detached, `parent`
    /// listing `own`, and every other node listing its former children that
    /// were not moved.
    spec fn staged(
        self,
        before: Self,
        parent: LayoutNodeId,
        moved: Seq<LayoutNodeId>,
        cut: Seq<LayoutNodeId>,
        own: Seq<LayoutNodeId>,
    ) -> bool {
        &&& self.tree_id == before.tree_id
        &&& self.nodes.wf()
        &&& self.nodes.slot_count() == before.nodes.slot_count()
        &&& self.layouts@.len() == self.nodes.slot_count()
        &&& forall|node: LayoutNodeId| #[trigger] self.knows(node) <==> before.knows(node)
        &&& forall|node: LayoutNodeId| #[trigger]
            self.knows(node) ==> {
                &&& self.style_of(node) == before.style_of(node)
                &&& self.parent_of(node) == before.relinked_parent(parent, moved, cut, node)
                &&& self.children_of(node) == if node == parent {
                    own
                } else {
                    before.children_of(node).filter(not_in(moved))
                }
            }
    }

    /// A store operation on the known node `id` leaves every other node as it was.
    proof fn lemma_one_changed(self, later: Self, id: LayoutNodeId)
        requires
            self.knows(id),
            later.tree_id == self.tree_id,
            later.nodes.contains(id),
            self.nodes.same_except(later.nodes, id.slot() as int),
        ensures
            forall|node: LayoutNodeId| #[trigger] later.knows(node) <==> self.knows(node),
            forall|node: LayoutNodeId| #[trigger]
                later.knows(node) && node != id ==> later.nodes.node(node) == self.nodes.node(node),
    {
        assert forall|node: LayoutNodeId| #[trigger] later.knows(node) <==> self.knows(node) by {
            if node.slot() == id.slot() {
                if later.knows(node) {
                    later.nodes.lemma_slot_identifies(node, id);
                }
                if self.knows(node) {
                    self.nodes.lemma_slot_identifies(node, id);
                }
            }
        }
        assert forall|node: LayoutNodeId| #[trigger]
            later.knows(node) && node != id implies later.nodes.node(node) == self.nodes.node(node) by {
            if node.slot() == id.slot() {
                later.nodes.lemma_slot_identifies(node, id);
            }
        }
    }

    /// Once every child is moved and every former child cut, the tree
    /// invariant holds again.
    proof fn lemma_relinked_wf(self, before: Self, parent: LayoutNodeId, children: Seq<LayoutNodeId>)
        requires
            before.wf(),
            before.knows(parent),
            before.children_problem(Some(parent), children) is None,
            self.staged(before, parent, children, before.children_of(parent), children),
        ensures
            self.wf(),
    {
        before.lemma_valid_children(Some(parent), children);
        let tree = self.tree_id;
        let nodes = self.nodes;
        let former = before.children_of(parent);
        assert forall|node: LayoutNodeId| #[trigger] former.contains(node) implies before.knows(node)
            && before.parent_of(node) == Some(parent) by {
            let k = choose|k: int| 0 <= k < former.len() && former[k] == node;
            assert(before.nodes.node(before.nodes.node(parent).children@[k]).parent == Some(parent));
        }
        assert forall|node: LayoutNodeId, i: int|
            known_in(tree, nodes, node) && 0 <= i < nodes.node(node).children@.len() implies {
            &&& known_in(tree, nodes, #[trigger] nodes.node(node).children@[i])
            &&& nodes.node(nodes.node(node).children@[i]).parent == Some(node)
        } by {
            assert(self.knows(node));
            let child = self.children_of(node)[i];
            if node == parent {
                assert(children[i] == child);
                assert(children.contains(child));
            } else {
                lemma_filter_members(before.children_of(node), not_in(children));
                assert(self.children_of(node).contains(child));
                assert(before.children_of(node).contains(child));
                let j = choose|j: int|
                    0 <= j < before.children_of(node).len() && before.children_of(node)[j] == child;
                assert(before.nodes.node(before.nodes.node(node).children@[j]).parent == Some(node));
                assert(before.knows(child));
                assert(!former.contains(child));
            }
            assert(self.knows(child));
        }
        assert forall|node: LayoutNodeId, i: int, j: int|
            known_in(tree, nodes, node) && 0 <= i < j < nodes.node(node).children@.len()
            implies #[trigger] nodes.node(node).children@[i] != #[trigger] nodes.node(
            node,
        ).children@[j] by {
            assert(self.knows(node));
            if node != parent {
                assert(distinct(before.children_of(node))) by {
                    assert forall|a: int, b: int| 0 <= a < b < before.children_of(node).len() implies #[trigger] before.children_of(node)[a]
                        != #[trigger] before.children_of(node)[b] by {
                        assert(before.nodes.node(node).children@[a] != before.nodes.node(node).children@[b]);
                    }
                }
                lemma_filter_members(before.children_of(node), not_in(children));
                assert(distinct(self.children_of(node)));
            }
        }
        assert forall|node: LayoutNodeId|
            #[trigger] known_in(tree, nodes, node) && nodes.node(node).parent is Some implies {
            &&& known_in(tree, nodes, nodes.node(node).parent->0)
            &&& nodes.node(nodes.node(node).parent->0).children@.contains(node)
        } by {
            assert(self.knows(node));
            if children.contains(node) {
                assert(self.knows(parent));
                assert(self.children_of(parent) == children);
            } else if former.contains(node) {
                assert(self.parent_of(node) is None);
            } else {
                let up = before.parent_of(node)->0;
                assert(before.knows(up));
                assert(before.children_of(up).contains(node));
                assert(up != parent);
                lemma_filter_members(before.children_of(up), not_in(children));
                assert(self.knows(up));
            }
        }
        let old_known = known_fn(before.tree_id, before.nodes);
        let moved = |node: LayoutNodeId| children.contains(node);
        let cut = |node: LayoutNodeId| former.contains(node);
        assert forall|node: LayoutNodeId| #[trigger] moved(node) implies !descends(
            old_known,
            parent_fn(before.nodes),
            Some(parent),
            node,
        ) by {
            assert(!before.descends_from(Some(parent), node));
        }
        assert forall|node: LayoutNodeId| #[trigger] old_known(node) implies parent_fn(nodes)(node)
            == if moved(node) {
            Some(parent)
        } else if cut(node) {
            None
        } else {
            parent_fn(before.nodes)(node)
        } by {
            assert(self.knows(node));
        }
        lemma_relink_acyclic(old_known, parent_fn(before.nodes), parent_fn(nodes), moved, cut, parent);
        assert forall|node: LayoutNodeId| #[trigger] known_fn(tree, nodes)(node) implies old_known(node)
            && parent_fn(nodes)(node) == parent_fn(nodes)(node) by {
            assert(self.knows(node));
        }
        lemma_acyclic_restrict(old_known, parent_fn(nodes), known_fn(tree, nodes), parent_fn(nodes));
    }

    /// In the fully re-linked state, ancestry is the re-linked ancestry of `before`.
    proof fn lemma_relinked_ancestry(self, before: Self, parent: LayoutNodeId, children: Seq<LayoutNodeId>)
        requires
            self.staged(before, parent, children, before.children_of(parent), children),
        ensures
            forall|node: LayoutNodeId, ancestor: LayoutNodeId| #[trigger]
                self.descends_from(Some(node), ancestor) == before.relinked_descends(
                    parent,
                    children,
                    node,
                    ancestor,
                ),
    {
        let known = known_fn(self.tree_id, self.nodes);
        let old_known = known_fn(before.tree_id, before.nodes);
        let relinked = |other: LayoutNodeId|
            before.relinked_parent(parent, children, before.children_of(parent), other);
        assert forall|node: LayoutNodeId| #[trigger] known(node) implies old_known(node) && parent_fn(
            self.nodes,
        )(node) == relinked(node) by {
            assert(self.knows(node));
        }
        assert forall|node: LayoutNodeId| #[trigger] old_known(node) implies known(node) && relinked(
            node,
        ) == parent_fn(self.nodes)(node) by {
            assert(before.knows(node));
            assert(self.knows(node));
        }
        assert forall|node: LayoutNodeId, ancestor: LayoutNodeId| #[trigger]
            self.descends_from(Some(node), ancestor) == before.relinked_descends(
                parent,
                children,
                node,
                ancestor,
            ) by {
            if self.descends_from(Some(node), ancestor) {
                let steps = choose|steps: nat| #[trigger]
                    reaches(known, parent_fn(self.nodes), Some(node), ancestor, steps);
                lemma_reaches_restrict(
                    old_known,
                    relinked,
                    known,
                    parent_fn(self.nodes),
                    Some(node),
                    ancestor,
                    steps,
                );
                assert(reaches(old_known, relinked, Some(node), ancestor, steps));
            }
            if before.relinked_descends(parent, children, node, ancestor) {
                let steps = choose|steps: nat| #[trigger]
                    reaches(old_known, relinked, Some(node), ancestor, steps);
                lemma_reaches_restrict(
                    known,
                    parent_fn(self.nodes),
                    old_known,
                    relinked,
                    Some(node),
                    ancestor,
                    steps,
                );
            }
        }
    }

    /// Pruning a detached node from a re-linked tree removes exactly the nodes
    /// that hang below it in the re-linked tree.
    proof fn lemma_pruned_step(self, current: Self, relinked: Self, detached: LayoutNodeId)
        requires
            current.wf(),
            self.tree_id == current.tree_id,
            current.tree_id == relinked.tree_id,
            forall|node: LayoutNodeId| #[trigger]
                current.knows(node) ==> relinked.knows(node) && current.nodes.node(node)
                    == relinked.nodes.node(node),
            current.knows(detached),
            forall|node: LayoutNodeId| #[trigger]
                known_in(current.tree_id, current.nodes, node) ==> (known_in(
                    self.tree_id,
                    self.nodes,
                    node,
                ) <==> !current.descends_from(Some(node), detached)),
            forall|node: LayoutNodeId| #[trigger]
                known_in(self.tree_id, self.nodes, node) ==> known_in(
                    current.tree_id,
                    current.nodes,
                    node,
                ),
        ensures
            forall|node: LayoutNodeId| #[trigger]
                current.knows(node) ==> (current.descends_from(Some(node), detached)
                    == relinked.descends_from(Some(node), detached)),
            forall|node: LayoutNodeId| #[trigger]
                self.knows(node) <==> current.knows(node) && !relinked.descends_from(
                    Some(node),
                    detached,
                ),
    {
        let known = known_fn(current.tree_id, current.nodes);
        let parent = parent_fn(current.nodes);
        let wide = known_fn(relinked.tree_id, relinked.nodes);
        let wide_parent = parent_fn(relinked.nodes);
        assert forall|node: LayoutNodeId| #[trigger] known(node) implies wide(node) && parent(node)
            == wide_parent(node) by {
            assert(current.knows(node));
        }
        assert forall|node: LayoutNodeId| #[trigger] known(node) && parent(node) is Some implies known(
            parent(node)->0,
        ) by {
            assert(current.knows(node));
        }
        assert forall|node: LayoutNodeId| #[trigger]
            current.knows(node) implies (current.descends_from(Some(node), detached)
            == relinked.descends_from(Some(node), detached)) by {
            if current.descends_from(Some(node), detached) {
                let steps = choose|steps: nat| #[trigger] reaches(known, parent, Some(node), detached, steps);
                lemma_reaches_restrict(wide, wide_parent, known, parent, Some(node), detached, steps);
            }
            if relinked.descends_from(Some(node), detached) {
                let steps = choose|steps: nat| #[trigger] reaches(wide, wide_parent, Some(node), detached, steps);
                lemma_reaches_closed(wide, wide_parent, known, parent, Some(node), detached, steps);
            }
        }
        assert forall|node: LayoutNodeId| #[trigger]
            self.knows(node) <==> current.knows(node) && !relinked.descends_from(Some(node), detached) by {
            if current.knows(node) {
                assert(known_in(current.tree_id, current.nodes, node));
            }
            if self.knows(node) {
                assert(known_in(self.tree_id, self.nodes, node));
            }
        }
    }

    /// One more former child handled while pruning: the surviving nodes are
    /// those below none of the detached former children seen so far.
    proof fn lemma_prune_progress(
        self,
        current: Self,
        relinked: Self,
        before: Self,
        parent: LayoutNodeId,
        children: Seq<LayoutNodeId>,
        former: Seq<LayoutNodeId>,
        index: int,
        detached: bool,
    )
        requires
            before.wf(),
            relinked.staged(before, parent, children, former, children),
            former == before.children_of(parent),
            distinct(former),
            0 <= index < former.len(),
            relinked.knows(former[index]),
            detached == (current.knows(former[index]) && current.parent_of(former[index]) is None),
            forall|node: LayoutNodeId| #[trigger]
                current.knows(node) <==> relinked.knows(node) && !exists|k: int|
                    0 <= k < index && !children.contains(former[k])
                        && #[trigger] relinked.descends_from(Some(node), former[k]),
            forall|node: LayoutNodeId| #[trigger]
                current.knows(node) ==> current.nodes.node(node) == relinked.nodes.node(node),
            detached ==> forall|node: LayoutNodeId| #[trigger]
                self.knows(node) <==> current.knows(node) && !relinked.descends_from(
                    Some(node),
                    former[index],
                ),
            detached ==> forall|node: LayoutNodeId| #[trigger]
                self.knows(node) ==> self.nodes.node(node) == current.nodes.node(node),
            !detached ==> self == current,
        ensures
            forall|node: LayoutNodeId| #[trigger]
                self.knows(node) <==> relinked.knows(node) && !exists|k: int|
                    0 <= k < index + 1 && !children.contains(former[k])
                        && #[trigger] relinked.descends_from(Some(node), former[k]),
            forall|node: LayoutNodeId| #[trigger]
                self.knows(node) ==> self.nodes.node(node) == relinked.nodes.node(node),
    {
        let child = former[index];
        if !children.contains(child) {
            assert(former.contains(child));
            assert(relinked.parent_of(child) is None);
            assert(!detached ==> current.knows(child) == false) by {
                if current.knows(child) {
                    assert(current.parent_of(child) is None);
                }
            }
            assert(current.knows(child)) by {
                assert forall|k: int|
                    0 <= k < index && !children.contains(former[k]) implies !#[trigger] relinked.descends_from(
                    Some(child),
                    former[k],
                ) by {
                    if relinked.descends_from(Some(child), former[k]) {
                        relinked.lemma_root_descends(child, former[k]);
                        assert(former[k] != former[index]);
                    }
                }
            }
        }
        assert forall|node: LayoutNodeId| #[trigger]
            self.knows(node) <==> relinked.knows(node) && !exists|k: int|
                0 <= k < index + 1 && !children.contains(former[k])
                    && #[trigger] relinked.descends_from(Some(node), former[k]) by {
            if exists|k: int|
                0 <= k < index + 1 && !children.contains(former[k])
                    && #[trigger] relinked.descends_from(Some(node), former[k]) {
                let k = choose|k: int|
                    0 <= k < index + 1 && !children.contains(former[k])
                        && #[trigger] relinked.descends_from(Some(node), former[k]);
                if k == index {
                    if current.knows(node) {
                        assert(detached);
                    }
                }
            }
        }
    }

    /// A known node without a parent has no ancestor but itself.
    proof fn lemma_root_descends(self, root: LayoutNodeId, ancestor: LayoutNodeId)
        requires
            self.knows(root),
            self.parent_of(root) is None,
            self.descends_from(Some(root), ancestor),
        ensures
            ancestor == root,
    {
        let steps = choose|steps: nat| #[trigger] reaches(
            known_fn(self.tree_id, self.nodes),
            parent_fn(self.nodes),
            Some(root),
            ancestor,
            steps,
        );
        if root != ancestor {
            assert(reaches(
                known_fn(self.tree_id, self.nodes),
                parent_fn(self.nodes),
                None,
                ancestor,
                (steps - 1) as nat,
            ));
        }
    }

    /// When no child has a problem, the list has none.
    proof fn lemma_problem_free(
        self,
        parent: Option<LayoutNodeId>,
        children: Seq<LayoutNodeId>,
        start: int,
    )
        requires
            0 <= start,
            forall|index: int|
                start <= index < children.len() ==> #[trigger] self.child_problem(
                    parent,
                    children,
                    index,
                ) is None,
        ensures
            self.problem_from(parent, children, start) is None,
        decreases children.len() - start,
    {
        if start < children.len() {
            self.lemma_problem_free(parent, children, start + 1);
        }
    }

    /// In a layout tree, parent and child links agree: every child of a node
    /// names it as parent, and a node's parent lists it among its children.
    pub proof fn lemma_links_agree(self, node: LayoutNodeId)
        requires
            self.wf(),
            self.knows(node),
        ensures
            forall|child: LayoutNodeId| #[trigger]
                self.children_of(node).contains(child) ==> self.knows(child) && self.parent_of(child)
                    == Some(node),
            self.parent_of(node) matches Some(parent) ==> self.knows(parent) && self.children_of(
                parent,
            ).contains(node),
    {
        assert forall|child: LayoutNodeId| #[trigger]
            self.children_of(node).contains(child) implies self.knows(child) && self.parent_of(child)
            == Some(node) by {
            let k = choose|k: int| 0 <= k < self.children_of(node).len() && self.children_of(node)[k] == child;
            assert(self.nodes.node(self.nodes.node(node).children@[k]).parent == Some(node));
        }
    }

    /// A layout tree has no cycle: no child is its parent or an ancestor of it.
    pub proof fn lemma_no_cycle(self, parent: LayoutNodeId, child: LayoutNodeId)
        requires
            self.wf(),
            self.knows(child),
            self.parent_of(child) == Some(parent),
        ensures
            !self.descends_from(Some(parent), child),
    {
        let known = known_fn(self.tree_id, self.nodes);
        let parents = parent_fn(self.nodes);
        assert(known(child));
        assert(known(parent));
        let steps = choose|steps: nat| #[trigger] ends(known, parents, Some(parent), steps);
        if self.descends_from(Some(parent), child) {
            let depth = choose|depth: nat| #[trigger] reaches(known, parents, Some(parent), child, depth);
            lemma_cycle_never_ends(known, parents, parent, child, depth, steps);
        }
    }

    /// Ancestry one link at a time: nothing descends through an absent
    /// parent, an unknown node has no ancestors, and a known node has itself
    /// and exactly the ancestors of its parent as ancestors.
    pub proof fn lemma_descends_unfold(self, node: Option<LayoutNodeId>, ancestor: LayoutNodeId)
        ensures
            self.descends_from(node, ancestor) <==> match node {
                None => false,
                Some(below) => self.knows(below) && (below == ancestor || self.descends_from(
                    self.parent_of(below),
                    ancestor,
                )),
            },
    {
        let known = known_fn(self.tree_id, self.nodes);
        let parents = parent_fn(self.nodes);
        match node {
            None => {
                if self.descends_from(node, ancestor) {
                    let steps = choose|steps: nat| #[trigger] reaches(known, parents, node, ancestor, steps);
                    assert(!reaches(known, parents, node, ancestor, steps));
                }
            },
            Some(below) => {
                if self.descends_from(node, ancestor) {
                    let steps = choose|steps: nat| #[trigger] reaches(known, parents, node, ancestor, steps);
                    assert(known(below));
                }
                if self.knows(below) {
                    assert(known(below));
                    if below == ancestor {
                        assert(reaches(known, parents, node, ancestor, 0));
                    } else {
                        lemma_descends_step(known, parents, below, ancestor);
                    }
                }
            },
        }
    }

    /// Ancestry after `parent` is given `children`, one link at a time: a
    /// known node has itself and exactly the ancestors of its relinked parent
    /// as ancestors; an unknown node has none.
    pub proof fn lemma_relinked_descends_unfold(
        self,
        parent: LayoutNodeId,
        children: Seq<LayoutNodeId>,
        node: LayoutNodeId,
        ancestor: LayoutNodeId,
    )
        ensures
            self.relinked_descends(parent, children, node, ancestor) <==> self.knows(node) && (node
                == ancestor || match self.relinked_parent(parent, children, self.children_of(parent), node) {
                None => false,
                Some(up) => self.relinked_descends(parent, children, up, ancestor),
            }),
    {
        let known = known_fn(self.tree_id, self.nodes);
        let parents = |other: LayoutNodeId|
            self.relinked_parent(parent, children, self.children_of(parent), other);
        if self.relinked_descends(parent, children, node, ancestor) {
            let steps = choose|steps: nat| #[trigger] reaches(known, parents, Some(node), ancestor, steps);
            assert(known(node));
        }
        if self.knows(node) {
            assert(known(node));
            if node == ancestor {
                assert(reaches(known, parents, Some(node), ancestor, 0));
            } else {
                lemma_descends_step(known, parents, node, ancestor);
                match self.relinked_parent(parent, children, self.children_of(parent), node) {
                    None => {
                        if descends(known, parents, None, ancestor) {
                            let steps = choose|steps: nat| #[trigger] reaches(known, parents, None, ancestor, steps);
                            assert(!reaches(known, parents, None, ancestor, steps));
                        }
                    },
                    Some(up) => {},
                }
            }
        }
    }

    /// Without a problem from `start` on, no child from `start` on has one.
    proof fn lemma_no_problem(
        self,
        parent: Option<LayoutNodeId>,
        children: Seq<LayoutNodeId>,
        start: int,
    )
        requires
            0 <= start,
            self.problem_from(parent, children, start) is None,
        ensures
            forall|index: int|
                start <= index < children.len() ==> #[trigger] self.child_problem(
                    parent,
                    children,
                    index,
                ) is None,
        decreases children.len() - start,
    {
        if start < children.len() {
            self.lemma_no_problem(parent, children, start + 1);
        }
    }

    /// Children without a problem are known, distinct, and not above `parent`.
    proof fn lemma_valid_children(self, parent: Option<LayoutNodeId>, children: Seq<LayoutNodeId>)
        requires
            self.children_problem(parent, children) is None,
        ensures
            distinct(children),
            forall|index: int|
                0 <= index < children.len() ==> self.knows(#[trigger] children[index])
                    && !self.descends_from(parent, children[index]),
            forall|child: LayoutNodeId| #[trigger]
                children.contains(child) ==> self.knows(child) && !self.descends_from(
                    parent,
                    child,
                ),
    {
        self.lemma_no_problem(parent, children, 0);
        assert forall|i: int, j: int| 0 <= i < j < children.len() implies #[trigger] children[i]
            != #[trigger] children[j] by {
            assert(self.child_problem(parent, children, j) is None);
            assert(children.subrange(0, j)[i] == children[i]);
        }
        assert forall|index: int| 0 <= index < children.len() implies self.knows(
            #[trigger] children[index],
        ) && !self.descends_from(parent, children[index]) by {
            assert(self.child_problem(parent, children, index) is None);
        }
    }

    /// Whether following parent links up from `from` meets `target`.
    fn has_ancestor(&self, from: Option<LayoutNodeId>, target: LayoutNodeId) -> (found: bool)
        requires
            self.wf(),
            from matches Some(start) ==> self.knows(start),
        ensures
            found == self.descends_from(from, target),
    {
        let ghost known = known_fn(self.tree_id, self.nodes);
        let ghost parent = parent_fn(self.nodes);
        let mut ancestor = from;
        let ghost mut fuel: nat = match from {
            Some(start) => choose|steps: nat| #[trigger] ends(known, parent, Some(start), steps),
            None => 0,
        };
        proof {
            if let Some(start) = from {
                assert(known(start));
            }
        }
        loop
            invariant
                self.wf(),
                known == known_fn(self.tree_id, self.nodes),
                parent == parent_fn(self.nodes),
                ancestor matches Some(node) ==> self.knows(node),
                ends(known, parent, ancestor, fuel),
                self.descends_from(from, target) == self.descends_from(ancestor, target),
            decreases fuel,
        {
            match ancestor {
                None => {
                    return false;
                },
                Some(node) => {
                    if node == target {
                        proof {
                            assert(reaches(known, parent, ancestor, target, 0));
                        }
                        return true;
                    }
                    let up = match self.node(node) {
                        Ok(found) => found.parent,
                        Err(_) => {
                            return false;
                        },
                    };
                    proof {
                        assert(known(node));
                        lemma_descends_step(known, parent, node, target);
                        assert(parent(node) == up);
                        fuel = (fuel - 1) as nat;
                        if let Some(next) = up {
                            assert(self.knows(next));
                        }
                    }
                    ancestor = up;
                },
            }
        }
    }

    /// Checks that `children` can be given to `parent`, reporting the first problem.
    fn validate_children(&self, parent: Option<LayoutNodeId>, children: &[LayoutNodeId]) -> (result:
        Result<(), LayoutError>)
        requires
            self.wf(),
            parent matches Some(node) ==> self.knows(node),
        ensures
            result == match self.children_problem(parent, children@) {
                Some(problem) => Err(problem),
                None => Ok::<(), LayoutError>(()),
            },
    {
        let mut index: usize = 0;
        while index < children.len()
            invariant
                self.wf(),
                parent matches Some(node) ==> self.knows(node),
                0 <= index <= children@.len(),
                self.children_problem(parent, children@) == self.problem_from(
                    parent,
                    children@,
                    index as int,
                ),
            decreases children@.len() - index,
        {
            let child = children[index];
            match self.node(child) {
                Ok(_) => {},
                Err(error) => {
                    return Err(error);
                },
            }
            let mut earlier: usize = 0;
            while earlier < index
                invariant
                    self.wf(),
                    self.knows(child),
                    self.children_problem(parent, children@) == self.problem_from(
                        parent,
                        children@,
                        index as int,
                    ),
                    0 <= earlier <= index < children@.len(),
                    child == children@[index as int],
                    forall|k: int| 0 <= k < earlier ==> children@[k] != child,
                decreases index - earlier,
            {
                if children[earlier] == child {
                    proof {
                        assert(children@.subrange(0, index as int)[earlier as int] == child);
                        assert(children@.subrange(0, index as int).contains(child));
                        assert(self.knows(child));
                        assert(self.child_problem(parent, children@, index as int) == Some(
                            LayoutError::DuplicateChild(child),
                        ));
                    }
                    return Err(LayoutError::DuplicateChild(child));
                }
                earlier += 1;
            }
            proof {
                assert(!children@.subrange(0, index as int).contains(child)) by {
                    if children@.subrange(0, index as int).contains(child) {
                        let k = choose|k: int| 0 <= k < index && children@.subrange(0, index as int)[k] == child;
                        assert(children@[k] == child);
                    }
                }
            }
            if self.has_ancestor(parent, child) {
                return Err(LayoutError::Cycle(child));
            }
            index += 1;
        }
        Ok(())
    }

    /// Replaces a node's children, reparenting them when necessary.
    ///
    /// The children are taken from their former parents; former children of
    /// `parent` that are not given back are removed with their subtrees.
    pub fn set_children(&mut self, parent: LayoutNodeId, children: &[LayoutNodeId]) -> (result:
        Result<(), LayoutError>)
        requires
            old(self).wf(),
        ensures
            final(self).wf(),
            !old(self).knows(parent) ==> result == Err::<(), LayoutError>(
                LayoutError::UnknownNode(parent),
            ) && *final(self) == *old(self),
            old(self).knows(parent) ==> match old(self).children_problem(Some(parent), children@) {
                Some(problem) => result == Err::<(), LayoutError>(problem) && *final(self) == *old(
                    self,
                ),
                None => result is Ok && final(self).relinks(*old(self), parent, children@),
            },
    {
        match self.node(parent) {
            Ok(_) => {},
            Err(error) => {
                return Err(error);
            },
        }
        match self.validate_children(Some(parent), children) {
            Ok(()) => {},
            Err(error) => {
                return Err(error);
            },
        }
        self.replace_children(parent, children);
        Ok(())
    }

    /// Adds a node and assigns its children.
    ///
    /// On failure the tree is left unchanged.
    pub fn add_with_children(&mut self, style: LayoutStyle, children: &[LayoutNodeId]) -> (result:
        Result<LayoutNodeId, LayoutError>)
        requires
            old(self).wf(),
        ensures
            final(self).wf(),
            match old(self).children_problem(None, children@) {
                Some(problem) => result == Err::<LayoutNodeId, LayoutError>(problem) && *final(self)
                    == *old(self),
                None => result matches Ok(node) && {
                    &&& !old(self).knows(node)
                    &&& final(self).knows(node)
                    &&& final(self).style_of(node) == style
                    &&& final(self).parent_of(node) is None
                    &&& final(self).children_of(node) == children@
                    &&& old(self).identity() != 0 ==> final(self).identity() == old(self).identity()
                    &&& forall|other: LayoutNodeId| #[trigger]
                        final(self).knows(other) <==> other == node || old(self).knows(other)
                    &&& forall|other: LayoutNodeId| #[trigger]
                        old(self).knows(other) ==> {
                            &&& final(self).style_of(other) == old(self).style_of(other)
                            &&& final(self).parent_of(other) == if children@.contains(other) {
                                Some(node)
                            } else {
                                old(self).parent_of(other)
                            }
                            &&& final(self).children_of(other) == old(self).children_of(
                                other,
                            ).filter(not_in(children@))
                        }
                    &&& forall|other: LayoutNodeId| #[trigger] final(self).layout_of(other) is None
                },
            },
    {
        match self.validate_children(None, children) {
            Ok(()) => {},
            Err(error) => {
                return Err(error);
            },
        }
        let ghost before = *self;
        let node = self.add(style);
        let ghost added = *self;
        proof {
            before.lemma_valid_children(None, children@);
            assert forall|index: int| 0 <= index < children@.len() implies #[trigger] added.child_problem(
                Some(node),
                children@,
                index,
            ) is None by {
                let child = children@[index];
                assert(before.knows(child));
                assert(!children@.subrange(0, index).contains(child)) by {
                    if children@.subrange(0, index).contains(child) {
                        let k = choose|k: int| 0 <= k < index && children@.subrange(0, index)[k] == child;
                        assert(children@[k] == children@[index]);
                    }
                }
                if added.descends_from(Some(node), child) {
                    added.lemma_root_descends(node, child);
                }
            }
            added.lemma_problem_free(Some(node), children@, 0);
        }
        self.replace_children(node, children);
        proof {
            assert(added.children_of(node) == Seq::<LayoutNodeId>::empty());
            assert forall|other: LayoutNodeId| !#[trigger] added.pruned(node, children@, other) by {}
            assert forall|other: LayoutNodeId| #[trigger]
                self.knows(other) <==> other == node || before.knows(other) by {
                assert(self.knows(other) == added.knows(other));
            }
            assert forall|other: LayoutNodeId| #[trigger] before.knows(other) implies {
                &&& self.style_of(other) == before.style_of(other)
                &&& self.parent_of(other) == if children@.contains(other) {
                    Some(node)
                } else {
                    before.parent_of(other)
                }
                &&& self.children_of(other) == before.children_of(other).filter(not_in(children@))
            } by {
                assert(added.knows(other));
                assert(self.knows(other));
                assert(other != node);
            }
            assert(self.knows(node));
        }
        Ok(node)
    }

    /// Replaces a node's style. Computed geometry is forgotten.
    pub fn set_style(&mut self, node: LayoutNodeId, style: LayoutStyle) -> (result: Result<
        (),
        LayoutError,
    >)
        requires
            old(self).wf(),
        ensures
            final(self).wf(),
            !old(self).knows(node) ==> result == Err::<(), LayoutError>(
                LayoutError::UnknownNode(node),
            ) && *final(self) == *old(self),
            old(self).knows(node) ==> {
                &&& result is Ok
                &&& final(self).identity() == old(self).identity()
                &&& final(self).style_of(node) == style
                &&& forall|other: LayoutNodeId| #[trigger]
                    final(self).knows(other) <==> old(self).knows(other)
                &&& forall|other: LayoutNodeId| #[trigger]
                    final(self).knows(other) ==> {
                        &&& other != node ==> final(self).style_of(other) == old(self).style_of(other)
                        &&& final(self).parent_of(other) == old(self).parent_of(other)
                        &&& final(self).children_of(other) == old(self).children_of(other)
                    }
                &&& forall|other: LayoutNodeId| #[trigger] final(self).layout_of(other) is None
            },
    {
        match self.node(node) {
            Ok(_) => {},
            Err(error) => {
                return Err(error);
            },
        }
        let ghost before = *self;
        self.nodes.set_style(node, style);
        proof {
            before.lemma_one_changed(*self, node);
            let tree = self.tree_id;
            let nodes = self.nodes;
            assert forall|other: LayoutNodeId| #[trigger] known_in(tree, nodes, other) implies nodes.node(
                other,
            ).parent == before.nodes.node(other).parent && nodes.node(other).children
                == before.nodes.node(other).children by {
                assert(self.knows(other));
            }
            assert forall|other: LayoutNodeId| #[trigger] known_fn(tree, nodes)(other) implies known_fn(
                tree,
                before.nodes,
            )(other) && parent_fn(nodes)(other) == parent_fn(before.nodes)(other) by {
                assert(self.knows(other));
            }
            lemma_acyclic_restrict(
                known_fn(tree, before.nodes),
                parent_fn(before.nodes),
                known_fn(tree, nodes),
                parent_fn(nodes),
            );
            assert forall|other: LayoutNodeId, i: int|
                known_in(tree, nodes, other) && 0 <= i < nodes.node(other).children@.len() implies {
                &&& known_in(tree, nodes, #[trigger] nodes.node(other).children@[i])
                &&& nodes.node(nodes.node(other).children@[i]).parent == Some(other)
            } by {
                assert(before.knows(other));
                assert(before.knows(before.nodes.node(other).children@[i]));
            }
            assert forall|other: LayoutNodeId|
                #[trigger] known_in(tree, nodes, other) && nodes.node(other).parent is Some implies {
                &&& known_in(tree, nodes, nodes.node(other).parent->0)
                &&& nodes.node(nodes.node(other).parent->0).children@.contains(other)
            } by {
                assert(before.knows(other));
                assert(before.knows(before.nodes.node(other).parent->0));
            }
        }
        self.clear_layouts();
        Ok(())
    }

    /// Forgets computed geometry after `node`'s intrinsic size changed.
    pub fn invalidate(&mut self, node: LayoutNodeId) -> (result: Result<(), LayoutError>)
        requires
            old(self).wf(),
        ensures
            final(self).wf(),
            !old(self).knows(node) ==> result == Err::<(), LayoutError>(
                LayoutError::UnknownNode(node),
            ) && *final(self) == *old(self),
            old(self).knows(node) ==> {
                &&& result is Ok
                &&& final(self).same_nodes(*old(self))
                &&& forall|other: LayoutNodeId| #[trigger] final(self).layout_of(other) is None
            },
    {
        match self.node(node) {
            Ok(_) => {},
            Err(error) => {
                return Err(error);
            },
        }
        self.clear_layouts();
        Ok(())
    }

    /// Forgets all computed geometry and returns the live nodes, in slot order.
    pub fn invalidate_all(&mut self) -> (live: Vec<LayoutNodeId>)
        requires
            old(self).wf(),
        ensures
            final(self).wf(),
            final(self).same_nodes(*old(self)),
            forall|other: LayoutNodeId| #[trigger] final(self).layout_of(other) is None,
            forall|other: LayoutNodeId| #[trigger] live@.contains(other) <==> old(self).knows(other),
            distinct(live@),
            forall|i: int, j: int|
                0 <= i < j < live@.len() ==> (#[trigger] live@[i]).slot() < (#[trigger] live@[j]).slot(),
    {
        let live = self.live_nodes();
        self.clear_layouts();
        live
    }

    /// The live nodes, in slot order.
    pub fn live_nodes(&self) -> (live: Vec<LayoutNodeId>)
        requires
            self.wf(),
        ensures
            forall|other: LayoutNodeId| #[trigger] live@.contains(other) <==> self.knows(other),
            distinct(live@),
            forall|i: int, j: int|
                0 <= i < j < live@.len() ==> (#[trigger] live@[i]).slot() < (#[trigger] live@[j]).slot(),
    {
        let live = self.nodes.live(self.tree_id);
        proof {
            assert forall|other: LayoutNodeId| #[trigger] live@.contains(other) <==> self.knows(other) by {}
        }
        live
    }

    /// Gives `children`, already validated, to `parent`.
    fn replace_children(&mut self, parent: LayoutNodeId, children: &[LayoutNodeId])
        requires
            old(self).wf(),
            old(self).knows(parent),
            old(self).children_problem(Some(parent), children@) is None,
        ensures
            final(self).wf(),
            final(self).relinks(*old(self), parent, children@),
    {
        let ghost before = *self;
        proof {
            before.lemma_valid_children(Some(parent), children@);
        }
        let former = self.nodes.swap_children(parent, Vec::new());
        proof {
            before.lemma_one_changed(*self, parent);
            assert forall|node: LayoutNodeId| #[trigger] self.knows(node) implies {
                &&& self.style_of(node) == before.style_of(node)
                &&& self.parent_of(node) == before.relinked_parent(
                    parent,
                    Seq::empty(),
                    Seq::empty(),
                    node,
                )
                &&& self.children_of(node) == if node == parent {
                    Seq::<LayoutNodeId>::empty()
                } else {
                    before.children_of(node).filter(not_in(Seq::empty()))
                }
            } by {
                lemma_filter_all(before.children_of(node), not_in(Seq::empty()));
            }
        }
        self.detach_former(Ghost(before), parent, &former);
        self.attach_children(Ghost(before), parent, children, Ghost(former@));
        let own = copy_ids(children);
        let ghost unlisted = *self;
        proof {
            assert(self.knows(parent));
        }
        let _ = self.nodes.swap_children(parent, own);
        proof {
            unlisted.lemma_one_changed(*self, parent);
            self.lemma_relinked_wf(before, parent, children@);
        }
        let ghost relinked = *self;
        self.prune_detached(Ghost(before), parent, children, &former);
        let ghost pruned = *self;
        self.clear_layouts();
        proof {
            assert forall|node: LayoutNodeId| #[trigger] self.knows(node) implies {
                &&& self.style_of(node) == before.style_of(node)
                &&& self.parent_of(node) == before.relinked_parent(
                    parent,
                    children@,
                    before.children_of(parent),
                    node,
                )
                &&& self.children_of(node) == if node == parent {
                    children@
                } else {
                    before.children_of(node).filter(not_in(children@))
                }
            } by {
                assert(pruned.knows(node));
                assert(before.knows(node));
                assert(relinked.knows(node));
            }
            assert forall|node: LayoutNodeId| #[trigger] self.knows(node) <==> before.knows(node)
                && !before.pruned(parent, children@, node) by {
                assert(self.knows(node) == pruned.knows(node));
            }
        }
    }

    /// Detaches the former children of `parent`.
    fn detach_former(&mut self, Ghost(before): Ghost<Self>, parent: LayoutNodeId, former: &Vec<LayoutNodeId>)
        requires
            before.wf(),
            before.knows(parent),
            former@ == before.children_of(parent),
            old(self).staged(before, parent, Seq::empty(), Seq::empty(), Seq::empty()),
        ensures
            final(self).staged(before, parent, Seq::empty(), former@, Seq::empty()),
    {
        proof {
            assert(former@.subrange(0, 0) =~= Seq::<LayoutNodeId>::empty());
            assert forall|i: int, j: int| 0 <= i < j < former@.len() implies #[trigger] former@[i]
                != #[trigger] former@[j] by {
                assert(before.nodes.node(parent).children@[i] != before.nodes.node(parent).children@[j]);
            }
        }
        let mut index: usize = 0;
        while index < former.len()
            invariant
                before.wf(),
                before.knows(parent),
                former@ == before.children_of(parent),
                distinct(former@),
                0 <= index <= former@.len(),
                self.staged(
                    before,
                    parent,
                    Seq::empty(),
                    former@.subrange(0, index as int),
                    Seq::empty(),
                ),
            decreases former@.len() - index,
        {
            let child = former[index];
            let ghost cut = former@.subrange(0, index as int);
            let ghost next = former@.subrange(0, index + 1);
            proof {
                assert(before.nodes.node(before.nodes.node(parent).children@[index as int]).parent
                    == Some(parent));
                assert(before.knows(child));
                assert(self.knows(child));
                assert(!cut.contains(child)) by {
                    if cut.contains(child) {
                        let k = choose|k: int| 0 <= k < index && cut[k] == child;
                        assert(former@[k] == former@[index as int]);
                    }
                }
                assert(self.parent_of(child) == Some(parent));
                assert(next =~= cut.push(child));
                assert forall|id: LayoutNodeId| #[trigger] next.contains(id) == (cut.contains(id) || id
                    == child) by {
                    if next.contains(id) {
                        let k = choose|k: int| 0 <= k < next.len() && next[k] == id;
                        if k < cut.len() {
                            assert(cut[k] == id);
                        }
                    }
                    if cut.contains(id) {
                        let k = choose|k: int| 0 <= k < cut.len() && cut[k] == id;
                        assert(next[k] == id);
                    }
                    if id == child {
                        assert(next[index as int] == id);
                    }
                }
            }
            let attached = match self.node(child) {
                Ok(found) => match found.parent {
                    Some(up) => up == parent,
                    None => false,
                },
                Err(_) => false,
            };
            let ghost previous = *self;
            if attached {
                self.nodes.set_parent(child, None);
            }
            proof {
                previous.lemma_one_changed(*self, child);
                assert forall|node: LayoutNodeId| #[trigger] self.knows(node) implies {
                    &&& self.style_of(node) == before.style_of(node)
                    &&& self.parent_of(node) == before.relinked_parent(parent, Seq::empty(), next, node)
                    &&& self.children_of(node) == if node == parent {
                        Seq::<LayoutNodeId>::empty()
                    } else {
                        before.children_of(node).filter(not_in(Seq::empty()))
                    }
                } by {
                    assert(previous.knows(node));
                }
            }
            index += 1;
        }
        proof {
            assert(former@.subrange(0, former@.len() as int) =~= former@);
        }
    }

    /// Hangs `children` under `parent`, removing each from its former parent's list.
    fn attach_children(
        &mut self,
        Ghost(before): Ghost<Self>,
        parent: LayoutNodeId,
        children: &[LayoutNodeId],
        Ghost(former): Ghost<Seq<LayoutNodeId>>,
    )
        requires
            before.wf(),
            before.knows(parent),
            before.children_problem(Some(parent), children@) is None,
            former == before.children_of(parent),
            old(self).staged(before, parent, Seq::empty(), former, Seq::empty()),
        ensures
            final(self).staged(before, parent, children@, former, Seq::empty()),
    {
        proof {
            before.lemma_valid_children(Some(parent), children@);
            assert(children@.subrange(0, 0) =~= Seq::<LayoutNodeId>::empty());
        }
        let mut index: usize = 0;
        while index < children.len()
            invariant
                before.wf(),
                before.knows(parent),
                former == before.children_of(parent),
                distinct(children@),
                forall|child: LayoutNodeId| #[trigger]
                    children@.contains(child) ==> before.knows(child),
                0 <= index <= children@.len(),
                self.staged(before, parent, children@.subrange(0, index as int), former, Seq::empty()),
            decreases children@.len() - index,
        {
            let child = children[index];
            let ghost done = children@.subrange(0, index as int);
            let ghost next = children@.subrange(0, index + 1);
            proof {
                assert(children@.contains(child));
                assert(self.knows(child));
                assert(!done.contains(child)) by {
                    if done.contains(child) {
                        let k = choose|k: int| 0 <= k < index && done[k] == child;
                        assert(children@[k] == children@[index as int]);
                    }
                }
                assert(next =~= done.push(child));
                assert forall|id: LayoutNodeId| #[trigger] next.contains(id) == (done.contains(id) || id
                    == child) by {
                    if next.contains(id) {
                        let k = choose|k: int| 0 <= k < next.len() && next[k] == id;
                        if k < done.len() {
                            assert(done[k] == id);
                        }
                    }
                    if done.contains(id) {
                        let k = choose|k: int| 0 <= k < done.len() && done[k] == id;
                        assert(next[k] == id);
                    }
                    if id == child {
                        assert(next[index as int] == id);
                    }
                }
                assert forall|id: LayoutNodeId| #[trigger] not_in(next)(id) == (not_in(done)(id)
                    && other_than(child)(id)) by {
                    assert(next.contains(id) == (done.contains(id) || id == child));
                }
            }
            let current = match self.node(child) {
                Ok(found) => found.parent,
                Err(_) => None,
            };
            let ghost staged_before = *self;
            if let Some(previous) = current {
                proof {
                    assert(!former.contains(child));
                    assert(before.parent_of(child) == Some(previous));
                    assert(before.knows(previous));
                    assert(self.knows(previous));
                    assert(previous != parent) by {
                        if previous == parent {
                            assert(before.children_of(parent).contains(child));
                        }
                    }
                }
                let kept = match self.node(previous) {
                    Ok(found) => without(&found.children, child),
                    Err(_) => Vec::new(),
                };
                proof {
                    lemma_filter_twice(
                        before.children_of(previous),
                        not_in(done),
                        other_than(child),
                        not_in(next),
                    );
                }
                let _ = self.nodes.swap_children(previous, kept);
                proof {
                    staged_before.lemma_one_changed(*self, previous);
                }
            }
            let ghost relisted = *self;
            self.nodes.set_parent(child, Some(parent));
            proof {
                relisted.lemma_one_changed(*self, child);
                assert forall|node: LayoutNodeId| #[trigger] self.knows(node) implies {
                    &&& self.style_of(node) == before.style_of(node)
                    &&& self.parent_of(node) == before.relinked_parent(parent, next, former, node)
                    &&& self.children_of(node) == if node == parent {
                        Seq::<LayoutNodeId>::empty()
                    } else {
                        before.children_of(node).filter(not_in(next))
                    }
                } by {
                    assert(staged_before.knows(node));
                    assert(relisted.knows(node));
                    if node != parent && current != Some(node) {
                        assert(!before.children_of(node).contains(child)) by {
                            if before.children_of(node).contains(child) {
                                let k = choose|k: int|
                                    0 <= k < before.children_of(node).len()
                                        && before.children_of(node)[k] == child;
                                assert(before.nodes.node(before.nodes.node(node).children@[k]).parent
                                    == Some(node));
                            }
                        }
                        let remaining = before.children_of(node).filter(not_in(done));
                        lemma_filter_twice(
                            before.children_of(node),
                            not_in(done),
                            other_than(child),
                            not_in(next),
                        );
                        lemma_filter_members(before.children_of(node), not_in(done));
                        assert forall|i: int| 0 <= i < remaining.len() implies #[trigger] other_than(
                            child,
                        )(remaining[i]) by {
                            assert(remaining.contains(remaining[i]));
                        }
                        lemma_filter_all(remaining, other_than(child));
                    }
                }
            }
            index += 1;
        }
        proof {
            assert(children@.subrange(0, children@.len() as int) =~= children@);
        }
    }

    /// Removes the former children of `parent` that were not given back,
    /// with everything below them.
    fn prune_detached(
        &mut self,
        Ghost(before): Ghost<Self>,
        parent: LayoutNodeId,
        children: &[LayoutNodeId],
        former: &Vec<LayoutNodeId>,
    )
        requires
            before.wf(),
            before.knows(parent),
            former@ == before.children_of(parent),
            old(self).wf(),
            old(self).staged(before, parent, children@, former@, children@),
        ensures
            final(self).wf(),
            final(self).tree_id == old(self).tree_id,
            forall|node: LayoutNodeId| #[trigger]
                final(self).knows(node) <==> before.knows(node) && !before.pruned(
                    parent,
                    children@,
                    node,
                ),
            forall|node: LayoutNodeId| #[trigger]
                final(self).knows(node) ==> final(self).nodes.node(node) == old(self).nodes.node(node),
    {
        let ghost relinked = *self;
        let ghost tree = self.tree_id;
        proof {
            relinked.lemma_relinked_ancestry(before, parent, children@);
            assert forall|i: int, j: int| 0 <= i < j < former@.len() implies #[trigger] former@[i]
                != #[trigger] former@[j] by {
                assert(before.nodes.node(parent).children@[i] != before.nodes.node(parent).children@[j]);
            }
        }
        let mut index: usize = 0;
        while index < former.len()
            invariant
                before.wf(),
                before.knows(parent),
                self.wf(),
                self.tree_id == tree,
                tree == relinked.tree_id,
                relinked.wf(),
                relinked.staged(before, parent, children@, former@, children@),
                former@ == before.children_of(parent),
                distinct(former@),
                0 <= index <= former@.len(),
                forall|node: LayoutNodeId, ancestor: LayoutNodeId| #[trigger]
                    relinked.descends_from(Some(node), ancestor) == before.relinked_descends(
                        parent,
                        children@,
                        node,
                        ancestor,
                    ),
                forall|node: LayoutNodeId| #[trigger]
                    self.knows(node) <==> relinked.knows(node) && !exists|k: int|
                        0 <= k < index && !children@.contains(former@[k])
                            && #[trigger] relinked.descends_from(Some(node), former@[k]),
                forall|node: LayoutNodeId| #[trigger]
                    self.knows(node) ==> self.nodes.node(node) == relinked.nodes.node(node),
            decreases former@.len() - index,
        {
            let child = former[index];
            let detached = match self.node(child) {
                Ok(found) => found.parent.is_none(),
                Err(_) => false,
            };
            let ghost current = *self;
            proof {
                assert(before.nodes.node(before.nodes.node(parent).children@[index as int]).parent
                    == Some(parent));
                assert(before.knows(child));
                assert(relinked.knows(child));
            }
            if detached {
                proof {
                    assert forall|other: LayoutNodeId| #[trigger]
                        known_in(tree, current.nodes, other) implies !current.nodes.node(
                        other,
                    ).children@.contains(child) by {
                        if current.nodes.node(other).children@.contains(child) {
                            let k = choose|k: int|
                                0 <= k < current.nodes.node(other).children@.len()
                                    && current.nodes.node(other).children@[k] == child;
                            assert(current.nodes.node(current.nodes.node(other).children@[k]).parent
                                == Some(other));
                        }
                    }
                }
                self.remove_subtree(child);
                proof {
                    assert forall|other: LayoutNodeId| #[trigger]
                        known_in(tree, self.nodes, other) && self.nodes.node(other).parent is Some implies {
                        &&& known_in(tree, self.nodes, self.nodes.node(other).parent->0)
                        &&& self.nodes.node(self.nodes.node(other).parent->0).children@.contains(other)
                    } by {
                        assert(listed(tree, self.nodes, other));
                        if !known_in(tree, self.nodes, self.nodes.node(other).parent->0) {
                            assert(dangling(tree, self.nodes, other));
                        }
                    }
                    self.lemma_pruned_step(current, relinked, child);
                }
            }
            proof {
                self.lemma_prune_progress(current, relinked, before, parent, children@, former@, index as int, detached);
            }
            index += 1;
        }
        proof {
            assert forall|node: LayoutNodeId| #[trigger] self.knows(node) <==> before.knows(node)
                && !before.pruned(parent, children@, node) by {
                if before.pruned(parent, children@, node) {
                    let cut = choose|cut: LayoutNodeId|
                        #![trigger before.relinked_descends(parent, children@, node, cut)]
                        before.children_of(parent).contains(cut) && !children@.contains(cut)
                            && before.relinked_descends(parent, children@, node, cut);
                    let k = choose|k: int| 0 <= k < former@.len() && former@[k] == cut;
                    assert(relinked.descends_from(Some(node), former@[k]));
                }
                if !self.knows(node) && before.knows(node) {
                    assert(relinked.knows(node));
                    let k = choose|k: int|
                        0 <= k < former@.len() && !children@.contains(former@[k])
                            && #[trigger] relinked.descends_from(Some(node), former@[k]);
                    assert(before.relinked_descends(parent, children@, node, former@[k]));
                    assert(former@.contains(former@[k]));
                }
            }
        }
    }

    /// Removes `node` and every node below it.
    ///
    /// Nothing may list `node` as a child; the nodes it leaves behind are the
    /// known ones that do not descend from it, unchanged.
    fn remove_subtree(&mut self, node: LayoutNodeId)
        requires
            old(self).nodes.wf(),
            old(self).layouts@.len() == old(self).nodes.slot_count(),
            children_linked(old(self).tree_id, old(self).nodes),
            acyclic(known_fn(old(self).tree_id, old(self).nodes), parent_fn(old(self).nodes)),
            old(self).knows(node),
            forall|other: LayoutNodeId| #[trigger]
                known_in(old(self).tree_id, old(self).nodes, other) && other != node ==> listed(
                    old(self).tree_id,
                    old(self).nodes,
                    other,
                ),
            forall|other: LayoutNodeId| #[trigger]
                known_in(old(self).tree_id, old(self).nodes, other) ==> !old(self).nodes.node(
                    other,
                ).children@.contains(node),
        ensures
            final(self).tree_id == old(self).tree_id,
            final(self).nodes.wf(),
            final(self).layouts@.len() == final(self).nodes.slot_count(),
            final(self).nodes.slot_count() == old(self).nodes.slot_count(),
            final(self).nodes.spec_len() < old(self).nodes.spec_len(),
            children_linked(final(self).tree_id, final(self).nodes),
            acyclic(known_fn(final(self).tree_id, final(self).nodes), parent_fn(final(self).nodes)),
            forall|other: LayoutNodeId| #[trigger]
                known_in(final(self).tree_id, final(self).nodes, other) ==> listed(
                    final(self).tree_id,
                    final(self).nodes,
                    other,
                ),
            forall|other: LayoutNodeId| #[trigger]
                dangling(final(self).tree_id, final(self).nodes, other) ==> dangling(
                    old(self).tree_id,
                    old(self).nodes,
                    other,
                ),
            forall|other: LayoutNodeId| #[trigger]
                known_in(final(self).tree_id, final(self).nodes, other) ==> known_in(
                    old(self).tree_id,
                    old(self).nodes,
                    other,
                ) && final(self).nodes.node(other) == old(self).nodes.node(other),
            forall|other: LayoutNodeId| #[trigger]
                known_in(old(self).tree_id, old(self).nodes, other) ==> (known_in(
                    final(self).tree_id,
                    final(self).nodes,
                    other,
                ) <==> !old(self).descends_from(Some(other), node)),
        decreases old(self).nodes.spec_len(),
    {
        let ghost before = *self;
        let ghost tree = self.tree_id;
        let removed = match self.nodes.remove(node) {
            Some(removed) => removed,
            None => {
                return;
            },
        };
        self.layouts.set(node.index(), None);
        let children = removed.children;
        proof {
            let mid = self.nodes;
            assert forall|other: LayoutNodeId| #[trigger] known_in(tree, mid, other) implies known_in(
                tree,
                before.nodes,
                other,
            ) && mid.node(other) == before.nodes.node(other) && other != node by {
                if other.slot() == node.slot() {
                    assert(!mid.contains(other));
                }
            }
            assert forall|other: LayoutNodeId|
                known_in(tree, before.nodes, other) && !known_in(tree, mid, other) implies other
                == node by {
                if other.slot() != node.slot() {
                    assert(mid.contains(other) == before.nodes.contains(other));
                } else {
                    before.nodes.lemma_slot_identifies(other, node);
                }
            }
            lemma_acyclic_restrict(
                known_fn(tree, before.nodes),
                parent_fn(before.nodes),
                known_fn(tree, mid),
                parent_fn(mid),
            );
            assert(reaches(known_fn(tree, before.nodes), parent_fn(before.nodes), Some(node), node, 0));
        }
        let mut index: usize = 0;
        while index < children.len()
            invariant
                self.tree_id == tree,
                tree == before.tree_id,
                before == *old(self),
                self.nodes.wf(),
                self.layouts@.len() == self.nodes.slot_count(),
                self.nodes.slot_count() == before.nodes.slot_count(),
                self.nodes.spec_len() < before.nodes.spec_len(),
                0 <= index <= children@.len(),
                children@ == before.nodes.node(node).children@,
                known_in(tree, before.nodes, node),
                !known_in(tree, self.nodes, node),
                children_linked(tree, before.nodes),
                children_linked(tree, self.nodes),
                acyclic(known_fn(tree, self.nodes), parent_fn(self.nodes)),
                forall|other: LayoutNodeId| #[trigger]
                    known_in(tree, self.nodes, other) ==> listed(tree, self.nodes, other),
                forall|other: LayoutNodeId| #[trigger]
                    known_in(tree, self.nodes, other) ==> known_in(tree, before.nodes, other)
                        && self.nodes.node(other) == before.nodes.node(other),
                forall|other: LayoutNodeId| #[trigger]
                    known_in(tree, before.nodes, other) && !known_in(tree, self.nodes, other)
                        ==> before.descends_from(Some(other), node),
                forall|other: LayoutNodeId| #[trigger]
                    dangling(tree, self.nodes, other) ==> dangling(tree, before.nodes, other) || exists|
                        position: int,
                    |
                        index <= position < children@.len() && children@[position] == other,
            decreases children@.len() - index,
        {
            let child = children[index];
            let attached = match self.node(child) {
                Ok(found) => match found.parent {
                    Some(parent) => parent == node,
                    None => false,
                },
                Err(_) => false,
            };
            proof {
                assert(known_in(tree, before.nodes, child));
                assert(before.nodes.node(child).parent == Some(node));
            }
            if attached {
                let ghost current = *self;
                proof {
                    assert forall|other: LayoutNodeId| #[trigger]
                        known_in(tree, current.nodes, other) implies !current.nodes.node(
                        other,
                    ).children@.contains(child) by {
                        if current.nodes.node(other).children@.contains(child) {
                            let position = choose|position: int|
                                0 <= position < current.nodes.node(other).children@.len()
                                    && current.nodes.node(other).children@[position] == child;
                            assert(current.nodes.node(current.nodes.node(other).children@[position]).parent
                                == Some(other));
                        }
                    }
                }
                self.remove_subtree(child);
                proof {
                    assert(reaches(
                        known_fn(tree, current.nodes),
                        parent_fn(current.nodes),
                        Some(child),
                        child,
                        0,
                    ));
                    assert(!known_in(tree, self.nodes, child));
                    assert(reaches(
                        known_fn(tree, before.nodes),
                        parent_fn(before.nodes),
                        Some(child),
                        node,
                        1,
                    )) by {
                        assert(reaches(
                            known_fn(tree, before.nodes),
                            parent_fn(before.nodes),
                            Some(node),
                            node,
                            0,
                        ));
                    }
                    assert forall|other: LayoutNodeId| #[trigger]
                        known_in(tree, before.nodes, other) && !known_in(
                            tree,
                            self.nodes,
                            other,
                        ) implies before.descends_from(Some(other), node) by {
                        if known_in(tree, current.nodes, other) {
                            assert(current.descends_from(Some(other), child));
                            let steps = choose|steps: nat| #[trigger]
                                reaches(
                                    known_fn(tree, current.nodes),
                                    parent_fn(current.nodes),
                                    Some(other),
                                    child,
                                    steps,
                                );
                            lemma_reaches_restrict(
                                known_fn(tree, before.nodes),
                                parent_fn(before.nodes),
                                known_fn(tree, current.nodes),
                                parent_fn(current.nodes),
                                Some(other),
                                child,
                                steps,
                            );
                            lemma_reaches_trans(
                                known_fn(tree, before.nodes),
                                parent_fn(before.nodes),
                                Some(other),
                                child,
                                node,
                                steps,
                                1,
                            );
                        }
                    }
                    assert forall|other: LayoutNodeId| #[trigger]
                        dangling(tree, self.nodes, other) implies dangling(
                        tree,
                        before.nodes,
                        other,
                    ) || exists|position: int|
                        index + 1 <= position < children@.len() && children@[position] == other by {
                        assert(dangling(tree, current.nodes, other));
                        if !dangling(tree, before.nodes, other) {
                            let position = choose|position: int|
                                index <= position < children@.len() && children@[position] == other;
                            assert(position != index);
                        }
                    }
                }
            } else {
                proof {
                    assert(!known_in(tree, self.nodes, child));
                    assert forall|other: LayoutNodeId| #[trigger]
                        dangling(tree, self.nodes, other) implies dangling(
                        tree,
                        before.nodes,
                        other,
                    ) || exists|position: int|
                        index + 1 <= position < children@.len() && children@[position] == other by {
                        if !dangling(tree, before.nodes, other) {
                            let position = choose|position: int|
                                index <= position < children@.len() && children@[position] == other;
                            assert(position != index);
                        }
                    }
                }
            }
            index += 1;
        }
        proof {
            assert forall|other: LayoutNodeId| #[trigger]
                known_in(tree, before.nodes, other) implies (known_in(tree, self.nodes, other)
                <==> !before.descends_from(Some(other), node)) by {
                if known_in(tree, self.nodes, other) && before.descends_from(Some(other), node) {
                    let steps = choose|steps: nat| #[trigger]
                        reaches(
                            known_fn(tree, before.nodes),
                            parent_fn(before.nodes),
                            Some(other),
                            node,
                            steps,
                        );
                    lemma_removed_below(tree, before.nodes, self.nodes, node, other, steps);
                }
            }
        }
    }

    /// Removes a node and its complete subtree, detaching it from its parent.
    pub fn remove(&mut self, node: LayoutNodeId) -> (result: Result<(), LayoutError>)
        requires
            old(self).wf(),
        ensures
            final(self).wf(),
            !old(self).knows(node) ==> result == Err::<(), LayoutError>(
                LayoutError::UnknownNode(node),
            ) && *final(self) == *old(self),
            old(self).knows(node) ==> {
                &&& result is Ok
                &&& final(self).identity() == old(self).identity()
                &&& forall|other: LayoutNodeId| #[trigger]
                    final(self).knows(other) <==> old(self).knows(other) && !old(
                        self,
                    ).descends_from(Some(other), node)
                &&& forall|other: LayoutNodeId| #[trigger]
                    final(self).knows(other) ==> {
                        &&& final(self).style_of(other) == old(self).style_of(other)
                        &&& final(self).parent_of(other) == old(self).parent_of(other)
                        &&& final(self).children_of(other) == if old(self).parent_of(node) == Some(
                            other,
                        ) {
                            old(self).children_of(other).filter(other_than(node))
                        } else {
                            old(self).children_of(other)
                        }
                    }
                &&& forall|other: LayoutNodeId| #[trigger] final(self).layout_of(other) is None
            },
    {
        let ghost before = *self;
        let ghost tree = self.tree_id;
        let parent = match self.node(node) {
            Ok(found) => found.parent,
            Err(error) => {
                return Err(error);
            },
        };
        if let Some(parent) = parent {
            let kept = match self.node(parent) {
                Ok(found) => without(&found.children, node),
                Err(error) => {
                    return Err(error);
                },
            };
            proof {
                lemma_filter_members(before.nodes.node(parent).children@, other_than(node));
            }
            let _previous = self.nodes.swap_children(parent, kept);
        }
        let ghost mid = *self;
        proof {
            assert forall|other: LayoutNodeId| #[trigger] known_in(tree, mid.nodes, other) <==> known_in(
                tree,
                before.nodes,
                other,
            ) by {
                if parent is Some && other.slot() == parent->0.slot() && known_in(tree, before.nodes, other) {
                    before.nodes.lemma_slot_identifies(other, parent->0);
                }
            }
            assert forall|other: LayoutNodeId| #[trigger] known_in(tree, mid.nodes, other) implies mid.nodes.node(
                other,
            ) == if parent == Some(other) {
                Node { children: mid.nodes.node(other).children, ..before.nodes.node(other) }
            } else {
                before.nodes.node(other)
            } by {
                if parent is Some && other.slot() == parent->0.slot() {
                    before.nodes.lemma_slot_identifies(other, parent->0);
                }
            }
            lemma_detached(tree, before.nodes, mid.nodes, node);
        }
        self.remove_subtree(node);
        proof {
            assert forall|other: LayoutNodeId| #[trigger] mid.descends_from(Some(other), node)
                == before.descends_from(Some(other), node) by {
                if mid.descends_from(Some(other), node) {
                    let steps = choose|steps: nat| #[trigger] reaches(
                        known_fn(tree, mid.nodes),
                        parent_fn(mid.nodes),
                        Some(other),
                        node,
                        steps,
                    );
                    assert(reaches(known_fn(tree, before.nodes), parent_fn(before.nodes), Some(other), node, steps));
                }
                if before.descends_from(Some(other), node) {
                    let steps = choose|steps: nat| #[trigger] reaches(
                        known_fn(tree, before.nodes),
                        parent_fn(before.nodes),
                        Some(other),
                        node,
                        steps,
                    );
                    assert(reaches(known_fn(tree, mid.nodes), parent_fn(mid.nodes), Some(other), node, steps));
                }
            }
            assert forall|other: LayoutNodeId| #[trigger] known_in(tree, self.nodes, other)
                && self.nodes.node(other).parent is Some implies {
                &&& known_in(tree, self.nodes, self.nodes.node(other).parent->0)
                &&& self.nodes.node(self.nodes.node(other).parent->0).children@.contains(other)
            } by {
                assert(listed(tree, self.nodes, other));
                if !known_in(tree, self.nodes, self.nodes.node(other).parent->0) {
                    assert(dangling(tree, self.nodes, other));
                    assert(dangling(tree, mid.nodes, other));
                    assert(known_in(tree, before.nodes, other));
                }
            }
            let after = self.nodes;
            assert forall|other: LayoutNodeId| #[trigger] known_in(tree, after, other) <==> known_in(
                tree,
                before.nodes,
                other,
            ) && !before.descends_from(Some(other), node) by {
                if known_in(tree, before.nodes, other) {
                    assert(known_in(tree, mid.nodes, other));
                    assert(mid.descends_from(Some(other), node) == before.descends_from(Some(other), node));
                }
            }
            assert forall|other: LayoutNodeId| #[trigger] known_in(tree, after, other) implies {
                &&& after.node(other).style == before.nodes.node(other).style
                &&& after.node(other).parent == before.nodes.node(other).parent
                &&& after.node(other).children@ == if parent == Some(other) {
                    before.nodes.node(other).children@.filter(other_than(node))
                } else {
                    before.nodes.node(other).children@
                }
            } by {
                assert(known_in(tree, mid.nodes, other));
                assert(after.node(other) == mid.nodes.node(other));
            }
        }
        self.clear_layouts();
        Ok(())
    }

    /// Returns a node's children.
    pub fn children(&self, node: LayoutNodeId) -> (children: Result<&[LayoutNodeId], LayoutError>)
        ensures
            self.knows(node) ==> (children matches Ok(found) && found@ == self.children_of(node)),
            !self.knows(node) ==> children == Err::<&[LayoutNodeId], LayoutError>(
                LayoutError::UnknownNode(node),
            ),
    {
        match self.node(node) {
            Ok(found) => Ok(found.children.as_slice()),
            Err(error) => Err(error),
        }
    }

    /// Returns geometry from the most recent computation.
    pub fn layout(&self, node: LayoutNodeId) -> (layout: Result<ComputedLayout, LayoutError>)
        requires
            self.wf(),
        ensures
            !self.knows(node) ==> layout == Err::<ComputedLayout, LayoutError>(
                LayoutError::UnknownNode(node),
            ),
            self.knows(node) ==> layout == match self.layout_of(node) {
                Some(computed) => Ok(computed),
                None => Err(LayoutError::NotComputed(node)),
            },
    {
        match self.node(node) {
            Ok(_) => {},
            Err(error) => {
                return Err(error);
            },
        }
        match self.layouts[node.index()] {
            Some(computed) => Ok(computed),
            None => Err(LayoutError::NotComputed(node)),
        }
    }

    /// Forgets every computed layout.
    fn clear_layouts(&mut self)
        requires
            old(self).wf(),
        ensures
            final(self).wf(),
            final(self).tree_id == old(self).tree_id,
            final(self).nodes == old(self).nodes,
            forall|node: LayoutNodeId| #[trigger] final(self).layout_of(node) is None,
    {
        let mut index: usize = 0;
        let ghost before = *self;
        while index < self.layouts.len()
            invariant
                self.tree_id == before.tree_id,
                self.nodes == before.nodes,
                self.layouts@.len() == before.layouts@.len(),
                0 <= index <= self.layouts@.len(),
                forall|k: int| 0 <= k < index ==> self.layouts@[k] is None,
            decreases self.layouts@.len() - index,
        {
            self.layouts.set(index, None);
            index += 1;
        }
        proof {
        }
    }

    /// Records geometry computed for a node.
    pub fn record_layout(&mut self, node: LayoutNodeId, layout: ComputedLayout) -> (result: Result<
        (),
        LayoutError,
    >)
        requires
            old(self).wf(),
        ensures
            final(self).wf(),
            !old(self).knows(node) ==> result == Err::<(), LayoutError>(
                LayoutError::UnknownNode(node),
            ) && *final(self) == *old(self),
            old(self).knows(node) ==> {
                &&& result is Ok
                &&& final(self).layout_of(node) == Some(layout)
                &&& final(self).same_nodes(*old(self))
                &&& forall|other: LayoutNodeId|
                    other.slot() != node.slot() ==> #[trigger] final(self).layout_of(other)
                        == old(self).layout_of(other)
            },
    {
        match self.node(node) {
            Ok(_) => {},
            Err(error) => {
                return Err(error);
            },
        }
        let ghost before = *self;
        self.layouts.set(node.index(), Some(layout));
        proof {
            assert(self.layouts@ =~= before.layouts@.update(node.index as int, Some(layout)));
        }
        Ok(())
    }
}

} // verus!
