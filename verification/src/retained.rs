use vstd::prelude::*;

use crate::frame::RendererStateId;
use crate::geometry::Point;
use crate::layout::style::LayoutStyle;
use crate::runtime::{stronger, Invalidation};
use crate::style::Style;

verus! {

/// Kind of widget an element describes.
#[derive(Clone, Copy, Debug, Eq, PartialEq, Structural)]
pub enum WidgetKind {
    /// A plain container.
    Container,
    /// A run of text.
    Text,
    /// An activatable button.
    Button,
    /// A two-state checkbox.
    Checkbox,
    /// A modal dialog.
    Dialog,
}

/// Explicit identity of an element among its siblings.
#[derive(Debug)]
pub enum Key {
    /// An integer key.
    Integer(u64),
    /// A text key.
    String(String),
}

impl Key {
    /// Whether two keys name the same identity.
    pub open spec fn same(self, other: Key) -> bool {
        match (self, other) {
            (Key::Integer(a), Key::Integer(b)) => a == b,
            (Key::String(a), Key::String(b)) => a@ == b@,
            _ => false,
        }
    }

    /// Compares two keys.
    pub fn matches(&self, other: &Key) -> (same: bool)
        ensures
            same == self.same(*other),
    {
        match (self, other) {
            (Key::Integer(a), Key::Integer(b)) => *a == *b,
            (Key::String(a), Key::String(b)) => a.eq(b),
            _ => false,
        }
    }

    /// A copy of this key.
    pub fn duplicate(&self) -> (copy: Key)
        ensures
            copy == *self,
    {
        match self {
            Key::Integer(value) => Key::Integer(*value),
            Key::String(text) => Key::String(text.clone()),
        }
    }
}

/// Whether two optional keys name the same identity, or are both absent.
pub open spec fn same_key(a: Option<Key>, b: Option<Key>) -> bool {
    match (a, b) {
        (None, None) => true,
        (Some(x), Some(y)) => x.same(y),
        _ => false,
    }
}

/// A declarative description of one widget and its children.
pub struct Element {
    /// What the element is.
    pub kind: WidgetKind,
    /// Explicit identity among its siblings, if any.
    pub key: Option<Key>,
    /// Child elements, in order.
    pub children: Vec<Element>,
    /// Phases of the handlers registered on this element, in registration order.
    pub handlers: Vec<EventPhase>,
    /// Whether pointer hit testing can land on this element.
    pub interactive: bool,
    /// Whether this element can take focus.
    pub focusable: bool,
    /// Text the element shows, if any.
    pub text: Option<String>,
    /// How the element is painted.
    pub style: Style,
    /// How the element is laid out.
    pub layout: LayoutStyle,
}

impl Element {
    /// An element of `kind` with no key and no children.
    pub fn new(kind: WidgetKind) -> (element: Self)
        ensures
            element.kind == kind,
            element.key is None,
            element.children@.len() == 0,
    {
        Element {
            kind,
            key: None,
            children: Vec::new(),
            handlers: Vec::new(),
            interactive: false,
            focusable: false,
            text: None,
            style: Style::new(),
            layout: LayoutStyle::default(),
        }
    }

    /// The element showing `text`.
    pub fn text(self, text: String) -> (element: Self)
        ensures
            element == (Element { text: Some(text), ..self }),
    {
        Element { text: Some(text), ..self }
    }

    /// The element painted with `style`.
    pub fn styled(self, style: Style) -> (element: Self)
        ensures
            element == (Element { style, ..self }),
    {
        Element { style, ..self }
    }

    /// The element laid out with `layout`.
    pub fn laid_out(self, layout: LayoutStyle) -> (element: Self)
        ensures
            element == (Element { layout, ..self }),
    {
        Element { layout, ..self }
    }

    /// The element with one more handler, registered for `phase`.
    pub fn on(self, phase: EventPhase) -> (element: Self)
        ensures
            element.kind == self.kind,
            element.key == self.key,
            element.children@ == self.children@,
            element.handlers@ == self.handlers@.push(phase),
            element.interactive == self.interactive,
            element.focusable == self.focusable,
            element.text == self.text,
            element.style == self.style,
            element.layout == self.layout,
    {
        let mut element = self;
        element.handlers.push(phase);
        element
    }

    /// The element with pointer hit testing enabled or not.
    pub fn interactive(self, interactive: bool) -> (element: Self)
        ensures
            element == (Element { interactive, ..self }),
    {
        Element { interactive, ..self }
    }

    /// The element able to take focus or not.
    pub fn focusable(self, focusable: bool) -> (element: Self)
        ensures
            element == (Element { focusable, ..self }),
    {
        Element { focusable, ..self }
    }

    /// The element with explicit identity `key`.
    pub fn keyed(self, key: Key) -> (element: Self)
        ensures
            element == (Element { key: Some(key), ..self }),
    {
        Element { key: Some(key), ..self }
    }

    /// The element with `child` appended to its children.
    pub fn child(self, child: Element) -> (element: Self)
        ensures
            element.kind == self.kind,
            element.key == self.key,
            element.children@ == self.children@.push(child),
            element.handlers == self.handlers,
            element.interactive == self.interactive,
            element.focusable == self.focusable,
            element.text == self.text,
            element.style == self.style,
            element.layout == self.layout,
    {
        let mut element = self;
        element.children.push(child);
        element
    }
}

/// Identity of a retained node.
#[derive(Clone, Copy, Debug, Eq, Hash, PartialEq, Structural)]
pub struct NodeId(pub u64);

/// A retained node: its identity, what it was built from, and its children.
pub struct RetainedNode {
    /// Identity kept across reconciliations.
    pub id: NodeId,
    /// Kind of the element it was built from.
    pub kind: WidgetKind,
    /// Key of the element it was built from.
    pub key: Option<Key>,
    /// Retained children, in order.
    pub children: Vec<RetainedNode>,
    /// Text of the element it was last built from.
    pub text: Option<String>,
    /// Style of the element it was last built from.
    pub style: Style,
    /// Layout of the element it was last built from.
    pub layout: LayoutStyle,
    /// Whether that element was interactive.
    pub interactive: bool,
    /// Whether that element could take focus.
    pub focusable: bool,
}

/// Number of elements in `views` and all their descendants.
pub open spec fn element_count(views: Seq<Element>) -> nat
    decreases views,
{
    if views.len() == 0 {
        0
    } else {
        proof {
            assert(decreases_to!(views => views[0]));
        }
        1 + element_count(views[0].children@) + element_count(views.drop_first())
    }
}

/// Number of nodes in `forest` and all their descendants.
pub open spec fn forest_size(forest: Seq<RetainedNode>) -> nat
    decreases forest,
{
    if forest.len() == 0 {
        0
    } else {
        proof {
            assert(decreases_to!(forest => forest[0]));
        }
        1 + forest_size(forest[0].children@) + forest_size(forest.drop_first())
    }
}

/// Number of nodes in `node` and all its descendants.
pub open spec fn subtree_size(node: RetainedNode) -> nat {
    forest_size(seq![node])
}

/// Why a view could not be reconciled.
#[derive(Debug)]
pub enum ReconcileError {
    /// Two children of one element share a key.
    DuplicateSiblingKey(Key),
    /// The view does not have the shape of the committed tree.
    ViewDoesNotMatchCommittedTree,
    /// The renderer state is not the one the tree was committed with.
    WrongCommittedRenderer,
}

/// Counts of what one reconciliation did to the retained tree.
#[derive(Clone, Copy, Debug, Eq, PartialEq)]
pub struct ReconcileReport {
    /// Nodes kept with their identity.
    pub reused: usize,
    /// Nodes built anew.
    pub created: usize,
    /// Retained nodes dropped.
    pub removed: usize,
    /// Visual work the tree has requested since it was last committed.
    pub invalidation: Invalidation,
}

/// The first key, in depth-first order, that repeats the key of an earlier
/// sibling: `kids` are checked one by one against `earlier`, each before its
/// own children.
pub open spec fn duplicate_in(kids: Seq<Element>, earlier: Seq<Element>) -> Option<Key>
    decreases kids,
{
    if kids.len() == 0 {
        None
    } else {
        proof {
            assert(decreases_to!(kids => kids[0]));
        }
        let child = kids[0];
        if child.key is Some && exists|e: int|
            0 <= e < earlier.len() && #[trigger] same_key(earlier[e].key, child.key) {
            child.key
        } else {
            match duplicate_in(child.children@, Seq::empty()) {
                Some(key) => Some(key),
                None => duplicate_in(kids.drop_first(), earlier.push(child)),
            }
        }
    }
}

/// The first repeated sibling key anywhere below `view`.
pub open spec fn first_duplicate(view: Element) -> Option<Key> {
    duplicate_in(view.children@, Seq::empty())
}

/// Index of the last of `kids` whose key is `key`.
pub open spec fn last_keyed(kids: Seq<RetainedNode>, key: Key) -> Option<int>
    decreases kids.len(),
{
    if kids.len() == 0 {
        None
    } else if same_key(kids.last().key, Some(key)) {
        Some(kids.len() - 1)
    } else {
        last_keyed(kids.drop_last(), key)
    }
}

/// Which of the old children `kids` the new child `view` at `index` is
/// matched against: the last one with its key, or, without a key, the
/// unkeyed old child at the same index.
pub open spec fn candidate(kids: Seq<RetainedNode>, index: int, view: Element) -> Option<int> {
    match view.key {
        Some(key) => last_keyed(kids, key),
        None => if 0 <= index < kids.len() && kids[index].key is None {
            Some(index)
        } else {
            None
        },
    }
}

/// The old nodes that `views` are matched against, among old children `kids`.
pub open spec fn candidates(kids: Seq<RetainedNode>, views: Seq<Element>) -> Seq<
    Option<RetainedNode>,
> {
    Seq::new(
        views.len(),
        |i: int|
            match candidate(kids, i, views[i]) {
                Some(j) => Some(kids[j]),
                None => None,
            },
    )
}

/// No old node for any of `count` new children.
pub open spec fn unmatched(count: nat) -> Seq<Option<RetainedNode>> {
    Seq::new(count, |i: int| None::<RetainedNode>)
}

/// Whether a retained node can keep its identity for `view`.
pub open spec fn compatible(old: Option<RetainedNode>, view: Element) -> bool {
    match old {
        Some(node) => node.kind == view.kind && same_key(node.key, view.key),
        None => false,
    }
}

/// The old nodes the children of `view` are matched against.
pub open spec fn child_olds(old: Option<RetainedNode>, view: Element) -> Seq<Option<RetainedNode>> {
    if compatible(old, view) {
        candidates(old->0.children@, view.children@)
    } else {
        unmatched(view.children@.len())
    }
}

/// The first of `olds`, or nothing.
pub open spec fn first_old(olds: Seq<Option<RetainedNode>>) -> Option<RetainedNode> {
    if olds.len() > 0 {
        olds[0]
    } else {
        None
    }
}

/// The rest of `olds` after the first.
pub open spec fn rest_olds(olds: Seq<Option<RetainedNode>>) -> Seq<Option<RetainedNode>> {
    if olds.len() > 0 {
        olds.drop_first()
    } else {
        olds
    }
}

/// Number of nodes that keep their identity when `views` are reconciled
/// against `olds`.
pub open spec fn reused_in(olds: Seq<Option<RetainedNode>>, views: Seq<Element>) -> nat
    decreases views,
{
    if views.len() == 0 {
        0
    } else {
        proof {
            assert(decreases_to!(views => views[0]));
        }
        let view = views[0];
        let old = first_old(olds);
        (if compatible(old, view) {
            1nat
        } else {
            0nat
        }) + reused_in(child_olds(old, view), view.children@) + reused_in(
            rest_olds(olds),
            views.drop_first(),
        )
    }
}

/// Number of nodes built anew when `views` are reconciled against `olds`.
pub open spec fn created_in(olds: Seq<Option<RetainedNode>>, views: Seq<Element>) -> nat
    decreases views,
{
    if views.len() == 0 {
        0
    } else {
        proof {
            assert(decreases_to!(views => views[0]));
        }
        let view = views[0];
        let old = first_old(olds);
        (if compatible(old, view) {
            0nat
        } else {
            1nat
        }) + created_in(child_olds(old, view), view.children@) + created_in(
            rest_olds(olds),
            views.drop_first(),
        )
    }
}

/// Whether the old child at `index` of `kids` is matched by one of `views`.
pub open spec fn claimed(kids: Seq<RetainedNode>, views: Seq<Element>, index: int) -> bool {
    exists|i: int| 0 <= i < views.len() && #[trigger] candidate(kids, i, views[i]) == Some(index)
}

/// Total size of the old children from `index` on that no view matches.
pub open spec fn unclaimed_size(kids: Seq<RetainedNode>, views: Seq<Element>, index: int) -> nat
    decreases kids.len() - index,
{
    if index < 0 || index >= kids.len() {
        0
    } else {
        (if claimed(kids, views, index) {
            0
        } else {
            subtree_size(kids[index])
        }) + unclaimed_size(kids, views, index + 1)
    }
}

/// Number of retained nodes dropped when `views` are reconciled against `olds`.
pub open spec fn removed_in(olds: Seq<Option<RetainedNode>>, views: Seq<Element>) -> nat
    decreases views,
{
    if views.len() == 0 {
        0
    } else {
        proof {
            assert(decreases_to!(views => views[0]));
        }
        let view = views[0];
        let old = first_old(olds);
        (if compatible(old, view) {
            unclaimed_size(old->0.children@, view.children@, 0)
        } else {
            match old {
                Some(node) => subtree_size(node),
                None => 0,
            }
        }) + removed_in(child_olds(old, view), view.children@) + removed_in(
            rest_olds(olds),
            views.drop_first(),
        )
    }
}

/// Whether `news` is what reconciling `views` against `olds` builds: one node
/// per element with its kind, an equal key and its text, style, layout and
/// flags, a matched old node's identity kept,
/// and the children rebuilt the same way.
pub open spec fn rebuilt(
    olds: Seq<Option<RetainedNode>>,
    views: Seq<Element>,
    news: Seq<RetainedNode>,
) -> bool
    decreases views,
{
    &&& news.len() == views.len()
    &&& views.len() > 0 ==> {
        proof {
            assert(decreases_to!(views => views[0]));
        }
        let view = views[0];
        let old = first_old(olds);
        &&& news[0].kind == view.kind
        &&& same_key(news[0].key, view.key)
        &&& news[0].text == view.text
        &&& news[0].style == view.style
        &&& news[0].layout == view.layout
        &&& news[0].interactive == view.interactive
        &&& news[0].focusable == view.focusable
        &&& compatible(old, view) ==> news[0].id == old->0.id
        &&& rebuilt(child_olds(old, view), view.children@, news[0].children@)
        &&& rebuilt(rest_olds(olds), views.drop_first(), news.drop_first())
    }
}

/// Identities of the nodes built anew when `views` are reconciled against
/// `olds` into `news`, in the order they are built: each node before its
/// children, siblings in order.
pub open spec fn created_ids(
    olds: Seq<Option<RetainedNode>>,
    views: Seq<Element>,
    news: Seq<RetainedNode>,
) -> Seq<NodeId>
    decreases views,
{
    if views.len() == 0 {
        Seq::empty()
    } else {
        proof {
            assert(decreases_to!(views => views[0]));
        }
        let view = views[0];
        let old = first_old(olds);
        let here = if compatible(old, view) {
            Seq::<NodeId>::empty()
        } else {
            seq![news[0].id]
        };
        here + created_ids(child_olds(old, view), view.children@, news[0].children@) + created_ids(
            rest_olds(olds),
            views.drop_first(),
            news.drop_first(),
        )
    }
}

/// Number of distinct 64-bit identity values.
pub open spec fn identity_space() -> int {
    0x1_0000_0000_0000_0000
}

/// The identity `offset` steps after `start`, wrapping around the 64-bit space.
pub open spec fn stamp(start: u64, offset: int) -> NodeId {
    NodeId(((start + offset) % identity_space()) as u64)
}

/// The `count` identities handed out from `start` on, in order.
pub open spec fn stamps(start: u64, count: nat) -> Seq<NodeId> {
    Seq::new(count, |i: int| stamp(start, i))
}

/// Stepping `first` and then `second` identities is stepping both at once.
proof fn lemma_stamp_step(start: u64, first: int, second: int)
    requires
        first >= 0,
        second >= 0,
    ensures
        stamp(stamp(start, first).0, second) == stamp(start, first + second),
{
    vstd::arithmetic::div_mod::lemma_add_mod_noop_right(second, start + first, identity_space());
    assert(second + (start + first) == start + (first + second));
}

/// Identities handed out one after another from `start` follow on.
proof fn lemma_stamps_append(start: u64, first: nat, second: nat)
    ensures
        stamps(start, first) + stamps(stamp(start, first as int).0, second) == stamps(
            start,
            first + second,
        ),
{
    assert forall|i: int| 0 <= i < second implies #[trigger] stamp(stamp(start, first as int).0, i)
        == stamp(start, first + i) by {
        lemma_stamp_step(start, first as int, i);
    }
    assert(stamps(start, first) + stamps(stamp(start, first as int).0, second) =~= stamps(
        start,
        first + second,
    ));
}

/// Identities handed out from `start` without wrapping around are distinct
/// and lie between `start` and `start + count`.
pub proof fn lemma_stamps_fresh(start: u64, count: nat)
    requires
        start + count <= u64::MAX + 1,
    ensures
        forall|i: int|
            0 <= i < count ==> start <= (#[trigger] stamps(start, count)[i]).0 < start + count,
        forall|i: int, j: int|
            0 <= i < j < count ==> #[trigger] stamps(start, count)[i] != #[trigger] stamps(
                start,
                count,
            )[j],
{
    assert forall|i: int| 0 <= i < count implies (#[trigger] stamps(start, count)[i]).0 == start + i by {
        vstd::arithmetic::div_mod::lemma_small_mod((start + i) as nat, identity_space() as nat);
    }
}

/// Created identities add up over split lists of views.
proof fn lemma_created_ids_append(
    o1: Seq<Option<RetainedNode>>,
    v1: Seq<Element>,
    n1: Seq<RetainedNode>,
    o2: Seq<Option<RetainedNode>>,
    v2: Seq<Element>,
    n2: Seq<RetainedNode>,
)
    requires
        o1.len() == v1.len(),
        n1.len() == v1.len(),
    ensures
        created_ids(o1 + o2, v1 + v2, n1 + n2) == created_ids(o1, v1, n1) + created_ids(o2, v2, n2),
    decreases v1.len(),
{
    if v1.len() == 0 {
        assert(o1 + o2 =~= o2);
        assert(v1 + v2 =~= v2);
        assert(n1 + n2 =~= n2);
        assert(created_ids(o1, v1, n1) =~= Seq::<NodeId>::empty());
        assert(Seq::<NodeId>::empty() + created_ids(o2, v2, n2) =~= created_ids(o2, v2, n2));
    } else {
        assert((v1 + v2)[0] == v1[0]);
        assert((n1 + n2)[0] == n1[0]);
        assert(first_old(o1 + o2) == first_old(o1));
        assert((v1 + v2).drop_first() =~= v1.drop_first() + v2);
        assert((n1 + n2).drop_first() =~= n1.drop_first() + n2);
        assert(rest_olds(o1 + o2) =~= rest_olds(o1) + o2);
        lemma_created_ids_append(rest_olds(o1), v1.drop_first(), n1.drop_first(), o2, v2, n2);
        let view = v1[0];
        let old = first_old(o1);
        let here = if compatible(old, view) {
            Seq::<NodeId>::empty()
        } else {
            seq![n1[0].id]
        };
        let below = created_ids(child_olds(old, view), view.children@, n1[0].children@);
        assert(here + below + (created_ids(rest_olds(o1), v1.drop_first(), n1.drop_first())
            + created_ids(o2, v2, n2)) =~= here + below + created_ids(
            rest_olds(o1),
            v1.drop_first(),
            n1.drop_first(),
        ) + created_ids(o2, v2, n2));
    }
}

/// As many identities are handed out as nodes are built.
proof fn lemma_created_ids_len(
    olds: Seq<Option<RetainedNode>>,
    views: Seq<Element>,
    news: Seq<RetainedNode>,
)
    requires
        rebuilt(olds, views, news),
    ensures
        created_ids(olds, views, news).len() == created_in(olds, views),
    decreases views,
{
    if views.len() > 0 {
        assert(decreases_to!(views => views[0]));
        let view = views[0];
        let old = first_old(olds);
        lemma_created_ids_len(child_olds(old, view), view.children@, news[0].children@);
        lemma_created_ids_len(rest_olds(olds), views.drop_first(), news.drop_first());
    }
}

/// Whether every node of `forest` and below has an identity under `bound`.
pub open spec fn ids_below(forest: Seq<RetainedNode>, bound: int) -> bool
    decreases forest,
{
    if forest.len() == 0 {
        true
    } else {
        proof {
            assert(decreases_to!(forest => forest[0]));
        }
        &&& forest[0].id.0 < bound
        &&& ids_below(forest[0].children@, bound)
        &&& ids_below(forest.drop_first(), bound)
    }
}

/// A larger bound holds wherever a smaller one does.
proof fn lemma_ids_below_mono(forest: Seq<RetainedNode>, bound: int, larger: int)
    requires
        ids_below(forest, bound),
        bound <= larger,
    ensures
        ids_below(forest, larger),
    decreases forest,
{
    if forest.len() > 0 {
        assert(decreases_to!(forest => forest[0]));
        lemma_ids_below_mono(forest[0].children@, bound, larger);
        lemma_ids_below_mono(forest.drop_first(), bound, larger);
    }
}

/// A bound on a forest bounds each of its trees.
proof fn lemma_ids_below_each(forest: Seq<RetainedNode>, bound: int)
    requires
        ids_below(forest, bound),
    ensures
        forall|k: int| 0 <= k < forest.len() ==> ids_below(seq![#[trigger] forest[k]], bound),
    decreases forest.len(),
{
    if forest.len() > 0 {
        lemma_ids_below_each(forest.drop_first(), bound);
        assert forall|k: int| 0 <= k < forest.len() implies ids_below(seq![#[trigger] forest[k]], bound) by {
            let tree = seq![forest[k]];
            assert(tree[0] == forest[k]);
            assert(tree.drop_first() =~= Seq::<RetainedNode>::empty());
            assert(ids_below(tree.drop_first(), bound));
            if k > 0 {
                assert(forest[k] == forest.drop_first()[k - 1]);
                assert(ids_below(seq![forest.drop_first()[k - 1]], bound));
            }
        }
    }
}

/// Every old node a list of views is matched against has identities under
/// `bound` throughout its subtree.
pub open spec fn olds_below(olds: Seq<Option<RetainedNode>>, bound: int) -> bool {
    forall|k: int| 0 <= k < olds.len() && (#[trigger] olds[k]) is Some ==> ids_below(seq![olds[k]->0], bound)
}

/// The old nodes the children of a view are matched against lie under the
/// same bound as the old node in its place.
proof fn lemma_child_olds_below(old: Option<RetainedNode>, view: Element, bound: int)
    requires
        old matches Some(node) ==> ids_below(seq![node], bound),
    ensures
        olds_below(child_olds(old, view), bound),
{
    if compatible(old, view) {
        let node = old->0;
        let tree = seq![node];
        assert(tree[0] == node);
        lemma_ids_below_each(node.children@, bound);
        let olds = child_olds(old, view);
        assert forall|k: int| 0 <= k < olds.len() && (#[trigger] olds[k]) is Some implies ids_below(seq![olds[k]->0], bound) by {
            let j = candidate(node.children@, k, view.children@[k])->0;
            if let Some(key) = view.children@[k].key {
                lemma_last_keyed(node.children@, key);
            }
            assert(olds[k]->0 == node.children@[j]);
        }
    }
}

/// Rebuilt nodes keep identities under `bound` when the old nodes they may
/// keep lie under it and every identity handed out does too.
proof fn lemma_rebuilt_below(
    olds: Seq<Option<RetainedNode>>,
    views: Seq<Element>,
    news: Seq<RetainedNode>,
    bound: int,
)
    requires
        rebuilt(olds, views, news),
        olds_below(olds, bound),
        forall|k: int|
            0 <= k < created_ids(olds, views, news).len() ==> (#[trigger] created_ids(
                olds,
                views,
                news,
            )[k]).0 < bound,
    ensures
        ids_below(news, bound),
    decreases views,
{
    if views.len() > 0 {
        assert(decreases_to!(views => views[0]));
        let view = views[0];
        let old = first_old(olds);
        if olds.len() > 0 {
            assert(old == olds[0]);
        }
        let here = if compatible(old, view) {
            Seq::<NodeId>::empty()
        } else {
            seq![news[0].id]
        };
        let below = created_ids(child_olds(old, view), view.children@, news[0].children@);
        let rest = created_ids(rest_olds(olds), views.drop_first(), news.drop_first());
        let all = created_ids(olds, views, news);
        assert(all == here + below + rest);
        if !compatible(old, view) {
            assert(all[0] == news[0].id);
        }
        assert forall|k: int| 0 <= k < below.len() implies (#[trigger] below[k]).0 < bound by {
            assert(all[here.len() + k] == below[k]);
        }
        assert forall|k: int| 0 <= k < rest.len() implies (#[trigger] rest[k]).0 < bound by {
            assert(all[here.len() + below.len() + k] == rest[k]);
        }
        lemma_child_olds_below(old, view, bound);
        lemma_rebuilt_below(child_olds(old, view), view.children@, news[0].children@, bound);
        let later = rest_olds(olds);
        assert forall|k: int| 0 <= k < later.len() && (#[trigger] later[k]) is Some implies ids_below(seq![later[k]->0], bound) by {
            assert(later[k] == olds[k + 1]);
        }
        lemma_rebuilt_below(later, views.drop_first(), news.drop_first(), bound);
    }
}

/// Whether two optional texts are the same.
pub open spec fn same_text(a: Option<String>, b: Option<String>) -> bool {
    match (a, b) {
        (None, None) => true,
        (Some(x), Some(y)) => x@ == y@,
        _ => false,
    }
}

/// Work a kept node asks for when rebuilt from `view`: layout when its
/// layout or text changed, else paint when its style changed; paint when
/// its interactivity or focusability changed.
pub open spec fn change_request(node: RetainedNode, view: Element) -> Invalidation {
    let content = if node.layout != view.layout || !same_text(node.text, view.text) {
        Invalidation::Layout
    } else if node.style != view.style {
        Invalidation::Paint
    } else {
        Invalidation::Nothing
    };
    let flags = if node.interactive != view.interactive || node.focusable != view.focusable {
        Invalidation::Paint
    } else {
        Invalidation::Nothing
    };
    stronger(content, flags)
}

/// Work requested by reconciling `views` against `olds`: what each kept node
/// asks for, and a rebuild of structure wherever a node is built or dropped.
pub open spec fn requested_in(olds: Seq<Option<RetainedNode>>, views: Seq<Element>) -> Invalidation
    decreases views,
{
    if views.len() == 0 {
        Invalidation::Nothing
    } else {
        proof {
            assert(decreases_to!(views => views[0]));
        }
        let view = views[0];
        let old = first_old(olds);
        let here = if compatible(old, view) {
            if unclaimed_size(old->0.children@, view.children@, 0) > 0 {
                Invalidation::Recompose
            } else {
                change_request(old->0, view)
            }
        } else {
            Invalidation::Recompose
        };
        stronger(
            here,
            stronger(
                requested_in(child_olds(old, view), view.children@),
                requested_in(rest_olds(olds), views.drop_first()),
            ),
        )
    }
}

/// Requested work joins over split lists of views.
proof fn lemma_requested_append(
    o1: Seq<Option<RetainedNode>>,
    v1: Seq<Element>,
    o2: Seq<Option<RetainedNode>>,
    v2: Seq<Element>,
)
    requires
        o1.len() == v1.len(),
    ensures
        requested_in(o1 + o2, v1 + v2) == stronger(requested_in(o1, v1), requested_in(o2, v2)),
    decreases v1.len(),
{
    if v1.len() == 0 {
        assert(o1 + o2 =~= o2);
        assert(v1 + v2 =~= v2);
    } else {
        assert((v1 + v2)[0] == v1[0]);
        assert(first_old(o1 + o2) == first_old(o1));
        assert((v1 + v2).drop_first() =~= v1.drop_first() + v2);
        assert(rest_olds(o1 + o2) =~= rest_olds(o1) + o2);
        lemma_requested_append(rest_olds(o1), v1.drop_first(), o2, v2);
    }
}

/// `a + b`, clamped to `usize::MAX`.
pub open spec fn clamped(a: int, b: int) -> usize {
    if a + b > usize::MAX {
        usize::MAX
    } else {
        (a + b) as usize
    }
}

/// Sizes add up over a split forest.
pub proof fn lemma_forest_size_append(a: Seq<RetainedNode>, b: Seq<RetainedNode>)
    ensures
        forest_size(a + b) == forest_size(a) + forest_size(b),
    decreases a.len(),
{
    if a.len() == 0 {
        assert(a + b =~= b);
    } else {
        assert((a + b)[0] == a[0]);
        assert((a + b).drop_first() =~= a.drop_first() + b);
        lemma_forest_size_append(a.drop_first(), b);
    }
}

/// Counts add up over split lists of views.
proof fn lemma_counts_append(
    o1: Seq<Option<RetainedNode>>,
    v1: Seq<Element>,
    o2: Seq<Option<RetainedNode>>,
    v2: Seq<Element>,
)
    requires
        o1.len() == v1.len(),
    ensures
        reused_in(o1 + o2, v1 + v2) == reused_in(o1, v1) + reused_in(o2, v2),
        created_in(o1 + o2, v1 + v2) == created_in(o1, v1) + created_in(o2, v2),
        removed_in(o1 + o2, v1 + v2) == removed_in(o1, v1) + removed_in(o2, v2),
    decreases v1.len(),
{
    if v1.len() == 0 {
        assert(o1 + o2 =~= o2);
        assert(v1 + v2 =~= v2);
    } else {
        assert((v1 + v2)[0] == v1[0]);
        assert(first_old(o1 + o2) == first_old(o1));
        assert((v1 + v2).drop_first() =~= v1.drop_first() + v2);
        assert(rest_olds(o1 + o2) =~= rest_olds(o1) + o2);
        lemma_counts_append(rest_olds(o1), v1.drop_first(), o2, v2);
    }
}

/// Rebuilt lists join.
proof fn lemma_rebuilt_append(
    o1: Seq<Option<RetainedNode>>,
    v1: Seq<Element>,
    n1: Seq<RetainedNode>,
    o2: Seq<Option<RetainedNode>>,
    v2: Seq<Element>,
    n2: Seq<RetainedNode>,
)
    requires
        o1.len() == v1.len(),
        rebuilt(o1, v1, n1),
        rebuilt(o2, v2, n2),
    ensures
        rebuilt(o1 + o2, v1 + v2, n1 + n2),
    decreases v1.len(),
{
    if v1.len() == 0 {
        assert(o1 + o2 =~= o2);
        assert(v1 + v2 =~= v2);
        assert(n1 + n2 =~= n2);
    } else {
        assert((v1 + v2)[0] == v1[0]);
        assert((n1 + n2)[0] == n1[0]);
        assert(first_old(o1 + o2) == first_old(o1));
        assert((v1 + v2).drop_first() =~= v1.drop_first() + v2);
        assert((n1 + n2).drop_first() =~= n1.drop_first() + n2);
        assert(rest_olds(o1 + o2) =~= rest_olds(o1) + o2);
        lemma_rebuilt_append(rest_olds(o1), v1.drop_first(), n1.drop_first(), o2, v2, n2);
    }
}

/// A found key names a child that carries it.
proof fn lemma_last_keyed(kids: Seq<RetainedNode>, key: Key)
    ensures
        last_keyed(kids, key) matches Some(j) ==> 0 <= j < kids.len() && same_key(
            kids[j].key,
            Some(key),
        ),
    decreases kids.len(),
{
    if kids.len() > 0 && !same_key(kids.last().key, Some(key)) {
        lemma_last_keyed(kids.drop_last(), key);
    }
}

/// Without old children, nothing is matched.
proof fn lemma_no_candidates(views: Seq<Element>)
    ensures
        candidates(Seq::empty(), views) == unmatched(views.len()),
        forall|index: int| unclaimed_size(Seq::<RetainedNode>::empty(), views, index) == 0,
{
    assert forall|i: int| 0 <= i < views.len() implies candidate(Seq::empty(), i, views[i]) is None by {
        match views[i].key {
            Some(key) => {
                assert(last_keyed(Seq::<RetainedNode>::empty(), key) is None);
            },
            None => {},
        }
    }
    assert(candidates(Seq::empty(), views) =~= unmatched(views.len()));
}

/// Without a repeated key, sibling keys are distinct, and no child holds a
/// repeated key below it.
proof fn lemma_no_duplicate(kids: Seq<Element>, earlier: Seq<Element>)
    requires
        duplicate_in(kids, earlier) is None,
    ensures
        forall|i: int, e: int|
            0 <= i < kids.len() && 0 <= e < earlier.len() && kids[i].key is Some ==> !same_key(
                #[trigger] earlier[e].key,
                #[trigger] kids[i].key,
            ),
        forall|a: int, b: int|
            0 <= a < b < kids.len() && kids[b].key is Some ==> !same_key(
                #[trigger] kids[a].key,
                #[trigger] kids[b].key,
            ),
        forall|i: int| 0 <= i < kids.len() ==> #[trigger] first_duplicate(kids[i]) is None,
    decreases kids.len(),
{
    if kids.len() > 0 {
        let child = kids[0];
        let rest = kids.drop_first();
        let more = earlier.push(child);
        lemma_no_duplicate(rest, more);
        assert forall|i: int, e: int|
            0 <= i < kids.len() && 0 <= e < earlier.len() && kids[i].key is Some implies !same_key(
                #[trigger] earlier[e].key,
                #[trigger] kids[i].key,
            ) by {
            if i > 0 {
                assert(kids[i] == rest[i - 1]);
                assert(more[e] == earlier[e]);
            }
        }
        assert forall|a: int, b: int|
            0 <= a < b < kids.len() && kids[b].key is Some implies !same_key(
                #[trigger] kids[a].key,
                #[trigger] kids[b].key,
            ) by {
            assert(kids[b] == rest[b - 1]);
            if a == 0 {
                assert(more[earlier.len() as int] == child);
            } else {
                assert(kids[a] == rest[a - 1]);
            }
        }
        assert forall|i: int| 0 <= i < kids.len() implies #[trigger] first_duplicate(kids[i]) is None by {
            if i > 0 {
                assert(kids[i] == rest[i - 1]);
            }
        }
    }
}

/// Two children never claim the same old child.
proof fn lemma_candidates_disjoint(kids: Seq<RetainedNode>, views: Seq<Element>, a: int, b: int)
    requires
        duplicate_in(views, Seq::empty()) is None,
        0 <= a < b < views.len(),
    ensures
        candidate(kids, a, views[a]) matches Some(j) ==> 0 <= j < kids.len() && candidate(
            kids,
            b,
            views[b],
        ) != Some(j),
        candidate(kids, b, views[b]) matches Some(j) ==> 0 <= j < kids.len(),
{
    lemma_no_duplicate(views, Seq::empty());
    if let Some(key) = views[a].key {
        lemma_last_keyed(kids, key);
    }
    if let Some(key) = views[b].key {
        lemma_last_keyed(kids, key);
    }
    if let (Some(ka), Some(kb)) = (views[a].key, views[b].key) {
        assert(!same_key(views[a].key, views[b].key));
    }
}

/// A copy of an optional key.
fn copy_key(key: &Option<Key>) -> (copy: Option<Key>)
    ensures
        copy == *key,
{
    match key {
        Some(key) => Some(key.duplicate()),
        None => None,
    }
}

/// Whether two optional keys name the same identity.
fn keys_match(a: &Option<Key>, b: &Option<Key>) -> (same: bool)
    ensures
        same == same_key(*a, *b),
{
    match (a, b) {
        (Some(x), Some(y)) => x.matches(y),
        (None, None) => true,
        _ => false,
    }
}

/// Rejects a view in which two children of one element share a key,
/// naming the first such key in depth-first order.
pub fn validate_keys(view: &Element) -> (result: Result<(), ReconcileError>)
    ensures
        match first_duplicate(*view) {
            Some(key) => result matches Err(ReconcileError::DuplicateSiblingKey(found)) && found
                == key,
            None => result is Ok,
        },
    decreases view,
{
    let kids = &view.children;
    let ghost all = kids@;
    let mut index: usize = 0;
    proof {
        assert(all.subrange(0, all.len() as int) =~= all);
        assert(all.subrange(0, 0) =~= Seq::<Element>::empty());
    }
    while index < kids.len()
        invariant
            kids@ == all,
            all == view.children@,
            0 <= index <= all.len(),
            duplicate_in(all, Seq::empty()) == duplicate_in(
                all.subrange(index as int, all.len() as int),
                all.subrange(0, index as int),
            ),
        decreases all.len() - index,
    {
        let child = &kids[index];
        let ghost rest = all.subrange(index as int, all.len() as int);
        let ghost earlier = all.subrange(0, index as int);
        proof {
            assert(rest[0] == all[index as int]);
            assert(rest.drop_first() =~= all.subrange(index + 1, all.len() as int));
            assert(earlier.push(all[index as int]) =~= all.subrange(0, index + 1));
        }
        if child.key.is_some() {
            let mut before: usize = 0;
            while before < index
                invariant
                    kids@ == all,
                    all == view.children@,
                    0 <= before <= index < all.len(),
                    rest == all.subrange(index as int, all.len() as int),
                    duplicate_in(all, Seq::empty()) == duplicate_in(rest, earlier),
                    child == all[index as int],
                    child.key is Some,
                    earlier == all.subrange(0, index as int),
                    forall|e: int| 0 <= e < before ==> !same_key(#[trigger] earlier[e].key, child.key),
                decreases index - before,
            {
                if keys_match(&kids[before].key, &child.key) {
                    proof {
                        assert(same_key(earlier[before as int].key, child.key));
                        assert(rest[0] == *child);
                        assert(duplicate_in(rest, earlier) == child.key);
                    }
                    let key = match &child.key {
                        Some(key) => key.duplicate(),
                        None => {
                            return Ok(());
                        },
                    };
                    return Err(ReconcileError::DuplicateSiblingKey(key));
                }
                before += 1;
            }
        }
        proof {
            assert(decreases_to!(view => view.children));
            assert(decreases_to!(view.children => view.children@));
            assert(decreases_to!(view.children@ => view.children@[index as int]));
        }
        match validate_keys(child) {
            Ok(()) => {},
            Err(error) => {
                return Err(error);
            },
        }
        index += 1;
    }
    proof {
        assert(all.subrange(all.len() as int, all.len() as int) =~= Seq::<Element>::empty());
    }
    Ok(())
}

/// Number of nodes in `node` and all its descendants, clamped to `usize::MAX`.
#[verifier::spinoff_prover]
fn count_nodes(node: &RetainedNode) -> (count: usize)
    ensures
        count == clamped(0, subtree_size(*node) as int),
    decreases node,
{
    let kids = &node.children;
    let ghost all = kids@;
    let mut count: usize = 1;
    let mut index: usize = 0;
    proof {
        assert(all.subrange(0, 0) =~= Seq::<RetainedNode>::empty());
    }
    while index < kids.len()
        invariant
            kids@ == all,
            all == node.children@,
            0 <= index <= all.len(),
            count == clamped(1, forest_size(all.subrange(0, index as int)) as int),
        decreases all.len() - index,
    {
        proof {
            assert(decreases_to!(node => node.children));
            assert(decreases_to!(node.children => node.children@));
            assert(decreases_to!(node.children@ => node.children@[index as int]));
        }
        let more = count_nodes(&kids[index]);
        proof {
            assert(all.subrange(0, index + 1) =~= all.subrange(0, index as int) + seq![
                all[index as int],
            ]);
            lemma_forest_size_append(all.subrange(0, index as int), seq![all[index as int]]);
        }
        count = count.saturating_add(more);
        index += 1;
    }
    proof {
        assert(all.subrange(0, all.len() as int) =~= all);
        assert(seq![*node][0] == *node);
        assert(seq![*node].drop_first() =~= Seq::<RetainedNode>::empty());
        assert(forest_size(Seq::<RetainedNode>::empty()) == 0);
        assert(subtree_size(*node) == 1 + forest_size(all));
    }
    count
}

/// The old child that the new child `view` at `index` is matched against.
fn find_candidate(kids: &Vec<RetainedNode>, index: usize, view: &Element) -> (found: Option<usize>)
    ensures
        match found {
            Some(j) => candidate(kids@, index as int, *view) == Some(j as int),
            None => candidate(kids@, index as int, *view) is None,
        },
{
    match &view.key {
        Some(key) => {
            let mut found: Option<usize> = None;
            let mut j: usize = 0;
            while j < kids.len()
                invariant
                    0 <= j <= kids@.len(),
                    view.key == Some(*key),
                    match found {
                        Some(f) => last_keyed(kids@.subrange(0, j as int), *key) == Some(f as int),
                        None => last_keyed(kids@.subrange(0, j as int), *key) is None,
                    },
                decreases kids@.len() - j,
            {
                let ghost prefix = kids@.subrange(0, j + 1);
                proof {
                    assert(prefix.drop_last() =~= kids@.subrange(0, j as int));
                    assert(prefix.last() == kids@[j as int]);
                }
                match &kids[j].key {
                    Some(other) => {
                        if other.matches(key) {
                            found = Some(j);
                        }
                    },
                    None => {},
                }
                j += 1;
            }
            proof {
                assert(kids@.subrange(0, kids@.len() as int) =~= kids@);
            }
            found
        },
        None => {
            if index < kids.len() && kids[index].key.is_none() {
                Some(index)
            } else {
                None
            }
        },
    }
}

/// Clamping twice is clamping the sum.
proof fn lemma_clamp_twice(a: int, b: int, c: int)
    requires
        0 <= a <= usize::MAX,
        b >= 0,
        c >= 0,
    ensures
        clamped(clamped(a, b) as int, c) == clamped(a, b + c),
{
}

/// A node that holds the place of one moved out of a list.
fn placeholder() -> (node: RetainedNode) {
    RetainedNode {
        id: NodeId(0),
        kind: WidgetKind::Container,
        key: None,
        children: Vec::new(),
        text: None,
        style: Style::new(),
        layout: LayoutStyle::default(),
        interactive: false,
        focusable: false,
    }
}

/// `node`, if the tree rooted at `root` still retains it.
pub open spec fn still_retained(root: Option<RetainedNode>, node: Option<NodeId>) -> Option<NodeId> {
    match (root, node) {
        (Some(root), Some(found)) => if path_in(seq![root], found) is Some {
            Some(found)
        } else {
            None
        },
        _ => None,
    }
}

/// `node`, if the tree rooted at `root` retains it.
fn keep_if_retained(root: &RetainedNode, node: Option<NodeId>) -> (kept: Option<NodeId>)
    ensures
        kept == still_retained(Some(*root), node),
{
    match node {
        Some(found) => if find_path(root, found).is_some() {
            Some(found)
        } else {
            None
        },
        None => None,
    }
}

/// A copy of an optional text.
fn copy_text(text: &Option<String>) -> (copy: Option<String>)
    ensures
        copy == *text,
{
    match text {
        Some(text) => Some(text.clone()),
        None => None,
    }
}

/// Whether two optional texts are the same.
fn texts_match(a: &Option<String>, b: &Option<String>) -> (same: bool)
    ensures
        same == same_text(*a, *b),
{
    match (a, b) {
        (Some(x), Some(y)) => x.eq(y),
        (None, None) => true,
        _ => false,
    }
}

/// Work a kept node asks for when rebuilt from `view`.
fn change_of(node: &RetainedNode, view: &Element) -> (requested: Invalidation)
    ensures
        requested == change_request(*node, *view),
{
    let mut requested = if node.layout != view.layout || !texts_match(&node.text, &view.text) {
        Invalidation::Layout
    } else if node.style != view.style {
        Invalidation::Paint
    } else {
        Invalidation::Nothing
    };
    if node.interactive != view.interactive || node.focusable != view.focusable {
        requested.request(Invalidation::Paint);
    }
    requested
}

/// Retained widget tree whose node identities survive reconciliation.
pub struct UiTree {
    root: Option<RetainedNode>,
    next_id: u64,
    committed: Option<RendererStateId>,
    focused: Option<NodeId>,
    hovered: Option<NodeId>,
    captured: Option<NodeId>,
    pending: Invalidation,
}

impl UiTree {
    /// The retained root, if any.
    pub closed spec fn retained(self) -> Option<RetainedNode> {
        self.root
    }

    /// The identity the next built node receives.
    pub closed spec fn next_identity(self) -> u64 {
        self.next_id
    }

    /// The renderer state the tree was last committed with, if any.
    pub closed spec fn committed_state(self) -> Option<RendererStateId> {
        self.committed
    }

    /// Visual work requested since the tree was last committed.
    pub closed spec fn pending_work(self) -> Invalidation {
        self.pending
    }

    /// The focused node, if any.
    pub closed spec fn focus(self) -> Option<NodeId> {
        self.focused
    }

    /// The node under the pointer, if any.
    pub closed spec fn hover(self) -> Option<NodeId> {
        self.hovered
    }

    /// The node holding pointer capture, if any.
    pub closed spec fn capture(self) -> Option<NodeId> {
        self.captured
    }

    /// Every retained identity lies below the next one to be handed out.
    pub closed spec fn wf(self) -> bool {
        match self.root {
            Some(root) => ids_below(seq![root], self.next_id as int),
            None => true,
        }
    }

    /// Creates an empty tree.
    pub fn new() -> (tree: Self)
        ensures
            tree.wf(),
            tree.retained() is None,
            tree.next_identity() == 1,
            tree.committed_state() is None,
            tree.focus() is None,
            tree.hover() is None,
            tree.capture() is None,
            tree.pending_work() == Invalidation::Nothing,
    {
        UiTree {
            root: None,
            next_id: 1,
            committed: None,
            focused: None,
            hovered: None,
            captured: None,
            pending: Invalidation::Nothing,
        }
    }

    /// Identity of the root node, if any.
    pub fn root(&self) -> (root: Option<NodeId>)
        ensures
            root == match self.retained() {
                Some(node) => Some(node.id),
                None => None::<NodeId>,
            },
    {
        match &self.root {
            Some(node) => Some(node.id),
            None => None,
        }
    }

    /// The retained root node, if any.
    pub fn root_node(&self) -> (root: Option<&RetainedNode>)
        ensures
            match self.retained() {
                Some(node) => root == Some(&node),
                None => root is None,
            },
    {
        match &self.root {
            Some(node) => Some(node),
            None => None,
        }
    }

    /// Whether the tree retains nothing.
    pub fn is_empty(&self) -> (empty: bool)
        ensures
            empty == self.retained() is None,
    {
        self.root.is_none()
    }

    /// Number of retained nodes, clamped to `usize::MAX`.
    pub fn len(&self) -> (len: usize)
        ensures
            len == match self.retained() {
                Some(node) => clamped(0, subtree_size(node) as int),
                None => 0,
            },
    {
        match &self.root {
            Some(node) => count_nodes(node),
            None => 0,
        }
    }

    /// Reconciles the retained tree with `view`.
    ///
    /// A view in which two children of one element share a key is refused,
    /// naming the first such key, and the tree is left as it was. Otherwise
    /// every element is matched against the retained node in its place: the
    /// old root for the root, and for a child the old child with the same key
    /// or, without a key, the unkeyed old child at the same index. A match of
    /// the same kind and key keeps its identity; any other retained node is
    /// dropped with its subtree, and unmatched elements get new nodes. Focus,
    /// hover and pointer capture on a dropped node are cleared.
    pub fn reconcile(&mut self, view: &Element) -> (result: Result<ReconcileReport, ReconcileError>)
        ensures
            match first_duplicate(*view) {
                Some(key) => {
                    &&& result matches Err(ReconcileError::DuplicateSiblingKey(found)) && found
                        == key
                    &&& *final(self) == *old(self)
                },
                None => {
                    let olds = seq![old(self).retained()];
                    let views = seq![*view];
                    let made = created_in(olds, views);
                    &&& result matches Ok(report) && {
                        &&& report.reused == clamped(0, reused_in(olds, views) as int)
                        &&& report.created == clamped(0, created_in(olds, views) as int)
                        &&& report.removed == clamped(0, removed_in(olds, views) as int)
                        &&& report.invalidation == final(self).pending_work()
                    }
                    &&& final(self).pending_work() == stronger(
                        old(self).pending_work(),
                        requested_in(olds, views),
                    )
                    &&& final(self).retained() matches Some(root) && {
                        &&& rebuilt(olds, views, seq![root])
                        &&& created_ids(olds, views, seq![root]) == stamps(
                            old(self).next_identity(),
                            made,
                        )
                    }
                    &&& final(self).next_identity() == stamp(old(self).next_identity(), made as int).0
                    &&& final(self).committed_state() is None
                    &&& final(self).focus() == still_retained(final(self).retained(), old(self).focus())
                    &&& final(self).hover() == still_retained(final(self).retained(), old(self).hover())
                    &&& final(self).capture() == still_retained(
                        final(self).retained(),
                        old(self).capture(),
                    )
                    &&& old(self).wf() && old(self).next_identity() + made <= u64::MAX
                        ==> final(self).wf()
                },
            },
    {
        match validate_keys(view) {
            Ok(()) => {},
            Err(error) => {
                return Err(error);
            },
        }
        let mut report = ReconcileReport {
            reused: 0,
            created: 0,
            removed: 0,
            invalidation: Invalidation::Nothing,
        };
        let ghost before = *self;
        let previous = self.root.take();
        let root = self.reconcile_node(previous, view, &mut report);
        self.committed = None;
        report.invalidation = self.pending;
        self.focused = keep_if_retained(&root, self.focused);
        self.hovered = keep_if_retained(&root, self.hovered);
        self.captured = keep_if_retained(&root, self.captured);
        self.root = Some(root);
        proof {
            let olds = seq![before.retained()];
            let views = seq![*view];
            let start = before.next_identity();
            let made = created_in(olds, views);
            if before.wf() && start + made <= u64::MAX {
                lemma_created_ids_len(olds, views, seq![root]);
                lemma_stamps_fresh(start, made);
                vstd::arithmetic::div_mod::lemma_small_mod((start + made) as nat, identity_space() as nat);
                if let Some(old_root) = before.retained() {
                    lemma_ids_below_mono(seq![old_root], start as int, start + made);
                }
                assert(olds_below(olds, start + made));
                let ids = created_ids(olds, views, seq![root]);
                assert forall|k: int| 0 <= k < ids.len() implies (#[trigger] ids[k]).0 < start + made by {
                    assert(ids[k] == stamps(start, made)[k]);
                }
                lemma_rebuilt_below(olds, views, seq![root], start + made);
            }
        }
        Ok(report)
    }

    /// Reconciles one element against the retained node in its place.
    fn reconcile_node(&mut self, previous: Option<RetainedNode>, view: &Element, report: &mut ReconcileReport) -> (node: RetainedNode)
        requires
            first_duplicate(*view) is None,
        ensures
            final(self).retained() == old(self).retained(),
            final(self).committed_state() == old(self).committed_state(),
            final(self).focus() == old(self).focus(),
            final(self).hover() == old(self).hover(),
            final(self).capture() == old(self).capture(),
            rebuilt(seq![previous], seq![*view], seq![node]),
            final(self).pending_work() == stronger(
                old(self).pending_work(),
                requested_in(seq![previous], seq![*view]),
            ),
            final(self).next_identity() == stamp(
                old(self).next_identity(),
                created_in(seq![previous], seq![*view]) as int,
            ).0,
            created_ids(seq![previous], seq![*view], seq![node]) == stamps(
                old(self).next_identity(),
                created_in(seq![previous], seq![*view]),
            ),
            final(report).reused == clamped(
                old(report).reused as int,
                reused_in(seq![previous], seq![*view]) as int,
            ),
            final(report).created == clamped(
                old(report).created as int,
                created_in(seq![previous], seq![*view]) as int,
            ),
            final(report).removed == clamped(
                old(report).removed as int,
                removed_in(seq![previous], seq![*view]) as int,
            ),
        decreases view, 1nat,
    {
        let ghost olds = seq![previous];
        let ghost views = seq![*view];
        proof {
            assert(first_old(olds) == previous);
            assert(rest_olds(olds) =~= Seq::<Option<RetainedNode>>::empty());
            assert(views[0] == *view);
            assert(views.drop_first() =~= Seq::<Element>::empty());
            assert(reused_in(Seq::<Option<RetainedNode>>::empty(), Seq::<Element>::empty()) == 0);
            assert(created_in(Seq::<Option<RetainedNode>>::empty(), Seq::<Element>::empty()) == 0);
            assert(removed_in(Seq::<Option<RetainedNode>>::empty(), Seq::<Element>::empty()) == 0);
            assert(requested_in(Seq::<Option<RetainedNode>>::empty(), Seq::<Element>::empty()) == Invalidation::Nothing);
            assert(rebuilt(Seq::<Option<RetainedNode>>::empty(), Seq::<Element>::empty(), Seq::<RetainedNode>::empty()));
            assert(created_ids(Seq::<Option<RetainedNode>>::empty(), Seq::<Element>::empty(), Seq::<RetainedNode>::empty()) =~= Seq::<NodeId>::empty());
        }
        let ghost start = self.next_id;
        let compatible_old = match &previous {
            Some(node) => node.kind == view.kind && keys_match(&node.key, &view.key),
            None => false,
        };
        if compatible_old {
            let retained = previous.unwrap();
            let requested = change_of(&retained, view);
            self.pending.request(requested);
            let RetainedNode { id, kind, key, children, .. } = retained;
            let ghost base = *report;
            report.reused = report.reused.saturating_add(1);
            let rebuilt_children = self.reconcile_children(children, view, report);
            let text = copy_text(&view.text);
            proof {
                lemma_clamp_twice(base.reused as int, 1, reused_in(child_olds(previous, *view), view.children@) as int);
                let node = RetainedNode {
                    id,
                    kind,
                    key,
                    children: rebuilt_children,
                    text,
                    style: view.style,
                    layout: view.layout,
                    interactive: view.interactive,
                    focusable: view.focusable,
                };
                assert(seq![node][0] == node);
                assert(seq![node].drop_first() =~= Seq::<RetainedNode>::empty());
                let below = created_ids(child_olds(previous, *view), view.children@, rebuilt_children@);
                assert(Seq::<NodeId>::empty() + below + Seq::<NodeId>::empty() =~= below);
            }
            RetainedNode {
                id,
                kind,
                key,
                children: rebuilt_children,
                text,
                style: view.style,
                layout: view.layout,
                interactive: view.interactive,
                focusable: view.focusable,
            }
        } else {
            let dropped = match &previous {
                Some(node) => count_nodes(node),
                None => 0,
            };
            let ghost base = *report;
            report.removed = report.removed.saturating_add(dropped);
            self.pending.request(Invalidation::Recompose);
            let id = NodeId(self.next_id);
            self.next_id = self.next_id.wrapping_add(1);
            report.created = report.created.saturating_add(1);
            proof {
                lemma_no_candidates(view.children@);
                assert(self.next_id == stamp(start, 1).0);
                vstd::arithmetic::div_mod::lemma_small_mod(start as nat, identity_space() as nat);
                assert(id == stamp(start, 0));
            }
            let rebuilt_children = self.reconcile_children(Vec::new(), view, report);
            let key = copy_key(&view.key);
            let text = copy_text(&view.text);
            proof {
                let gone: int = match previous {
                    Some(node) => subtree_size(node) as int,
                    None => 0,
                };
                lemma_clamp_twice(base.removed as int, gone, removed_in(child_olds(previous, *view), view.children@) as int);
                lemma_clamp_twice(base.created as int, 1, created_in(child_olds(previous, *view), view.children@) as int);
                let node = RetainedNode {
                    id,
                    kind: view.kind,
                    key,
                    children: rebuilt_children,
                    text,
                    style: view.style,
                    layout: view.layout,
                    interactive: view.interactive,
                    focusable: view.focusable,
                };
                assert(seq![node][0] == node);
                assert(seq![node].drop_first() =~= Seq::<RetainedNode>::empty());
                let count = created_in(child_olds(previous, *view), view.children@);
                let below = created_ids(child_olds(previous, *view), view.children@, rebuilt_children@);
                lemma_stamp_step(start, 1, count as int);
                lemma_stamps_append(start, 1, count);
                assert(stamps(start, 1) =~= seq![id]);
                assert(seq![id] + below + Seq::<NodeId>::empty() =~= seq![id] + below);
            }
            RetainedNode {
                id,
                kind: view.kind,
                key,
                children: rebuilt_children,
                text,
                style: view.style,
                layout: view.layout,
                interactive: view.interactive,
                focusable: view.focusable,
            }
        }
    }

    /// Reconciles the children of `view` against the old children `kids`.
    fn reconcile_children(&mut self, kids: Vec<RetainedNode>, view: &Element, report: &mut ReconcileReport) -> (news: Vec<RetainedNode>)
        requires
            first_duplicate(*view) is None,
        ensures
            final(self).retained() == old(self).retained(),
            final(self).committed_state() == old(self).committed_state(),
            final(self).focus() == old(self).focus(),
            final(self).hover() == old(self).hover(),
            final(self).capture() == old(self).capture(),
            rebuilt(candidates(kids@, view.children@), view.children@, news@),
            final(self).pending_work() == stronger(
                old(self).pending_work(),
                stronger(
                    if unclaimed_size(kids@, view.children@, 0) > 0 {
                        Invalidation::Recompose
                    } else {
                        Invalidation::Nothing
                    },
                    requested_in(candidates(kids@, view.children@), view.children@),
                ),
            ),
            final(self).next_identity() == stamp(
                old(self).next_identity(),
                created_in(candidates(kids@, view.children@), view.children@) as int,
            ).0,
            created_ids(candidates(kids@, view.children@), view.children@, news@) == stamps(
                old(self).next_identity(),
                created_in(candidates(kids@, view.children@), view.children@),
            ),
            final(report).reused == clamped(
                old(report).reused as int,
                reused_in(candidates(kids@, view.children@), view.children@) as int,
            ),
            final(report).created == clamped(
                old(report).created as int,
                created_in(candidates(kids@, view.children@), view.children@) as int,
            ),
            final(report).removed == clamped(
                old(report).removed as int,
                unclaimed_size(kids@, view.children@, 0) + removed_in(
                    candidates(kids@, view.children@),
                    view.children@,
                ) as int,
            ),
        decreases view, 0nat,
    {
        let ghost orig = kids@;
        let views = &view.children;
        let ghost vs = views@;
        let ghost olds = candidates(orig, vs);
        let ghost base = *report;
        let ghost start = *self;
        let mut kids = kids;
        proof {
            lemma_no_duplicate(vs, Seq::empty());
        }
        let mut cands: Vec<Option<usize>> = Vec::new();
        let mut i: usize = 0;
        while i < views.len()
            invariant
                views@ == vs,
                kids@ == orig,
                0 <= i <= vs.len(),
                cands@.len() == i,
                forall|k: int|
                    0 <= k < i ==> match #[trigger] cands@[k] {
                        Some(j) => candidate(orig, k, vs[k]) == Some(j as int),
                        None => candidate(orig, k, vs[k]) is None,
                    },
            decreases vs.len() - i,
        {
            let found = find_candidate(&kids, i, &views[i]);
            cands.push(found);
            i += 1;
        }
        let mut taken: Vec<bool> = Vec::new();
        let mut j: usize = 0;
        while j < kids.len()
            invariant
                kids@ == orig,
                0 <= j <= orig.len(),
                taken@.len() == j,
                forall|k: int| 0 <= k < j ==> !#[trigger] taken@[k],
            decreases orig.len() - j,
        {
            taken.push(false);
            j += 1;
        }
        let mut news: Vec<RetainedNode> = Vec::new();
        i = 0;
        proof {
            assert(olds.subrange(0, 0) =~= Seq::<Option<RetainedNode>>::empty());
            assert(vs.subrange(0, 0) =~= Seq::<Element>::empty());
            assert(news@ =~= Seq::<RetainedNode>::empty());
            assert(reused_in(olds.subrange(0, 0), vs.subrange(0, 0)) == 0);
            assert(created_in(olds.subrange(0, 0), vs.subrange(0, 0)) == 0);
            assert(removed_in(olds.subrange(0, 0), vs.subrange(0, 0)) == 0);
            assert(created_ids(olds.subrange(0, 0), vs.subrange(0, 0), news@) =~= Seq::<NodeId>::empty());
            assert(stamps(start.next_identity(), 0) =~= Seq::<NodeId>::empty());
            vstd::arithmetic::div_mod::lemma_small_mod(start.next_identity() as nat, identity_space() as nat);
        }
        while i < views.len()
            invariant
                views@ == vs,
                view.children@ == vs,
                olds == candidates(orig, vs),
                duplicate_in(vs, Seq::empty()) is None,
                forall|k: int| 0 <= k < vs.len() ==> #[trigger] first_duplicate(vs[k]) is None,
                0 <= i <= vs.len(),
                cands@.len() == vs.len(),
                forall|k: int|
                    0 <= k < vs.len() ==> match #[trigger] cands@[k] {
                        Some(j) => candidate(orig, k, vs[k]) == Some(j as int),
                        None => candidate(orig, k, vs[k]) is None,
                    },
                kids@.len() == orig.len(),
                taken@.len() == orig.len(),
                forall|j: int|
                    0 <= j < orig.len() ==> (#[trigger] taken@[j] <==> exists|k: int|
                        0 <= k < i && #[trigger] candidate(orig, k, vs[k]) == Some(j)),
                forall|j: int| 0 <= j < orig.len() && !#[trigger] taken@[j] ==> kids@[j] == orig[j],
                news@.len() == i,
                rebuilt(olds.subrange(0, i as int), vs.subrange(0, i as int), news@),
                report.reused == clamped(
                    base.reused as int,
                    reused_in(olds.subrange(0, i as int), vs.subrange(0, i as int)) as int,
                ),
                report.created == clamped(
                    base.created as int,
                    created_in(olds.subrange(0, i as int), vs.subrange(0, i as int)) as int,
                ),
                report.removed == clamped(
                    base.removed as int,
                    removed_in(olds.subrange(0, i as int), vs.subrange(0, i as int)) as int,
                ),
                self.retained() == start.retained(),
                self.pending_work() == stronger(
                    start.pending_work(),
                    requested_in(olds.subrange(0, i as int), vs.subrange(0, i as int)),
                ),
                self.committed_state() == start.committed_state(),
                self.focus() == start.focus(),
                self.hover() == start.hover(),
                self.capture() == start.capture(),
                self.next_identity() == stamp(
                    start.next_identity(),
                    created_in(olds.subrange(0, i as int), vs.subrange(0, i as int)) as int,
                ).0,
                created_ids(olds.subrange(0, i as int), vs.subrange(0, i as int), news@) == stamps(
                    start.next_identity(),
                    created_in(olds.subrange(0, i as int), vs.subrange(0, i as int)),
                ),
            decreases vs.len() - i,
        {
            let old_child = match cands[i] {
                Some(j) => {
                    proof {
                        assert(candidate(orig, i as int, vs[i as int]) == Some(j as int));
                        if let Some(key) = vs[i as int].key {
                            lemma_last_keyed(orig, key);
                        }
                        if taken@[j as int] {
                            assert(exists|k: int|
                                0 <= k < i && #[trigger] candidate(orig, k, vs[k]) == Some(j as int));
                            let k = choose|k: int|
                                0 <= k < i && #[trigger] candidate(orig, k, vs[k]) == Some(j as int);
                            lemma_candidates_disjoint(orig, vs, k, i as int);
                        }
                    }
                    let ghost before = kids@;
                    kids.push(placeholder());
                    let moved = kids.swap_remove(j);
                    proof {
                        assert(kids@ =~= before.update(j as int, kids@[j as int]));
                    }
                    taken.set(j, true);
                    Some(moved)
                },
                None => None,
            };
            proof {
                assert(old_child == olds[i as int]);
                assert(forall|j: int|
                    0 <= j < orig.len() ==> (#[trigger] taken@[j] <==> exists|k: int|
                        0 <= k < i + 1 && #[trigger] candidate(orig, k, vs[k]) == Some(j))) by {
                    assert forall|j: int| 0 <= j < orig.len() implies (#[trigger] taken@[j] <==> exists|k: int|
                        0 <= k < i + 1 && #[trigger] candidate(orig, k, vs[k]) == Some(j)) by {
                        if candidate(orig, i as int, vs[i as int]) == Some(j) {
                            assert(0 <= i < i + 1);
                        }
                    }
                }
                assert(decreases_to!(view => view.children));
                assert(decreases_to!(view.children => view.children@));
                assert(decreases_to!(view.children@ => view.children@[i as int]));
            }
            let ghost before_next = self.next_identity();
            let child = self.reconcile_node(old_child, &views[i], report);
            let ghost prev_news = news@;
            news.push(child);
            proof {
                let o1 = olds.subrange(0, i as int);
                let v1 = vs.subrange(0, i as int);
                assert(olds.subrange(0, i + 1) =~= o1 + seq![olds[i as int]]);
                assert(vs.subrange(0, i + 1) =~= v1 + seq![vs[i as int]]);
                assert(news@ =~= prev_news + seq![child]);
                lemma_rebuilt_append(o1, v1, prev_news, seq![olds[i as int]], seq![vs[i as int]], seq![child]);
                lemma_counts_append(o1, v1, seq![olds[i as int]], seq![vs[i as int]]);
                lemma_requested_append(o1, v1, seq![olds[i as int]], seq![vs[i as int]]);
                lemma_created_ids_append(o1, v1, prev_news, seq![olds[i as int]], seq![vs[i as int]], seq![child]);
                let done = created_in(o1, v1);
                let more = created_in(seq![olds[i as int]], seq![vs[i as int]]);
                lemma_stamp_step(start.next_identity(), done as int, more as int);
                lemma_stamps_append(start.next_identity(), done, more);
                lemma_clamp_twice(base.reused as int, reused_in(o1, v1) as int, reused_in(seq![olds[i as int]], seq![vs[i as int]]) as int);
                lemma_clamp_twice(base.created as int, created_in(o1, v1) as int, created_in(seq![olds[i as int]], seq![vs[i as int]]) as int);
                lemma_clamp_twice(base.removed as int, removed_in(o1, v1) as int, removed_in(seq![olds[i as int]], seq![vs[i as int]]) as int);
            }
            i += 1;
        }
        proof {
            assert(olds.subrange(0, vs.len() as int) =~= olds);
            assert(vs.subrange(0, vs.len() as int) =~= vs);
        }
        let mut leftover: usize = 0;
        let mut j: usize = kids.len();
        while j > 0
            invariant
                0 <= j <= orig.len(),
                kids@.len() == orig.len(),
                taken@.len() == orig.len(),
                forall|j: int| 0 <= j < orig.len() ==> (#[trigger] taken@[j] <==> claimed(orig, vs, j)),
                forall|j: int| 0 <= j < orig.len() && !#[trigger] taken@[j] ==> kids@[j] == orig[j],
                leftover == clamped(0, unclaimed_size(orig, vs, j as int) as int),
            decreases j,
        {
            j -= 1;
            if !taken[j] {
                let size = count_nodes(&kids[j]);
                proof {
                    lemma_clamp_twice(0, subtree_size(orig[j as int]) as int, unclaimed_size(orig, vs, j + 1) as int);
                }
                leftover = size.saturating_add(leftover);
            }
        }
        report.removed = report.removed.saturating_add(leftover);
        if leftover > 0 {
            self.pending.request(Invalidation::Recompose);
        }
        proof {
            lemma_clamp_twice(base.removed as int, removed_in(olds, vs) as int, unclaimed_size(orig, vs, 0) as int);
        }
        news
    }
}

/// Every element is either matched by a retained node or built anew.
pub proof fn lemma_every_element_counted(olds: Seq<Option<RetainedNode>>, views: Seq<Element>)
    ensures
        reused_in(olds, views) + created_in(olds, views) == element_count(views),
    decreases views,
{
    if views.len() > 0 {
        assert(decreases_to!(views => views[0]));
        let view = views[0];
        let old = first_old(olds);
        lemma_every_element_counted(child_olds(old, view), view.children@);
        lemma_every_element_counted(rest_olds(olds), views.drop_first());
    }
}

/// In a rebuilt list, the node at each position keeps the identity of a
/// compatible old node in that position.
pub proof fn lemma_rebuilt_at(
    olds: Seq<Option<RetainedNode>>,
    views: Seq<Element>,
    news: Seq<RetainedNode>,
    index: int,
)
    requires
        rebuilt(olds, views, news),
        0 <= index < views.len(),
        index < olds.len(),
    ensures
        news[index].kind == views[index].kind,
        same_key(news[index].key, views[index].key),
        compatible(olds[index], views[index]) ==> news[index].id == olds[index]->0.id,
        rebuilt(child_olds(olds[index], views[index]), views[index].children@, news[index].children@),
    decreases index,
{
    if index > 0 {
        lemma_rebuilt_at(rest_olds(olds), views.drop_first(), news.drop_first(), index - 1);
    }
}

/// A keyed child matched with a retained child of the same kind and key
/// keeps that child's identity, wherever either stands among its siblings.
pub proof fn lemma_keyed_child_keeps_identity(
    old: RetainedNode,
    view: Element,
    new: RetainedNode,
    index: int,
    found: int,
)
    requires
        rebuilt(seq![Some(old)], seq![view], seq![new]),
        compatible(Some(old), view),
        0 <= index < view.children@.len(),
        view.children@[index].key is Some,
        last_keyed(old.children@, view.children@[index].key->0) == Some(found),
        old.children@[found].kind == view.children@[index].kind,
    ensures
        new.id == old.id,
        new.children@[index].id == old.children@[found].id,
{
    lemma_rebuilt_at(seq![Some(old)], seq![view], seq![new], 0);
    lemma_last_keyed(old.children@, view.children@[index].key->0);
    let olds = candidates(old.children@, view.children@);
    assert(olds[index] == Some(old.children@[found]));
    lemma_rebuilt_at(olds, view.children@, new.children@, index);
}

/// The path of identities from the first node of `forest`, in depth-first
/// order, whose identity is `target`, down from the top of its tree.
pub open spec fn path_in(forest: Seq<RetainedNode>, target: NodeId) -> Option<Seq<NodeId>>
    decreases forest,
{
    if forest.len() == 0 {
        None
    } else {
        proof {
            assert(decreases_to!(forest => forest[0]));
        }
        if forest[0].id == target {
            Some(seq![target])
        } else {
            match path_in(forest[0].children@, target) {
                Some(below) => Some(seq![forest[0].id] + below),
                None => path_in(forest.drop_first(), target),
            }
        }
    }
}

/// A path is found in a split forest in its first part if there, else in
/// the second.
proof fn lemma_path_append(a: Seq<RetainedNode>, b: Seq<RetainedNode>, target: NodeId)
    ensures
        path_in(a + b, target) == match path_in(a, target) {
            Some(path) => Some(path),
            None => path_in(b, target),
        },
    decreases a.len(),
{
    if a.len() == 0 {
        assert(a + b =~= b);
    } else {
        assert((a + b)[0] == a[0]);
        assert((a + b).drop_first() =~= a.drop_first() + b);
        lemma_path_append(a.drop_first(), b, target);
    }
}

/// The path from `node` down to the first node with identity `target`.
fn find_path(node: &RetainedNode, target: NodeId) -> (path: Option<Vec<NodeId>>)
    ensures
        match path {
            Some(found) => path_in(seq![*node], target) == Some(found@),
            None => path_in(seq![*node], target) is None,
        },
    decreases node,
{
    proof {
        assert(seq![*node][0] == *node);
        assert(seq![*node].drop_first() =~= Seq::<RetainedNode>::empty());
    }
    if node.id == target {
        let mut path = Vec::new();
        path.push(target);
        proof {
            assert(path@ =~= seq![target]);
        }
        return Some(path);
    }
    let kids = &node.children;
    let ghost all = kids@;
    let mut index: usize = 0;
    proof {
        assert(all.subrange(0, 0) =~= Seq::<RetainedNode>::empty());
    }
    while index < kids.len()
        invariant
            kids@ == all,
            all == node.children@,
            node.id != target,
            0 <= index <= all.len(),
            path_in(all.subrange(0, index as int), target) is None,
        decreases all.len() - index,
    {
        proof {
            assert(decreases_to!(node => node.children));
            assert(decreases_to!(node.children => node.children@));
            assert(decreases_to!(node.children@ => node.children@[index as int]));
            assert(all.subrange(0, index + 1) =~= all.subrange(0, index as int) + seq![
                all[index as int],
            ]);
            lemma_path_append(all.subrange(0, index as int), seq![all[index as int]], target);
            lemma_path_append(seq![all[index as int]], all.subrange(index + 1, all.len() as int), target);
            lemma_path_append(all.subrange(0, index as int), all.subrange(index as int, all.len() as int), target);
            assert(all.subrange(0, index as int) + all.subrange(index as int, all.len() as int) =~= all);
            assert(seq![all[index as int]] + all.subrange(index + 1, all.len() as int) =~= all.subrange(
                index as int,
                all.len() as int,
            ));
        }
        match find_path(&kids[index], target) {
            Some(below) => {
                let mut path = Vec::new();
                path.push(node.id);
                let mut k: usize = 0;
                while k < below.len()
                    invariant
                        0 <= k <= below@.len(),
                        path@ =~= seq![node.id] + below@.subrange(0, k as int),
                    decreases below@.len() - k,
                {
                    path.push(below[k]);
                    k += 1;
                }
                proof {
                    assert(below@.subrange(0, below@.len() as int) =~= below@);
                    assert(path_in(all.subrange(index as int, all.len() as int), target) == Some(below@));
                    assert(path_in(all, target) == Some(below@));
                    assert(path@ =~= seq![node.id] + below@);
                    assert(seq![*node][0] == *node);
                }
                return Some(path);
            },
            None => {},
        }
        index += 1;
    }
    proof {
        assert(all.subrange(0, all.len() as int) =~= all);
    }
    None
}

impl UiTree {
    /// The path of identities from the root down to `target`, the first node
    /// with that identity in depth-first order, or nothing if none has it.
    pub fn route(&self, target: NodeId) -> (route: Option<Vec<NodeId>>)
        ensures
            match self.retained() {
                Some(root) => match route {
                    Some(found) => path_in(seq![root], target) == Some(found@),
                    None => path_in(seq![root], target) is None,
                },
                None => route is None,
            },
    {
        match &self.root {
            Some(root) => find_path(root, target),
            None => None,
        }
    }
}

/// Phase in which a handler sees an event.
#[derive(Clone, Copy, Debug, Eq, PartialEq, Structural)]
pub enum EventPhase {
    /// On the way down from the root to the target.
    Capture,
    /// At the target itself.
    Target,
    /// On the way back up from the target to the root.
    Bubble,
}

/// A found path is not empty and ends at its target.
pub proof fn lemma_path_ends_at_target(forest: Seq<RetainedNode>, target: NodeId)
    ensures
        path_in(forest, target) matches Some(path) ==> path.len() > 0 && path.last() == target,
    decreases forest,
{
    if forest.len() > 0 {
        assert(decreases_to!(forest => forest[0]));
        lemma_path_ends_at_target(forest[0].children@, target);
        lemma_path_ends_at_target(forest.drop_first(), target);
        if forest[0].id != target {
            if let Some(below) = path_in(forest[0].children@, target) {
                assert((seq![forest[0].id] + below).last() == below.last());
            }
        }
    }
}

/// Kind of pointer activity.
#[derive(Clone, Copy, Debug, Eq, PartialEq, Structural)]
pub enum PointerKind {
    /// The pointer moved with no button held.
    Moved,
    /// A button went down.
    Down,
    /// A button went up.
    Up,
    /// The pointer moved with a button held.
    Drag,
}

/// A key of the keyboard, as the UI sees it.
#[derive(Clone, Copy, Debug, Eq, PartialEq, Structural)]
pub enum UiKey {
    /// The Tab key.
    Tab,
    /// The Enter key.
    Enter,
    /// The Escape key.
    Escape,
    /// The Backspace key.
    Backspace,
    /// The Delete key.
    Delete,
    /// A character key.
    Character(char),
}

/// One key event.
#[derive(Clone, Copy, Debug, Eq, PartialEq, Structural)]
pub struct KeyEvent {
    /// The key.
    pub key: UiKey,
    /// Whether the key went down (rather than up or repeating).
    pub press: bool,
    /// Whether Shift was held.
    pub shift: bool,
    /// Whether any modifier other than Shift was held.
    pub other_modifiers: bool,
}

/// An input event delivered to the retained tree.
#[derive(Clone, Copy, Debug, Eq, PartialEq, Structural)]
pub enum UiEvent {
    /// Pointer activity at a cell.
    Pointer {
        /// What the pointer did.
        kind: PointerKind,
        /// Where it did it.
        position: Point,
    },
    /// A key event.
    Key(KeyEvent),
    /// Text input.
    Text,
    /// A paste.
    Paste,
    /// A timer tick.
    Tick,
}

/// Which node, if any, each cell of the committed frame shows.
pub struct HitMap {
    /// Width in cells.
    pub width: u16,
    /// Height in cells.
    pub height: u16,
    /// Row-major cell owners.
    pub cells: Vec<Option<NodeId>>,
}

/// The node a hit map shows at `position`, if any.
pub open spec fn hit_at(map: HitMap, position: Point) -> Option<NodeId> {
    let index = position.y * map.width + position.x;
    if 0 <= position.x < map.width && 0 <= position.y < map.height && index < map.cells@.len() {
        map.cells@[index]
    } else {
        None
    }
}

/// What one handler did when it ran.
#[derive(Clone, Copy, Debug, Eq, PartialEq, Structural)]
pub struct HandlerOutcome {
    /// It marked the event handled.
    pub handled: bool,
    /// It prevented the UI's default behavior.
    pub prevent_default: bool,
    /// It stopped propagation: no later handler runs.
    pub stop: bool,
    /// It asked for pointer capture on its node.
    pub capture_pointer: bool,
    /// It released pointer capture.
    pub release_pointer: bool,
}

/// The outcome of a handler that did nothing.
pub open spec fn no_outcome() -> HandlerOutcome {
    HandlerOutcome {
        handled: false,
        prevent_default: false,
        stop: false,
        capture_pointer: false,
        release_pointer: false,
    }
}

/// What the handler run `index` reported, or nothing if none was given.
pub open spec fn outcome_at(outcomes: Seq<HandlerOutcome>, index: int) -> HandlerOutcome {
    if 0 <= index < outcomes.len() {
        outcomes[index]
    } else {
        no_outcome()
    }
}

/// One handler run.
#[derive(Clone, Copy, Debug, Eq, PartialEq, Structural)]
pub struct Invocation {
    /// The node whose handler ran.
    pub node: NodeId,
    /// The phase it ran in.
    pub phase: EventPhase,
    /// Its position among the handlers registered on the node's element.
    pub handler: usize,
}

/// The result of dispatching one event.
pub struct DispatchOutcome {
    /// The node the event was aimed at.
    pub target: NodeId,
    /// The handlers that ran, in order.
    pub invocations: Vec<Invocation>,
    /// Whether a handler marked the event handled.
    pub handled: bool,
    /// Whether a handler prevented default behavior.
    pub default_prevented: bool,
    /// Whether a handler stopped propagation.
    pub propagation_stopped: bool,
}

/// The path from the top of `forest` down to the first node, in depth-first
/// order, whose identity is `target`, each with the element in its place in
/// `views`.
pub open spec fn route_in(forest: Seq<RetainedNode>, views: Seq<Element>, target: NodeId) -> Option<
    Seq<(NodeId, Element)>,
>
    decreases forest,
{
    if forest.len() == 0 || views.len() == 0 {
        None
    } else {
        proof {
            assert(decreases_to!(forest => forest[0]));
        }
        if forest[0].id == target {
            Some(seq![(target, views[0])])
        } else {
            match route_in(forest[0].children@, views[0].children@, target) {
                Some(below) => Some(seq![(forest[0].id, views[0])] + below),
                None => route_in(forest.drop_first(), views.drop_first(), target),
            }
        }
    }
}

/// Whether `view` has the shape of the retained `node`: the same kind and
/// key, and children of the same shape, one for one.
pub open spec fn same_shape(nodes: Seq<RetainedNode>, views: Seq<Element>) -> bool
    decreases nodes,
{
    &&& nodes.len() == views.len()
    &&& nodes.len() > 0 ==> {
        proof {
            assert(decreases_to!(nodes => nodes[0]));
        }
        &&& nodes[0].kind == views[0].kind
        &&& same_key(nodes[0].key, views[0].key)
        &&& same_shape(nodes[0].children@, views[0].children@)
        &&& same_shape(nodes.drop_first(), views.drop_first())
    }
}

/// The handler runs for `phase` at `node`, from handler `from` on.
pub open spec fn calls_at(node: NodeId, handlers: Seq<EventPhase>, phase: EventPhase, from: int) -> Seq<
    Invocation,
>
    decreases handlers.len() - from,
{
    if from < 0 || from >= handlers.len() {
        Seq::empty()
    } else {
        (if handlers[from] == phase {
            seq![(Invocation { node, phase, handler: from as usize })]
        } else {
            Seq::empty()
        }) + calls_at(node, handlers, phase, from + 1)
    }
}

/// Capture-phase runs along `route` from position `from` down to the target.
pub open spec fn capture_calls(route: Seq<(NodeId, Element)>, from: int) -> Seq<Invocation>
    decreases route.len() - from,
{
    if from < 0 || from >= route.len() {
        Seq::empty()
    } else {
        calls_at(route[from].0, route[from].1.handlers@, EventPhase::Capture, 0) + capture_calls(
            route,
            from + 1,
        )
    }
}

/// Bubble-phase runs along the first `count` nodes of `route`, from the
/// deepest up to the root.
pub open spec fn bubble_calls(route: Seq<(NodeId, Element)>, count: int) -> Seq<Invocation>
    decreases count,
{
    if count <= 0 || count > route.len() {
        Seq::empty()
    } else {
        calls_at(route[count - 1].0, route[count - 1].1.handlers@, EventPhase::Bubble, 0)
            + bubble_calls(route, count - 1)
    }
}

/// Every handler run of an event along `route`, in order, as if none stopped
/// propagation: capture from the root down, the target's own handlers, then
/// bubble from the target up.
pub open spec fn dispatch_calls(route: Seq<(NodeId, Element)>) -> Seq<Invocation> {
    capture_calls(route, 0) + calls_at(
        route.last().0,
        route.last().1.handlers@,
        EventPhase::Target,
        0,
    ) + bubble_calls(route, route.len() as int)
}

/// How many of `count` handler runs happen, from run `from` on, when run
/// `k` reports `outcome_at(outcomes, k)`: up to and including the first that
/// stops propagation.
pub open spec fn runs_until_stop(count: int, outcomes: Seq<HandlerOutcome>, from: int) -> int
    decreases count - from,
{
    if from < 0 || from >= count {
        count
    } else if outcome_at(outcomes, from).stop {
        from + 1
    } else {
        runs_until_stop(count, outcomes, from + 1)
    }
}

/// Pointer capture after the requests of the first `ran` of `calls`.
pub open spec fn capture_after(
    initial: Option<NodeId>,
    calls: Seq<Invocation>,
    outcomes: Seq<HandlerOutcome>,
    ran: int,
) -> Option<NodeId>
    decreases ran,
{
    if ran <= 0 {
        initial
    } else {
        let before = capture_after(initial, calls, outcomes, ran - 1);
        let outcome = outcome_at(outcomes, ran - 1);
        if outcome.capture_pointer {
            Some(calls[ran - 1].node)
        } else if outcome.release_pointer {
            None
        } else {
            before
        }
    }
}

/// Nodes of `forest` whose element in `views` can take focus, in depth-first order.
pub open spec fn focus_order(forest: Seq<RetainedNode>, views: Seq<Element>) -> Seq<NodeId>
    decreases forest,
{
    if forest.len() == 0 || views.len() == 0 {
        Seq::empty()
    } else {
        proof {
            assert(decreases_to!(forest => forest[0]));
        }
        (if views[0].focusable {
            seq![forest[0].id]
        } else {
            Seq::empty()
        }) + focus_order(forest[0].children@, views[0].children@) + focus_order(
            forest.drop_first(),
            views.drop_first(),
        )
    }
}

/// Position of the first `node` in `order`, if any.
pub open spec fn first_index(order: Seq<NodeId>, node: NodeId) -> Option<int>
    decreases order.len(),
{
    if order.len() == 0 {
        None
    } else if order[0] == node {
        Some(0)
    } else {
        match first_index(order.drop_first(), node) {
            Some(at) => Some(at + 1),
            None => None,
        }
    }
}

/// Focus after Tab (or Shift+Tab when `reverse`) among `order`: the next
/// (previous) focusable node after the focused one, wrapping around; the
/// first (last) when nothing focusable is focused; unchanged when nothing can
/// take focus.
pub open spec fn traversed(order: Seq<NodeId>, focused: Option<NodeId>, reverse: bool) -> Option<NodeId> {
    if order.len() == 0 {
        focused
    } else {
        match focused {
            Some(node) if first_index(order, node) is Some => {
                let at = first_index(order, node)->0;
                if reverse {
                    Some(order[(at + order.len() - 1) % (order.len() as int)])
                } else {
                    Some(order[(at + 1) % (order.len() as int)])
                }
            },
            _ => if reverse {
                Some(order.last())
            } else {
                Some(order[0])
            },
        }
    }
}

/// The deepest node of `route` whose element can take focus.
pub open spec fn nearest_focusable(route: Seq<(NodeId, Element)>) -> Option<NodeId>
    decreases route.len(),
{
    if route.len() == 0 {
        None
    } else if route.last().1.focusable {
        Some(route.last().0)
    } else {
        nearest_focusable(route.drop_last())
    }
}

/// A found path starts somewhere and ends at its target.
proof fn lemma_route_ends_at_target(forest: Seq<RetainedNode>, views: Seq<Element>, target: NodeId)
    ensures
        route_in(forest, views, target) matches Some(route) ==> route.len() > 0 && route.last().0
            == target,
    decreases forest,
{
    if forest.len() > 0 && views.len() > 0 {
        assert(decreases_to!(forest => forest[0]));
        lemma_route_ends_at_target(forest[0].children@, views[0].children@, target);
        lemma_route_ends_at_target(forest.drop_first(), views.drop_first(), target);
        if forest[0].id != target {
            if let Some(below) = route_in(forest[0].children@, views[0].children@, target) {
                assert((seq![(forest[0].id, views[0])] + below).last() == below.last());
            }
        }
    }
}

/// Searching a forest searches its first tree, then the rest.
proof fn lemma_route_first(forest: Seq<RetainedNode>, views: Seq<Element>, target: NodeId)
    requires
        forest.len() > 0,
        views.len() > 0,
    ensures
        route_in(forest, views, target) == match route_in(seq![forest[0]], seq![views[0]], target) {
            Some(route) => Some(route),
            None => route_in(forest.drop_first(), views.drop_first(), target),
        },
{
    let one = seq![forest[0]];
    let view = seq![views[0]];
    assert(one[0] == forest[0]);
    assert(view[0] == views[0]);
    assert(one.drop_first() =~= Seq::<RetainedNode>::empty());
    assert(view.drop_first() =~= Seq::<Element>::empty());
    assert(route_in(one.drop_first(), view.drop_first(), target) is None);
}

/// The path from `node` down to the first node with identity `target`, each
/// with the element in its place in `view`.
fn find_route<'a>(node: &RetainedNode, view: &'a Element, target: NodeId) -> (route: Option<
    Vec<(NodeId, &'a Element)>,
>)
    ensures
        match route {
            Some(found) => route_in(seq![*node], seq![*view], target) == Some(
                found@.map_values(|step: (NodeId, &Element)| (step.0, *step.1)),
            ),
            None => route_in(seq![*node], seq![*view], target) is None,
        },
    decreases node,
{
    proof {
        assert(seq![*node][0] == *node);
        assert(seq![*view][0] == *view);
        assert(seq![*node].drop_first() =~= Seq::<RetainedNode>::empty());
        assert(seq![*view].drop_first() =~= Seq::<Element>::empty());
    }
    if node.id == target {
        let mut route: Vec<(NodeId, &'a Element)> = Vec::new();
        route.push((target, view));
        proof {
            assert(route@.map_values(|step: (NodeId, &Element)| (step.0, *step.1)) =~= seq![
                (target, *view),
            ]);
        }
        return Some(route);
    }
    let kids = &node.children;
    let views = &view.children;
    let ghost all = kids@;
    let ghost vs = views@;
    let mut index: usize = 0;
    proof {
        assert(all.subrange(0, all.len() as int) =~= all);
        assert(vs.subrange(0, vs.len() as int) =~= vs);
    }
    while index < kids.len() && index < views.len()
        invariant
            kids@ == all,
            views@ == vs,
            all == node.children@,
            vs == view.children@,
            node.id != target,
            0 <= index <= all.len(),
            index <= vs.len(),
            route_in(all, vs, target) == route_in(
                all.subrange(index as int, all.len() as int),
                vs.subrange(index as int, vs.len() as int),
                target,
            ),
        decreases all.len() - index,
    {
        let ghost rest = all.subrange(index as int, all.len() as int);
        let ghost rest_views = vs.subrange(index as int, vs.len() as int);
        proof {
            assert(decreases_to!(node => node.children));
            assert(decreases_to!(node.children => node.children@));
            assert(decreases_to!(node.children@ => node.children@[index as int]));
            lemma_route_first(rest, rest_views, target);
            assert(rest[0] == all[index as int]);
            assert(rest_views[0] == vs[index as int]);
            assert(rest.drop_first() =~= all.subrange(index + 1, all.len() as int));
            assert(rest_views.drop_first() =~= vs.subrange(index + 1, vs.len() as int));
        }
        match find_route(&kids[index], &views[index], target) {
            Some(below) => {
                let mut route: Vec<(NodeId, &'a Element)> = Vec::new();
                route.push((node.id, view));
                let mut k: usize = 0;
                while k < below.len()
                    invariant
                        0 <= k <= below@.len(),
                        route@ =~= seq![(node.id, view)] + below@.subrange(0, k as int),
                    decreases below@.len() - k,
                {
                    route.push(below[k]);
                    k += 1;
                }
                proof {
                    let deref = |step: (NodeId, &Element)| (step.0, *step.1);
                    assert(below@.subrange(0, below@.len() as int) =~= below@);
                    assert(route@.map_values(deref) =~= seq![(node.id, *view)] + below@.map_values(deref));
                }
                return Some(route);
            },
            None => {},
        }
        index += 1;
    }
    proof {
        let rest = all.subrange(index as int, all.len() as int);
        let rest_views = vs.subrange(index as int, vs.len() as int);
        assert(rest.len() == 0 || rest_views.len() == 0);
        assert(route_in(all, vs, target) is None);
        assert(seq![*node][0] == *node);
        assert(seq![*view][0] == *view);
        assert(seq![*node].drop_first() =~= Seq::<RetainedNode>::empty());
        assert(seq![*view].drop_first() =~= Seq::<Element>::empty());
        assert(route_in(Seq::<RetainedNode>::empty(), Seq::<Element>::empty(), target) is None);
    }
    None
}

/// Whether `view` has the shape of the retained `node`.
fn shape_matches(node: &RetainedNode, view: &Element) -> (same: bool)
    ensures
        same == same_shape(seq![*node], seq![*view]),
    decreases node,
{
    proof {
        assert(seq![*node][0] == *node);
        assert(seq![*view][0] == *view);
        assert(seq![*node].drop_first() =~= Seq::<RetainedNode>::empty());
        assert(seq![*view].drop_first() =~= Seq::<Element>::empty());
        assert(same_shape(Seq::<RetainedNode>::empty(), Seq::<Element>::empty()));
    }
    if node.kind != view.kind || !keys_match(&node.key, &view.key) {
        return false;
    }
    let kids = &node.children;
    let views = &view.children;
    if kids.len() != views.len() {
        proof {
            assert(!same_shape(node.children@, view.children@));
        }
        return false;
    }
    let ghost all = kids@;
    let ghost vs = views@;
    let mut index: usize = 0;
    proof {
        assert(all.subrange(0, all.len() as int) =~= all);
        assert(vs.subrange(0, vs.len() as int) =~= vs);
    }
    while index < kids.len()
        invariant
            kids@ == all,
            views@ == vs,
            all == node.children@,
            vs == view.children@,
            all.len() == vs.len(),
            0 <= index <= all.len(),
            same_shape(all, vs) == same_shape(
                all.subrange(index as int, all.len() as int),
                vs.subrange(index as int, vs.len() as int),
            ),
        decreases all.len() - index,
    {
        let ghost rest = all.subrange(index as int, all.len() as int);
        let ghost rest_views = vs.subrange(index as int, vs.len() as int);
        proof {
            assert(decreases_to!(node => node.children));
            assert(decreases_to!(node.children => node.children@));
            assert(decreases_to!(node.children@ => node.children@[index as int]));
            assert(rest[0] == all[index as int]);
            assert(rest_views[0] == vs[index as int]);
            assert(rest.drop_first() =~= all.subrange(index + 1, all.len() as int));
            assert(rest_views.drop_first() =~= vs.subrange(index + 1, vs.len() as int));
            let one = seq![all[index as int]];
            let one_view = seq![vs[index as int]];
            assert(one[0] == all[index as int]);
            assert(one_view[0] == vs[index as int]);
            assert(one.drop_first() =~= Seq::<RetainedNode>::empty());
            assert(one_view.drop_first() =~= Seq::<Element>::empty());
        }
        if !shape_matches(&kids[index], &views[index]) {
            proof {
                let one = seq![all[index as int]];
                let one_view = seq![vs[index as int]];
                assert(one[0] == all[index as int]);
                assert(one_view[0] == vs[index as int]);
                assert(one.drop_first() =~= Seq::<RetainedNode>::empty());
                assert(one_view.drop_first() =~= Seq::<Element>::empty());
                assert(same_shape(one.drop_first(), one_view.drop_first()));
                assert(same_shape(seq![all[index as int]], seq![vs[index as int]]) == (all[index as int].kind
                    == vs[index as int].kind && same_key(all[index as int].key, vs[index as int].key)
                    && same_shape(all[index as int].children@, vs[index as int].children@)));
                assert(!same_shape(rest, rest_views));
                assert(!same_shape(node.children@, view.children@));
                assert(seq![*node][0] == *node);
                assert(seq![*view][0] == *view);
            }
            return false;
        }
        index += 1;
    }
    proof {
        assert(all.subrange(index as int, all.len() as int) =~= Seq::<RetainedNode>::empty());
        assert(vs.subrange(index as int, vs.len() as int) =~= Seq::<Element>::empty());
    }
    true
}

/// Appends the runs of `node`'s handlers registered for `phase`.
fn push_calls(calls: &mut Vec<Invocation>, node: NodeId, handlers: &Vec<EventPhase>, phase: EventPhase)
    ensures
        final(calls)@ == old(calls)@ + calls_at(node, handlers@, phase, 0),
{
    let ghost start = calls@;
    let mut index: usize = 0;
    proof {
        assert(start + calls_at(node, handlers@, phase, 0) =~= start + calls_at(node, handlers@, phase, 0));
    }
    while index < handlers.len()
        invariant
            0 <= index <= handlers@.len(),
            calls@ + calls_at(node, handlers@, phase, index as int) == start + calls_at(
                node,
                handlers@,
                phase,
                0,
            ),
        decreases handlers@.len() - index,
    {
        let ghost before = calls@;
        if handlers[index] == phase {
            calls.push(Invocation { node, phase, handler: index });
        }
        proof {
            let here = if handlers@[index as int] == phase {
                seq![(Invocation { node, phase, handler: index })]
            } else {
                Seq::<Invocation>::empty()
            };
            let later = calls_at(node, handlers@, phase, index + 1);
            assert(calls_at(node, handlers@, phase, index as int) == here + later);
            assert(calls@ == before + here);
            assert(before + (here + later) =~= calls@ + later);
        }
        index += 1;
    }
    proof {
        assert(calls_at(node, handlers@, phase, index as int) =~= Seq::<Invocation>::empty());
        assert(calls@ + Seq::<Invocation>::empty() =~= calls@);
    }
}

/// The route with each element read through its reference.
pub open spec fn route_view(route: Seq<(NodeId, &Element)>) -> Seq<(NodeId, Element)> {
    route.map_values(|step: (NodeId, &Element)| (step.0, *step.1))
}

/// Every handler run of an event along `route`, as if none stopped propagation.
fn build_calls(route: &Vec<(NodeId, &Element)>) -> (calls: Vec<Invocation>)
    requires
        route@.len() > 0,
    ensures
        calls@ == dispatch_calls(route_view(route@)),
{
    let ghost steps = route_view(route@);
    let n = route.len();
    let mut calls: Vec<Invocation> = Vec::new();
    let mut i: usize = 0;
    while i < n
        invariant
            n == route@.len(),
            steps == route_view(route@),
            0 <= i <= n,
            calls@ + capture_calls(steps, i as int) == capture_calls(steps, 0),
        decreases n - i,
    {
        let (node, element) = route[i];
        let ghost before = calls@;
        push_calls(&mut calls, node, &element.handlers, EventPhase::Capture);
        proof {
            assert(steps[i as int] == (node, *element));
            assert(capture_calls(steps, i as int) == calls_at(node, element.handlers@, EventPhase::Capture, 0)
                + capture_calls(steps, i + 1));
            assert(before + (calls_at(node, element.handlers@, EventPhase::Capture, 0) + capture_calls(steps, i + 1))
                =~= calls@ + capture_calls(steps, i + 1));
        }
        i += 1;
    }
    proof {
        assert(capture_calls(steps, n as int) =~= Seq::<Invocation>::empty());
        assert(calls@ + Seq::<Invocation>::empty() =~= calls@);
    }
    let ghost captured = calls@;
    let (target, element) = route[n - 1];
    push_calls(&mut calls, target, &element.handlers, EventPhase::Target);
    proof {
        assert(steps.last() == (target, *element));
    }
    let ghost targeted = calls@;
    let mut j: usize = n;
    while j > 0
        invariant
            n == route@.len(),
            steps == route_view(route@),
            0 <= j <= n,
            calls@ + bubble_calls(steps, j as int) == targeted + bubble_calls(steps, n as int),
        decreases j,
    {
        let (node, element) = route[j - 1];
        let ghost before = calls@;
        push_calls(&mut calls, node, &element.handlers, EventPhase::Bubble);
        proof {
            assert(steps[j - 1] == (node, *element));
            assert(bubble_calls(steps, j as int) == calls_at(node, element.handlers@, EventPhase::Bubble, 0)
                + bubble_calls(steps, j - 1));
            assert(before + (calls_at(node, element.handlers@, EventPhase::Bubble, 0) + bubble_calls(steps, j - 1))
                =~= calls@ + bubble_calls(steps, j - 1));
        }
        j -= 1;
    }
    proof {
        assert(bubble_calls(steps, 0) =~= Seq::<Invocation>::empty());
        assert(calls@ + Seq::<Invocation>::empty() =~= calls@);
    }
    calls
}

/// The focus order of a forest is that of its first tree, then the rest.
proof fn lemma_focus_order_first(forest: Seq<RetainedNode>, views: Seq<Element>)
    requires
        forest.len() > 0,
        views.len() > 0,
    ensures
        focus_order(forest, views) == focus_order(seq![forest[0]], seq![views[0]]) + focus_order(
            forest.drop_first(),
            views.drop_first(),
        ),
{
    let one = seq![forest[0]];
    let view = seq![views[0]];
    assert(one[0] == forest[0]);
    assert(view[0] == views[0]);
    assert(one.drop_first() =~= Seq::<RetainedNode>::empty());
    assert(view.drop_first() =~= Seq::<Element>::empty());
    let head = if views[0].focusable {
        seq![forest[0].id]
    } else {
        Seq::<NodeId>::empty()
    };
    let below = focus_order(forest[0].children@, views[0].children@);
    assert(focus_order(one.drop_first(), view.drop_first()) =~= Seq::<NodeId>::empty());
    assert(head + below + Seq::<NodeId>::empty() =~= head + below);
}

/// Appends the focusable nodes of `node` and below, in depth-first order.
fn collect_focus(node: &RetainedNode, view: &Element, order: &mut Vec<NodeId>)
    ensures
        final(order)@ == old(order)@ + focus_order(seq![*node], seq![*view]),
    decreases node,
{
    let ghost start = order@;
    proof {
        assert(seq![*node][0] == *node);
        assert(seq![*view][0] == *view);
        assert(seq![*node].drop_first() =~= Seq::<RetainedNode>::empty());
        assert(seq![*view].drop_first() =~= Seq::<Element>::empty());
        assert(focus_order(Seq::<RetainedNode>::empty(), Seq::<Element>::empty()) =~= Seq::<NodeId>::empty());
    }
    if view.focusable {
        order.push(node.id);
    }
    let ghost head = order@;
    let kids = &node.children;
    let views = &view.children;
    let ghost all = kids@;
    let ghost vs = views@;
    let mut index: usize = 0;
    proof {
        assert(all.subrange(0, all.len() as int) =~= all);
        assert(vs.subrange(0, vs.len() as int) =~= vs);
    }
    while index < kids.len() && index < views.len()
        invariant
            kids@ == all,
            views@ == vs,
            all == node.children@,
            vs == view.children@,
            0 <= index <= all.len(),
            index <= vs.len(),
            order@ + focus_order(
                all.subrange(index as int, all.len() as int),
                vs.subrange(index as int, vs.len() as int),
            ) == head + focus_order(all, vs),
        decreases all.len() - index,
    {
        let ghost rest = all.subrange(index as int, all.len() as int);
        let ghost rest_views = vs.subrange(index as int, vs.len() as int);
        let ghost before = order@;
        proof {
            assert(decreases_to!(node => node.children));
            assert(decreases_to!(node.children => node.children@));
            assert(decreases_to!(node.children@ => node.children@[index as int]));
            lemma_focus_order_first(rest, rest_views);
            assert(rest[0] == all[index as int]);
            assert(rest_views[0] == vs[index as int]);
            assert(rest.drop_first() =~= all.subrange(index + 1, all.len() as int));
            assert(rest_views.drop_first() =~= vs.subrange(index + 1, vs.len() as int));
        }
        collect_focus(&kids[index], &views[index], order);
        proof {
            let mine = focus_order(seq![all[index as int]], seq![vs[index as int]]);
            let later = focus_order(all.subrange(index + 1, all.len() as int), vs.subrange(index + 1, vs.len() as int));
            assert(before + (mine + later) =~= order@ + later);
        }
        index += 1;
    }
    proof {
        let rest = all.subrange(index as int, all.len() as int);
        let rest_views = vs.subrange(index as int, vs.len() as int);
        assert(focus_order(rest, rest_views) =~= Seq::<NodeId>::empty());
        assert(order@ + Seq::<NodeId>::empty() =~= order@);
        let mine = if view.focusable {
            seq![node.id]
        } else {
            Seq::<NodeId>::empty()
        };
        assert(head == start + mine);
        assert(start + (mine + focus_order(all, vs) + Seq::<NodeId>::empty()) =~= start + mine + focus_order(all, vs));
    }
}

/// Position of the first `node` in `order`, if any.
fn find_first(order: &Vec<NodeId>, node: NodeId) -> (at: Option<usize>)
    ensures
        match at {
            Some(i) => first_index(order@, node) == Some(i as int),
            None => first_index(order@, node) is None,
        },
{
    let mut i: usize = 0;
    proof {
        assert(order@.subrange(0, order@.len() as int) =~= order@);
    }
    while i < order.len()
        invariant
            0 <= i <= order@.len(),
            first_index(order@, node) == match first_index(order@.subrange(i as int, order@.len() as int), node) {
                Some(at) => Some(at + i),
                None => None::<int>,
            },
        decreases order@.len() - i,
    {
        let ghost rest = order@.subrange(i as int, order@.len() as int);
        proof {
            assert(rest[0] == order@[i as int]);
            assert(rest.drop_first() =~= order@.subrange(i + 1, order@.len() as int));
        }
        if order[i] == node {
            return Some(i);
        }
        i += 1;
    }
    proof {
        assert(order@.subrange(i as int, order@.len() as int) =~= Seq::<NodeId>::empty());
    }
    None
}

/// Focus after Tab or Shift+Tab among `order`.
fn traverse(order: &Vec<NodeId>, focused: Option<NodeId>, reverse: bool) -> (next: Option<NodeId>)
    ensures
        next == traversed(order@, focused, reverse),
{
    let n = order.len();
    if n == 0 {
        return focused;
    }
    let at = match focused {
        Some(node) => find_first(order, node),
        None => None,
    };
    match at {
        Some(at) => {
            proof {
                lemma_first_index_bound(order@, focused->0);
            }
            if reverse {
                let previous = if at == 0 {
                    n - 1
                } else {
                    at - 1
                };
                proof {
                    let len = order@.len() as int;
                    if at == 0 {
                        vstd::arithmetic::div_mod::lemma_small_mod((len - 1) as nat, len as nat);
                    } else {
                        vstd::arithmetic::div_mod::lemma_mod_add_multiples_vanish(at - 1, len);
                        vstd::arithmetic::div_mod::lemma_small_mod((at - 1) as nat, len as nat);
                        assert(at + len - 1 == (at - 1) + len);
                    }
                }
                Some(order[previous])
            } else {
                let following = if at + 1 == n {
                    0
                } else {
                    at + 1
                };
                proof {
                    let len = order@.len() as int;
                    if at + 1 == n {
                        vstd::arithmetic::div_mod::lemma_mod_self_0(len);
                    } else {
                        vstd::arithmetic::div_mod::lemma_small_mod((at + 1) as nat, len as nat);
                    }
                }
                Some(order[following])
            }
        },
        None => {
            if reverse {
                Some(order[n - 1])
            } else {
                Some(order[0])
            }
        },
    }
}

/// A found position lies in the order and holds the node.
proof fn lemma_first_index_bound(order: Seq<NodeId>, node: NodeId)
    ensures
        first_index(order, node) matches Some(at) ==> 0 <= at < order.len() && order[at] == node,
    decreases order.len(),
{
    if order.len() > 0 && order[0] != node {
        lemma_first_index_bound(order.drop_first(), node);
    }
}

/// The interactive node a hit map shows at `position`, if it is retained.
pub open spec fn hit_node(root: RetainedNode, view: Element, map: HitMap, position: Point) -> Option<
    NodeId,
> {
    match hit_at(map, position) {
        Some(node) => match route_in(seq![root], seq![view], node) {
            Some(route) => if route.last().1.interactive {
                Some(node)
            } else {
                None
            },
            None => None,
        },
        None => None,
    }
}

/// `node`, if the tree retains it.
pub open spec fn retained_node(root: RetainedNode, view: Element, node: Option<NodeId>) -> Option<
    NodeId,
> {
    match node {
        Some(found) => if route_in(seq![root], seq![view], found) is Some {
            Some(found)
        } else {
            None
        },
        None => None,
    }
}

/// The node an event is aimed at: for a drag or release the node holding
/// pointer capture, if retained; for other pointer events, and a drag or
/// release without capture, the interactive node under the pointer; for key,
/// text and paste events the focused node, if retained; the root otherwise.
pub open spec fn event_target(
    root: RetainedNode,
    view: Element,
    event: UiEvent,
    map: HitMap,
    focused: Option<NodeId>,
    captured: Option<NodeId>,
) -> NodeId {
    match event {
        UiEvent::Pointer { kind, position } => {
            let held = if kind == PointerKind::Drag || kind == PointerKind::Up {
                retained_node(root, view, captured)
            } else {
                None
            };
            match held {
                Some(node) => node,
                None => match hit_node(root, view, map, position) {
                    Some(node) => node,
                    None => root.id,
                },
            }
        },
        UiEvent::Key(_) | UiEvent::Text | UiEvent::Paste => match retained_node(root, view, focused) {
            Some(node) => node,
            None => root.id,
        },
        UiEvent::Tick => root.id,
    }
}

/// Focus after an event's default behavior: Tab and Shift+Tab move focus
/// through the focusable nodes, a pointer press focuses the deepest
/// focusable node on the route; nothing changes when a handler prevented
/// default behavior.
pub open spec fn focus_after(
    root: RetainedNode,
    view: Element,
    event: UiEvent,
    route: Seq<(NodeId, Element)>,
    focused: Option<NodeId>,
    prevented: bool,
) -> Option<NodeId> {
    if prevented {
        focused
    } else {
        match event {
            UiEvent::Key(key) => if key.key == UiKey::Tab && key.press && !key.other_modifiers {
                traversed(focus_order(seq![root], seq![view]), focused, key.shift)
            } else {
                focused
            },
            UiEvent::Pointer { kind, .. } => if kind == PointerKind::Down {
                match nearest_focusable(route) {
                    Some(node) => Some(node),
                    None => focused,
                }
            } else {
                focused
            },
            _ => focused,
        }
    }
}

/// Hover after an event: a pointer event hovers the interactive node under
/// the pointer, if any.
pub open spec fn hover_after(
    root: RetainedNode,
    view: Element,
    event: UiEvent,
    map: HitMap,
    hovered: Option<NodeId>,
) -> Option<NodeId> {
    match event {
        UiEvent::Pointer { position, .. } => hit_node(root, view, map, position),
        _ => hovered,
    }
}

/// The interactive node a hit map shows at `position`, if it is retained.
fn hit_test(root: &RetainedNode, view: &Element, map: &HitMap, position: Point) -> (hit: Option<NodeId>)
    ensures
        hit == hit_node(*root, *view, *map, position),
{
    if position.x < 0 || position.y < 0 || position.x >= map.width as i32 || position.y
        >= map.height as i32 {
        return None;
    }
    let x = position.x as usize;
    let y = position.y as usize;
    let width = map.width as usize;
    assert(y * width + x <= 0xffff * 0xffff + 0xffff) by (nonlinear_arith)
        requires
            y < 0x10000,
            width <= 0xffff,
            x <= 0xffff,
            y <= 0xffff,
    ;
    let index = y * width + x;
    if index >= map.cells.len() {
        return None;
    }
    match map.cells[index] {
        Some(node) => match find_route(root, view, node) {
            Some(route) => {
                proof {
                    lemma_route_ends_at_target(seq![*root], seq![*view], node);
                }
                let last = route.len() - 1;
                if route[last].1.interactive {
                    Some(node)
                } else {
                    None
                }
            },
            None => None,
        },
        None => None,
    }
}

/// `node`, if the tree retains it.
fn retained_only(root: &RetainedNode, view: &Element, node: Option<NodeId>) -> (kept: Option<NodeId>)
    ensures
        kept == retained_node(*root, *view, node),
{
    match node {
        Some(found) => if find_route(root, view, found).is_some() {
            Some(found)
        } else {
            None
        },
        None => None,
    }
}

/// The deepest node of `route` whose element can take focus.
fn deepest_focusable(route: &Vec<(NodeId, &Element)>) -> (found: Option<NodeId>)
    ensures
        found == nearest_focusable(route_view(route@)),
{
    let ghost steps = route_view(route@);
    let mut count = route.len();
    proof {
        assert(steps.subrange(0, count as int) =~= steps);
    }
    while count > 0
        invariant
            0 <= count <= route@.len(),
            steps == route_view(route@),
            nearest_focusable(steps) == nearest_focusable(steps.subrange(0, count as int)),
        decreases count,
    {
        let prefix = Ghost(steps.subrange(0, count as int));
        proof {
            assert(prefix@.last() == steps[count - 1]);
            assert(prefix@.drop_last() =~= steps.subrange(0, count - 1));
        }
        if route[count - 1].1.focusable {
            return Some(route[count - 1].0);
        }
        count -= 1;
    }
    proof {
        assert(steps.subrange(0, 0) =~= Seq::<(NodeId, Element)>::empty());
    }
    None
}

/// What running handlers in order gave: the runs that happened, the flags
/// they raised, and pointer capture afterwards.
struct Runs {
    invocations: Vec<Invocation>,
    handled: bool,
    default_prevented: bool,
    propagation_stopped: bool,
    capture: Option<NodeId>,
}

/// Runs `calls` in order, run `k` reporting `outcomes[k]`, until one stops
/// propagation.
fn run_handlers(calls: &Vec<Invocation>, outcomes: &Vec<HandlerOutcome>, initial: Option<NodeId>) -> (runs: Runs)
    ensures
        ({
            let ran = runs_until_stop(calls@.len() as int, outcomes@, 0);
            &&& runs.invocations@ == calls@.subrange(0, ran)
            &&& runs.handled == exists|k: int| 0 <= k < ran && #[trigger] outcome_at(outcomes@, k).handled
            &&& runs.default_prevented == exists|k: int|
                0 <= k < ran && #[trigger] outcome_at(outcomes@, k).prevent_default
            &&& runs.propagation_stopped == exists|k: int|
                0 <= k < ran && #[trigger] outcome_at(outcomes@, k).stop
            &&& runs.capture == capture_after(initial, calls@, outcomes@, ran)
        }),
{
    let n = calls.len();
    let mut invocations: Vec<Invocation> = Vec::new();
    let mut handled = false;
    let mut prevented = false;
    let mut stopped = false;
    let mut capture = initial;
    let mut ran: usize = 0;
    while ran < n && !stopped
        invariant
            n == calls@.len(),
            0 <= ran <= n,
            invocations@ == calls@.subrange(0, ran as int),
            handled == exists|k: int| 0 <= k < ran && #[trigger] outcome_at(outcomes@, k).handled,
            prevented == exists|k: int| 0 <= k < ran && #[trigger] outcome_at(outcomes@, k).prevent_default,
            stopped == exists|k: int| 0 <= k < ran && #[trigger] outcome_at(outcomes@, k).stop,
            stopped ==> ran > 0 && outcome_at(outcomes@, ran - 1).stop,
            stopped ==> runs_until_stop(n as int, outcomes@, 0) == ran,
            !stopped ==> runs_until_stop(n as int, outcomes@, 0) == runs_until_stop(n as int, outcomes@, ran as int),
            capture == capture_after(initial, calls@, outcomes@, ran as int),
        decreases n - ran,
    {
        let outcome = if ran < outcomes.len() {
            outcomes[ran]
        } else {
            HandlerOutcome {
                handled: false,
                prevent_default: false,
                stop: false,
                capture_pointer: false,
                release_pointer: false,
            }
        };
        proof {
            assert(outcome == outcome_at(outcomes@, ran as int));
        }
        invocations.push(calls[ran]);
        handled = handled || outcome.handled;
        prevented = prevented || outcome.prevent_default;
        if outcome.capture_pointer {
            capture = Some(calls[ran].node);
        } else if outcome.release_pointer {
            capture = None;
        }
        if outcome.stop {
            stopped = true;
        }
        ran += 1;
        proof {
            assert(invocations@ =~= calls@.subrange(0, ran as int));
            if outcome_at(outcomes@, ran - 1).handled {
                assert(outcome_at(outcomes@, ran - 1).handled);
            }
            assert(handled == exists|k: int| 0 <= k < ran && #[trigger] outcome_at(outcomes@, k).handled) by {
                if handled && !outcome.handled {
                    let k = choose|k: int| 0 <= k < ran - 1 && #[trigger] outcome_at(outcomes@, k).handled;
                }
                if outcome.handled {
                    assert(outcome_at(outcomes@, ran - 1).handled);
                }
            }
            assert(prevented == exists|k: int| 0 <= k < ran && #[trigger] outcome_at(outcomes@, k).prevent_default) by {
                if outcome.prevent_default {
                    assert(outcome_at(outcomes@, ran - 1).prevent_default);
                }
            }
            assert(stopped == exists|k: int| 0 <= k < ran && #[trigger] outcome_at(outcomes@, k).stop) by {
                if outcome.stop {
                    assert(outcome_at(outcomes@, ran - 1).stop);
                }
            }
        }
    }
    proof {
        if !stopped {
            assert(ran == n);
        }
    }
    Runs { invocations, handled, default_prevented: prevented, propagation_stopped: stopped, capture }
}

impl UiTree {
    /// Records that the current tree was committed with renderer `state`;
    /// the work it requested is done.
    pub fn commit(&mut self, state: RendererStateId)
        ensures
            final(self).committed_state() == Some(state),
            final(self).pending_work() == Invalidation::Nothing,
            final(self).retained() == old(self).retained(),
            final(self).next_identity() == old(self).next_identity(),
            final(self).focus() == old(self).focus(),
            final(self).hover() == old(self).hover(),
            final(self).capture() == old(self).capture(),
    {
        self.committed = Some(state);
        self.pending = Invalidation::Nothing;
    }

    /// The focused node, if any.
    pub fn focused(&self) -> (focused: Option<NodeId>)
        ensures
            focused == self.focus(),
    {
        self.focused
    }

    /// The node under the pointer, if any.
    pub fn hovered(&self) -> (hovered: Option<NodeId>)
        ensures
            hovered == self.hover(),
    {
        self.hovered
    }

    /// The node holding pointer capture, if any.
    pub fn captured_pointer(&self) -> (captured: Option<NodeId>)
        ensures
            captured == self.capture(),
    {
        self.captured
    }

    /// Dispatches `event` through the committed tree, whose current view is
    /// `view`, with the handler run `k` reporting `outcomes[k]` (or nothing
    /// beyond the end).
    ///
    /// The renderer state must be the one the tree was committed with, the
    /// view free of repeated sibling keys and of the committed tree's shape;
    /// otherwise the matching error comes back and nothing changes. The event
    /// goes to its target (see [`event_target`]); its handlers run in capture,
    /// target and bubble order along the route from the root, up to and
    /// including the first that stops propagation. Unless a handler prevented
    /// default behavior, Tab moves focus and a pointer press focuses the
    /// deepest focusable node on the route, and a change of focus asks for a
    /// repaint; pointer events update hover, and handler requests update
    /// pointer capture, in order.
    pub fn dispatch(
        &mut self,
        view: &Element,
        event: &UiEvent,
        hit_map: &HitMap,
        renderer: RendererStateId,
        outcomes: &Vec<HandlerOutcome>,
    ) -> (result: Result<DispatchOutcome, ReconcileError>)
        ensures
            if old(self).committed_state() != Some(renderer) {
                &&& result matches Err(ReconcileError::WrongCommittedRenderer)
                &&& *final(self) == *old(self)
            } else {
                match first_duplicate(*view) {
                    Some(key) => {
                        &&& result matches Err(ReconcileError::DuplicateSiblingKey(found)) && found
                            == key
                        &&& *final(self) == *old(self)
                    },
                    None => match old(self).retained() {
                        Some(root) => if same_shape(seq![root], seq![*view]) {
                            let target = event_target(
                                root,
                                *view,
                                *event,
                                *hit_map,
                                old(self).focus(),
                                old(self).capture(),
                            );
                            let route = route_in(seq![root], seq![*view], target)->0;
                            let calls = dispatch_calls(route);
                            let ran = runs_until_stop(calls.len() as int, outcomes@, 0);
                            let prevented = exists|k: int|
                                0 <= k < ran && #[trigger] outcome_at(outcomes@, k).prevent_default;
                            &&& route_in(seq![root], seq![*view], target) is Some
                            &&& result matches Ok(outcome) && {
                                &&& outcome.target == target
                                &&& outcome.invocations@ == calls.subrange(0, ran)
                                &&& outcome.handled == exists|k: int|
                                    0 <= k < ran && #[trigger] outcome_at(outcomes@, k).handled
                                &&& outcome.default_prevented == prevented
                                &&& outcome.propagation_stopped == exists|k: int|
                                    0 <= k < ran && #[trigger] outcome_at(outcomes@, k).stop
                            }
                            &&& final(self).retained() == old(self).retained()
                            &&& final(self).next_identity() == old(self).next_identity()
                            &&& final(self).committed_state() == old(self).committed_state()
                            &&& final(self).focus() == focus_after(
                                root,
                                *view,
                                *event,
                                route,
                                old(self).focus(),
                                prevented,
                            )
                            &&& final(self).pending_work() == if final(self).focus() != old(
                                self,
                            ).focus() {
                                stronger(old(self).pending_work(), Invalidation::Paint)
                            } else {
                                old(self).pending_work()
                            }
                            &&& final(self).hover() == hover_after(
                                root,
                                *view,
                                *event,
                                *hit_map,
                                old(self).hover(),
                            )
                            &&& final(self).capture() == capture_after(
                                old(self).capture(),
                                calls,
                                outcomes@,
                                ran,
                            )
                        } else {
                            &&& result matches Err(ReconcileError::ViewDoesNotMatchCommittedTree)
                            &&& *final(self) == *old(self)
                        },
                        None => {
                            &&& result matches Err(ReconcileError::ViewDoesNotMatchCommittedTree)
                            &&& *final(self) == *old(self)
                        },
                    },
                }
            },
    {
        let committed_here = match self.committed {
            Some(state) => state == renderer,
            None => false,
        };
        if !committed_here {
            return Err(ReconcileError::WrongCommittedRenderer);
        }
        match validate_keys(view) {
            Ok(()) => {},
            Err(error) => {
                return Err(error);
            },
        }
        let root = match &self.root {
            Some(root) => root,
            None => {
                return Err(ReconcileError::ViewDoesNotMatchCommittedTree);
            },
        };
        if !shape_matches(root, view) {
            return Err(ReconcileError::ViewDoesNotMatchCommittedTree);
        }
        let target = match event {
            UiEvent::Pointer { kind, position } => {
                let held = if *kind == PointerKind::Drag || *kind == PointerKind::Up {
                    retained_only(root, view, self.captured)
                } else {
                    None
                };
                match held {
                    Some(node) => node,
                    None => match hit_test(root, view, hit_map, *position) {
                        Some(node) => node,
                        None => root.id,
                    },
                }
            },
            UiEvent::Key(_) | UiEvent::Text | UiEvent::Paste => match retained_only(root, view, self.focused) {
                Some(node) => node,
                None => root.id,
            },
            UiEvent::Tick => root.id,
        };
        proof {
            assert(seq![*root][0] == *root);
            assert(seq![*view][0] == *view);
        }
        let route = match find_route(root, view, target) {
            Some(route) => route,
            None => {
                return Err(ReconcileError::ViewDoesNotMatchCommittedTree);
            },
        };
        proof {
            lemma_route_ends_at_target(seq![*root], seq![*view], target);
        }
        let calls = build_calls(&route);
        let runs = run_handlers(&calls, outcomes, self.captured);
        let mut focused = self.focused;
        if !runs.default_prevented {
            match event {
                UiEvent::Key(key) => {
                    if key.key == UiKey::Tab && key.press && !key.other_modifiers {
                        let mut order: Vec<NodeId> = Vec::new();
                        collect_focus(root, view, &mut order);
                        proof {
                            assert(order@ =~= focus_order(seq![*root], seq![*view]));
                        }
                        focused = traverse(&order, focused, key.shift);
                    }
                },
                UiEvent::Pointer { kind, .. } => {
                    if *kind == PointerKind::Down {
                        match deepest_focusable(&route) {
                            Some(node) => {
                                focused = Some(node);
                            },
                            None => {},
                        }
                    }
                },
                _ => {},
            }
        }
        let hovered = match event {
            UiEvent::Pointer { position, .. } => hit_test(root, view, hit_map, *position),
            _ => self.hovered,
        };
        let outcome = DispatchOutcome {
            target,
            invocations: runs.invocations,
            handled: runs.handled,
            default_prevented: runs.default_prevented,
            propagation_stopped: runs.propagation_stopped,
        };
        if focused != self.focused {
            self.pending.request(Invalidation::Paint);
        }
        self.focused = focused;
        self.hovered = hovered;
        self.captured = runs.capture;
        Ok(outcome)
    }
}

/// In a focus order without repeats, a node's first position is its position.
proof fn lemma_first_index_distinct(order: Seq<NodeId>, i: int)
    requires
        0 <= i < order.len(),
        forall|a: int, b: int| 0 <= a < b < order.len() ==> order[a] != order[b],
    ensures
        first_index(order, order[i]) == Some(i),
    decreases i,
{
    if i > 0 {
        let rest = order.drop_first();
        assert(rest[i - 1] == order[i]);
        assert forall|a: int, b: int| 0 <= a < b < rest.len() implies rest[a] != rest[b] by {
            assert(rest[a] == order[a + 1] && rest[b] == order[b + 1]);
        }
        lemma_first_index_distinct(rest, i - 1);
        assert(order[0] != order[i]);
    }
}

/// Tab moves focus to the next focusable node and Shift+Tab to the previous
/// one, each wrapping around the ends of the order; from no focus, Tab
/// takes the first node and Shift+Tab the last. So Shift+Tab undoes Tab and
/// Tab undoes Shift+Tab.
pub proof fn lemma_tab_and_shift_tab_are_inverse(order: Seq<NodeId>, i: int)
    requires
        0 <= i < order.len(),
        forall|a: int, b: int| 0 <= a < b < order.len() ==> order[a] != order[b],
    ensures
        traversed(order, Some(order[i]), false) == Some(
            order[if i + 1 == order.len() {
                0
            } else {
                i + 1
            }],
        ),
        traversed(order, Some(order[i]), true) == Some(
            order[if i == 0 {
                order.len() - 1
            } else {
                i - 1
            }],
        ),
        traversed(order, traversed(order, Some(order[i]), false), true) == Some(order[i]),
        traversed(order, traversed(order, Some(order[i]), true), false) == Some(order[i]),
        traversed(order, None, false) == Some(order[0]),
        traversed(order, None, true) == Some(order[order.len() - 1]),
{
    let n = order.len() as int;
    let next = if i + 1 == n {
        0
    } else {
        i + 1
    };
    let previous = if i == 0 {
        n - 1
    } else {
        i - 1
    };
    lemma_first_index_distinct(order, i);
    lemma_first_index_distinct(order, next);
    lemma_first_index_distinct(order, previous);
    if i + 1 == n {
        vstd::arithmetic::div_mod::lemma_mod_self_0(n);
    } else {
        vstd::arithmetic::div_mod::lemma_small_mod((i + 1) as nat, n as nat);
    }
    if i == 0 {
        vstd::arithmetic::div_mod::lemma_small_mod((n - 1) as nat, n as nat);
    } else {
        vstd::arithmetic::div_mod::lemma_mod_add_multiples_vanish(i - 1, n);
        vstd::arithmetic::div_mod::lemma_small_mod((i - 1) as nat, n as nat);
        assert(i + n - 1 == (i - 1) + n);
    }
    // From `next`, one step back.
    if next == 0 {
        vstd::arithmetic::div_mod::lemma_small_mod((n - 1) as nat, n as nat);
    } else {
        vstd::arithmetic::div_mod::lemma_mod_add_multiples_vanish(next - 1, n);
        vstd::arithmetic::div_mod::lemma_small_mod((next - 1) as nat, n as nat);
        assert(next + n - 1 == (next - 1) + n);
    }
    // From `previous`, one step forward.
    if previous + 1 == n {
        vstd::arithmetic::div_mod::lemma_mod_self_0(n);
    } else {
        vstd::arithmetic::div_mod::lemma_small_mod((previous + 1) as nat, n as nat);
    }
}

/// Whether a handler outcome asks to take or release pointer capture.
pub open spec fn touches_capture(outcome: HandlerOutcome) -> bool {
    outcome.capture_pointer || outcome.release_pointer
}

/// Pointer capture after the handler runs follows the last run that asked to
/// take or release it: the node of that run when it took capture, nothing
/// when it released it, and the capture from before when no run asked.
pub proof fn lemma_capture_follows_last_request(
    initial: Option<NodeId>,
    calls: Seq<Invocation>,
    outcomes: Seq<HandlerOutcome>,
    ran: int,
)
    requires
        0 <= ran,
    ensures
        (forall|k: int| 0 <= k < ran ==> !touches_capture(#[trigger] outcome_at(outcomes, k)))
            ==> capture_after(initial, calls, outcomes, ran) == initial,
        forall|k: int|
            0 <= k < ran && touches_capture(#[trigger] outcome_at(outcomes, k)) && (forall|j: int|
                k < j < ran ==> !touches_capture(#[trigger] outcome_at(outcomes, j)))
                ==> capture_after(initial, calls, outcomes, ran) == if outcome_at(
                outcomes,
                k,
            ).capture_pointer {
                Some(calls[k].node)
            } else {
                None
            },
    decreases ran,
{
    if ran > 0 {
        lemma_capture_follows_last_request(initial, calls, outcomes, ran - 1);
        assert forall|k: int|
            0 <= k < ran && touches_capture(#[trigger] outcome_at(outcomes, k)) && (forall|j: int|
                k < j < ran ==> !touches_capture(#[trigger] outcome_at(outcomes, j)))
                implies capture_after(initial, calls, outcomes, ran) == if outcome_at(
                outcomes,
                k,
            ).capture_pointer {
                Some(calls[k].node)
            } else {
                None
            } by {
            if k < ran - 1 {
                assert(!touches_capture(outcome_at(outcomes, ran - 1)));
            }
        }
    }
}

/// For a point inside a hit map laid out row by row, the map shows the owner
/// of the cell at that point: cell `y * width + x`.
pub proof fn lemma_hit_reads_the_cell_at_the_point(map: HitMap, position: Point)
    requires
        0 <= position.x < map.width,
        0 <= position.y < map.height,
        map.cells@.len() == map.width * map.height,
    ensures
        hit_at(map, position) == map.cells@[position.y * map.width + position.x],
        forall|root: RetainedNode, view: Element|
            #[trigger] hit_node(root, view, map, position) == match map.cells@[position.y * map.width
                + position.x] {
                Some(owner) => match route_in(seq![root], seq![view], owner) {
                    Some(route) => if route.last().1.interactive {
                        Some(owner)
                    } else {
                        None
                    },
                    None => None,
                },
                None => None,
            },
{
    let w = map.width as int;
    let h = map.height as int;
    let x = position.x as int;
    let y = position.y as int;
    assert(y * w + x < w * h) by (nonlinear_arith)
        requires
            0 <= x < w,
            0 <= y < h,
    ;
    assert(0 <= y * w) by (nonlinear_arith)
        requires
            0 <= y,
            0 <= w,
    ;
}

/// A kept node asks for a new layout when its layout or text changed, for a
/// repaint at least when only its style or flags changed, and for nothing
/// when nothing changed.
pub proof fn lemma_change_requests(node: RetainedNode, view: Element)
    ensures
        node.layout != view.layout ==> change_request(node, view) == Invalidation::Layout,
        !same_text(node.text, view.text) ==> change_request(node, view) == Invalidation::Layout,
        node.style != view.style ==> crate::runtime::strength(change_request(node, view)) >= 1,
        node.interactive != view.interactive || node.focusable != view.focusable
            ==> crate::runtime::strength(change_request(node, view)) >= 1,
        node.layout == view.layout && same_text(node.text, view.text) && node.style == view.style
            && node.interactive == view.interactive && node.focusable == view.focusable
            ==> change_request(node, view) == Invalidation::Nothing,
{
}

/// Reconciling a view into the retained node of the same kind and key asks
/// for at least what that node's changes ask for: a new layout when its
/// layout or text changed, a repaint when its style or flags changed.
pub proof fn lemma_reconcile_requests_node_changes(old: RetainedNode, view: Element)
    requires
        compatible(Some(old), view),
    ensures
        crate::runtime::strength(requested_in(seq![Some(old)], seq![view])) >= crate::runtime::strength(
            change_request(old, view),
        ),
        old.layout != view.layout || !same_text(old.text, view.text) ==> crate::runtime::strength(
            requested_in(seq![Some(old)], seq![view]),
        ) >= 2,
{
    let olds = seq![Some(old)];
    let views = seq![view];
    assert(first_old(olds) == Some(old));
    assert(views[0] == view);
    lemma_change_requests(old, view);
}

/// Handler runs go on until one stops propagation: every run before the
/// last that happened let propagation go on, and unless all runs happened,
/// the last one stopped it.
pub proof fn lemma_runs_stop_at_the_first_stop(count: int, outcomes: Seq<HandlerOutcome>)
    requires
        count >= 0,
    ensures
        ({
            let ran = runs_until_stop(count, outcomes, 0);
            &&& 0 <= ran <= count
            &&& count > 0 ==> ran > 0
            &&& forall|k: int| 0 <= k < ran - 1 ==> !(#[trigger] outcome_at(outcomes, k)).stop
            &&& ran < count ==> outcome_at(outcomes, ran - 1).stop
            &&& (forall|k: int| 0 <= k < count ==> !(#[trigger] outcome_at(outcomes, k)).stop)
                ==> ran == count
        }),
{
    lemma_runs_from(count, outcomes, 0);
}

/// Runs counted from `from` on.
proof fn lemma_runs_from(count: int, outcomes: Seq<HandlerOutcome>, from: int)
    requires
        0 <= from <= count,
    ensures
        ({
            let ran = runs_until_stop(count, outcomes, from);
            &&& from <= ran <= count
            &&& from < count ==> ran > from
            &&& forall|k: int| from <= k < ran - 1 ==> !(#[trigger] outcome_at(outcomes, k)).stop
            &&& ran < count ==> outcome_at(outcomes, ran - 1).stop
            &&& (forall|k: int| from <= k < count ==> !(#[trigger] outcome_at(outcomes, k)).stop)
                ==> ran == count
        }),
    decreases count - from,
{
    if from < count && !outcome_at(outcomes, from).stop {
        lemma_runs_from(count, outcomes, from + 1);
    }
}

/// The node a pointer press focuses is the deepest focusable node on the
/// route: it lies on the route, can take focus, and nothing below it on the
/// route can; without a focusable node on the route there is none.
pub proof fn lemma_press_focuses_deepest_focusable(route: Seq<(NodeId, Element)>)
    ensures
        match nearest_focusable(route) {
            Some(node) => exists|i: int|
                0 <= i < route.len() && #[trigger] route[i].0 == node && route[i].1.focusable
                    && forall|j: int| i < j < route.len() ==> !(#[trigger] route[j]).1.focusable,
            None => forall|i: int| 0 <= i < route.len() ==> !(#[trigger] route[i]).1.focusable,
        },
    decreases route.len(),
{
    if route.len() > 0 {
        let last = route.len() - 1;
        if route[last].1.focusable {
            assert(route[last].0 == route.last().0);
        } else {
            let shorter = route.drop_last();
            lemma_press_focuses_deepest_focusable(shorter);
            match nearest_focusable(shorter) {
                Some(node) => {
                    let i = choose|i: int|
                        0 <= i < shorter.len() && #[trigger] shorter[i].0 == node && shorter[i].1.focusable
                            && forall|j: int| i < j < shorter.len() ==> !(#[trigger] shorter[j]).1.focusable;
                    assert(route[i] == shorter[i]);
                    assert forall|j: int| i < j < route.len() implies !(#[trigger] route[j]).1.focusable by {
                        if j < last {
                            assert(route[j] == shorter[j]);
                        }
                    }
                },
                None => {
                    assert forall|i: int| 0 <= i < route.len() implies !(#[trigger] route[i]).1.focusable by {
                        if i < last {
                            assert(route[i] == shorter[i]);
                        }
                    }
                },
            }
        }
    }
}

/// A keyed element is matched against the last old child with its key, and
/// against no child when none has it.
pub proof fn lemma_keyed_match_is_the_last_with_the_key(kids: Seq<RetainedNode>, key: Key)
    ensures
        match last_keyed(kids, key) {
            Some(j) => 0 <= j < kids.len() && same_key(kids[j].key, Some(key)) && forall|later: int|
                j < later < kids.len() ==> !same_key(#[trigger] kids[later].key, Some(key)),
            None => forall|j: int| 0 <= j < kids.len() ==> !same_key(#[trigger] kids[j].key, Some(key)),
        },
    decreases kids.len(),
{
    if kids.len() > 0 && !same_key(kids.last().key, Some(key)) {
        let shorter = kids.drop_last();
        lemma_keyed_match_is_the_last_with_the_key(shorter, key);
        match last_keyed(shorter, key) {
            Some(j) => {
                assert forall|later: int| j < later < kids.len() implies !same_key(
                    #[trigger] kids[later].key,
                    Some(key),
                ) by {
                    if later < kids.len() - 1 {
                        assert(kids[later] == shorter[later]);
                    }
                }
                assert(kids[j] == shorter[j]);
            },
            None => {
                assert forall|j: int| 0 <= j < kids.len() implies !same_key(#[trigger] kids[j].key, Some(key)) by {
                    if j < kids.len() - 1 {
                        assert(kids[j] == shorter[j]);
                    }
                }
            },
        }
    }
}

/// Building or dropping any node asks for the structure to be rebuilt.
pub proof fn lemma_structural_change_requests_recompose(
    olds: Seq<Option<RetainedNode>>,
    views: Seq<Element>,
)
    ensures
        created_in(olds, views) > 0 || removed_in(olds, views) > 0 ==> requested_in(olds, views)
            == Invalidation::Recompose,
    decreases views,
{
    if views.len() > 0 {
        assert(decreases_to!(views => views[0]));
        let view = views[0];
        let old = first_old(olds);
        lemma_structural_change_requests_recompose(child_olds(old, view), view.children@);
        lemma_structural_change_requests_recompose(rest_olds(olds), views.drop_first());
        if !compatible(old, view) {
            if let Some(node) = old {
                lemma_subtree_size_positive(node);
            }
        }
    }
}

/// A subtree holds at least its own root.
proof fn lemma_subtree_size_positive(node: RetainedNode)
    ensures
        subtree_size(node) >= 1,
{
    assert(seq![node][0] == node);
}

/// Position of a phase in dispatch order.
pub open spec fn phase_rank(phase: EventPhase) -> int {
    match phase {
        EventPhase::Capture => 0,
        EventPhase::Target => 1,
        EventPhase::Bubble => 2,
    }
}

/// Whether `call` runs a handler registered for its phase on the element
/// of a node of `route`.
pub open spec fn registered_on(route: Seq<(NodeId, Element)>, call: Invocation) -> bool {
    exists|i: int|
        0 <= i < route.len() && #[trigger] route[i].0 == call.node && call.handler
            < route[i].1.handlers@.len() && route[i].1.handlers@[call.handler as int] == call.phase
}

/// Runs of one node's handlers for one phase are handlers registered for it.
proof fn lemma_calls_at_members(
    node: NodeId,
    handlers: Seq<EventPhase>,
    phase: EventPhase,
    from: int,
)
    requires
        0 <= from,
        handlers.len() <= usize::MAX,
    ensures
        forall|k: int|
            0 <= k < calls_at(node, handlers, phase, from).len() ==> {
                let call = #[trigger] calls_at(node, handlers, phase, from)[k];
                &&& call.node == node
                &&& call.phase == phase
                &&& from <= call.handler < handlers.len()
                &&& handlers[call.handler as int] == phase
            },
        forall|h: int|
            from <= h < handlers.len() && handlers[h] == phase ==> calls_at(
                node,
                handlers,
                phase,
                from,
            ).contains(Invocation { node, phase, handler: h as usize }),
    decreases handlers.len() - from,
{
    if from < handlers.len() {
        lemma_calls_at_members(node, handlers, phase, from + 1);
        let here = if handlers[from] == phase {
            seq![(Invocation { node, phase, handler: from as usize })]
        } else {
            Seq::<Invocation>::empty()
        };
        let rest = calls_at(node, handlers, phase, from + 1);
        let all = calls_at(node, handlers, phase, from);
        assert(all == here + rest);
        assert forall|k: int| 0 <= k < all.len() implies {
            let call = #[trigger] all[k];
            &&& call.node == node
            &&& call.phase == phase
            &&& from <= call.handler < handlers.len()
            &&& handlers[call.handler as int] == phase
        } by {
            if k >= here.len() {
                assert(all[k] == rest[k - here.len()]);
            }
        }
        assert forall|h: int| from <= h < handlers.len() && handlers[h] == phase implies all.contains(
            Invocation { node, phase, handler: h as usize },
        ) by {
            if h == from {
                assert(all[0] == (Invocation { node, phase, handler: h as usize }));
            } else {
                let k = choose|k: int| 0 <= k < rest.len() && rest[k] == (Invocation { node, phase, handler: h as usize });
                assert(all[here.len() + k] == rest[k]);
            }
        }
    }
}

/// Capture runs along the route from `from` down are capture-phase runs of
/// handlers registered on route nodes.
proof fn lemma_capture_members(route: Seq<(NodeId, Element)>, from: int)
    requires
        0 <= from,
        forall|i: int| 0 <= i < route.len() ==> (#[trigger] route[i]).1.handlers@.len() <= usize::MAX,
    ensures
        forall|k: int|
            0 <= k < capture_calls(route, from).len() ==> (#[trigger] capture_calls(route, from)[k]).phase
                == EventPhase::Capture && registered_on(route, capture_calls(route, from)[k]),
    decreases route.len() - from,
{
    if from < route.len() {
        lemma_capture_members(route, from + 1);
        let entry = route[from];
        lemma_calls_at_members(entry.0, entry.1.handlers@, EventPhase::Capture, 0);
        let here = calls_at(entry.0, entry.1.handlers@, EventPhase::Capture, 0);
        let rest = capture_calls(route, from + 1);
        let all = capture_calls(route, from);
        assert forall|k: int| 0 <= k < all.len() implies (#[trigger] all[k]).phase == EventPhase::Capture
            && registered_on(route, all[k]) by {
            if k < here.len() {
                assert(all[k] == here[k]);
                assert(route[from].0 == all[k].node);
            } else {
                assert(all[k] == rest[k - here.len()]);
            }
        }
    }
}

/// Bubble runs along the first `count` route nodes are bubble-phase runs of
/// handlers registered on route nodes.
proof fn lemma_bubble_members(route: Seq<(NodeId, Element)>, count: int)
    requires
        forall|i: int| 0 <= i < route.len() ==> (#[trigger] route[i]).1.handlers@.len() <= usize::MAX,
    ensures
        forall|k: int|
            0 <= k < bubble_calls(route, count).len() ==> (#[trigger] bubble_calls(route, count)[k]).phase
                == EventPhase::Bubble && registered_on(route, bubble_calls(route, count)[k]),
    decreases count,
{
    if 0 < count <= route.len() {
        lemma_bubble_members(route, count - 1);
        let entry = route[count - 1];
        lemma_calls_at_members(entry.0, entry.1.handlers@, EventPhase::Bubble, 0);
        let here = calls_at(entry.0, entry.1.handlers@, EventPhase::Bubble, 0);
        let rest = bubble_calls(route, count - 1);
        let all = bubble_calls(route, count);
        assert forall|k: int| 0 <= k < all.len() implies (#[trigger] all[k]).phase == EventPhase::Bubble
            && registered_on(route, all[k]) by {
            if k < here.len() {
                assert(all[k] == here[k]);
                assert(route[count - 1].0 == all[k].node);
            } else {
                assert(all[k] == rest[k - here.len()]);
            }
        }
    }
}

/// Every handler run of a dispatch runs a handler registered for its phase
/// on a node of the route; the target phase runs only the target's handlers,
/// every one of them registered for that phase; and all capture runs come
/// before the target runs, which come before all bubble runs.
pub proof fn lemma_dispatch_runs_registered_handlers_in_phase_order(route: Seq<(NodeId, Element)>)
    requires
        route.len() > 0,
        forall|i: int| 0 <= i < route.len() ==> (#[trigger] route[i]).1.handlers@.len() <= usize::MAX,
    ensures
        forall|k: int|
            0 <= k < dispatch_calls(route).len() ==> registered_on(route, #[trigger] dispatch_calls(route)[k]),
        forall|k: int|
            0 <= k < dispatch_calls(route).len() && (#[trigger] dispatch_calls(route)[k]).phase
                == EventPhase::Target ==> dispatch_calls(route)[k].node == route.last().0,
        forall|h: int|
            0 <= h < route.last().1.handlers@.len() && route.last().1.handlers@[h] == EventPhase::Target
                ==> dispatch_calls(route).contains(
                Invocation { node: route.last().0, phase: EventPhase::Target, handler: h as usize },
            ),
        forall|a: int, b: int|
            0 <= a < b < dispatch_calls(route).len() ==> phase_rank(
                (#[trigger] dispatch_calls(route)[a]).phase,
            ) <= phase_rank((#[trigger] dispatch_calls(route)[b]).phase),
{
    let last = route.last();
    let down = capture_calls(route, 0);
    let at = calls_at(last.0, last.1.handlers@, EventPhase::Target, 0);
    let up = bubble_calls(route, route.len() as int);
    let all = dispatch_calls(route);
    assert(all == down + at + up);
    lemma_capture_members(route, 0);
    lemma_bubble_members(route, route.len() as int);
    lemma_calls_at_members(last.0, last.1.handlers@, EventPhase::Target, 0);
    assert(route[route.len() - 1] == last);
    assert forall|k: int| 0 <= k < all.len() implies {
        &&& (k < down.len() ==> all[k] == down[k])
        &&& (down.len() <= k < down.len() + at.len() ==> all[k] == at[k - down.len()])
        &&& (down.len() + at.len() <= k ==> all[k] == up[k - down.len() - at.len()])
    } by {}
    assert forall|k: int| 0 <= k < all.len() implies registered_on(route, #[trigger] all[k]) by {
        if down.len() <= k < down.len() + at.len() {
            let call = at[k - down.len()];
            assert(route[route.len() - 1].0 == call.node);
        }
    }
    assert forall|k: int| 0 <= k < all.len() && (#[trigger] all[k]).phase == EventPhase::Target
        implies all[k].node == last.0 by {}
    assert forall|h: int| 0 <= h < last.1.handlers@.len() && last.1.handlers@[h] == EventPhase::Target
        implies all.contains(Invocation { node: last.0, phase: EventPhase::Target, handler: h as usize }) by {
        let call = Invocation { node: last.0, phase: EventPhase::Target, handler: h as usize };
        let k = choose|k: int| 0 <= k < at.len() && at[k] == call;
        assert(all[down.len() + k] == call);
    }
    assert forall|a: int, b: int| 0 <= a < b < all.len() implies phase_rank((#[trigger] all[a]).phase)
        <= phase_rank((#[trigger] all[b]).phase) by {}
}

/// Each of `nodes` as the old node in its own place.
pub open spec fn kept(nodes: Seq<RetainedNode>) -> Seq<Option<RetainedNode>> {
    nodes.map_values(|node: RetainedNode| Some(node))
}

/// Matching old children against elements with the same keys, one for one
/// and with no key repeated, matches each child with the element in its place.
proof fn lemma_candidates_in_place(kids: Seq<RetainedNode>, views: Seq<Element>)
    requires
        kids.len() == views.len(),
        forall|j: int| 0 <= j < kids.len() ==> same_key(#[trigger] kids[j].key, views[j].key),
        forall|a: int, b: int|
            0 <= a < b < views.len() && views[b].key is Some ==> !same_key(
                #[trigger] views[a].key,
                #[trigger] views[b].key,
            ),
    ensures
        candidates(kids, views) == kept(kids),
        forall|i: int| 0 <= i < views.len() ==> #[trigger] candidate(kids, i, views[i]) == Some(i),
{
    assert forall|i: int| 0 <= i < views.len() implies #[trigger] candidate(kids, i, views[i]) == Some(i) by {
        match views[i].key {
            Some(key) => {
                lemma_keyed_match_is_the_last_with_the_key(kids, key);
                assert(same_key(kids[i].key, Some(key)));
                match last_keyed(kids, key) {
                    Some(j) => {
                        if j > i {
                            assert(same_key(kids[j].key, views[j].key));
                            assert(same_key(views[i].key, views[j].key));
                        }
                    },
                    None => {},
                }
            },
            None => {},
        }
    }
    assert(candidates(kids, views) =~= kept(kids));
}

/// When every old child is matched by some element, none is left over.
proof fn lemma_all_claimed(kids: Seq<RetainedNode>, views: Seq<Element>, index: int)
    requires
        0 <= index,
        forall|j: int| 0 <= j < kids.len() ==> claimed(kids, views, j),
    ensures
        unclaimed_size(kids, views, index) == 0,
    decreases kids.len() - index,
{
    if index < kids.len() {
        lemma_all_claimed(kids, views, index + 1);
    }
}

/// Reconciling again the views a list was rebuilt from, after siblings
/// `earlier` whose keys none of them repeats, changes nothing.
proof fn lemma_same_view_from(
    olds: Seq<Option<RetainedNode>>,
    views: Seq<Element>,
    news: Seq<RetainedNode>,
    earlier: Seq<Element>,
)
    requires
        rebuilt(olds, views, news),
        duplicate_in(views, earlier) is None,
    ensures
        reused_in(kept(news), views) == element_count(views),
        created_in(kept(news), views) == 0,
        removed_in(kept(news), views) == 0,
        requested_in(kept(news), views) == Invalidation::Nothing,
        rebuilt(kept(news), views, news),
        created_ids(kept(news), views, news) == Seq::<NodeId>::empty(),
    decreases views,
{
    if views.len() > 0 {
        assert(decreases_to!(views => views[0]));
        let view = views[0];
        let node = news[0];
        let again = kept(news);
        assert(first_old(again) == Some(node));
        assert(rest_olds(again) =~= kept(news.drop_first()));
        lemma_no_duplicate(views, earlier);
        assert(views[0] == view);
        assert(first_duplicate(view) is None);
        // Children: each kept child is matched in its own place.
        let rebuilt_children = node.children@;
        let child_views = view.children@;
        assert(rebuilt(child_olds(first_old(olds), view), child_views, rebuilt_children));
        lemma_rebuilt_same_keys(child_olds(first_old(olds), view), child_views, rebuilt_children);
        lemma_no_duplicate(child_views, Seq::empty());
        lemma_candidates_in_place(rebuilt_children, child_views);
        assert forall|j: int| 0 <= j < rebuilt_children.len() implies claimed(rebuilt_children, child_views, j) by {
            assert(candidate(rebuilt_children, j, child_views[j]) == Some(j));
        }
        lemma_all_claimed(rebuilt_children, child_views, 0);
        assert(compatible(Some(node), view));
        assert(child_olds(Some(node), view) == kept(rebuilt_children));
        lemma_same_view_from(
            child_olds(first_old(olds), view),
            child_views,
            rebuilt_children,
            Seq::empty(),
        );
        assert(rebuilt(rest_olds(olds), views.drop_first(), news.drop_first()));
        lemma_same_view_from(
            rest_olds(olds),
            views.drop_first(),
            news.drop_first(),
            earlier.push(view),
        );
        assert(change_request(node, view) == Invalidation::Nothing);
        assert(Seq::<NodeId>::empty() + Seq::<NodeId>::empty() + Seq::<NodeId>::empty() =~= Seq::<NodeId>::empty());
    } else {
        assert(kept(news) =~= Seq::<Option<RetainedNode>>::empty());
    }
}

/// Reconciling the view a tree was just rebuilt from changes nothing: every
/// node is kept with its identity, none is built or dropped, and no work is
/// asked for.
pub proof fn lemma_reconciling_the_same_view_changes_nothing(
    olds: Seq<Option<RetainedNode>>,
    views: Seq<Element>,
    news: Seq<RetainedNode>,
)
    requires
        rebuilt(olds, views, news),
        duplicate_in(views, Seq::empty()) is None,
    ensures
        reused_in(kept(news), views) == element_count(views),
        created_in(kept(news), views) == 0,
        removed_in(kept(news), views) == 0,
        requested_in(kept(news), views) == Invalidation::Nothing,
        rebuilt(kept(news), views, news),
        created_ids(kept(news), views, news) == Seq::<NodeId>::empty(),
{
    lemma_same_view_from(olds, views, news, Seq::empty());
}

/// Rebuilt nodes carry their elements' keys, one for one.
proof fn lemma_rebuilt_same_keys(
    olds: Seq<Option<RetainedNode>>,
    views: Seq<Element>,
    news: Seq<RetainedNode>,
)
    requires
        rebuilt(olds, views, news),
    ensures
        news.len() == views.len(),
        forall|j: int| 0 <= j < news.len() ==> same_key(#[trigger] news[j].key, views[j].key),
    decreases views.len(),
{
    if views.len() > 0 {
        lemma_rebuilt_same_keys(rest_olds(olds), views.drop_first(), news.drop_first());
        assert forall|j: int| 0 <= j < news.len() implies same_key(#[trigger] news[j].key, views[j].key) by {
            if j > 0 {
                assert(news[j] == news.drop_first()[j - 1]);
                assert(views[j] == views.drop_first()[j - 1]);
            }
        }
    }
}

/// A route runs from one of the top nodes of a forest down to the target,
/// each step from an element to one of its children, and ends at the target;
/// a top node's own route is just itself.
pub proof fn lemma_route_is_a_path_down_to_the_target(
    forest: Seq<RetainedNode>,
    views: Seq<Element>,
    target: NodeId,
)
    ensures
        route_in(forest, views, target) matches Some(route) ==> {
            &&& route.len() > 0
            &&& route.last().0 == target
            &&& exists|k: int|
                0 <= k < forest.len() && k < views.len() && #[trigger] route[0] == (
                forest[k].id,
                views[k],
            )
            &&& forall|i: int|
                0 <= i < route.len() - 1 ==> #[trigger] route[i].1.children@.contains(route[i + 1].1)
        },
        forest.len() > 0 && views.len() > 0 && forest[0].id == target ==> route_in(
            forest,
            views,
            target,
        ) == Some(seq![(target, views[0])]),
    decreases forest,
{
    lemma_route_ends_at_target(forest, views, target);
    if forest.len() > 0 && views.len() > 0 && forest[0].id != target {
        assert(decreases_to!(forest => forest[0]));
        let top = (forest[0].id, views[0]);
        lemma_route_is_a_path_down_to_the_target(forest[0].children@, views[0].children@, target);
        lemma_route_is_a_path_down_to_the_target(forest.drop_first(), views.drop_first(), target);
        match route_in(forest[0].children@, views[0].children@, target) {
            Some(below) => {
                let route = seq![top] + below;
                assert(route[0] == top);
                assert forall|i: int| 0 <= i < route.len() - 1 implies #[trigger] route[i].1.children@.contains(
                    route[i + 1].1,
                ) by {
                    if i == 0 {
                        let k = choose|k: int|
                            0 <= k < forest[0].children@.len() && k < views[0].children@.len()
                                && #[trigger] below[0] == (forest[0].children@[k].id, views[0].children@[k]);
                        assert(route[1] == below[0]);
                        assert(route[0].1 == views[0]);
                        assert(views[0].children@[k] == below[0].1);
                        assert(views[0].children@.contains(below[0].1));
                    } else {
                        assert(route[i] == below[i - 1]);
                        assert(route[i + 1] == below[i]);
                        let j = i - 1;
                        assert(below[j].1.children@.contains(below[j + 1].1));
                        assert(j + 1 == i);
                    }
                }
            },
            None => {
                if let Some(route) = route_in(forest.drop_first(), views.drop_first(), target) {
                    let k = choose|k: int|
                        0 <= k < forest.drop_first().len() && k < views.drop_first().len()
                            && #[trigger] route[0] == (forest.drop_first()[k].id, views.drop_first()[k]);
                    assert(forest.drop_first()[k] == forest[k + 1]);
                    assert(views.drop_first()[k] == views[k + 1]);
                    assert(route[0] == (forest[k + 1].id, views[k + 1]));
                }
            },
        }
    } else if forest.len() > 0 && views.len() > 0 {
        assert(route_in(forest, views, target) == Some(seq![(target, views[0])]));
        let route = seq![(target, views[0])];
        assert(route[0] == (forest[0].id, views[0]));
    }
}

/// A pointer event that no live capture holds goes to the interactive node
/// under the pointer, which it also hovers; with nothing interactive there
/// it goes to the root and hovers nothing. A drag or release held by a
/// retained capture goes to the capturing node whatever is under the pointer.
pub proof fn lemma_pointer_target_is_what_it_hovers(
    root: RetainedNode,
    view: Element,
    kind: PointerKind,
    position: Point,
    map: HitMap,
    focused: Option<NodeId>,
    captured: Option<NodeId>,
    hovered: Option<NodeId>,
)
    ensures
        ({
            let event = UiEvent::Pointer { kind, position };
            let target = event_target(root, view, event, map, focused, captured);
            let hover = hover_after(root, view, event, map, hovered);
            let held = (kind == PointerKind::Drag || kind == PointerKind::Up) && retained_node(
                root,
                view,
                captured,
            ) is Some;
            &&& !held && hover is Some ==> hover == Some(target)
            &&& !held && hover is None ==> target == root.id
            &&& held ==> Some(target) == captured
            &&& route_in(seq![root], seq![view], target) is Some || target == root.id
        }),
{
}

} // verus!
