use vstd::prelude::*;

use super::tree::LayoutNodeId;

verus! {

/// Whether following parent links from `from` meets `target` within `steps`
/// links, passing only through nodes for which `known` holds.
pub open spec fn reaches(
    known: spec_fn(LayoutNodeId) -> bool,
    parent: spec_fn(LayoutNodeId) -> Option<LayoutNodeId>,
    from: Option<LayoutNodeId>,
    target: LayoutNodeId,
    steps: nat,
) -> bool
    decreases steps,
{
    match from {
        None => false,
        Some(node) => known(node) && (node == target || (steps > 0 && reaches(
            known,
            parent,
            parent(node),
            target,
            (steps - 1) as nat,
        ))),
    }
}

/// Whether `target` is `from` itself or one of its ancestors.
pub open spec fn descends(
    known: spec_fn(LayoutNodeId) -> bool,
    parent: spec_fn(LayoutNodeId) -> Option<LayoutNodeId>,
    from: Option<LayoutNodeId>,
    target: LayoutNodeId,
) -> bool {
    exists|steps: nat| #[trigger] reaches(known, parent, from, target, steps)
}

/// Whether the parent chain from `from` leaves the known nodes within `steps` links.
pub open spec fn ends(
    known: spec_fn(LayoutNodeId) -> bool,
    parent: spec_fn(LayoutNodeId) -> Option<LayoutNodeId>,
    from: Option<LayoutNodeId>,
    steps: nat,
) -> bool
    decreases steps,
{
    match from {
        None => true,
        Some(node) => !known(node) || (steps > 0 && ends(
            known,
            parent,
            parent(node),
            (steps - 1) as nat,
        )),
    }
}

/// Every parent chain is finite: no node is its own ancestor.
pub open spec fn acyclic(
    known: spec_fn(LayoutNodeId) -> bool,
    parent: spec_fn(LayoutNodeId) -> Option<LayoutNodeId>,
) -> bool {
    forall|node: LayoutNodeId| #[trigger]
        known(node) ==> exists|steps: nat| #[trigger] ends(known, parent, Some(node), steps)
}

/// One step up the chain: below a known node other than `target`, `target` is
/// an ancestor exactly when it is an ancestor of the parent.
pub proof fn lemma_descends_step(
    known: spec_fn(LayoutNodeId) -> bool,
    parent: spec_fn(LayoutNodeId) -> Option<LayoutNodeId>,
    node: LayoutNodeId,
    target: LayoutNodeId,
)
    requires
        known(node),
        node != target,
    ensures
        descends(known, parent, Some(node), target) == descends(
            known,
            parent,
            parent(node),
            target,
        ),
{
    if descends(known, parent, Some(node), target) {
        let steps = choose|steps: nat| #[trigger] reaches(known, parent, Some(node), target, steps);
        assert(reaches(known, parent, parent(node), target, (steps - 1) as nat));
    }
    if descends(known, parent, parent(node), target) {
        let steps = choose|steps: nat| #[trigger] reaches(known, parent, parent(node), target, steps);
        assert(reaches(known, parent, Some(node), target, steps + 1));
    }
}

/// Ancestry composes: an ancestor of an ancestor is an ancestor.
pub proof fn lemma_reaches_trans(
    known: spec_fn(LayoutNodeId) -> bool,
    parent: spec_fn(LayoutNodeId) -> Option<LayoutNodeId>,
    from: Option<LayoutNodeId>,
    middle: LayoutNodeId,
    target: LayoutNodeId,
    first: nat,
    second: nat,
)
    requires
        reaches(known, parent, from, middle, first),
        reaches(known, parent, Some(middle), target, second),
    ensures
        reaches(known, parent, from, target, first + second),
    decreases first,
{
    let node = from->0;
    if node == middle {
        lemma_reaches_more_steps(known, parent, Some(middle), target, second, first + second);
    } else {
        lemma_reaches_trans(known, parent, parent(node), middle, target, (first - 1) as nat, second);
    }
}

/// Allowing more steps never loses an ancestor.
pub proof fn lemma_reaches_more_steps(
    known: spec_fn(LayoutNodeId) -> bool,
    parent: spec_fn(LayoutNodeId) -> Option<LayoutNodeId>,
    from: Option<LayoutNodeId>,
    target: LayoutNodeId,
    steps: nat,
    more: nat,
)
    requires
        reaches(known, parent, from, target, steps),
        steps <= more,
    ensures
        reaches(known, parent, from, target, more),
    decreases steps,
{
    let node = from->0;
    if node != target {
        lemma_reaches_more_steps(
            known,
            parent,
            parent(node),
            target,
            (steps - 1) as nat,
            (more - 1) as nat,
        );
    }
}

/// Shrinking the known nodes while keeping the parents of those that remain
/// keeps finite chains finite.
pub proof fn lemma_ends_restrict(
    known: spec_fn(LayoutNodeId) -> bool,
    parent: spec_fn(LayoutNodeId) -> Option<LayoutNodeId>,
    kept: spec_fn(LayoutNodeId) -> bool,
    kept_parent: spec_fn(LayoutNodeId) -> Option<LayoutNodeId>,
    from: Option<LayoutNodeId>,
    steps: nat,
)
    requires
        ends(known, parent, from, steps),
        forall|node: LayoutNodeId| #[trigger] kept(node) ==> known(node) && kept_parent(node) == parent(node),
    ensures
        ends(kept, kept_parent, from, steps),
    decreases steps,
{
    if let Some(node) = from {
        if kept(node) {
            lemma_ends_restrict(known, parent, kept, kept_parent, parent(node), (steps - 1) as nat);
        }
    }
}

/// Shrinking the known nodes while keeping the parents of those that remain
/// keeps the graph acyclic.
pub proof fn lemma_acyclic_restrict(
    known: spec_fn(LayoutNodeId) -> bool,
    parent: spec_fn(LayoutNodeId) -> Option<LayoutNodeId>,
    kept: spec_fn(LayoutNodeId) -> bool,
    kept_parent: spec_fn(LayoutNodeId) -> Option<LayoutNodeId>,
)
    requires
        acyclic(known, parent),
        forall|node: LayoutNodeId| #[trigger] kept(node) ==> known(node) && kept_parent(node) == parent(node),
    ensures
        acyclic(kept, kept_parent),
{
    assert forall|node: LayoutNodeId| #[trigger] kept(node) implies exists|steps: nat| #[trigger]
        ends(kept, kept_parent, Some(node), steps) by {
        assert(known(node));
        let steps = choose|steps: nat| #[trigger] ends(known, parent, Some(node), steps);
        lemma_ends_restrict(known, parent, kept, kept_parent, Some(node), steps);
    }
}

/// Shrinking the known nodes while keeping the parents of those that remain
/// never creates ancestry.
pub proof fn lemma_reaches_restrict(
    known: spec_fn(LayoutNodeId) -> bool,
    parent: spec_fn(LayoutNodeId) -> Option<LayoutNodeId>,
    kept: spec_fn(LayoutNodeId) -> bool,
    kept_parent: spec_fn(LayoutNodeId) -> Option<LayoutNodeId>,
    from: Option<LayoutNodeId>,
    target: LayoutNodeId,
    steps: nat,
)
    requires
        reaches(kept, kept_parent, from, target, steps),
        forall|node: LayoutNodeId| #[trigger] kept(node) ==> known(node) && kept_parent(node) == parent(node),
    ensures
        reaches(known, parent, from, target, steps),
    decreases steps,
{
    let node = from->0;
    if node != target {
        lemma_reaches_restrict(
            known,
            parent,
            kept,
            kept_parent,
            parent(node),
            target,
            (steps - 1) as nat,
        );
    }
}

/// Helper for [`lemma_cycle_never_ends`]: a chain that passes `child` and then
/// returns to `top` reaches `top` again with strictly fewer steps to spare.
proof fn lemma_return_shortens(
    known: spec_fn(LayoutNodeId) -> bool,
    parent: spec_fn(LayoutNodeId) -> Option<LayoutNodeId>,
    top: LayoutNodeId,
    child: LayoutNodeId,
    from: LayoutNodeId,
    depth: nat,
    steps: nat,
) -> (spare: nat)
    requires
        known(child),
        parent(child) == Some(top),
        reaches(known, parent, Some(from), child, depth),
        ends(known, parent, Some(from), steps),
    ensures
        spare < steps,
        ends(known, parent, Some(top), spare),
    decreases depth,
{
    if from == child {
        (steps - 1) as nat
    } else {
        assert(known(from));
        assert(reaches(known, parent, parent(from), child, (depth - 1) as nat));
        assert(ends(known, parent, parent(from), (steps - 1) as nat));
        let up = parent(from)->0;
        lemma_return_shortens(known, parent, top, child, up, (depth - 1) as nat, (steps - 1) as nat)
    }
}

/// A node whose child is also its ancestor has no finite chain.
pub proof fn lemma_cycle_never_ends(
    known: spec_fn(LayoutNodeId) -> bool,
    parent: spec_fn(LayoutNodeId) -> Option<LayoutNodeId>,
    top: LayoutNodeId,
    child: LayoutNodeId,
    depth: nat,
    steps: nat,
)
    requires
        known(child),
        parent(child) == Some(top),
        reaches(known, parent, Some(top), child, depth),
    ensures
        !ends(known, parent, Some(top), steps),
    decreases steps,
{
    if ends(known, parent, Some(top), steps) {
        let spare = lemma_return_shortens(known, parent, top, child, top, depth, steps);
        lemma_cycle_never_ends(known, parent, top, child, depth, spare);
    }
}

/// Growing the known nodes while keeping existing parents keeps a finite
/// chain finite, when every known parent is itself known.
pub proof fn lemma_ends_extend(
    known: spec_fn(LayoutNodeId) -> bool,
    parent: spec_fn(LayoutNodeId) -> Option<LayoutNodeId>,
    grown: spec_fn(LayoutNodeId) -> bool,
    grown_parent: spec_fn(LayoutNodeId) -> Option<LayoutNodeId>,
    from: Option<LayoutNodeId>,
    steps: nat,
)
    requires
        ends(known, parent, from, steps),
        from matches Some(node) ==> known(node),
        forall|node: LayoutNodeId| #[trigger] known(node) ==> grown(node) && grown_parent(node) == parent(node),
        forall|node: LayoutNodeId| #[trigger] known(node) && parent(node) is Some ==> known(parent(node)->0),
    ensures
        ends(grown, grown_parent, from, steps),
    decreases steps,
{
    if let Some(node) = from {
        lemma_ends_extend(known, parent, grown, grown_parent, parent(node), (steps - 1) as nat);
    }
}

/// A chain through nodes that keep their parents, in a subgraph closed under
/// parents, stays in the subgraph.
pub proof fn lemma_reaches_closed(
    known: spec_fn(LayoutNodeId) -> bool,
    parent: spec_fn(LayoutNodeId) -> Option<LayoutNodeId>,
    kept: spec_fn(LayoutNodeId) -> bool,
    kept_parent: spec_fn(LayoutNodeId) -> Option<LayoutNodeId>,
    from: Option<LayoutNodeId>,
    target: LayoutNodeId,
    steps: nat,
)
    requires
        reaches(known, parent, from, target, steps),
        from matches Some(node) ==> kept(node),
        forall|node: LayoutNodeId| #[trigger] kept(node) ==> known(node) && kept_parent(node) == parent(node),
        forall|node: LayoutNodeId| #[trigger] kept(node) && kept_parent(node) is Some ==> kept(kept_parent(node)->0),
    ensures
        reaches(kept, kept_parent, from, target, steps),
    decreases steps,
{
    let node = from->0;
    if node != target {
        lemma_reaches_closed(known, parent, kept, kept_parent, parent(node), target, (steps - 1) as nat);
    }
}

/// Below `top`, where no moved or cut node lies, re-linking changes nothing.
proof fn lemma_untouched_chain(
    known: spec_fn(LayoutNodeId) -> bool,
    parent: spec_fn(LayoutNodeId) -> Option<LayoutNodeId>,
    relinked: spec_fn(LayoutNodeId) -> Option<LayoutNodeId>,
    touched: spec_fn(LayoutNodeId) -> bool,
    from: Option<LayoutNodeId>,
    steps: nat,
)
    requires
        ends(known, parent, from, steps),
        forall|node: LayoutNodeId| #[trigger] known(node) && !touched(node) ==> relinked(node) == parent(node),
        forall|node: LayoutNodeId| #[trigger] touched(node) ==> !reaches(known, parent, from, node, steps),
    ensures
        ends(known, relinked, from, steps),
    decreases steps,
{
    if let Some(node) = from {
        if known(node) {
            assert(reaches(known, parent, from, node, steps));
            assert forall|other: LayoutNodeId| #[trigger] touched(other) implies !reaches(
                known,
                parent,
                parent(node),
                other,
                (steps - 1) as nat,
            ) by {
                if reaches(known, parent, parent(node), other, (steps - 1) as nat) {
                    assert(reaches(known, parent, from, other, steps));
                }
            }
            lemma_untouched_chain(known, parent, relinked, touched, parent(node), (steps - 1) as nat);
        }
    }
}

/// Re-parenting the `moved` nodes under `top` and cutting the `cut` children
/// of `top` loose keeps every chain finite, when `top` descends from no moved node.
pub proof fn lemma_relink_acyclic(
    known: spec_fn(LayoutNodeId) -> bool,
    parent: spec_fn(LayoutNodeId) -> Option<LayoutNodeId>,
    relinked: spec_fn(LayoutNodeId) -> Option<LayoutNodeId>,
    moved: spec_fn(LayoutNodeId) -> bool,
    cut: spec_fn(LayoutNodeId) -> bool,
    top: LayoutNodeId,
)
    requires
        acyclic(known, parent),
        known(top),
        forall|node: LayoutNodeId| #[trigger]
            known(node) ==> relinked(node) == if moved(node) {
                Some(top)
            } else if cut(node) {
                None
            } else {
                parent(node)
            },
        forall|node: LayoutNodeId| #[trigger] moved(node) ==> !descends(known, parent, Some(top), node),
        forall|node: LayoutNodeId| #[trigger] cut(node) ==> known(node) && parent(node) == Some(top),
    ensures
        acyclic(known, relinked),
{
    let top_steps = choose|steps: nat| #[trigger] ends(known, parent, Some(top), steps);
    let touched = |node: LayoutNodeId| moved(node) || cut(node);
    assert forall|node: LayoutNodeId| #[trigger] touched(node) implies !reaches(
        known,
        parent,
        Some(top),
        node,
        top_steps,
    ) by {
        if moved(node) {
            assert(!descends(known, parent, Some(top), node));
        } else if reaches(known, parent, Some(top), node, top_steps) {
            lemma_cycle_never_ends(known, parent, top, node, top_steps, top_steps);
        }
    }
    assert forall|node: LayoutNodeId| #[trigger] known(node) && !touched(node) implies relinked(node)
        == parent(node) by {}
    lemma_untouched_chain(known, parent, relinked, touched, Some(top), top_steps);
    assert forall|node: LayoutNodeId| #[trigger] known(node) implies exists|steps: nat| #[trigger]
        ends(known, relinked, Some(node), steps) by {
        let steps = choose|steps: nat| #[trigger] ends(known, parent, Some(node), steps);
        let found = lemma_relinked_chain(known, parent, relinked, moved, cut, top, top_steps, Some(node), steps);
    }
}

/// Helper for [`lemma_relink_acyclic`]: every old chain gives a new finite chain.
proof fn lemma_relinked_chain(
    known: spec_fn(LayoutNodeId) -> bool,
    parent: spec_fn(LayoutNodeId) -> Option<LayoutNodeId>,
    relinked: spec_fn(LayoutNodeId) -> Option<LayoutNodeId>,
    moved: spec_fn(LayoutNodeId) -> bool,
    cut: spec_fn(LayoutNodeId) -> bool,
    top: LayoutNodeId,
    top_steps: nat,
    from: Option<LayoutNodeId>,
    steps: nat,
) -> (found: nat)
    requires
        known(top),
        ends(known, relinked, Some(top), top_steps),
        forall|node: LayoutNodeId| #[trigger]
            known(node) ==> relinked(node) == if moved(node) {
                Some(top)
            } else if cut(node) {
                None
            } else {
                parent(node)
            },
        ends(known, parent, from, steps),
    ensures
        ends(known, relinked, from, found),
    decreases steps,
{
    match from {
        None => 0,
        Some(node) => {
            if !known(node) {
                0
            } else if moved(node) {
                top_steps + 1
            } else if cut(node) {
                assert(ends(known, relinked, None, 0));
                1
            } else {
                let rest = lemma_relinked_chain(
                    known,
                    parent,
                    relinked,
                    moved,
                    cut,
                    top,
                    top_steps,
                    parent(node),
                    (steps - 1) as nat,
                );
                rest + 1
            }
        },
    }
}

} // verus!
