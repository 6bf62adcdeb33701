use arborui::geometry::Rect;
use arborui::layout::style::{Dimension, LayoutStyle};
use arborui::layout::tree::{ComputedLayout, LayoutError, LayoutTree};

#[test]
fn rejects_layout_node_id_from_another_tree() {
    let mut first = LayoutTree::new();
    let foreign = first.add(LayoutStyle::default());
    let mut second = LayoutTree::new();
    second.add(LayoutStyle::default());

    assert_eq!(
        second.children(foreign),
        Err(LayoutError::UnknownNode(foreign))
    );
}

#[test]
fn rejects_layout_node_id_obtained_before_clear() {
    let mut tree = LayoutTree::new();
    let stale = tree.add(LayoutStyle::default());
    tree.clear();
    tree.add(LayoutStyle::default());

    assert_eq!(tree.children(stale), Err(LayoutError::UnknownNode(stale)));
}

#[test]
fn failed_add_with_duplicate_children_does_not_retain_node() {
    let mut tree = LayoutTree::new();
    let child = tree.add(LayoutStyle::default());

    assert_eq!(
        tree.add_with_children(LayoutStyle::default(), &[child, child]),
        Err(LayoutError::DuplicateChild(child))
    );
    assert_eq!(tree.len(), 1, "the failed parent must not be retained");
}

#[test]
fn replacing_children_rejects_stale_descendants_after_slot_reuse() -> Result<(), LayoutError> {
    let mut tree = LayoutTree::new();
    let descendant = tree.add(LayoutStyle::default());
    let child = tree.add_with_children(LayoutStyle::default(), &[descendant])?;
    let root = tree.add_with_children(LayoutStyle::default(), &[child])?;
    let replacement = tree.add(LayoutStyle::default());

    tree.set_children(root, &[replacement])?;
    tree.add(LayoutStyle::default());
    tree.add(LayoutStyle::default());

    assert_eq!(tree.children(child), Err(LayoutError::UnknownNode(child)));
    assert_eq!(
        tree.children(descendant),
        Err(LayoutError::UnknownNode(descendant))
    );
    Ok(())
}

#[test]
fn reparented_descendant_survives_pruning_its_old_ancestor() -> Result<(), LayoutError> {
    let mut tree = LayoutTree::new();
    let descendant = tree.add(LayoutStyle::default());
    let child = tree.add_with_children(LayoutStyle::default(), &[descendant])?;
    let root = tree.add_with_children(LayoutStyle::default(), &[child])?;

    tree.set_children(root, &[descendant])?;

    assert_eq!(tree.children(root)?, &[descendant]);
    assert_eq!(tree.children(descendant)?, &[]);
    assert_eq!(tree.children(child), Err(LayoutError::UnknownNode(child)));
    Ok(())
}

#[test]
fn reparenting_preserves_the_child_id() -> Result<(), LayoutError> {
    let mut tree = LayoutTree::new();
    let child = tree.add(LayoutStyle::default());
    let first_parent = tree.add_with_children(LayoutStyle::default(), &[child])?;
    let second_parent = tree.add(LayoutStyle::default());

    tree.set_children(second_parent, &[child])?;

    assert_eq!(tree.children(first_parent)?, &[]);
    assert_eq!(tree.children(second_parent)?, &[child]);
    tree.set_style(child, LayoutStyle::default())?;
    Ok(())
}

#[test]
fn removing_a_subtree_updates_its_parent() -> Result<(), LayoutError> {
    let mut tree = LayoutTree::new();
    let descendant = tree.add(LayoutStyle::default());
    let child = tree.add_with_children(LayoutStyle::default(), &[descendant])?;
    let root = tree.add_with_children(LayoutStyle::default(), &[child])?;

    tree.remove(child)?;

    assert!(tree.children(root)?.is_empty());
    assert_eq!(tree.layout(child), Err(LayoutError::UnknownNode(child)));
    assert_eq!(
        tree.layout(descendant),
        Err(LayoutError::UnknownNode(descendant))
    );
    assert_eq!(tree.len(), 1);
    Ok(())
}

#[test]
fn replacing_dynamic_children_does_not_retain_detached_nodes() -> Result<(), LayoutError> {
    let mut tree = LayoutTree::new();
    let root = tree.add(LayoutStyle::default());

    for width in 1..=8 {
        let child =
            tree.add(LayoutStyle::new().size(Dimension::cells(width), Dimension::cells(1)));
        tree.set_children(root, &[child])?;
    }

    assert_eq!(tree.children(root)?.len(), 1);
    assert_eq!(tree.len(), 2);
    Ok(())
}

#[test]
fn rejects_children_that_would_create_a_cycle() -> Result<(), LayoutError> {
    let mut tree = LayoutTree::new();
    let leaf = tree.add(LayoutStyle::default());
    let middle = tree.add_with_children(LayoutStyle::default(), &[leaf])?;
    let root = tree.add_with_children(LayoutStyle::default(), &[middle])?;

    assert_eq!(
        tree.set_children(leaf, &[root]),
        Err(LayoutError::Cycle(root))
    );
    assert_eq!(
        tree.set_children(middle, &[middle]),
        Err(LayoutError::Cycle(middle))
    );
    assert_eq!(tree.children(middle)?, &[leaf]);
    assert_eq!(tree.len(), 3);
    Ok(())
}

#[test]
fn reports_the_first_problem_in_child_order() -> Result<(), LayoutError> {
    let mut other = LayoutTree::new();
    let foreign = other.add(LayoutStyle::default());
    let mut tree = LayoutTree::new();
    let first = tree.add(LayoutStyle::default());
    let parent = tree.add(LayoutStyle::default());

    assert_eq!(
        tree.set_children(parent, &[first, first, foreign]),
        Err(LayoutError::DuplicateChild(first))
    );
    assert_eq!(
        tree.set_children(parent, &[foreign, first, first]),
        Err(LayoutError::UnknownNode(foreign))
    );
    assert_eq!(
        tree.set_children(foreign, &[first]),
        Err(LayoutError::UnknownNode(foreign))
    );
    assert!(tree.children(parent)?.is_empty());
    Ok(())
}

#[test]
fn moving_a_child_removes_it_from_its_former_siblings() -> Result<(), LayoutError> {
    let mut tree = LayoutTree::new();
    let a = tree.add(LayoutStyle::default());
    let b = tree.add(LayoutStyle::default());
    let c = tree.add(LayoutStyle::default());
    let left = tree.add_with_children(LayoutStyle::default(), &[a, b, c])?;
    let right = tree.add(LayoutStyle::default());

    tree.set_children(right, &[b])?;

    assert_eq!(tree.children(left)?, &[a, c]);
    assert_eq!(tree.children(right)?, &[b]);
    assert_eq!(tree.len(), 5);
    Ok(())
}

#[test]
fn recorded_geometry_is_reported_until_the_structure_changes() -> Result<(), LayoutError> {
    let mut tree = LayoutTree::new();
    let node = tree.add(LayoutStyle::default());
    assert_eq!(tree.layout(node), Err(LayoutError::NotComputed(node)));

    let computed = ComputedLayout {
        bounds: Rect::new(1, 2, 3, 4),
        content: Rect::new(1, 2, 3, 4),
        ..ComputedLayout::default()
    };
    tree.record_layout(node, computed)?;
    assert_eq!(tree.layout(node), Ok(computed));

    tree.invalidate(node)?;
    assert_eq!(tree.layout(node), Err(LayoutError::NotComputed(node)));

    tree.record_layout(node, computed)?;
    tree.set_style(node, LayoutStyle::default())?;
    assert_eq!(tree.layout(node), Err(LayoutError::NotComputed(node)));
    Ok(())
}

#[test]
fn invalidating_everything_lists_the_live_nodes() -> Result<(), LayoutError> {
    let mut tree = LayoutTree::new();
    let first = tree.add(LayoutStyle::default());
    let second = tree.add(LayoutStyle::default());
    let third = tree.add(LayoutStyle::default());
    tree.remove(second)?;

    assert_eq!(tree.invalidate_all(), vec![first, third]);
    Ok(())
}

#[test]
fn freed_slots_are_reused_with_a_new_identity() -> Result<(), LayoutError> {
    let mut tree = LayoutTree::new();
    let old = tree.add(LayoutStyle::default());
    tree.remove(old)?;
    let new = tree.add(LayoutStyle::default());

    assert_ne!(old, new);
    assert_eq!(tree.children(old), Err(LayoutError::UnknownNode(old)));
    assert_eq!(tree.children(new)?, &[]);
    Ok(())
}
