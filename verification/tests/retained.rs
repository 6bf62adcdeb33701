use arborui::frame::RendererStateId;
use arborui::runtime::Invalidation;
use arborui::style::{Color, Style};
use arborui::geometry::Point;
use arborui::retained::{
    Element, EventPhase, HandlerOutcome, HitMap, Invocation, Key, KeyEvent, NodeId, PointerKind,
    ReconcileError, UiEvent, UiKey, UiTree, WidgetKind,
};

fn keyed_text(key: u64) -> Element {
    Element::new(WidgetKind::Text).keyed(Key::Integer(key))
}

fn container(children: Vec<Element>) -> Element {
    children
        .into_iter()
        .fold(Element::new(WidgetKind::Container), Element::child)
}

fn child_ids(tree: &UiTree) -> Vec<NodeId> {
    tree.root_node()
        .expect("root exists")
        .children
        .iter()
        .map(|child| child.id)
        .collect()
}

#[test]
fn keyed_children_keep_identity_when_reordered() -> Result<(), ReconcileError> {
    let mut tree = UiTree::new();
    let first = container(vec![keyed_text(1), keyed_text(2)]);
    tree.reconcile(&first)?;
    let original = child_ids(&tree);

    let second = container(vec![keyed_text(2), keyed_text(1)]);
    let report = tree.reconcile(&second)?;
    let reordered = child_ids(&tree);

    assert_eq!(reordered, vec![original[1], original[0]]);
    assert_eq!(report.created, 0);
    assert_eq!(report.removed, 0);
    Ok(())
}

#[test]
fn duplicate_keys_fail_before_mutating_the_tree() {
    let mut tree = UiTree::new();
    let duplicate = container(vec![keyed_text(1), keyed_text(1)]);

    assert!(matches!(
        tree.reconcile(&duplicate),
        Err(ReconcileError::DuplicateSiblingKey(Key::Integer(1)))
    ));
    assert!(tree.is_empty());
}

#[test]
fn incompatible_kind_replaces_and_removes_subtree() -> Result<(), ReconcileError> {
    let mut tree = UiTree::new();
    let first = container(vec![
        container(vec![Element::new(WidgetKind::Text)]).keyed(Key::Integer(1)),
    ]);
    tree.reconcile(&first)?;
    assert_eq!(tree.len(), 3);

    let second = container(vec![keyed_text(1)]);
    let report = tree.reconcile(&second)?;

    assert_eq!(tree.len(), 2);
    assert_eq!(report.created, 1);
    assert_eq!(report.removed, 2);
    Ok(())
}

#[test]
fn unkeyed_children_are_matched_by_position() -> Result<(), ReconcileError> {
    let mut tree = UiTree::new();
    tree.reconcile(&container(vec![
        Element::new(WidgetKind::Text),
        Element::new(WidgetKind::Button),
    ]))?;
    let original = child_ids(&tree);
    let root = tree.root();

    let report = tree.reconcile(&container(vec![
        Element::new(WidgetKind::Text),
        Element::new(WidgetKind::Checkbox),
        Element::new(WidgetKind::Text),
    ]))?;
    let now = child_ids(&tree);

    assert_eq!(tree.root(), root);
    assert_eq!(now[0], original[0]);
    assert_ne!(now[1], original[1]);
    assert_eq!(report.reused, 2);
    assert_eq!(report.created, 2);
    assert_eq!(report.removed, 1);
    Ok(())
}

#[test]
fn string_keys_match_by_text() -> Result<(), ReconcileError> {
    let mut tree = UiTree::new();
    let labelled = |text: &str| Element::new(WidgetKind::Button).keyed(Key::String(text.to_string()));
    tree.reconcile(&container(vec![labelled("add"), labelled("remove")]))?;
    let original = child_ids(&tree);

    let report = tree.reconcile(&container(vec![labelled("remove")]))?;

    assert_eq!(child_ids(&tree), vec![original[1]]);
    assert_eq!(report.removed, 1);
    assert!(matches!(
        tree.reconcile(&container(vec![labelled("x"), labelled("x")])),
        Err(ReconcileError::DuplicateSiblingKey(Key::String(key))) if key == "x"
    ));
    Ok(())
}


const QUIET: HandlerOutcome = HandlerOutcome {
    handled: false,
    prevent_default: false,
    stop: false,
    capture_pointer: false,
    release_pointer: false,
};

fn renderer() -> RendererStateId {
    RendererStateId::new(1, 1)
}

/// Labels of the handlers that ran, looked up by node, phase and position.
fn messages(
    invocations: &[Invocation],
    labels: &[(NodeId, EventPhase, usize, &'static str)],
) -> Vec<&'static str> {
    invocations
        .iter()
        .map(|run| {
            labels
                .iter()
                .find(|(node, phase, handler, _)| {
                    *node == run.node && *phase == run.phase && *handler == run.handler
                })
                .map(|(_, _, _, label)| *label)
                .expect("every run has a label")
        })
        .collect()
}

/// Commits `view` and returns the root, the middle container and the text node.
fn committed(tree: &mut UiTree, view: &Element) -> Result<(NodeId, NodeId, NodeId), ReconcileError> {
    tree.reconcile(view)?;
    tree.commit(renderer());
    let root = tree.root_node().expect("root exists");
    let parent = &root.children[0];
    Ok((root.id, parent.id, parent.children[0].id))
}

fn hit_map_with(width: u16, node: NodeId) -> HitMap {
    let mut cells = vec![None; usize::from(width)];
    cells[0] = Some(node);
    HitMap { width, height: 1, cells }
}

fn pointer(kind: PointerKind) -> UiEvent {
    UiEvent::Pointer {
        kind,
        position: Point::new(0, 0),
    }
}

#[test]
fn dispatches_capture_target_and_bubble_in_order() -> Result<(), ReconcileError> {
    let target = Element::new(WidgetKind::Text)
        .interactive(true)
        .on(EventPhase::Capture)
        .on(EventPhase::Target)
        .on(EventPhase::Bubble);
    let parent = container(vec![target])
        .on(EventPhase::Capture)
        .on(EventPhase::Bubble);
    let view = container(vec![parent])
        .on(EventPhase::Capture)
        .on(EventPhase::Bubble);
    let mut tree = UiTree::new();
    let (root, parent, text) = committed(&mut tree, &view)?;
    let labels = [
        (root, EventPhase::Capture, 0, "root capture"),
        (root, EventPhase::Bubble, 1, "root bubble"),
        (parent, EventPhase::Capture, 0, "parent capture"),
        (parent, EventPhase::Bubble, 1, "parent bubble"),
        (text, EventPhase::Capture, 0, "target capture"),
        (text, EventPhase::Target, 1, "target"),
        (text, EventPhase::Bubble, 2, "target bubble"),
    ];

    let outcome = tree.dispatch(
        &view,
        &pointer(PointerKind::Moved),
        &hit_map_with(3, text),
        renderer(),
        &Vec::new(),
    )?;

    assert_eq!(outcome.target, text);
    assert_eq!(
        messages(&outcome.invocations, &labels),
        [
            "root capture",
            "parent capture",
            "target capture",
            "target",
            "target bubble",
            "parent bubble",
            "root bubble"
        ]
    );
    Ok(())
}

#[test]
fn propagation_flags_are_independent() -> Result<(), ReconcileError> {
    let target = Element::new(WidgetKind::Text)
        .interactive(true)
        .on(EventPhase::Target);
    let parent = container(vec![target]).on(EventPhase::Bubble);
    let view = container(vec![parent]);
    let mut tree = UiTree::new();
    let (_, parent, text) = committed(&mut tree, &view)?;
    let labels = [
        (text, EventPhase::Target, 0, "target"),
        (parent, EventPhase::Bubble, 0, "bubble"),
    ];
    let outcomes = vec![
        HandlerOutcome {
            handled: true,
            prevent_default: true,
            ..QUIET
        },
        QUIET,
    ];

    let outcome = tree.dispatch(
        &view,
        &pointer(PointerKind::Moved),
        &hit_map_with(2, text),
        renderer(),
        &outcomes,
    )?;

    assert_eq!(messages(&outcome.invocations, &labels), ["target", "bubble"]);
    assert!(outcome.handled);
    assert!(outcome.default_prevented);
    assert!(!outcome.propagation_stopped);
    Ok(())
}

#[test]
fn stop_propagation_skips_later_handlers() -> Result<(), ReconcileError> {
    let target = Element::new(WidgetKind::Text)
        .interactive(true)
        .on(EventPhase::Target);
    let parent = container(vec![target])
        .on(EventPhase::Capture)
        .on(EventPhase::Capture);
    let view = container(vec![parent]).on(EventPhase::Capture);
    let mut tree = UiTree::new();
    let (root, parent, text) = committed(&mut tree, &view)?;
    let labels = [
        (root, EventPhase::Capture, 0, "root"),
        (parent, EventPhase::Capture, 0, "stop"),
        (parent, EventPhase::Capture, 1, "skipped"),
        (text, EventPhase::Target, 0, "target"),
    ];
    let outcomes = vec![QUIET, HandlerOutcome { stop: true, ..QUIET }];

    let outcome = tree.dispatch(
        &view,
        &pointer(PointerKind::Moved),
        &hit_map_with(2, text),
        renderer(),
        &outcomes,
    )?;

    assert_eq!(messages(&outcome.invocations, &labels), ["root", "stop"]);
    assert!(outcome.propagation_stopped);
    Ok(())
}

#[test]
fn discarded_ui_frame_preserves_committed_identity() -> Result<(), ReconcileError> {
    let committed_view = container(vec![Element::new(WidgetKind::Text)
        .keyed(Key::Integer(1))
        .interactive(true)]);
    let other_view = container(vec![Element::new(WidgetKind::Text)
        .keyed(Key::Integer(2))
        .interactive(true)]);
    let mut tree = UiTree::new();
    tree.reconcile(&committed_view)?;
    tree.commit(renderer());
    let before = child_ids(&tree);

    assert!(matches!(
        tree.dispatch(&other_view, &UiEvent::Tick, &hit_map_with(3, before[0]), renderer(), &Vec::new()),
        Err(ReconcileError::ViewDoesNotMatchCommittedTree)
    ));
    assert!(matches!(
        tree.dispatch(
            &committed_view,
            &UiEvent::Tick,
            &hit_map_with(3, before[0]),
            RendererStateId::new(2, 1),
            &Vec::new()
        ),
        Err(ReconcileError::WrongCommittedRenderer)
    ));
    assert_eq!(child_ids(&tree), before);
    Ok(())
}

#[test]
fn pointer_press_focuses_and_capture_holds_the_drag() -> Result<(), ReconcileError> {
    let target = Element::new(WidgetKind::Button)
        .interactive(true)
        .focusable(true)
        .on(EventPhase::Target);
    let view = container(vec![container(vec![target])]);
    let mut tree = UiTree::new();
    let (root, _, button) = committed(&mut tree, &view)?;
    let press = HandlerOutcome {
        capture_pointer: true,
        ..QUIET
    };

    let down = tree.dispatch(&view, &pointer(PointerKind::Down), &hit_map_with(2, button), renderer(), &vec![press])?;
    assert_eq!(down.target, button);
    assert_eq!(tree.focused(), Some(button));
    assert_eq!(tree.captured_pointer(), Some(button));
    assert_eq!(tree.hovered(), Some(button));

    let empty = HitMap { width: 2, height: 1, cells: vec![None, None] };
    let drag = tree.dispatch(&view, &pointer(PointerKind::Drag), &empty, renderer(), &Vec::new())?;
    assert_eq!(drag.target, button);
    assert_eq!(tree.hovered(), None);

    let moved = tree.dispatch(&view, &pointer(PointerKind::Moved), &empty, renderer(), &Vec::new())?;
    assert_eq!(moved.target, root);
    Ok(())
}

#[test]
fn tab_moves_focus_through_focusable_nodes_and_wraps() -> Result<(), ReconcileError> {
    let view = container(vec![
        Element::new(WidgetKind::Button).focusable(true),
        Element::new(WidgetKind::Text),
        Element::new(WidgetKind::Checkbox).focusable(true),
    ]);
    let mut tree = UiTree::new();
    tree.reconcile(&view)?;
    tree.commit(renderer());
    let ids = child_ids(&tree);
    let empty = HitMap { width: 0, height: 0, cells: Vec::new() };
    let tab = |shift: bool| {
        UiEvent::Key(KeyEvent {
            key: UiKey::Tab,
            press: true,
            shift,
            other_modifiers: false,
        })
    };

    tree.dispatch(&view, &tab(false), &empty, renderer(), &Vec::new())?;
    assert_eq!(tree.focused(), Some(ids[0]));
    tree.dispatch(&view, &tab(false), &empty, renderer(), &Vec::new())?;
    assert_eq!(tree.focused(), Some(ids[2]));
    tree.dispatch(&view, &tab(false), &empty, renderer(), &Vec::new())?;
    assert_eq!(tree.focused(), Some(ids[0]));
    tree.dispatch(&view, &tab(true), &empty, renderer(), &Vec::new())?;
    assert_eq!(tree.focused(), Some(ids[2]));
    Ok(())
}

#[test]
fn routes_run_from_the_root_to_the_target() -> Result<(), ReconcileError> {
    let view = container(vec![container(vec![Element::new(WidgetKind::Text)])]);
    let mut tree = UiTree::new();
    let (root, parent, text) = committed(&mut tree, &view)?;
    assert_eq!(tree.route(text), Some(vec![root, parent, text]));
    assert_eq!(tree.route(NodeId(9_999)), None);
    Ok(())
}

#[test]
fn created_nodes_take_fresh_identities() -> Result<(), ReconcileError> {
    let mut tree = UiTree::new();
    tree.reconcile(&container(vec![keyed_text(1)]))?;
    let first = child_ids(&tree);
    tree.reconcile(&container(vec![keyed_text(1), keyed_text(2), keyed_text(3)]))?;
    let now = child_ids(&tree);
    assert_eq!(now[0], first[0]);
    assert_ne!(now[1], now[2]);
    assert!(now[1] != first[0] && now[2] != first[0]);
    assert!(tree.root() != Some(now[1]) && tree.root() != Some(now[2]));
    Ok(())
}

#[test]
fn text_changes_request_layout_and_style_changes_request_paint() -> Result<(), ReconcileError> {
    let text = |content: &str| Element::new(WidgetKind::Text).text(content.to_string());
    let mut tree = UiTree::new();
    tree.reconcile(&text("a"))?;
    tree.commit(renderer());

    let report = tree.reconcile(&text("longer"))?;
    assert_eq!(report.invalidation, Invalidation::Layout);
    tree.commit(renderer());
    let report = tree.reconcile(&text("longer").styled(Style::new().fg(Color::Blue)))?;
    assert_eq!(report.invalidation, Invalidation::Paint);

    tree.commit(renderer());
    let report = tree.reconcile(&text("longer").styled(Style::new().fg(Color::Blue)))?;
    assert_eq!(report.invalidation, Invalidation::Nothing);
    let report = tree.reconcile(&container(vec![text("child")]))?;
    assert_eq!(report.invalidation, Invalidation::Recompose);
    Ok(())
}
