use ui_runtime::event::{Event, MessageKind};
use ui_runtime::ui::UserInterface;
use ui_runtime::widget::{Widget, WidgetKind};

fn button(id: u64, w: u32, h: u32) -> Widget {
    Widget::leaf(WidgetKind::Button, id, w, h)
}

fn text(id: u64, w: u32, h: u32) -> Widget {
    Widget::leaf(WidgetKind::Text, id, w, h)
}

fn column(id: u64, children: Vec<Widget>) -> Widget {
    Widget::parent(WidgetKind::Column, id, children)
}

#[test]
fn state_identity_stable_across_views() {
    // Two trees of the same kinds and order, differing only in leaf
    // parameters: every state node keeps its identity.
    let t1 = column(0, vec![button(1, 40, 20), button(2, 40, 20)]);
    let ui = UserInterface::build(t1);
    let ids: Vec<u64> = ui.state.children.iter().map(|c| c.sid).collect();
    let root_id = ui.state.sid;

    let t2 = column(0, vec![button(1, 99, 33), button(2, 10, 10)]);
    let (ui, frame) = ui.update(t2, &Vec::new());
    assert_eq!(ui.state.sid, root_id);
    let ids2: Vec<u64> = ui.state.children.iter().map(|c| c.sid).collect();
    assert_eq!(ids, ids2);
    assert!(frame.geometry_changed);
}

#[test]
fn kind_change_resets_state() {
    // Replacing a child's kind at a fixed position resets that child's
    // state to default and gives it a new identity.
    let t1 = column(0, vec![button(1, 40, 20), button(2, 40, 20)]);
    let ui = UserInterface::build(t1);
    // Hover over the first button: (5, 5) lies inside it.
    let events = vec![Event::PointerMoved { x: 5, y: 5 }];
    let t2 = column(0, vec![button(1, 40, 20), button(2, 40, 20)]);
    let (ui, _) = ui.update(t2, &events);
    assert!(ui.state.children[0].hovered);
    let old_sid = ui.state.children[0].sid;
    let keep_sid = ui.state.children[1].sid;

    // Same position, different kind: state discarded.
    let t3 = column(0, vec![text(1, 40, 20), button(2, 40, 20)]);
    let (ui, _) = ui.update(t3, &Vec::new());
    assert_ne!(ui.state.children[0].sid, old_sid);
    assert!(!ui.state.children[0].hovered);
    assert_eq!(ui.state.children[0].kind, WidgetKind::Text);
    // The sibling whose kind is unchanged keeps everything.
    assert_eq!(ui.state.children[1].sid, keep_sid);
}

#[test]
fn press_second_button_emits_one_message() {
    // A column of two buttons A, B; a press at B's coordinates emits
    // exactly one message tagged with B's id, geometry unchanged,
    // visuals changed.
    let tree = column(0, vec![button(1, 40, 20), button(2, 40, 20)]);
    let ui = UserInterface::build(tree);
    // B occupies y in 20..40.
    let events = vec![Event::PointerPressed { x: 5, y: 30 }];
    let same = column(0, vec![button(1, 40, 20), button(2, 40, 20)]);
    let (ui, frame) = ui.update(same, &events);
    assert_eq!(frame.messages.len(), 1);
    assert_eq!(frame.messages[0].source, 2);
    assert_eq!(frame.messages[0].kind, MessageKind::Pressed);
    assert!(!frame.geometry_changed);
    assert!(frame.visuals_changed);
    assert!(ui.state.children[1].pressed);
    assert!(!ui.state.children[0].pressed);
}

#[test]
fn capture_stops_at_button() {
    // The button captures the press: the enclosing column and the
    // sibling see nothing and no second message is emitted.
    let inner = Widget::parent(WidgetKind::Container, 9, vec![button(7, 30, 30)]);
    let tree = column(0, vec![inner, button(8, 30, 30)]);
    let ui = UserInterface::build(tree);
    let inner2 = Widget::parent(WidgetKind::Container, 9, vec![button(7, 30, 30)]);
    let same = column(0, vec![inner2, button(8, 30, 30)]);
    let (ui, frame) = ui.update(same, &vec![Event::PointerPressed { x: 10, y: 10 }]);
    assert_eq!(frame.messages.len(), 1);
    assert_eq!(frame.messages[0].source, 7);
    assert!(ui.state.children[0].children[0].pressed);
    assert!(!ui.state.children[0].pressed);
    assert!(!ui.state.children[1].pressed);
}

#[test]
fn release_after_press_emits_release() {
    let tree = column(0, vec![button(1, 40, 20)]);
    let ui = UserInterface::build(tree);
    let same = column(0, vec![button(1, 40, 20)]);
    let events = vec![
        Event::PointerPressed { x: 5, y: 5 },
        Event::PointerReleased { x: 5, y: 5 },
    ];
    let (ui, frame) = ui.update(same, &events);
    assert_eq!(frame.messages.len(), 2);
    assert_eq!(frame.messages[0].kind, MessageKind::Pressed);
    assert_eq!(frame.messages[1].kind, MessageKind::Released);
    assert!(!ui.state.children[0].pressed);
}

#[test]
fn release_without_press_is_silent() {
    let tree = column(0, vec![button(1, 40, 20)]);
    let ui = UserInterface::build(tree);
    let same = column(0, vec![button(1, 40, 20)]);
    let (_, frame) = ui.update(same, &vec![Event::PointerReleased { x: 5, y: 5 }]);
    assert_eq!(frame.messages.len(), 0);
    assert!(!frame.visuals_changed);
}

#[test]
fn idle_pass_reports_nothing() {
    // Identical tree, no events: neither geometry nor visuals changed.
    let tree = column(0, vec![button(1, 40, 20), text(2, 30, 10)]);
    let ui = UserInterface::build(tree);
    let same = column(0, vec![button(1, 40, 20), text(2, 30, 10)]);
    let (_, frame) = ui.update(same, &Vec::new());
    assert!(!frame.geometry_changed);
    assert!(!frame.visuals_changed);
    assert!(frame.messages.is_empty());
}

#[test]
fn removed_sibling_shifts_positional_state() {
    // Removing button A while keeping B: position 0 of the next tree is
    // matched against A's old state. The kinds agree, so the state that
    // survives at position 0 is A's — B's own hover does not follow it.
    let t1 = column(0, vec![button(1, 40, 20), button(2, 40, 20)]);
    let ui = UserInterface::build(t1);
    // Hover B (y in 20..40).
    let t2 = column(0, vec![button(1, 40, 20), button(2, 40, 20)]);
    let (ui, _) = ui.update(t2, &vec![Event::PointerMoved { x: 5, y: 30 }]);
    assert!(ui.state.children[1].hovered);
    assert!(!ui.state.children[0].hovered);
    let a_sid = ui.state.children[0].sid;

    let t3 = column(0, vec![button(2, 40, 20)]);
    let (ui, _) = ui.update(t3, &Vec::new());
    assert_eq!(ui.state.children.len(), 1);
    // Positional match: B inherits A's state slot, hover discarded.
    assert_eq!(ui.state.children[0].sid, a_sid);
    assert!(!ui.state.children[0].hovered);
}

#[test]
fn unchanged_kind_keeps_hover_at_same_position() {
    // When the kinds at every position are unchanged, hover set at
    // position 1 persists across the next view.
    let t1 = column(0, vec![button(1, 40, 20), button(2, 40, 20)]);
    let ui = UserInterface::build(t1);
    let t2 = column(0, vec![button(1, 40, 20), button(2, 40, 20)]);
    let (ui, _) = ui.update(t2, &vec![Event::PointerMoved { x: 5, y: 30 }]);
    assert!(ui.state.children[1].hovered);

    let t3 = column(0, vec![button(1, 40, 20), button(2, 40, 20)]);
    let (ui, _) = ui.update(t3, &Vec::new());
    assert!(ui.state.children[1].hovered);
}

#[test]
fn extra_children_mount_fresh() {
    let t1 = column(0, vec![button(1, 40, 20)]);
    let ui = UserInterface::build(t1);
    let first = ui.state.children[0].sid;
    let t2 = column(0, vec![button(1, 40, 20), button(2, 40, 20), button(3, 40, 20)]);
    let (ui, _) = ui.update(t2, &Vec::new());
    assert_eq!(ui.state.children.len(), 3);
    assert_eq!(ui.state.children[0].sid, first);
    assert_ne!(ui.state.children[1].sid, first);
    assert_ne!(ui.state.children[2].sid, ui.state.children[1].sid);
}

#[test]
fn resize_marks_geometry() {
    let tree = column(0, vec![button(1, 40, 20)]);
    let ui = UserInterface::build(tree);
    let same = column(0, vec![button(1, 40, 20)]);
    let (ui, frame) = ui.update(same, &vec![Event::Resized { width: 800, height: 600 }]);
    assert!(frame.geometry_changed);
    assert!(frame.visuals_changed);
    // The same size again is no change.
    let same2 = column(0, vec![button(1, 40, 20)]);
    let (_, frame2) = ui.update(same2, &vec![Event::Resized { width: 800, height: 600 }]);
    assert!(!frame2.geometry_changed);
    assert!(!frame2.visuals_changed);
}

#[test]
fn press_on_passive_child_bubbles_to_button() {
    // The text child passes the press through; it bubbles to the button
    // wrapping it, which captures and emits with its own id.
    let label = Widget::leaf(WidgetKind::Text, 99, 30, 30);
    let tree = Widget::parent(WidgetKind::Button, 4, vec![label]);
    let ui = UserInterface::build(tree);
    let label2 = Widget::leaf(WidgetKind::Text, 99, 30, 30);
    let same = Widget::parent(WidgetKind::Button, 4, vec![label2]);
    let (ui, frame) = ui.update(same, &vec![Event::PointerPressed { x: 5, y: 5 }]);
    assert_eq!(frame.messages.len(), 1);
    assert_eq!(frame.messages[0].source, 4);
    assert!(ui.state.pressed);
    assert!(!ui.state.children[0].pressed);
}

#[test]
fn nested_subtree_keeps_identity() {
    let inner = column(10, vec![button(1, 20, 20), button(2, 20, 20)]);
    let tree = column(0, vec![inner, button(3, 20, 20)]);
    let ui = UserInterface::build(tree);
    let deep_sid = ui.state.children[0].children[1].sid;

    let inner2 = column(10, vec![button(1, 25, 25), button(2, 25, 25)]);
    let tree2 = column(0, vec![inner2, button(3, 20, 20)]);
    let (ui, _) = ui.update(tree2, &Vec::new());
    assert_eq!(ui.state.children[0].children[1].sid, deep_sid);
}

#[test]
fn state_identities_are_distinct() {
    let inner = column(10, vec![button(1, 20, 20), button(2, 20, 20)]);
    let tree = column(0, vec![inner, button(3, 20, 20), text(4, 10, 10)]);
    let ui = UserInterface::build(tree);
    let mut ids = vec![ui.state.sid];
    for c in &ui.state.children {
        ids.push(c.sid);
        for g in &c.children {
            ids.push(g.sid);
        }
    }
    let mut sorted = ids.clone();
    sorted.sort();
    sorted.dedup();
    assert_eq!(sorted.len(), ids.len());
}
