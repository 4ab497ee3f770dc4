use ui_runtime::event::{Event, MessageKind};
use ui_runtime::focus::cycle_focus;
use ui_runtime::geometry::Rect;
use ui_runtime::ui::UserInterface;
use ui_runtime::widget::{Widget, WidgetKind};

fn button(id: u64, w: u32, h: u32) -> Widget {
    Widget::leaf(WidgetKind::Button, id, w, h)
}

fn input(id: u64, w: u32, h: u32) -> Widget {
    Widget::leaf(WidgetKind::TextInput, id, w, h)
}

fn column(id: u64, children: Vec<Widget>) -> Widget {
    Widget::parent(WidgetKind::Column, id, children)
}

#[test]
fn tab_wraps_forward() {
    // Tab from the last focusable node wraps to the first.
    let list: Vec<u64> = vec![10, 11, 12];
    assert_eq!(cycle_focus(&list, None, false), Some(10));
    assert_eq!(cycle_focus(&list, Some(10), false), Some(11));
    assert_eq!(cycle_focus(&list, Some(12), false), Some(10));
}

#[test]
fn shift_tab_wraps_backward() {
    // Shift-Tab from the first focusable node wraps to the last.
    let list: Vec<u64> = vec![10, 11, 12];
    assert_eq!(cycle_focus(&list, None, true), Some(12));
    assert_eq!(cycle_focus(&list, Some(12), true), Some(11));
    assert_eq!(cycle_focus(&list, Some(10), true), Some(12));
}

#[test]
fn cycle_on_empty_list_clears_focus() {
    let list: Vec<u64> = Vec::new();
    assert_eq!(cycle_focus(&list, Some(5), false), None);
    assert_eq!(cycle_focus(&list, None, true), None);
}

#[test]
fn tab_cycles_through_tree_order() {
    let tree = column(0, vec![button(1, 40, 20), input(2, 40, 20), button(3, 40, 20)]);
    let ui = UserInterface::build(tree);
    let ids: Vec<u64> = ui.state.children.iter().map(|c| c.sid).collect();

    let same = column(0, vec![button(1, 40, 20), input(2, 40, 20), button(3, 40, 20)]);
    let events = vec![Event::TabPressed { shift: false }];
    let (ui, _) = ui.update(same, &events);
    assert_eq!(ui.focus, Some(ids[0]));

    let same = column(0, vec![button(1, 40, 20), input(2, 40, 20), button(3, 40, 20)]);
    let (ui, _) = ui.update(
        same,
        &vec![
            Event::TabPressed { shift: false },
            Event::TabPressed { shift: false },
            Event::TabPressed { shift: false },
        ],
    );
    // Three more steps from the first: wraps past the last back to the first.
    assert_eq!(ui.focus, Some(ids[0]));
}

#[test]
fn vanished_focus_target_is_cleared() {
    let tree = column(0, vec![button(1, 40, 20), input(2, 40, 20)]);
    let ui = UserInterface::build(tree);
    let same = column(0, vec![button(1, 40, 20), input(2, 40, 20)]);
    let (ui, _) = ui.update(same, &vec![Event::TabPressed { shift: false }]);
    assert!(ui.focus.is_some());

    // The focused button's position changes kind: its state, and with it
    // the focus target, is gone; focus is cleared silently.
    let t2 = column(
        0,
        vec![Widget::leaf(WidgetKind::Text, 1, 40, 20), input(2, 40, 20)],
    );
    let (ui, _) = ui.update(t2, &Vec::new());
    assert_eq!(ui.focus, None);
}

#[test]
fn typed_text_reaches_focused_input() {
    let tree = column(0, vec![input(5, 40, 20)]);
    let ui = UserInterface::build(tree);
    let same = column(0, vec![input(5, 40, 20)]);
    let events = vec![
        Event::TabPressed { shift: false },
        Event::TextEntered { c: 'a' },
        Event::TextEntered { c: 'b' },
    ];
    let (ui, frame) = ui.update(same, &events);
    assert_eq!(ui.state.children[0].cursor, 2);
    assert_eq!(frame.messages.len(), 2);
    assert_eq!(frame.messages[0].source, 5);
    assert_eq!(frame.messages[0].kind, MessageKind::Edited);
}

#[test]
fn typed_text_without_focus_is_dropped() {
    let tree = column(0, vec![input(5, 40, 20)]);
    let ui = UserInterface::build(tree);
    let same = column(0, vec![input(5, 40, 20)]);
    let (ui, frame) = ui.update(same, &vec![Event::TextEntered { c: 'x' }]);
    assert_eq!(ui.state.children[0].cursor, 0);
    assert!(frame.messages.is_empty());
}

#[test]
fn overlay_captures_press_inside_its_bounds() {
    let tree = column(0, vec![button(1, 40, 20)]);
    let mut ui = UserInterface::build(tree);
    ui.set_overlay(77, Rect { x: 0, y: 0, width: 10, height: 10 });
    let same = column(0, vec![button(1, 40, 20)]);
    let (ui, frame) = ui.update(same, &vec![Event::PointerPressed { x: 5, y: 5 }]);
    // The overlay swallows the press: its owner reports it, the button
    // underneath stays untouched.
    assert_eq!(frame.messages.len(), 1);
    assert_eq!(frame.messages[0].source, 77);
    assert!(!ui.state.children[0].pressed);
}

#[test]
fn pointer_outside_overlay_falls_through() {
    let tree = column(0, vec![button(1, 40, 20)]);
    let mut ui = UserInterface::build(tree);
    ui.set_overlay(77, Rect { x: 100, y: 100, width: 10, height: 10 });
    let same = column(0, vec![button(1, 40, 20)]);
    let (ui, frame) = ui.update(same, &vec![Event::PointerPressed { x: 5, y: 5 }]);
    assert_eq!(frame.messages.len(), 1);
    assert_eq!(frame.messages[0].source, 1);
    assert!(ui.state.children[0].pressed);
}

#[test]
fn clear_overlay_restores_base_delivery() {
    let tree = column(0, vec![button(1, 40, 20)]);
    let mut ui = UserInterface::build(tree);
    ui.set_overlay(77, Rect { x: 0, y: 0, width: 10, height: 10 });
    ui.clear_overlay();
    let same = column(0, vec![button(1, 40, 20)]);
    let (_, frame) = ui.update(same, &vec![Event::PointerPressed { x: 5, y: 5 }]);
    assert_eq!(frame.messages[0].source, 1);
}
