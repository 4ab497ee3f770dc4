use ui_runtime::border::{Border, Color, Pixels, Radius};
use ui_runtime::command::{Command, Task};
use ui_runtime::event::{Message, MessageKind};
use ui_runtime::geometry::{pixel_add, Rect};
use ui_runtime::hit::hit_test;
use ui_runtime::layout::layout;
use ui_runtime::widget::{widget_eq, Widget, WidgetKind};

fn button(id: u64, w: u32, h: u32) -> Widget {
    Widget::leaf(WidgetKind::Button, id, w, h)
}

#[test]
fn pixel_add_saturates() {
    assert_eq!(pixel_add(3, 4), 7);
    assert_eq!(pixel_add(u32::MAX, 1), u32::MAX);
    assert_eq!(pixel_add(u32::MAX - 1, 1), u32::MAX);
    assert_eq!(pixel_add(0, 0), 0);
}

#[test]
fn rect_contains_excludes_far_edges() {
    let r = Rect { x: 10, y: 10, width: 5, height: 5 };
    assert!(r.contains(10, 10));
    assert!(r.contains(14, 14));
    assert!(!r.contains(15, 10));
    assert!(!r.contains(10, 15));
    assert!(!r.contains(9, 10));
}

#[test]
fn column_stacks_heights() {
    let tree = Widget::parent(
        WidgetKind::Column,
        0,
        vec![button(1, 40, 20), button(2, 30, 25)],
    );
    let l = layout(&tree, 0, 0);
    assert_eq!(l.rect.width, 40);
    assert_eq!(l.rect.height, 45);
    assert_eq!(l.children[0].rect, Rect { x: 0, y: 0, width: 40, height: 20 });
    assert_eq!(l.children[1].rect, Rect { x: 0, y: 20, width: 30, height: 25 });
}

#[test]
fn row_stacks_widths() {
    let tree = Widget::parent(
        WidgetKind::Row,
        0,
        vec![button(1, 40, 20), button(2, 30, 25)],
    );
    let l = layout(&tree, 5, 5);
    assert_eq!(l.rect, Rect { x: 5, y: 5, width: 70, height: 25 });
    assert_eq!(l.children[1].rect.x, 45);
    assert_eq!(l.children[1].rect.y, 5);
}

#[test]
fn hit_prefers_topmost_overlapping_sibling() {
    // Two buttons share the container's origin; the press goes to the
    // last-drawn (topmost) one.
    let tree = Widget::parent(
        WidgetKind::Container,
        0,
        vec![button(1, 30, 30), button(2, 30, 30)],
    );
    let l = layout(&tree, 0, 0);
    let path = hit_test(&l, 10, 10).expect("inside the container");
    assert_eq!(path, vec![1]);
}

#[test]
fn hit_finds_deepest_node() {
    let inner = Widget::parent(WidgetKind::Container, 9, vec![button(1, 20, 20)]);
    let tree = Widget::parent(WidgetKind::Column, 0, vec![inner, button(2, 20, 20)]);
    let l = layout(&tree, 0, 0);
    assert_eq!(hit_test(&l, 5, 5).unwrap(), vec![0, 0]);
    assert_eq!(hit_test(&l, 5, 25).unwrap(), vec![1]);
    assert_eq!(hit_test(&l, 50, 50), None);
}

#[test]
fn widget_eq_is_structural() {
    let a = Widget::parent(WidgetKind::Column, 0, vec![button(1, 40, 20)]);
    let b = Widget::parent(WidgetKind::Column, 0, vec![button(1, 40, 20)]);
    let c = Widget::parent(WidgetKind::Column, 0, vec![button(1, 41, 20)]);
    let d = Widget::parent(WidgetKind::Column, 0, Vec::new());
    assert!(widget_eq(&a, &b));
    assert!(!widget_eq(&a, &c));
    assert!(!widget_eq(&a, &d));
}

#[test]
fn rounded_matches_default_with_radius() {
    assert_eq!(Border::rounded(10), Border::new().with_radius(10));
}

#[test]
fn radius_broadcasts_to_all_corners() {
    let r = Radius::uniform(7);
    assert_eq!(r.top_left, 7);
    assert_eq!(r.top_right, 7);
    assert_eq!(r.bottom_right, 7);
    assert_eq!(r.bottom_left, 7);
}

#[test]
fn border_builders_replace_one_field() {
    let b = Border::new()
        .with_width(Pixels(3))
        .with_color(Color { r: 1, g: 2, b: 3, a: 4 })
        .with_radius(9);
    assert_eq!(b.width, 3);
    assert_eq!(b.color, Color { r: 1, g: 2, b: 3, a: 4 });
    assert_eq!(b.radius, Radius::uniform(9));
}

#[test]
fn command_collects_tasks() {
    let t = Task {
        payload: 42,
        finish: Message { source: 1, kind: MessageKind::Pressed },
    };
    let none = Command::none();
    assert!(none.into_tasks().is_empty());
    let mut c = Command::single(t);
    c.push(Task {
        payload: 43,
        finish: Message { source: 2, kind: MessageKind::Released },
    });
    let ts = c.into_tasks();
    assert_eq!(ts.len(), 2);
    assert_eq!(ts[0].payload, 42);
    assert_eq!(ts[1].finish.source, 2);
}

#[test]
fn oversized_layout_saturates_instead_of_overflowing() {
    let tree = Widget::parent(
        WidgetKind::Column,
        0,
        vec![button(1, 10, u32::MAX), button(2, 10, 5)],
    );
    let l = layout(&tree, 0, 0);
    assert_eq!(l.rect.height, u32::MAX);
    // The second child starts at the clamped offset.
    assert_eq!(l.children[1].rect.y, u32::MAX);
}
