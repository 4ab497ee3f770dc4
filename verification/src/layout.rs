//! The layout pass.
//!
//! Sizes are computed bottom-up from each widget's intrinsic content size:
//! a column stacks its children vertically, a row horizontally, and every
//! other kind of parent lets its children share its own origin, drawn in
//! order so that the last child lies topmost. Positions are then assigned
//! top-down from the parent's origin. All arithmetic saturates, so layout
//! is total.

use vstd::prelude::*;
use crate::geometry::{Rect, sat_add, pixel_add};
use crate::widget::{Widget, WidgetKind, WidgetModel, widget_model, widget_models, lemma_widget_models_index, lemma_widget_models_len};

verus! {

broadcast use
    vstd::seq::axiom_seq_index_decreases,
    vstd::seq::axiom_seq_subrange_decreases,
    vstd::std_specs::vec::axiom_vec_index_decreases;

/// Computed geometry for one widget node of the current frame.
pub struct LayoutNode {
    /// The node's assigned bounds.
    pub rect: Rect,
    /// Geometry of the node's children, in sibling order.
    pub children: Vec<LayoutNode>,
}

/// The mathematical model of a layout node.
#[verifier::ext_equal]
pub struct LayoutModel {
    pub rect: Rect,
    pub children: Seq<LayoutModel>,
}

/// The model of a layout node.
pub open spec fn layout_node_model(l: LayoutNode) -> LayoutModel
    decreases l,
{
    LayoutModel { rect: l.rect, children: layout_node_models(l.children@) }
}

/// The models of a sequence of layout nodes.
pub open spec fn layout_node_models(ls: Seq<LayoutNode>) -> Seq<LayoutModel>
    decreases ls,
{
    if ls.len() == 0 {
        Seq::empty()
    } else {
        seq![layout_node_model(ls[0])] + layout_node_models(ls.drop_first())
    }
}

/// The larger of two pixel values.
pub open spec fn pix_max(a: u32, b: u32) -> u32 {
    if a >= b {
        a
    } else {
        b
    }
}

/// How a parent of the given kind merges two sizes: columns stack heights,
/// rows stack widths, everything else overlays.
pub open spec fn combine_size(kind: WidgetKind, aw: u32, ah: u32, bw: u32, bh: u32) -> (u32, u32) {
    match kind {
        WidgetKind::Column => (pix_max(aw, bw), sat_add(ah, bh)),
        WidgetKind::Row => (sat_add(aw, bw), pix_max(ah, bh)),
        _ => (pix_max(aw, bw), pix_max(ah, bh)),
    }
}

/// The size of a widget: its intrinsic content size for a leaf, the
/// kind-dependent merge of the children's sizes otherwise.
pub open spec fn size_model(w: WidgetModel) -> (u32, u32)
    decreases w,
{
    if w.children.len() == 0 {
        (w.width, w.height)
    } else {
        fold_sizes(w.kind, w.children)
    }
}

/// Merges the sizes of a forest under a parent of the given kind.
pub open spec fn fold_sizes(kind: WidgetKind, ws: Seq<WidgetModel>) -> (u32, u32)
    decreases ws,
{
    if ws.len() == 0 {
        (0, 0)
    } else {
        let head = size_model(ws[0]);
        let rest = fold_sizes(kind, ws.drop_first());
        combine_size(kind, head.0, head.1, rest.0, rest.1)
    }
}

/// Where the sibling after a child of the given size starts.
pub open spec fn advance_origin(kind: WidgetKind, x: u32, y: u32, cw: u32, ch: u32) -> (u32, u32) {
    match kind {
        WidgetKind::Column => (x, sat_add(y, ch)),
        WidgetKind::Row => (sat_add(x, cw), y),
        _ => (x, y),
    }
}

/// The layout of a widget tree placed with its origin at `(x, y)`.
pub open spec fn layout_model(w: WidgetModel, x: u32, y: u32) -> LayoutModel
    decreases w,
{
    LayoutModel {
        rect: Rect { x, y, width: size_model(w).0, height: size_model(w).1 },
        children: layout_seq(w.kind, w.children, x, y),
    }
}

/// The layouts of a forest under a parent of the given kind, starting at
/// `(x, y)` and advancing per child.
pub open spec fn layout_seq(kind: WidgetKind, ws: Seq<WidgetModel>, x: u32, y: u32) -> Seq<
    LayoutModel,
>
    decreases ws,
{
    if ws.len() == 0 {
        Seq::empty()
    } else {
        let sz = size_model(ws[0]);
        let next = advance_origin(kind, x, y, sz.0, sz.1);
        seq![layout_model(ws[0], x, y)] + layout_seq(kind, ws.drop_first(), next.0, next.1)
    }
}

/// Layout mirrors the widget tree node for node.
pub proof fn lemma_layout_shape(w: WidgetModel, x: u32, y: u32)
    ensures
        layout_model(w, x, y).children.len() == w.children.len(),
    decreases w,
{
    lemma_layout_seq_len(w.kind, w.children, x, y);
}

/// `layout_seq` keeps the length.
pub proof fn lemma_layout_seq_len(kind: WidgetKind, ws: Seq<WidgetModel>, x: u32, y: u32)
    ensures
        layout_seq(kind, ws, x, y).len() == ws.len(),
    decreases ws,
{
    if ws.len() > 0 {
        let sz = size_model(ws[0]);
        let next = advance_origin(kind, x, y, sz.0, sz.1);
        lemma_layout_seq_len(kind, ws.drop_first(), next.0, next.1);
    }
}

/// The larger of two pixel values.
pub fn pixel_max(a: u32, b: u32) -> (r: u32)
    ensures
        r == pix_max(a, b),
{
    if a >= b {
        a
    } else {
        b
    }
}

/// Lays out a widget tree with its origin at `(x, y)`.
pub fn layout(w: &Widget, x: u32, y: u32) -> (l: LayoutNode)
    ensures
        layout_node_model(l) == layout_model(widget_model(*w), x, y),
        l.rect.x == x,
        l.rect.y == y,
    decreases *w, 0int,
{
    let n = w.children.len();
    if n == 0 {
        let l = LayoutNode {
            rect: Rect { x, y, width: w.width, height: w.height },
            children: Vec::new(),
        };
        proof {
            assert(layout_node_model(l) =~= layout_model(widget_model(*w), x, y));
        }
        l
    } else {
        proof {
            assert(widget_models(w.children@).skip(0) =~= widget_models(w.children@));
        }
        let (children, cw, ch) = layout_forest(w.kind, &w.children, 0, x, y);
        let l = LayoutNode { rect: Rect { x, y, width: cw, height: ch }, children };
        proof {
            lemma_widget_models_len(w.children@);
            assert(layout_node_model(l) =~= layout_model(widget_model(*w), x, y));
        }
        l
    }
}

/// Lays out the widgets of `ws` from position `i` on, under a parent of
/// the given kind, and returns their merged size.
pub fn layout_forest(kind: WidgetKind, ws: &Vec<Widget>, i: usize, x: u32, y: u32) -> (r: (
    Vec<LayoutNode>,
    u32,
    u32,
))
    requires
        i <= ws@.len(),
    ensures
        layout_node_models(r.0@) == layout_seq(kind, widget_models(ws@).skip(i as int), x, y),
        r.1 == fold_sizes(kind, widget_models(ws@).skip(i as int)).0,
        r.2 == fold_sizes(kind, widget_models(ws@).skip(i as int)).1,
    decreases ws@, ws@.len() - i, 1int,
{
    proof {
        lemma_widget_models_len(ws@);
    }
    let n = ws.len();
    if i == n {
        let out: Vec<LayoutNode> = Vec::new();
        proof {
            assert(widget_models(ws@).skip(i as int) =~= Seq::<WidgetModel>::empty());
            assert(layout_node_models(out@) =~= layout_seq(
                kind,
                widget_models(ws@).skip(i as int),
                x,
                y,
            ));
        }
        (out, 0, 0)
    } else {
        let ghost tail = widget_models(ws@).skip(i as int);
        proof {
            lemma_widget_models_index(ws@, i as int);
            assert(tail[0] == widget_model(ws@[i as int]));
            assert(tail.drop_first() =~= widget_models(ws@).skip(i as int + 1));
        }
        let head = layout(&ws[i], x, y);
        let hw = head.rect.width;
        let hh = head.rect.height;
        let (nx, ny) = match kind {
            WidgetKind::Column => (x, pixel_add(y, hh)),
            WidgetKind::Row => (pixel_add(x, hw), y),
            _ => (x, y),
        };
        let (rest, rw, rh) = layout_forest(kind, ws, i + 1, nx, ny);
        let (tw, th) = match kind {
            WidgetKind::Column => (pixel_max(hw, rw), pixel_add(hh, rh)),
            WidgetKind::Row => (pixel_add(hw, rw), pixel_max(hh, rh)),
            _ => (pixel_max(hw, rw), pixel_max(hh, rh)),
        };
        let mut out = rest;
        let ghost rest_view = out@;
        out.insert(0, head);
        proof {
            assert(out@[0] == head);
            assert(out@.drop_first() =~= rest_view);
            assert((hw, hh) == size_model(tail[0])) by {
                assert(layout_node_model(head) == layout_model(tail[0], x, y));
            }
            assert(layout_node_models(out@) == seq![layout_node_model(head)]
                + layout_node_models(out@.drop_first()));
            assert(layout_node_models(out@) =~= layout_seq(kind, tail, x, y));
        }
        (out, tw, th)
    }
}

} // verus!
