//! The declarative widget tree.
//!
//! A widget tree is rebuilt by the application on every frame and describes
//! the interface: a kind, an application-chosen identifier carried by the
//! messages the widget emits, an intrinsic content size, and ordered
//! children.

use vstd::prelude::*;

verus! {

broadcast use
    vstd::seq::axiom_seq_index_decreases,
    vstd::std_specs::vec::axiom_vec_index_decreases;

/// The concrete widget kinds the runtime knows.
#[derive(Clone, Copy, PartialEq, Eq, Structural, Debug)]
pub enum WidgetKind {
    Button,
    Text,
    Container,
    Column,
    Row,
    TextInput,
    Scrollable,
}

/// Whether a widget of this kind can take keyboard focus.
pub open spec fn spec_focusable(kind: WidgetKind) -> bool {
    kind == WidgetKind::Button || kind == WidgetKind::TextInput
}

impl WidgetKind {
    /// Buttons and text inputs take keyboard focus; the other kinds do not.
    pub fn focusable(&self) -> (b: bool)
        ensures
            b == spec_focusable(*self),
    {
        match self {
            WidgetKind::Button => true,
            WidgetKind::TextInput => true,
            _ => false,
        }
    }
}

/// One node of the declarative tree.
pub struct Widget {
    /// What the node is.
    pub kind: WidgetKind,
    /// Application-chosen identifier, carried by emitted messages.
    pub id: u64,
    /// Intrinsic width of the node's own content, in pixels.
    pub width: u32,
    /// Intrinsic height of the node's own content, in pixels.
    pub height: u32,
    /// Ordered children.
    pub children: Vec<Widget>,
}

/// The mathematical model of a widget node: the same data with the
/// children as a sequence.
#[verifier::ext_equal]
pub struct WidgetModel {
    pub kind: WidgetKind,
    pub id: u64,
    pub width: u32,
    pub height: u32,
    pub children: Seq<WidgetModel>,
}

/// The model of a widget node.
pub open spec fn widget_model(w: Widget) -> WidgetModel
    decreases w,
{
    WidgetModel {
        kind: w.kind,
        id: w.id,
        width: w.width,
        height: w.height,
        children: widget_models(w.children@),
    }
}

/// The models of a sequence of widget nodes.
pub open spec fn widget_models(ws: Seq<Widget>) -> Seq<WidgetModel>
    decreases ws,
{
    if ws.len() == 0 {
        Seq::empty()
    } else {
        widget_models(ws.drop_last()).push(widget_model(ws.last()))
    }
}

/// Every element of `widget_models` is the model of the matching element.
pub proof fn lemma_widget_models_index(ws: Seq<Widget>, i: int)
    requires
        0 <= i < ws.len(),
    ensures
        widget_models(ws).len() == ws.len(),
        widget_models(ws)[i] == widget_model(ws[i]),
    decreases ws.len(),
{
    if i < ws.len() - 1 {
        lemma_widget_models_index(ws.drop_last(), i);
    } else {
        lemma_widget_models_len(ws.drop_last());
    }
}

/// `widget_models` keeps the length.
pub proof fn lemma_widget_models_len(ws: Seq<Widget>)
    ensures
        widget_models(ws).len() == ws.len(),
    decreases ws.len(),
{
    if ws.len() > 0 {
        lemma_widget_models_len(ws.drop_last());
    }
}

impl Widget {
    /// A leaf widget of the given kind with an intrinsic size.
    pub fn leaf(kind: WidgetKind, id: u64, width: u32, height: u32) -> (w: Widget)
        ensures
            widget_model(w) == (WidgetModel {
                kind,
                id,
                width,
                height,
                children: Seq::<WidgetModel>::empty(),
            }),
    {
        let w = Widget { kind, id, width, height, children: Vec::new() };
        proof {
            assert(widget_model(w).children =~= Seq::<WidgetModel>::empty());
            assert(widget_model(w) =~= WidgetModel {
                kind,
                id,
                width,
                height,
                children: Seq::<WidgetModel>::empty(),
            });
        }
        w
    }

    /// A container widget of the given kind holding `children`.
    pub fn parent(kind: WidgetKind, id: u64, children: Vec<Widget>) -> (w: Widget)
        ensures
            widget_model(w) == (WidgetModel {
                kind,
                id,
                width: 0u32,
                height: 0u32,
                children: widget_models(children@),
            }),
    {
        let w = Widget { kind, id, width: 0, height: 0, children };
        proof {
            assert(widget_model(w) =~= WidgetModel {
                kind,
                id,
                width: 0u32,
                height: 0u32,
                children: widget_models(w.children@),
            });
        }
        w
    }
}

/// Structural equality of widget trees, decided field by field.
pub fn widget_eq(a: &Widget, b: &Widget) -> (r: bool)
    ensures
        r == (widget_model(*a) == widget_model(*b)),
    decreases *a, 0int,
{
    let ghost am = widget_model(*a);
    let ghost bm = widget_model(*b);
    if a.kind == b.kind && a.id == b.id && a.width == b.width && a.height == b.height
        && a.children.len() == b.children.len() {
        proof {
            lemma_widget_models_len(a.children@);
            lemma_widget_models_len(b.children@);
            assert(widget_models(a.children@).skip(0) =~= widget_models(a.children@));
            assert(widget_models(b.children@).skip(0) =~= widget_models(b.children@));
        }
        let r = widget_forest_eq(&a.children, &b.children, 0);
        proof {
            if r {
                assert(am =~= bm);
            } else {
                assert(am.children != bm.children);
            }
        }
        r
    } else {
        proof {
            lemma_widget_models_len(a.children@);
            lemma_widget_models_len(b.children@);
        }
        false
    }
}

/// Structural equality of two widget forests from position `i` on.
pub fn widget_forest_eq(xs: &Vec<Widget>, ys: &Vec<Widget>, i: usize) -> (r: bool)
    requires
        i <= xs@.len(),
        xs@.len() == ys@.len(),
    ensures
        r == (widget_models(xs@).skip(i as int) == widget_models(ys@).skip(i as int)),
    decreases xs@, xs@.len() - i, 1int,
{
    proof {
        lemma_widget_models_len(xs@);
        lemma_widget_models_len(ys@);
    }
    let ghost xt = widget_models(xs@).skip(i as int);
    let ghost yt = widget_models(ys@).skip(i as int);
    let n = xs.len();
    if i == n {
        proof {
            assert(xt =~= Seq::<WidgetModel>::empty());
            assert(yt =~= Seq::<WidgetModel>::empty());
            assert(xt =~= yt);
        }
        true
    } else {
        proof {
            lemma_widget_models_index(xs@, i as int);
            lemma_widget_models_index(ys@, i as int);
            assert(xt[0] == widget_model(xs@[i as int]));
            assert(yt[0] == widget_model(ys@[i as int]));
            assert(xt.drop_first() =~= widget_models(xs@).skip(i as int + 1));
            assert(yt.drop_first() =~= widget_models(ys@).skip(i as int + 1));
        }
        let h = widget_eq(&xs[i], &ys[i]);
        if !h {
            proof {
                assert(xt[0] != yt[0]);
            }
            false
        } else {
            let rest = widget_forest_eq(xs, ys, i + 1);
            proof {
                if rest {
                    assert forall|j: int| 0 <= j < xt.len() implies xt[j] == yt[j] by {
                        if j > 0 {
                            assert(xt[j] == xt.drop_first()[j - 1]);
                            assert(yt[j] == yt.drop_first()[j - 1]);
                        }
                    }
                    assert(xt =~= yt);
                } else {
                    assert(xt.drop_first() != yt.drop_first());
                    if xt == yt {
                        assert(xt.drop_first() =~= yt.drop_first());
                    }
                }
            }
            rest
        }
    }
}

} // verus!
