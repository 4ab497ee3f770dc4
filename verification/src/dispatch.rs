//! Event delivery along the hit path.
//!
//! A pointer event is delivered to the hit node first; if that node does
//! not capture it, the event bubbles to its ancestors along the hit path,
//! nearest first. Capturing stops the bubble: nothing above the capturing
//! node, and nothing off the path, sees the event. Messages are collected
//! in the order the emitting widgets were visited.

use vstd::prelude::*;
use crate::event::{Message, MessageKind};
use crate::geometry::rect_contains;
use crate::layout::{LayoutNode, LayoutModel, layout_node_model, layout_node_models};
use crate::hit::{lemma_layout_node_models_len, lemma_layout_node_models_index};
use crate::state::{StateNode, StateModel, state_model, state_models, lemma_state_models_index, lemma_state_models_len, sids, sids_seq};
use crate::widget::{Widget, WidgetKind, WidgetModel, widget_model, widget_models, lemma_widget_models_index, lemma_widget_models_len};

verus! {

broadcast use
    vstd::seq::axiom_seq_index_decreases,
    vstd::seq::axiom_seq_subrange_decreases,
    vstd::std_specs::vec::axiom_vec_index_decreases;

/// The two pointer-button phases delivered along a hit path.
#[derive(Clone, Copy, PartialEq, Eq, Structural, Debug)]
pub enum PointerPhase {
    /// Button went down.
    Press,
    /// Button came up.
    Release,
}

/// What one dispatch produced.
#[verifier::ext_equal]
pub struct DispatchModel {
    /// The state tree after the event.
    pub state: StateModel,
    /// Messages emitted, in visit order.
    pub messages: Seq<Message>,
    /// Whether some node captured the event.
    pub captured: bool,
}

/// A node's local state with its children ignored; event handling at a
/// node touches only this part.
pub open spec fn local_state(s: StateModel) -> StateModel {
    StateModel { children: Seq::empty(), ..s }
}

/// How a single node of the given kind handles a pointer phase: a button
/// press sets the pressed flag, emits a press message and captures; a
/// release on a pressed button clears the flag, emits a release message
/// and captures; everything else passes the event through untouched.
pub open spec fn handle_pointer(s: StateModel, wid: u64, phase: PointerPhase) -> DispatchModel {
    match phase {
        PointerPhase::Press => {
            if s.kind == WidgetKind::Button {
                DispatchModel {
                    state: StateModel { pressed: true, ..s },
                    messages: seq![Message { source: wid, kind: MessageKind::Pressed }],
                    captured: true,
                }
            } else if s.kind == WidgetKind::TextInput {
                DispatchModel { state: s, messages: Seq::empty(), captured: true }
            } else {
                DispatchModel { state: s, messages: Seq::empty(), captured: false }
            }
        },
        PointerPhase::Release => {
            if s.kind == WidgetKind::Button && s.pressed {
                DispatchModel {
                    state: StateModel { pressed: false, ..s },
                    messages: seq![Message { source: wid, kind: MessageKind::Released }],
                    captured: true,
                }
            } else {
                DispatchModel { state: s, messages: Seq::empty(), captured: false }
            }
        },
    }
}

/// Delivers a pointer phase along `path`, deepest node first, bubbling to
/// ancestors until some node captures. A path step that does not exist in
/// both trees ends the delivery with nothing done.
pub open spec fn dispatch_model(
    s: StateModel,
    w: WidgetModel,
    path: Seq<int>,
    phase: PointerPhase,
) -> DispatchModel
    decreases path.len(),
{
    if path.len() == 0 {
        handle_pointer(s, w.id, phase)
    } else {
        let i = path[0];
        if 0 <= i < s.children.len() && i < w.children.len() {
            let sub = dispatch_model(s.children[i], w.children[i], path.drop_first(), phase);
            let s2 = StateModel { children: s.children.update(i, sub.state), ..s };
            if sub.captured {
                DispatchModel { state: s2, messages: sub.messages, captured: true }
            } else {
                let own = handle_pointer(s2, w.id, phase);
                DispatchModel {
                    state: own.state,
                    messages: sub.messages + own.messages,
                    captured: own.captured,
                }
            }
        } else {
            DispatchModel { state: s, messages: Seq::empty(), captured: false }
        }
    }
}

/// Whether `path` denotes a node of the state tree `s`.
pub open spec fn valid_state_path(s: StateModel, path: Seq<int>) -> bool
    decreases path.len(),
{
    path.len() == 0 || (0 <= path[0] < s.children.len() && valid_state_path(
        s.children[path[0]],
        path.drop_first(),
    ))
}

/// The node of `s` that `path` denotes.
pub open spec fn state_at(s: StateModel, path: Seq<int>) -> StateModel
    decreases path.len(),
{
    if path.len() == 0 || !(0 <= path[0] < s.children.len()) {
        s
    } else {
        state_at(s.children[path[0]], path.drop_first())
    }
}

/// The node of `w` that `path` denotes.
pub open spec fn widget_at(w: WidgetModel, path: Seq<int>) -> WidgetModel
    decreases path.len(),
{
    if path.len() == 0 || !(0 <= path[0] < w.children.len()) {
        w
    } else {
        widget_at(w.children[path[0]], path.drop_first())
    }
}

/// Walking a state path is one child step followed by the rest.
pub proof fn lemma_state_at_cons(s: StateModel, i: int, q: Seq<int>)
    requires
        0 <= i < s.children.len(),
    ensures
        state_at(s, seq![i] + q) == state_at(s.children[i], q),
        valid_state_path(s, seq![i] + q) == valid_state_path(s.children[i], q),
{
    let p = seq![i] + q;
    assert(p[0] == i);
    assert(p.drop_first() =~= q);
}

/// Capture stops propagation. If no node captures, the dispatch is a
/// no-op: no state changes and no messages. If some node captures, there
/// is a single capture point on the hit path: every other node of the
/// tree — ancestors above it, siblings, everything off the path — keeps
/// its local state, and every emitted message names the capturing node's
/// widget.
pub proof fn lemma_capture_stops_propagation(
    s: StateModel,
    w: WidgetModel,
    path: Seq<int>,
    phase: PointerPhase,
)
    ensures
        !dispatch_model(s, w, path, phase).captured ==> dispatch_model(s, w, path, phase).state
            == s && dispatch_model(s, w, path, phase).messages == Seq::<Message>::empty(),
        dispatch_model(s, w, path, phase).captured ==> exists|d: int|
            {
                &&& 0 <= d <= path.len()
                &&& #[trigger] capture_point_ok(s, w, path, phase, d)
            },
    decreases path.len(),
{
    let r = dispatch_model(s, w, path, phase);
    if path.len() == 0 {
        if r.captured {
            assert forall|q: Seq<int>|
                valid_state_path(s, q) && q != path.take(0) implies local_state(
                state_at(r.state, q),
            ) == local_state(state_at(s, q)) by {
                assert(path.take(0) =~= Seq::<int>::empty());
                if q.len() == 0 {
                    assert(q =~= path.take(0));
                }
                if q.len() > 0 && 0 <= q[0] < s.children.len() {
                    assert(r.state.children == s.children);
                    assert(state_at(r.state, q) == state_at(r.state.children[q[0]], q.drop_first()));
                    assert(state_at(s, q) == state_at(s.children[q[0]], q.drop_first()));
                }
            }
            assert(path.take(0) =~= Seq::<int>::empty());
            assert(capture_point_ok(s, w, path, phase, 0));
        }
    } else {
        let i = path[0];
        if 0 <= i < s.children.len() && i < w.children.len() {
            let sub = dispatch_model(s.children[i], w.children[i], path.drop_first(), phase);
            lemma_capture_stops_propagation(s.children[i], w.children[i], path.drop_first(), phase);
            let s2 = StateModel { children: s.children.update(i, sub.state), ..s };
            if sub.captured {
                let dsub = choose|d: int|
                    0 <= d <= path.drop_first().len() && #[trigger] capture_point_ok(
                        s.children[i],
                        w.children[i],
                        path.drop_first(),
                        phase,
                        d,
                    );
                lemma_capture_lift(s, w, path, phase, dsub);
            } else {
                assert(sub.state == s.children[i]);
                assert(s.children.update(i, sub.state) =~= s.children);
                assert(s2 =~= s);
                let own = handle_pointer(s, w.id, phase);
                if own.captured {
                    assert(r.state.children == s.children);
                    assert forall|q: Seq<int>|
                        valid_state_path(s, q) && q != path.take(0) implies local_state(
                        state_at(r.state, q),
                    ) == local_state(state_at(s, q)) by {
                        assert(path.take(0) =~= Seq::<int>::empty());
                        if q.len() == 0 {
                            assert(q =~= path.take(0));
                        }
                        if q.len() > 0 && 0 <= q[0] < s.children.len() {
                            assert(state_at(r.state, q) == state_at(
                                r.state.children[q[0]],
                                q.drop_first(),
                            ));
                            assert(state_at(s, q) == state_at(s.children[q[0]], q.drop_first()));
                        }
                    }
                    assert(path.take(0) =~= Seq::<int>::empty());
                    assert(capture_point_ok(s, w, path, phase, 0));
                } else {
                    assert(r.state == s);
                    assert(r.messages =~= Seq::<Message>::empty());
                }
            }
        }
    }
}

/// What it means for depth `d` to be the capture point of a dispatch: the
/// node at `path.take(d)` is the only one whose local state may differ
/// after the dispatch, and every message names its widget.
pub open spec fn capture_point_ok(
    s: StateModel,
    w: WidgetModel,
    path: Seq<int>,
    phase: PointerPhase,
    d: int,
) -> bool {
    &&& 0 <= d <= path.len()
    &&& forall|q: Seq<int>|
        valid_state_path(s, q) && q != path.take(d) ==> local_state(
            state_at(dispatch_model(s, w, path, phase).state, q),
        ) == local_state(state_at(s, q))
    &&& forall|k: int|
        0 <= k < dispatch_model(s, w, path, phase).messages.len() ==> (
        #[trigger] dispatch_model(s, w, path, phase).messages[k]).source == widget_at(
            w,
            path.take(d),
        ).id
}

/// Lifts a capture point of the child dispatch one level up.
proof fn lemma_capture_lift(
    s: StateModel,
    w: WidgetModel,
    path: Seq<int>,
    phase: PointerPhase,
    dsub: int,
)
    requires
        path.len() > 0,
        0 <= path[0] < s.children.len(),
        path[0] < w.children.len(),
        dispatch_model(
            s.children[path[0]],
            w.children[path[0]],
            path.drop_first(),
            phase,
        ).captured,
        capture_point_ok(s.children[path[0]], w.children[path[0]], path.drop_first(), phase, dsub),
    ensures
        capture_point_ok(s, w, path, phase, dsub + 1),
{
    let i = path[0];
    let p = path.drop_first();
    let sub = dispatch_model(s.children[i], w.children[i], p, phase);
    let r = dispatch_model(s, w, path, phase);
    assert(r.state == StateModel { children: s.children.update(i, sub.state), ..s });
    assert(r.messages == sub.messages);
    assert(path.take(dsub + 1) =~= seq![i] + p.take(dsub));
    lemma_state_at_cons(s, i, p.take(dsub));
    assert(widget_at(w, path.take(dsub + 1)) == widget_at(w.children[i], p.take(dsub))) by {
        let t = path.take(dsub + 1);
        assert(t[0] == i);
        assert(t.drop_first() =~= p.take(dsub));
    }
    assert forall|q: Seq<int>|
        valid_state_path(s, q) && q != path.take(dsub + 1) implies local_state(state_at(r.state, q))
        == local_state(state_at(s, q)) by {
        if q.len() == 0 {
            assert(local_state(r.state) =~= local_state(s));
        } else {
            let j = q[0];
            let qr = q.drop_first();
            assert(valid_state_path(s.children[j], qr));
            if j != i {
                assert(r.state.children[j] == s.children[j]);
                assert(state_at(r.state, q) == state_at(r.state.children[j], qr));
                assert(state_at(s, q) == state_at(s.children[j], qr));
            } else {
                assert(q =~= seq![i] + qr);
                assert(qr != p.take(dsub)) by {
                    if qr == p.take(dsub) {
                        assert(q =~= path.take(dsub + 1));
                    }
                }
                assert(state_at(r.state, q) == state_at(sub.state, qr));
                assert(state_at(s, q) == state_at(s.children[i], qr));
            }
        }
    }
}

/// A cursor advance that sticks at the top of the range.
pub open spec fn sat_inc(c: u64) -> u64 {
    if c == u64::MAX {
        c
    } else {
        (c + 1) as u64
    }
}

/// Handles a pointer phase at a single node.
fn handle_node(s: StateNode, wid: u64, phase: PointerPhase) -> (r: (StateNode, Vec<Message>, bool))
    ensures
        state_model(r.0) == handle_pointer(state_model(s), wid, phase).state,
        r.1@ == handle_pointer(state_model(s), wid, phase).messages,
        r.2 == handle_pointer(state_model(s), wid, phase).captured,
{
    let ghost sm = state_model(s);
    match phase {
        PointerPhase::Press => {
            if s.kind == WidgetKind::Button {
                let s2 = StateNode { pressed: true, ..s };
                let mut msgs: Vec<Message> = Vec::new();
                msgs.push(Message { source: wid, kind: MessageKind::Pressed });
                proof {
                    assert(state_model(s2) =~= StateModel { pressed: true, ..sm });
                    assert(msgs@ =~= handle_pointer(sm, wid, phase).messages);
                }
                (s2, msgs, true)
            } else if s.kind == WidgetKind::TextInput {
                (s, Vec::new(), true)
            } else {
                (s, Vec::new(), false)
            }
        },
        PointerPhase::Release => {
            if s.kind == WidgetKind::Button && s.pressed {
                let s2 = StateNode { pressed: false, ..s };
                let mut msgs: Vec<Message> = Vec::new();
                msgs.push(Message { source: wid, kind: MessageKind::Released });
                proof {
                    assert(state_model(s2) =~= StateModel { pressed: false, ..sm });
                    assert(msgs@ =~= handle_pointer(sm, wid, phase).messages);
                }
                (s2, msgs, true)
            } else {
                (s, Vec::new(), false)
            }
        },
    }
}

/// Delivers a pointer phase along the hit path from `depth` on, deepest
/// node first, bubbling until captured.
pub fn dispatch_pointer(
    s: StateNode,
    w: &Widget,
    path: &Vec<usize>,
    depth: usize,
    phase: PointerPhase,
) -> (r: (StateNode, Vec<Message>, bool))
    requires
        depth <= path@.len(),
    ensures
        ({
            let m = dispatch_model(
                state_model(s),
                widget_model(*w),
                path@.map_values(|u: usize| u as int).skip(depth as int),
                phase,
            );
            &&& state_model(r.0) == m.state
            &&& r.1@ == m.messages
            &&& r.2 == m.captured
        }),
    decreases path@.len() - depth,
{
    let ghost sm = state_model(s);
    let ghost wm = widget_model(*w);
    let ghost ipath = path@.map_values(|u: usize| u as int).skip(depth as int);
    if depth == path.len() {
        proof {
            assert(ipath.len() == 0);
        }
        handle_node(s, w.id, phase)
    } else {
        let i = path[depth];
        proof {
            assert(ipath[0] == i as int);
            assert(ipath.drop_first() =~= path@.map_values(|u: usize| u as int).skip(
                depth as int + 1,
            ));
            lemma_state_models_len(s.children@);
            lemma_widget_models_len(w.children@);
        }
        if i < s.children.len() && i < w.children.len() {
            let StateNode { kind, sid, hovered, pressed, cursor, scroll, children } = s;
            let mut children = children;
            let ghost kids0 = children@;
            proof {
                lemma_state_models_index(kids0, i as int);
            }
            let child = children.remove(i);
            let (c2, mut cmsgs, ccap) = dispatch_pointer(child, &w.children[i], path, depth + 1, phase);
            children.insert(i, c2);
            proof {
                lemma_widget_models_index(w.children@, i as int);
                assert(children@ =~= kids0.update(i as int, c2));
                assert forall|j: int| 0 <= j < children@.len() implies #[trigger] state_models(
                    children@,
                )[j] == state_models(kids0).update(i as int, state_model(c2))[j] by {
                    lemma_state_models_index(children@, j);
                    lemma_state_models_index(kids0, j);
                }
                lemma_state_models_len(children@);
                lemma_state_models_len(kids0);
                assert(state_models(children@) =~= state_models(kids0).update(
                    i as int,
                    state_model(c2),
                ));
            }
            let s2 = StateNode { kind, sid, hovered, pressed, cursor, scroll, children };
            proof {
                let sub = dispatch_model(
                    sm.children[i as int],
                    wm.children[i as int],
                    ipath.drop_first(),
                    phase,
                );
                assert(state_model(s2) =~= StateModel {
                    children: sm.children.update(i as int, sub.state),
                    ..sm
                });
            }
            if ccap {
                (s2, cmsgs, true)
            } else {
                let (s3, mut own, cap) = handle_node(s2, w.id, phase);
                cmsgs.append(&mut own);
                (s3, cmsgs, cap)
            }
        } else {
            (s, Vec::new(), false)
        }
    }
}


/// The hover pass: after a pointer move, a node is hovered exactly when
/// its bounds contain the pointer. Children beyond the laid-out forest
/// keep their flags.
pub open spec fn hover_model(s: StateModel, l: LayoutModel, px: u32, py: u32) -> StateModel
    decreases s,
{
    StateModel {
        hovered: rect_contains(l.rect, px, py),
        children: hover_seq(s.children, l.children, px, py),
        ..s
    }
}

/// Hover pass over two forests walked in lock-step.
pub open spec fn hover_seq(
    ss: Seq<StateModel>,
    ls: Seq<LayoutModel>,
    px: u32,
    py: u32,
) -> Seq<StateModel>
    decreases ss,
{
    if ss.len() == 0 {
        Seq::empty()
    } else if ls.len() == 0 {
        ss
    } else {
        seq![hover_model(ss[0], ls[0], px, py)] + hover_seq(
            ss.drop_first(),
            ls.drop_first(),
            px,
            py,
        )
    }
}

/// Whether the hover pass flips any flag.
pub open spec fn hover_changed(s: StateModel, l: LayoutModel, px: u32, py: u32) -> bool
    decreases s,
{
    s.hovered != rect_contains(l.rect, px, py) || hover_seq_changed(s.children, l.children, px, py)
}

/// Forest version of `hover_changed`.
pub open spec fn hover_seq_changed(
    ss: Seq<StateModel>,
    ls: Seq<LayoutModel>,
    px: u32,
    py: u32,
) -> bool
    decreases ss,
{
    if ss.len() == 0 || ls.len() == 0 {
        false
    } else {
        hover_changed(ss[0], ls[0], px, py) || hover_seq_changed(
            ss.drop_first(),
            ls.drop_first(),
            px,
            py,
        )
    }
}

/// Recomputes every hover flag for the pointer at `(px, py)` and reports
/// whether anything flipped.
pub fn hover_pass(s: StateNode, l: &LayoutNode, px: u32, py: u32) -> (r: (StateNode, bool))
    ensures
        state_model(r.0) == hover_model(state_model(s), layout_node_model(*l), px, py),
        r.1 == hover_changed(state_model(s), layout_node_model(*l), px, py),
    decreases s, 0int,
{
    let ghost sm = state_model(s);
    let over = l.rect.contains(px, py);
    let flipped = s.hovered != over;
    let StateNode { kind, sid, hovered, pressed, cursor, scroll, children } = s;
    let (children2, kids_changed) = hover_forest(children, &l.children, 0, px, py);
    let s2 = StateNode { kind, sid, hovered: over, pressed, cursor, scroll, children: children2 };
    proof {
        assert(layout_node_models(l.children@).skip(0) =~= layout_node_models(l.children@));
        assert(state_model(s2) =~= hover_model(sm, layout_node_model(*l), px, py));
    }
    (s2, flipped || kids_changed)
}

/// Hover pass over the state nodes of `ss` paired with the layouts of
/// `ls` from position `i` on.
pub fn hover_forest(ss: Vec<StateNode>, ls: &Vec<LayoutNode>, i: usize, px: u32, py: u32) -> (r: (
    Vec<StateNode>,
    bool,
))
    requires
        i <= ls@.len(),
    ensures
        state_models(r.0@) == hover_seq(
            state_models(ss@),
            layout_node_models(ls@).skip(i as int),
            px,
            py,
        ),
        r.1 == hover_seq_changed(
            state_models(ss@),
            layout_node_models(ls@).skip(i as int),
            px,
            py,
        ),
    decreases ss@, 0int,
{
    let ghost sm = state_models(ss@);
    let ghost lm = layout_node_models(ls@).skip(i as int);
    proof {
        lemma_state_models_len(ss@);
        lemma_layout_node_models_len(ls@);
    }
    if ss.len() == 0 {
        proof {
            assert(state_models(ss@) =~= Seq::<StateModel>::empty());
        }
        (ss, false)
    } else if i == ls.len() {
        proof {
            assert(lm =~= Seq::<LayoutModel>::empty());
        }
        (ss, false)
    } else {
        let mut ss = ss;
        let ghost ss0 = ss@;
        proof {
            lemma_state_models_index(ss0, 0);
            lemma_layout_node_models_index(ls@, i as int);
            assert(lm[0] == layout_node_model(ls@[i as int]));
            assert(lm.drop_first() =~= layout_node_models(ls@).skip(i as int + 1));
        }
        let head = ss.remove(0);
        proof {
            assert(ss@ =~= ss0.drop_first());
            assert forall|j: int| 0 <= j < ss@.len() implies #[trigger] state_models(ss@)[j]
                == sm.drop_first()[j] by {
                lemma_state_models_index(ss@, j);
                lemma_state_models_index(ss0, j + 1);
            }
            lemma_state_models_len(ss@);
            assert(state_models(ss@) =~= sm.drop_first());
        }
        let (h2, hc) = hover_pass(head, &ls[i], px, py);
        let (mut rest, rc) = hover_forest(ss, ls, i + 1, px, py);
        let ghost rest_view = rest@;
        rest.insert(0, h2);
        proof {
            assert(rest@[0] == h2);
            assert(rest@.drop_first() =~= rest_view);
            assert(state_models(rest@) == seq![state_model(h2)] + state_models(rest@.drop_first()));
            assert(state_models(rest@) =~= hover_seq(sm, lm, px, py));
        }
        (rest, hc || rc)
    }
}

/// What delivering a typed character produced.
#[verifier::ext_equal]
pub struct EditModel {
    /// The state tree afterwards.
    pub state: StateModel,
    /// Messages emitted.
    pub messages: Seq<Message>,
    /// Whether the focused text input was found.
    pub found: bool,
}

/// Forest version of `EditModel`.
#[verifier::ext_equal]
pub struct EditSeqModel {
    pub state: Seq<StateModel>,
    pub messages: Seq<Message>,
    pub found: bool,
}

/// Delivers a typed character to the node with identity `target`: the
/// first such text input in preorder advances its cursor and emits an
/// edit message naming its widget; every other node is untouched.
pub open spec fn edit_model(s: StateModel, w: WidgetModel, target: u64) -> EditModel
    decreases s,
{
    if s.sid == target && s.kind == WidgetKind::TextInput {
        EditModel {
            state: StateModel { cursor: sat_inc(s.cursor), ..s },
            messages: seq![Message { source: w.id, kind: MessageKind::Edited }],
            found: true,
        }
    } else {
        let sub = edit_seq(s.children, w.children, target);
        EditModel {
            state: StateModel { children: sub.state, ..s },
            messages: sub.messages,
            found: sub.found,
        }
    }
}

/// Forest version of `edit_model`; the search stops at the first find.
pub open spec fn edit_seq(ss: Seq<StateModel>, ws: Seq<WidgetModel>, target: u64) -> EditSeqModel
    decreases ss,
{
    if ss.len() == 0 {
        EditSeqModel { state: ss, messages: Seq::empty(), found: false }
    } else if ws.len() == 0 {
        EditSeqModel { state: ss, messages: Seq::empty(), found: false }
    } else {
        let h = edit_model(ss[0], ws[0], target);
        if h.found {
            EditSeqModel {
                state: seq![h.state] + ss.drop_first(),
                messages: h.messages,
                found: true,
            }
        } else {
            let r = edit_seq(ss.drop_first(), ws.drop_first(), target);
            EditSeqModel {
                state: seq![h.state] + r.state,
                messages: r.messages,
                found: r.found,
            }
        }
    }
}

/// Delivers a typed character to the focused text input.
pub fn edit_pass(s: StateNode, w: &Widget, target: u64) -> (r: (StateNode, Vec<Message>, bool))
    ensures
        state_model(r.0) == edit_model(state_model(s), widget_model(*w), target).state,
        r.1@ == edit_model(state_model(s), widget_model(*w), target).messages,
        r.2 == edit_model(state_model(s), widget_model(*w), target).found,
    decreases s, 0int,
{
    let ghost sm = state_model(s);
    if s.sid == target && s.kind == WidgetKind::TextInput {
        let c2: u64 = if s.cursor == u64::MAX {
            s.cursor
        } else {
            s.cursor + 1
        };
        let s2 = StateNode { cursor: c2, ..s };
        let mut msgs: Vec<Message> = Vec::new();
        msgs.push(Message { source: w.id, kind: MessageKind::Edited });
        proof {
            assert(state_model(s2) =~= StateModel { cursor: sat_inc(sm.cursor), ..sm });
            assert(msgs@ =~= edit_model(sm, widget_model(*w), target).messages);
        }
        (s2, msgs, true)
    } else {
        let StateNode { kind, sid, hovered, pressed, cursor, scroll, children } = s;
        proof {
            assert(widget_models(w.children@).skip(0) =~= widget_models(w.children@));
        }
        let (children2, msgs, found) = edit_forest(children, &w.children, 0, target);
        let s2 = StateNode { kind, sid, hovered, pressed, cursor, scroll, children: children2 };
        proof {
            assert(state_model(s2) =~= edit_model(sm, widget_model(*w), target).state);
        }
        (s2, msgs, found)
    }
}

/// Edit pass over the state nodes of `ss` paired with the widgets of `ws`
/// from position `i` on.
pub fn edit_forest(ss: Vec<StateNode>, ws: &Vec<Widget>, i: usize, target: u64) -> (r: (
    Vec<StateNode>,
    Vec<Message>,
    bool,
))
    requires
        i <= ws@.len(),
    ensures
        state_models(r.0@) == edit_seq(
            state_models(ss@),
            widget_models(ws@).skip(i as int),
            target,
        ).state,
        r.1@ == edit_seq(state_models(ss@), widget_models(ws@).skip(i as int), target).messages,
        r.2 == edit_seq(state_models(ss@), widget_models(ws@).skip(i as int), target).found,
    decreases ss@, 0int,
{
    let ghost sm = state_models(ss@);
    let ghost wm = widget_models(ws@).skip(i as int);
    proof {
        lemma_state_models_len(ss@);
        lemma_widget_models_len(ws@);
    }
    if ss.len() == 0 {
        proof {
            assert(sm =~= Seq::<StateModel>::empty());
        }
        (ss, Vec::new(), false)
    } else if i == ws.len() {
        proof {
            assert(wm =~= Seq::<WidgetModel>::empty());
        }
        (ss, Vec::new(), false)
    } else {
        let mut ss = ss;
        let ghost ss0 = ss@;
        proof {
            lemma_state_models_index(ss0, 0);
            lemma_widget_models_index(ws@, i as int);
            assert(wm[0] == widget_model(ws@[i as int]));
            assert(wm.drop_first() =~= widget_models(ws@).skip(i as int + 1));
        }
        let head = ss.remove(0);
        proof {
            assert(ss@ =~= ss0.drop_first());
            assert forall|j: int| 0 <= j < ss@.len() implies #[trigger] state_models(ss@)[j]
                == sm.drop_first()[j] by {
                lemma_state_models_index(ss@, j);
                lemma_state_models_index(ss0, j + 1);
            }
            lemma_state_models_len(ss@);
            assert(state_models(ss@) =~= sm.drop_first());
        }
        let (h2, hmsgs, hfound) = edit_pass(head, &ws[i], target);
        if hfound {
            let mut out = ss;
            let ghost rest_view = out@;
            out.insert(0, h2);
            proof {
                assert(out@[0] == h2);
                assert(out@.drop_first() =~= rest_view);
                assert(state_models(out@) == seq![state_model(h2)] + state_models(
                    out@.drop_first(),
                ));
                assert(state_models(out@) =~= edit_seq(sm, wm, target).state);
            }
            (out, hmsgs, true)
        } else {
            let (mut rest, rmsgs, rfound) = edit_forest(ss, ws, i + 1, target);
            let ghost rest_view = rest@;
            rest.insert(0, h2);
            proof {
                assert(rest@[0] == h2);
                assert(rest@.drop_first() =~= rest_view);
                assert(state_models(rest@) == seq![state_model(h2)] + state_models(
                    rest@.drop_first(),
                ));
                assert(state_models(rest@) =~= edit_seq(sm, wm, target).state);
            }
            (rest, rmsgs, rfound)
        }
    }
}

/// The hover pass keeps the tree's shape: kinds, identities and sibling
/// structure are untouched.
pub proof fn lemma_hover_matches(s: StateModel, l: LayoutModel, px: u32, py: u32, w: WidgetModel)
    requires
        crate::state::state_matches(s, w),
    ensures
        crate::state::state_matches(hover_model(s, l, px, py), w),
    decreases s,
{
    lemma_hover_seq_matches(s.children, l.children, px, py, w.children);
    let h = hover_model(s, l, px, py);
    assert forall|i: int| 0 <= i < w.children.len() implies crate::state::state_matches(
        #[trigger] h.children[i],
        w.children[i],
    ) by {
        assert(h.children == hover_seq(s.children, l.children, px, py));
    }
}

/// Forest version of `lemma_hover_matches`.
pub proof fn lemma_hover_seq_matches(
    ss: Seq<StateModel>,
    ls: Seq<LayoutModel>,
    px: u32,
    py: u32,
    ws: Seq<WidgetModel>,
)
    requires
        ss.len() == ws.len(),
        forall|i: int| 0 <= i < ws.len() ==> crate::state::state_matches(#[trigger] ss[i], ws[i]),
    ensures
        hover_seq(ss, ls, px, py).len() == ss.len(),
        forall|i: int|
            0 <= i < ws.len() ==> crate::state::state_matches(
                #[trigger] hover_seq(ss, ls, px, py)[i],
                ws[i],
            ),
    decreases ss,
{
    if ss.len() > 0 && ls.len() > 0 {
        lemma_hover_matches(ss[0], ls[0], px, py, ws[0]);
        assert forall|i: int| 0 <= i < ws.drop_first().len() implies crate::state::state_matches(
            #[trigger] ss.drop_first()[i],
            ws.drop_first()[i],
        ) by {
            assert(ss.drop_first()[i] == ss[i + 1]);
            assert(ws.drop_first()[i] == ws[i + 1]);
        }
        lemma_hover_seq_matches(ss.drop_first(), ls.drop_first(), px, py, ws.drop_first());
        let r = hover_seq(ss, ls, px, py);
        assert forall|i: int| 0 <= i < ws.len() implies crate::state::state_matches(
            #[trigger] r[i],
            ws[i],
        ) by {
            if i > 0 {
                assert(r[i] == hover_seq(ss.drop_first(), ls.drop_first(), px, py)[i - 1]);
                assert(ws.drop_first()[i - 1] == ws[i]);
            }
        }
    }
}

/// Pointer dispatch keeps the tree's shape.
pub proof fn lemma_dispatch_matches(
    s: StateModel,
    w: WidgetModel,
    path: Seq<int>,
    phase: PointerPhase,
    wr: WidgetModel,
)
    requires
        crate::state::state_matches(s, wr),
    ensures
        crate::state::state_matches(dispatch_model(s, w, path, phase).state, wr),
    decreases path.len(),
{
    let r = dispatch_model(s, w, path, phase);
    if path.len() == 0 {
        assert(r.state.children == s.children);
        assert(r.state.kind == s.kind);
    } else {
        let i = path[0];
        if 0 <= i < s.children.len() && i < w.children.len() {
            let sub = dispatch_model(s.children[i], w.children[i], path.drop_first(), phase);
            if i < wr.children.len() {
                lemma_dispatch_matches(
                    s.children[i],
                    w.children[i],
                    path.drop_first(),
                    phase,
                    wr.children[i],
                );
            }
            let s2 = StateModel { children: s.children.update(i, sub.state), ..s };
            assert(crate::state::state_matches(s2, wr)) by {
                assert forall|j: int| 0 <= j < wr.children.len() implies
                    crate::state::state_matches(#[trigger] s2.children[j], wr.children[j]) by {
                    if j != i {
                        assert(s2.children[j] == s.children[j]);
                    }
                }
            }
            if !sub.captured {
                let own = handle_pointer(s2, w.id, phase);
                assert(own.state.children == s2.children);
                assert(own.state.kind == s2.kind);
            }
        }
    }
}

/// Character delivery keeps the tree's shape.
pub proof fn lemma_edit_matches(s: StateModel, w: WidgetModel, target: u64, wr: WidgetModel)
    requires
        crate::state::state_matches(s, wr),
    ensures
        crate::state::state_matches(edit_model(s, w, target).state, wr),
    decreases s,
{
    let r = edit_model(s, w, target);
    if s.sid == target && s.kind == WidgetKind::TextInput {
        assert(r.state.children == s.children);
    } else {
        lemma_edit_seq_matches(s.children, w.children, target, wr.children);
        assert forall|i: int| 0 <= i < wr.children.len() implies crate::state::state_matches(
            #[trigger] r.state.children[i],
            wr.children[i],
        ) by {
            assert(r.state.children == edit_seq(s.children, w.children, target).state);
        }
    }
}

/// Forest version of `lemma_edit_matches`.
pub proof fn lemma_edit_seq_matches(
    ss: Seq<StateModel>,
    ws: Seq<WidgetModel>,
    target: u64,
    wrs: Seq<WidgetModel>,
)
    requires
        ss.len() == wrs.len(),
        forall|i: int| 0 <= i < wrs.len() ==> crate::state::state_matches(#[trigger] ss[i], wrs[i]),
    ensures
        edit_seq(ss, ws, target).state.len() == ss.len(),
        forall|i: int|
            0 <= i < wrs.len() ==> crate::state::state_matches(
                #[trigger] edit_seq(ss, ws, target).state[i],
                wrs[i],
            ),
    decreases ss,
{
    if ss.len() > 0 && ws.len() > 0 {
        let h = edit_model(ss[0], ws[0], target);
        lemma_edit_matches(ss[0], ws[0], target, wrs[0]);
        let r = edit_seq(ss, ws, target);
        if h.found {
            assert(r.state == seq![h.state] + ss.drop_first());
            assert forall|i: int| 0 <= i < wrs.len() implies crate::state::state_matches(
                #[trigger] r.state[i],
                wrs[i],
            ) by {
                if i > 0 {
                    assert(r.state[i] == ss[i]);
                }
            }
        } else {
            assert forall|i: int| 0 <= i < wrs.drop_first().len() implies
                crate::state::state_matches(
                #[trigger] ss.drop_first()[i],
                wrs.drop_first()[i],
            ) by {
                assert(ss.drop_first()[i] == ss[i + 1]);
                assert(wrs.drop_first()[i] == wrs[i + 1]);
            }
            lemma_edit_seq_matches(ss.drop_first(), ws.drop_first(), target, wrs.drop_first());
            let rr = edit_seq(ss.drop_first(), ws.drop_first(), target);
            assert(r.state == seq![h.state] + rr.state);
            assert forall|i: int| 0 <= i < wrs.len() implies crate::state::state_matches(
                #[trigger] r.state[i],
                wrs[i],
            ) by {
                if i > 0 {
                    assert(r.state[i] == rr.state[i - 1]);
                    assert(wrs.drop_first()[i - 1] == wrs[i]);
                }
            }
        }
    }
}

/// Replacing one tree of a forest by one with the same identities keeps
/// the forest's identity sequence.
pub proof fn lemma_sids_seq_update(ss: Seq<StateModel>, i: int, x: StateModel)
    requires
        0 <= i < ss.len(),
        sids(x) == sids(ss[i]),
    ensures
        sids_seq(ss.update(i, x)) == sids_seq(ss),
    decreases ss,
{
    let u = ss.update(i, x);
    if i == 0 {
        assert(u[0] == x);
        assert(u.drop_first() =~= ss.drop_first());
    } else {
        assert(u[0] == ss[0]);
        assert(u.drop_first() =~= ss.drop_first().update(i - 1, x));
        lemma_sids_seq_update(ss.drop_first(), i - 1, x);
    }
}

/// The hover pass keeps every identity.
pub proof fn lemma_hover_sids(s: StateModel, l: LayoutModel, px: u32, py: u32)
    ensures
        sids(hover_model(s, l, px, py)) == sids(s),
    decreases s,
{
    lemma_hover_seq_sids(s.children, l.children, px, py);
}

/// Forest version of `lemma_hover_sids`.
pub proof fn lemma_hover_seq_sids(ss: Seq<StateModel>, ls: Seq<LayoutModel>, px: u32, py: u32)
    ensures
        sids_seq(hover_seq(ss, ls, px, py)) == sids_seq(ss),
    decreases ss,
{
    if ss.len() > 0 && ls.len() > 0 {
        lemma_hover_sids(ss[0], ls[0], px, py);
        lemma_hover_seq_sids(ss.drop_first(), ls.drop_first(), px, py);
        let r = hover_seq(ss, ls, px, py);
        assert(r[0] == hover_model(ss[0], ls[0], px, py));
        assert(r.drop_first() =~= hover_seq(ss.drop_first(), ls.drop_first(), px, py));
    }
}

/// Pointer dispatch keeps every identity.
pub proof fn lemma_dispatch_sids(s: StateModel, w: WidgetModel, path: Seq<int>, phase: PointerPhase)
    ensures
        sids(dispatch_model(s, w, path, phase).state) == sids(s),
    decreases path.len(),
{
    let r = dispatch_model(s, w, path, phase);
    if path.len() == 0 {
        assert(r.state.children == s.children);
        assert(r.state.sid == s.sid);
    } else {
        let i = path[0];
        if 0 <= i < s.children.len() && i < w.children.len() {
            let sub = dispatch_model(s.children[i], w.children[i], path.drop_first(), phase);
            lemma_dispatch_sids(s.children[i], w.children[i], path.drop_first(), phase);
            lemma_sids_seq_update(s.children, i, sub.state);
            let s2 = StateModel { children: s.children.update(i, sub.state), ..s };
            assert(sids(s2) == sids(s));
            if !sub.captured {
                let own = handle_pointer(s2, w.id, phase);
                assert(own.state.children == s2.children);
                assert(own.state.sid == s2.sid);
            }
        }
    }
}

/// Character delivery keeps every identity.
pub proof fn lemma_edit_sids(s: StateModel, w: WidgetModel, target: u64)
    ensures
        sids(edit_model(s, w, target).state) == sids(s),
    decreases s,
{
    let r = edit_model(s, w, target);
    if s.sid == target && s.kind == WidgetKind::TextInput {
        assert(r.state.children == s.children);
    } else {
        lemma_edit_seq_sids(s.children, w.children, target);
    }
}

/// Forest version of `lemma_edit_sids`.
pub proof fn lemma_edit_seq_sids(ss: Seq<StateModel>, ws: Seq<WidgetModel>, target: u64)
    ensures
        sids_seq(edit_seq(ss, ws, target).state) == sids_seq(ss),
    decreases ss,
{
    if ss.len() > 0 && ws.len() > 0 {
        let h = edit_model(ss[0], ws[0], target);
        lemma_edit_sids(ss[0], ws[0], target);
        let r = edit_seq(ss, ws, target);
        if h.found {
            assert(r.state[0] == h.state);
            assert(r.state.drop_first() =~= ss.drop_first());
        } else {
            lemma_edit_seq_sids(ss.drop_first(), ws.drop_first(), target);
            assert(r.state[0] == h.state);
            assert(r.state.drop_first() =~= edit_seq(ss.drop_first(), ws.drop_first(), target).state);
        }
    }
}

} // verus!
