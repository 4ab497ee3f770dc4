//! The user-interface runtime: persistent state across frames.
//!
//! The runtime owns the state tree, the current frame's widget tree and
//! its cached layout. Every frame the application hands over a fresh
//! widget tree; the runtime reconciles state positionally, re-lays-out
//! only when the tree changed, prunes a vanished focus target, dispatches
//! the frame's events one at a time, and reports whether geometry or
//! visuals changed so the driver can skip idle frames.

use vstd::prelude::*;
use crate::dispatch::{
    dispatch_model, dispatch_pointer, edit_model, edit_pass, hover_changed, hover_model,
    hover_pass, lemma_dispatch_matches, lemma_dispatch_sids, lemma_edit_matches, lemma_edit_sids,
    lemma_hover_matches, lemma_hover_sids, PointerPhase,
};
use crate::event::{Event, Message, MessageKind};
use crate::focus::{collect_focus, cycle_focus, find_in_list, focus_list, lemma_find_first, lemma_tree_focus_wraps, spec_cycle};
use crate::geometry::{rect_contains, Rect};
use crate::hit::{hit_model, hit_test};
use crate::layout::{layout, layout_model, layout_node_model, LayoutNode};
use crate::state::{
    fresh_model, fresh_state, lemma_fresh_matches, lemma_fresh_sids, lemma_recon_fresh_bound,
    lemma_recon_matches, lemma_recon_sids_distinct, lemma_reconcile_preserves_identity,
    node_count, recon_fresh, recon_model, reconcile, sids, state_matches, state_model, StateNode,
};
use crate::widget::{widget_eq, widget_model, Widget, WidgetModel};

verus! {

/// A widget-requested layer above the base tree; at most one is active.
/// While active it is offered pointer events first and captures exactly
/// those inside its bounds; everything else falls through to the base
/// tree.
#[derive(Clone, Copy, PartialEq, Eq, Structural, Debug)]
pub struct Overlay {
    /// The application id of the widget that requested the overlay.
    pub owner: u64,
    /// The overlay's bounds, in window coordinates.
    pub rect: Rect,
}

/// The mathematical model of the runtime.
#[verifier::ext_equal]
pub struct UiModel {
    pub tree: WidgetModel,
    pub state: crate::state::StateModel,
    pub layout: crate::layout::LayoutModel,
    pub focus: Option<u64>,
    pub next_sid: u64,
    pub overlay: Option<Overlay>,
    pub width: u32,
    pub height: u32,
}

/// The user-interface runtime.
pub struct UserInterface {
    /// The current frame's widget tree.
    pub tree: Widget,
    /// Persistent per-widget state, shaped like `tree`.
    pub state: StateNode,
    /// Cached layout of `tree`, rooted at the origin.
    pub layout: LayoutNode,
    /// Identity of the focused node, if any.
    pub focus: Option<u64>,
    /// The next state identity to hand out.
    pub next_sid: u64,
    /// The active overlay, if any.
    pub overlay: Option<Overlay>,
    /// Window width, tracked across resizes.
    pub width: u32,
    /// Window height, tracked across resizes.
    pub height: u32,
}

/// The model of the runtime.
pub open spec fn ui_model(u: UserInterface) -> UiModel {
    UiModel {
        tree: widget_model(u.tree),
        state: state_model(u.state),
        layout: layout_node_model(u.layout),
        focus: u.focus,
        next_sid: u.next_sid,
        overlay: u.overlay,
        width: u.width,
        height: u.height,
    }
}

/// Well-formedness: the state tree is shaped like the widget tree, the
/// cached layout is the layout of the widget tree at the origin, and the
/// state identities are distinct and all below the allocation counter.
pub open spec fn ui_wf(u: UiModel) -> bool {
    &&& state_matches(u.state, u.tree)
    &&& u.layout == layout_model(u.tree, 0, 0)
    &&& sids(u.state).no_duplicates()
    &&& forall|k: int| 0 <= k < sids(u.state).len() ==> sids(u.state)[k] < u.next_sid
}

/// Whether the active overlay swallows a pointer at `(x, y)`.
pub open spec fn overlay_hit(o: Option<Overlay>, x: u32, y: u32) -> bool {
    o is Some && rect_contains(o->Some_0.rect, x, y)
}

/// What one event produced.
#[verifier::ext_equal]
pub struct StepModel {
    /// The runtime afterwards.
    pub ui: UiModel,
    /// Messages emitted, in visit order.
    pub messages: Seq<Message>,
    /// Whether visuals changed.
    pub visuals: bool,
    /// Whether geometry changed.
    pub geometry: bool,
}

/// A pointer phase delivered to the overlay first, then to the base tree
/// through hit-testing and the capture bubble.
pub open spec fn pointer_step(u: UiModel, x: u32, y: u32, phase: PointerPhase) -> StepModel {
    if overlay_hit(u.overlay, x, y) {
        let kind = match phase {
            PointerPhase::Press => MessageKind::Pressed,
            PointerPhase::Release => MessageKind::Released,
        };
        StepModel {
            ui: u,
            messages: seq![Message { source: u.overlay->Some_0.owner, kind }],
            visuals: true,
            geometry: false,
        }
    } else {
        match hit_model(u.layout, x, y) {
            Option::None => StepModel {
                ui: u,
                messages: Seq::empty(),
                visuals: false,
                geometry: false,
            },
            Option::Some(path) => {
                let d = dispatch_model(u.state, u.tree, path, phase);
                StepModel {
                    ui: UiModel { state: d.state, ..u },
                    messages: d.messages,
                    visuals: d.captured,
                    geometry: false,
                }
            },
        }
    }
}

/// How the runtime reacts to one event.
pub open spec fn step_model(u: UiModel, e: Event) -> StepModel {
    match e {
        Event::PointerMoved { x, y } => {
            if overlay_hit(u.overlay, x, y) {
                StepModel { ui: u, messages: Seq::empty(), visuals: false, geometry: false }
            } else {
                StepModel {
                    ui: UiModel { state: hover_model(u.state, u.layout, x, y), ..u },
                    messages: Seq::empty(),
                    visuals: hover_changed(u.state, u.layout, x, y),
                    geometry: false,
                }
            }
        },
        Event::PointerPressed { x, y } => pointer_step(u, x, y, PointerPhase::Press),
        Event::PointerReleased { x, y } => pointer_step(u, x, y, PointerPhase::Release),
        Event::TabPressed { shift } => {
            let f2 = spec_cycle(focus_list(u.state), u.focus, shift);
            StepModel {
                ui: UiModel { focus: f2, ..u },
                messages: Seq::empty(),
                visuals: f2 != u.focus,
                geometry: false,
            }
        },
        Event::TextEntered { .. } => {
            match u.focus {
                Option::None => StepModel {
                    ui: u,
                    messages: Seq::empty(),
                    visuals: false,
                    geometry: false,
                },
                Option::Some(id) => {
                    let r = edit_model(u.state, u.tree, id);
                    StepModel {
                        ui: UiModel { state: r.state, ..u },
                        messages: r.messages,
                        visuals: r.found,
                        geometry: false,
                    }
                },
            }
        },
        Event::Resized { width, height } => {
            let changed = width != u.width || height != u.height;
            StepModel {
                ui: UiModel { width, height, ..u },
                messages: Seq::empty(),
                visuals: changed,
                geometry: changed,
            }
        },
    }
}

/// Folds a batch of events over the runtime, concatenating messages and
/// accumulating the change flags.
pub open spec fn run_model(u: UiModel, es: Seq<Event>) -> StepModel
    decreases es.len(),
{
    if es.len() == 0 {
        StepModel { ui: u, messages: Seq::empty(), visuals: false, geometry: false }
    } else {
        let h = step_model(u, es[0]);
        let r = run_model(h.ui, es.drop_first());
        StepModel {
            ui: r.ui,
            messages: h.messages + r.messages,
            visuals: h.visuals || r.visuals,
            geometry: h.geometry || r.geometry,
        }
    }
}

/// Stepping keeps the runtime well-formed.
pub proof fn lemma_step_wf(u: UiModel, e: Event)
    requires
        ui_wf(u),
    ensures
        ui_wf(step_model(u, e).ui),
{
    match e {
        Event::PointerMoved { x, y } => {
            if !overlay_hit(u.overlay, x, y) {
                lemma_hover_matches(u.state, u.layout, x, y, u.tree);
                lemma_hover_sids(u.state, u.layout, x, y);
            }
        },
        Event::PointerPressed { x, y } => {
            lemma_pointer_step_wf(u, x, y, PointerPhase::Press);
        },
        Event::PointerReleased { x, y } => {
            lemma_pointer_step_wf(u, x, y, PointerPhase::Release);
        },
        Event::TextEntered { .. } => {
            match u.focus {
                Option::Some(id) => {
                    lemma_edit_matches(u.state, u.tree, id, u.tree);
                    lemma_edit_sids(u.state, u.tree, id);
                },
                Option::None => {},
            }
        },
        _ => {},
    }
}

/// Pointer steps keep the runtime well-formed.
proof fn lemma_pointer_step_wf(u: UiModel, x: u32, y: u32, phase: PointerPhase)
    requires
        ui_wf(u),
    ensures
        ui_wf(pointer_step(u, x, y, phase).ui),
{
    if !overlay_hit(u.overlay, x, y) {
        match hit_model(u.layout, x, y) {
            Option::Some(path) => {
                lemma_dispatch_matches(u.state, u.tree, path, phase, u.tree);
                lemma_dispatch_sids(u.state, u.tree, path, phase);
            },
            Option::None => {},
        }
    }
}

/// Running a batch keeps the runtime well-formed.
pub proof fn lemma_run_wf(u: UiModel, es: Seq<Event>)
    requires
        ui_wf(u),
    ensures
        ui_wf(run_model(u, es).ui),
    decreases es.len(),
{
    if es.len() > 0 {
        lemma_step_wf(u, es[0]);
        lemma_run_wf(step_model(u, es[0]).ui, es.drop_first());
    }
}

/// Focus cycling wraps at the bottom: in a well-formed runtime whose
/// focus rests on the last focusable node, Tab moves focus to the first.
pub proof fn lemma_ui_tab_wraps(u: UiModel)
    requires
        ui_wf(u),
        focus_list(u.state).len() > 0,
        u.focus == Some(focus_list(u.state).last()),
    ensures
        step_model(u, Event::TabPressed { shift: false }).ui.focus == Some(focus_list(u.state)[0]),
{
    lemma_tree_focus_wraps(u.state);
}

/// Focus cycling wraps at the top: in a well-formed runtime whose focus
/// rests on the first focusable node, Shift-Tab moves focus to the last.
pub proof fn lemma_ui_shift_tab_wraps(u: UiModel)
    requires
        ui_wf(u),
        focus_list(u.state).len() > 0,
        u.focus == Some(focus_list(u.state)[0]),
    ensures
        step_model(u, Event::TabPressed { shift: true }).ui.focus == Some(
            focus_list(u.state).last(),
        ),
{
    lemma_tree_focus_wraps(u.state);
}

/// What one frame reported back to the driver.
pub struct Frame {
    /// Messages for the application, in emission order.
    pub messages: Vec<Message>,
    /// Whether a re-layout is needed.
    pub geometry_changed: bool,
    /// Whether a redraw is needed.
    pub visuals_changed: bool,
}

impl UserInterface {
    /// Well-formedness of the runtime.
    pub open spec fn wf(self) -> bool {
        ui_wf(ui_model(self))
    }

    /// Mounts a first widget tree: fresh state with identities from zero,
    /// a layout at the origin, no focus and no overlay.
    pub fn build(tree: Widget) -> (u: UserInterface)
        requires
            node_count(widget_model(tree)) <= u64::MAX,
        ensures
            u.wf(),
            ui_model(u) == (UiModel {
                tree: widget_model(tree),
                state: fresh_model(widget_model(tree), 0),
                layout: layout_model(widget_model(tree), 0, 0),
                focus: None::<u64>,
                next_sid: node_count(widget_model(tree)) as u64,
                overlay: None::<Overlay>,
                width: 0u32,
                height: 0u32,
            }),
    {
        let mut counter: u64 = 0;
        let state = fresh_state(&tree, &mut counter);
        let lay = layout(&tree, 0, 0);
        proof {
            lemma_fresh_matches(widget_model(tree), 0);
            lemma_fresh_sids(widget_model(tree), 0);
            let out = sids(fresh_model(widget_model(tree), 0));
            assert(out.no_duplicates());
        }
        let u = UserInterface {
            tree,
            state,
            layout: lay,
            focus: None,
            next_sid: counter,
            overlay: None,
            width: 0,
            height: 0,
        };
        proof {
            assert(ui_model(u) =~= UiModel {
                tree: widget_model(u.tree),
                state: fresh_model(widget_model(u.tree), 0),
                layout: layout_model(widget_model(u.tree), 0, 0),
                focus: None::<u64>,
                next_sid: node_count(widget_model(u.tree)) as u64,
                overlay: None::<Overlay>,
                width: 0u32,
                height: 0u32,
            });
        }
        u
    }

    /// Activates an overlay, replacing any active one.
    pub fn set_overlay(&mut self, owner: u64, rect: Rect)
        requires
            old(self).wf(),
        ensures
            final(self).wf(),
            ui_model(*final(self)) == (UiModel {
                overlay: Some(Overlay { owner, rect }),
                ..ui_model(*old(self))
            }),
    {
        self.overlay = Some(Overlay { owner, rect });
        proof {
            assert(ui_model(*self) =~= UiModel {
                overlay: Some(Overlay { owner, rect }),
                ..ui_model(*old(self))
            });
        }
    }

    /// Deactivates the overlay.
    pub fn clear_overlay(&mut self)
        requires
            old(self).wf(),
        ensures
            final(self).wf(),
            ui_model(*final(self)) == (UiModel { overlay: None::<Overlay>, ..ui_model(*old(self)) }),
    {
        self.overlay = None;
        proof {
            assert(ui_model(*self) =~= UiModel {
                overlay: None::<Overlay>,
                ..ui_model(*old(self))
            });
        }
    }

    /// Reacts to one event.
    pub fn step(self, e: &Event) -> (r: (UserInterface, Vec<Message>, bool, bool))
        requires
            self.wf(),
        ensures
            ui_model(r.0) == step_model(ui_model(self), *e).ui,
            r.1@ == step_model(ui_model(self), *e).messages,
            r.2 == step_model(ui_model(self), *e).visuals,
            r.3 == step_model(ui_model(self), *e).geometry,
            r.0.wf(),
    {
        proof {
            lemma_step_wf(ui_model(self), *e);
        }
        let ghost u0 = ui_model(self);
        match *e {
            Event::PointerMoved { x, y } => {
                let covered = match self.overlay {
                    Some(o) => o.rect.contains(x, y),
                    None => false,
                };
                if covered {
                    (self, Vec::new(), false, false)
                } else {
                    let UserInterface { tree, state, layout, focus, next_sid, overlay, width, height } = self;
                    let (state2, changed) = hover_pass(state, &layout, x, y);
                    let u = UserInterface { tree, state: state2, layout, focus, next_sid, overlay, width, height };
                    proof {
                        assert(ui_model(u) =~= step_model(u0, *e).ui);
                    }
                    (u, Vec::new(), changed, false)
                }
            },
            Event::PointerPressed { x, y } => self.pointer(x, y, PointerPhase::Press),
            Event::PointerReleased { x, y } => self.pointer(x, y, PointerPhase::Release),
            Event::TabPressed { shift } => {
                let mut list: Vec<u64> = Vec::new();
                collect_focus(&self.state, &mut list);
                let f2 = cycle_focus(&list, self.focus, shift);
                let moved = match (f2, self.focus) {
                    (Some(a), Some(b)) => a != b,
                    (None, None) => false,
                    _ => true,
                };
                let UserInterface { tree, state, layout, focus, next_sid, overlay, width, height } = self;
                let u = UserInterface { tree, state, layout, focus: f2, next_sid, overlay, width, height };
                proof {
                    assert(list@ =~= focus_list(u0.state));
                    assert(ui_model(u) =~= step_model(u0, *e).ui);
                }
                (u, Vec::new(), moved, false)
            },
            Event::TextEntered { .. } => {
                match self.focus {
                    None => (self, Vec::new(), false, false),
                    Some(id) => {
                        let UserInterface { tree, state, layout, focus, next_sid, overlay, width, height } = self;
                        let (state2, msgs, found) = edit_pass(state, &tree, id);
                        let u = UserInterface { tree, state: state2, layout, focus, next_sid, overlay, width, height };
                        proof {
                            assert(ui_model(u) =~= step_model(u0, *e).ui);
                        }
                        (u, msgs, found, false)
                    },
                }
            },
            Event::Resized { width: nw, height: nh } => {
                let changed = nw != self.width || nh != self.height;
                let UserInterface { tree, state, layout, focus, next_sid, overlay, width, height } = self;
                let u = UserInterface { tree, state, layout, focus, next_sid, overlay, width: nw, height: nh };
                proof {
                    assert(ui_model(u) =~= step_model(u0, *e).ui);
                }
                (u, Vec::new(), changed, changed)
            },
        }
    }

    /// Delivers a pointer phase: overlay first, then the base tree.
    fn pointer(self, x: u32, y: u32, phase: PointerPhase) -> (r: (
        UserInterface,
        Vec<Message>,
        bool,
        bool,
    ))
        requires
            self.wf(),
        ensures
            ui_model(r.0) == pointer_step(ui_model(self), x, y, phase).ui,
            r.1@ == pointer_step(ui_model(self), x, y, phase).messages,
            r.2 == pointer_step(ui_model(self), x, y, phase).visuals,
            r.3 == pointer_step(ui_model(self), x, y, phase).geometry,
            r.0.wf(),
    {
        proof {
            lemma_pointer_step_wf(ui_model(self), x, y, phase);
        }
        let ghost u0 = ui_model(self);
        let covered = match self.overlay {
            Some(o) => o.rect.contains(x, y),
            None => false,
        };
        if covered {
            let owner = match self.overlay {
                Some(o) => o.owner,
                None => 0,
            };
            let kind = match phase {
                PointerPhase::Press => MessageKind::Pressed,
                PointerPhase::Release => MessageKind::Released,
            };
            let mut msgs: Vec<Message> = Vec::new();
            msgs.push(Message { source: owner, kind });
            proof {
                assert(msgs@ =~= pointer_step(u0, x, y, phase).messages);
            }
            (self, msgs, true, false)
        } else {
            match hit_test(&self.layout, x, y) {
                None => (self, Vec::new(), false, false),
                Some(path) => {
                    let UserInterface { tree, state, layout, focus, next_sid, overlay, width, height } = self;
                    let (state2, msgs, captured) = dispatch_pointer(state, &tree, &path, 0, phase);
                    let u = UserInterface { tree, state: state2, layout, focus, next_sid, overlay, width, height };
                    proof {
                        let ipath = path@.map_values(|v: usize| v as int);
                        assert(ipath.skip(0) =~= ipath);
                        assert(ui_model(u) =~= pointer_step(u0, x, y, phase).ui);
                    }
                    (u, msgs, captured, false)
                },
            }
        }
    }

    /// One frame: reconciles the state tree against the fresh widget tree
    /// from `view`, reuses the cached layout when the tree is unchanged,
    /// clears a focus target that vanished, dispatches the frame's events
    /// in order, and reports the redraw decision. With an identical tree
    /// and no events the pass is idle: nothing changes and both flags
    /// stay off.
    pub fn update(self, new_tree: Widget, events: &Vec<Event>) -> (r: (UserInterface, Frame))
        requires
            self.wf(),
            self.next_sid + node_count(widget_model(new_tree)) <= u64::MAX,
        ensures
            ({
                let u0 = ui_model(self);
                let nm = widget_model(new_tree);
                let changed = nm != u0.tree;
                let s1 = recon_model(u0.state, nm, u0.next_sid as int);
                let f1 = if u0.focus is Some && focus_list(s1).contains(u0.focus->Some_0) {
                    u0.focus
                } else {
                    None::<u64>
                };
                let u1 = UiModel {
                    tree: nm,
                    state: s1,
                    layout: layout_model(nm, 0, 0),
                    focus: f1,
                    next_sid: (u0.next_sid + recon_fresh(u0.state, nm)) as u64,
                    overlay: u0.overlay,
                    width: u0.width,
                    height: u0.height,
                };
                let run = run_model(u1, events@);
                &&& ui_model(r.0) == run.ui
                &&& r.0.wf()
                &&& r.1.messages@ == run.messages
                &&& r.1.geometry_changed == (changed || run.geometry)
                &&& r.1.visuals_changed == (changed || run.visuals)
                &&& (nm == u0.tree && events@.len() == 0 ==> !r.1.geometry_changed
                    && !r.1.visuals_changed && ui_model(r.0).state == u0.state)
            }),
    {
        let ghost u0 = ui_model(self);
        let ghost nm = widget_model(new_tree);
        proof {
            lemma_recon_fresh_bound(u0.state, nm);
        }
        let changed = !widget_eq(&new_tree, &self.tree);
        let UserInterface { tree, state, layout: lay, focus, next_sid, overlay, width, height } = self;
        let mut counter = next_sid;
        let state1 = reconcile(state, &new_tree, &mut counter);
        let lay1 = if changed {
            layout(&new_tree, 0, 0)
        } else {
            lay
        };
        let mut list: Vec<u64> = Vec::new();
        collect_focus(&state1, &mut list);
        let focus1 = match focus {
            Some(id) => {
                match find_in_list(&list, id) {
                    Some(_) => Some(id),
                    None => None,
                }
            },
            None => None,
        };
        proof {
            lemma_recon_matches(u0.state, nm, u0.next_sid as int);
            lemma_recon_sids_distinct(u0.state, nm, u0.next_sid as int);
            if focus is Some {
                lemma_find_first(list@, focus->Some_0);
                assert(list@ =~= focus_list(recon_model(u0.state, nm, u0.next_sid as int)));
            }
        }
        let mut ui = UserInterface {
            tree: new_tree,
            state: state1,
            layout: lay1,
            focus: focus1,
            next_sid: counter,
            overlay,
            width,
            height,
        };
        let ghost u1 = ui_model(ui);
        proof {
            if !changed {
                assert(layout_node_model(ui.layout) == layout_model(nm, 0, 0));
            }
            assert(ui.wf());
        }
        let ghost target = run_model(u1, events@);
        let mut messages: Vec<Message> = Vec::new();
        proof {
            assert(events@.skip(0) =~= events@);
            assert(messages@ + run_model(u1, events@).messages =~= run_model(u1, events@).messages);
        }
        let mut vis = false;
        let mut geo = false;
        let mut k: usize = 0;
        let n = events.len();
        while k < n
            invariant
                k <= n,
                n == events@.len(),
                ui.wf(),
                target == run_model(u1, events@),
                target.ui == run_model(ui_model(ui), events@.skip(k as int)).ui,
                target.messages == messages@ + run_model(
                    ui_model(ui),
                    events@.skip(k as int),
                ).messages,
                target.visuals == (vis || run_model(ui_model(ui), events@.skip(k as int)).visuals),
                target.geometry == (geo || run_model(
                    ui_model(ui),
                    events@.skip(k as int),
                ).geometry),
            decreases n - k,
        {
            let ghost rest = events@.skip(k as int);
            proof {
                assert(rest[0] == events@[k as int]);
                assert(rest.drop_first() =~= events@.skip(k as int + 1));
            }
            let (ui2, mut msgs, v, g) = ui.step(&events[k]);
            ui = ui2;
            messages.append(&mut msgs);
            vis = vis || v;
            geo = geo || g;
            k += 1;
        }
        proof {
            assert(events@.skip(n as int) =~= Seq::<Event>::empty());
            assert(messages@ =~= target.messages);
            if nm == u0.tree && events@.len() == 0 {
                lemma_reconcile_preserves_identity(u0.state, nm, u0.next_sid as int);
            }
        }
        (ui, Frame { messages, geometry_changed: changed || geo, visuals_changed: changed || vis })
    }
}

} // verus!
