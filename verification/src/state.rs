//! The persistent state tree and positional reconciliation.
//!
//! The runtime owns one state node per mounted widget. Every frame the
//! application hands over a freshly built widget tree; reconciliation walks
//! the old state tree and the new widget tree in lock-step by sibling
//! position. Where the widget kind matches, the state node is reused with
//! its identity and interaction fields intact; where it differs, the old
//! subtree is dropped and a fresh one, carrying newly allocated identities
//! and default interaction state, takes its place.

use vstd::prelude::*;
use vstd::seq_lib::lemma_multiset_commutative;
use crate::widget::{Widget, WidgetKind, WidgetModel, widget_model, widget_models, lemma_widget_models_index, lemma_widget_models_len};

verus! {

broadcast use
    vstd::seq::axiom_seq_index_decreases,
    vstd::seq::axiom_seq_subrange_decreases,
    vstd::std_specs::vec::axiom_vec_index_decreases;

/// One node of the runtime's persistent state tree.
pub struct StateNode {
    /// Kind of the widget this state belongs to.
    pub kind: WidgetKind,
    /// Runtime-assigned identity, stable for as long as the node is reused.
    pub sid: u64,
    /// Whether the pointer is over this node.
    pub hovered: bool,
    /// Whether this node is held pressed.
    pub pressed: bool,
    /// Text cursor position, for text inputs.
    pub cursor: u64,
    /// Scroll offset, for scrollables.
    pub scroll: u64,
    /// State of the node's children, in sibling order.
    pub children: Vec<StateNode>,
}

/// The mathematical model of a state node.
#[verifier::ext_equal]
pub struct StateModel {
    pub kind: WidgetKind,
    pub sid: u64,
    pub hovered: bool,
    pub pressed: bool,
    pub cursor: u64,
    pub scroll: u64,
    pub children: Seq<StateModel>,
}

/// The model of a state node.
pub open spec fn state_model(s: StateNode) -> StateModel
    decreases s,
{
    StateModel {
        kind: s.kind,
        sid: s.sid,
        hovered: s.hovered,
        pressed: s.pressed,
        cursor: s.cursor,
        scroll: s.scroll,
        children: state_models(s.children@),
    }
}

/// The models of a sequence of state nodes.
pub open spec fn state_models(ss: Seq<StateNode>) -> Seq<StateModel>
    decreases ss,
{
    if ss.len() == 0 {
        Seq::empty()
    } else {
        seq![state_model(ss[0])] + state_models(ss.drop_first())
    }
}

/// `state_models` maps the sequence element by element.
pub proof fn lemma_state_models_index(ss: Seq<StateNode>, i: int)
    requires
        0 <= i < ss.len(),
    ensures
        state_models(ss).len() == ss.len(),
        state_models(ss)[i] == state_model(ss[i]),
    decreases ss.len(),
{
    lemma_state_models_len(ss);
    if i > 0 {
        lemma_state_models_index(ss.drop_first(), i - 1);
    }
}

/// `state_models` keeps the length.
pub proof fn lemma_state_models_len(ss: Seq<StateNode>)
    ensures
        state_models(ss).len() == ss.len(),
    decreases ss.len(),
{
    if ss.len() > 0 {
        lemma_state_models_len(ss.drop_first());
    }
}

/// Number of nodes in a widget tree; every node needs one identity.
pub open spec fn node_count(w: WidgetModel) -> int
    decreases w,
{
    1 + node_count_seq(w.children)
}

/// Total node count of a forest.
pub open spec fn node_count_seq(ws: Seq<WidgetModel>) -> int
    decreases ws,
{
    if ws.len() == 0 {
        0
    } else {
        node_count(ws[0]) + node_count_seq(ws.drop_first())
    }
}

/// Node counts are positive.
pub proof fn lemma_node_count_pos(w: WidgetModel)
    ensures
        node_count(w) >= 1,
        node_count_seq(w.children) >= 0,
    decreases w,
{
    lemma_node_count_seq_pos(w.children);
}

/// Forest node counts are nonnegative, and each tree's count is bounded by
/// the forest's.
pub proof fn lemma_node_count_seq_pos(ws: Seq<WidgetModel>)
    ensures
        node_count_seq(ws) >= 0,
        forall|i: int| 0 <= i < ws.len() ==> node_count_seq(ws) >= #[trigger] node_count(ws[i]),
    decreases ws,
{
    if ws.len() > 0 {
        lemma_node_count_pos(ws[0]);
        lemma_node_count_seq_pos(ws.drop_first());
        assert forall|i: int| 0 <= i < ws.len() implies node_count_seq(ws) >= #[trigger] node_count(
            ws[i],
        ) by {
            if i > 0 {
                assert(ws.drop_first()[i - 1] == ws[i]);
            }
        }
    }
}

/// A fresh state tree for `w`: default interaction state, identities
/// allocated in preorder starting at `ctr`.
pub open spec fn fresh_model(w: WidgetModel, ctr: int) -> StateModel
    decreases w,
{
    StateModel {
        kind: w.kind,
        sid: ctr as u64,
        hovered: false,
        pressed: false,
        cursor: 0,
        scroll: 0,
        children: fresh_seq(w.children, ctr + 1),
    }
}

/// Fresh state for a forest; each tree consumes `node_count` identities.
pub open spec fn fresh_seq(ws: Seq<WidgetModel>, ctr: int) -> Seq<StateModel>
    decreases ws,
{
    if ws.len() == 0 {
        Seq::empty()
    } else {
        seq![fresh_model(ws[0], ctr)] + fresh_seq(ws.drop_first(), ctr + node_count(ws[0]))
    }
}

/// How many fresh identities reconciling `old` against `new` consumes.
pub open spec fn recon_fresh(old: StateModel, new: WidgetModel) -> int
    decreases new,
{
    if old.kind == new.kind {
        recon_fresh_seq(old.children, new.children)
    } else {
        node_count(new)
    }
}

/// Fresh identities consumed by reconciling two forests positionally.
pub open spec fn recon_fresh_seq(olds: Seq<StateModel>, news: Seq<WidgetModel>) -> int
    decreases news,
{
    if news.len() == 0 {
        0
    } else if olds.len() == 0 {
        node_count_seq(news)
    } else {
        recon_fresh(olds[0], news[0]) + recon_fresh_seq(olds.drop_first(), news.drop_first())
    }
}

/// Reconciliation never consumes more identities than a full rebuild.
pub proof fn lemma_recon_fresh_bound(old: StateModel, new: WidgetModel)
    ensures
        0 <= recon_fresh(old, new) <= node_count(new),
    decreases new,
{
    lemma_node_count_pos(new);
    if old.kind == new.kind {
        lemma_recon_fresh_seq_bound(old.children, new.children);
    }
}

/// Forest version of `lemma_recon_fresh_bound`.
pub proof fn lemma_recon_fresh_seq_bound(olds: Seq<StateModel>, news: Seq<WidgetModel>)
    ensures
        0 <= recon_fresh_seq(olds, news) <= node_count_seq(news),
    decreases news,
{
    lemma_node_count_seq_pos(news);
    if news.len() > 0 && olds.len() > 0 {
        lemma_recon_fresh_bound(olds[0], news[0]);
        lemma_recon_fresh_seq_bound(olds.drop_first(), news.drop_first());
        lemma_node_count_pos(news[0]);
        lemma_node_count_seq_pos(news.drop_first());
        assert(node_count_seq(news) == node_count(news[0]) + node_count_seq(news.drop_first()));
    }
}

/// Positional reconciliation: where the kind at a position matches, the
/// state node there is reused unchanged but for its children; where it
/// differs, a fresh subtree replaces it. Extra old children are dropped,
/// extra new children are mounted fresh.
pub open spec fn recon_model(old: StateModel, new: WidgetModel, ctr: int) -> StateModel
    decreases new,
{
    if old.kind == new.kind {
        StateModel {
            kind: old.kind,
            sid: old.sid,
            hovered: old.hovered,
            pressed: old.pressed,
            cursor: old.cursor,
            scroll: old.scroll,
            children: recon_seq(old.children, new.children, ctr),
        }
    } else {
        fresh_model(new, ctr)
    }
}

/// Positional reconciliation of two forests.
pub open spec fn recon_seq(olds: Seq<StateModel>, news: Seq<WidgetModel>, ctr: int) -> Seq<
    StateModel,
>
    decreases news,
{
    if news.len() == 0 {
        Seq::empty()
    } else if olds.len() == 0 {
        fresh_seq(news, ctr)
    } else {
        seq![recon_model(olds[0], news[0], ctr)] + recon_seq(
            olds.drop_first(),
            news.drop_first(),
            ctr + recon_fresh(olds[0], news[0]),
        )
    }
}

/// The state tree has the same kinds and sibling structure as the widget
/// tree.
pub open spec fn state_matches(s: StateModel, w: WidgetModel) -> bool
    decreases w,
{
    &&& s.kind == w.kind
    &&& s.children.len() == w.children.len()
    &&& forall|i: int|
        0 <= i < w.children.len() ==> state_matches(#[trigger] s.children[i], w.children[i])
}

/// Fresh state matches the widget tree it was built for.
pub proof fn lemma_fresh_matches(w: WidgetModel, ctr: int)
    ensures
        state_matches(fresh_model(w, ctr), w),
    decreases w,
{
    lemma_fresh_seq_matches(w.children, ctr + 1);
}

/// Forest version of `lemma_fresh_matches`.
pub proof fn lemma_fresh_seq_matches(ws: Seq<WidgetModel>, ctr: int)
    ensures
        fresh_seq(ws, ctr).len() == ws.len(),
        forall|i: int|
            0 <= i < ws.len() ==> state_matches(#[trigger] fresh_seq(ws, ctr)[i], ws[i]),
    decreases ws,
{
    if ws.len() > 0 {
        lemma_fresh_matches(ws[0], ctr);
        lemma_fresh_seq_matches(ws.drop_first(), ctr + node_count(ws[0]));
        assert forall|i: int|
            0 <= i < ws.len() implies state_matches(#[trigger] fresh_seq(ws, ctr)[i], ws[i]) by {
            if i > 0 {
                let rest = fresh_seq(ws.drop_first(), ctr + node_count(ws[0]));
                assert(fresh_seq(ws, ctr)[i] == rest[i - 1]);
                assert(ws.drop_first()[i - 1] == ws[i]);
            }
        }
    }
}

/// Reconciled state matches the new widget tree.
pub proof fn lemma_recon_matches(old: StateModel, new: WidgetModel, ctr: int)
    ensures
        state_matches(recon_model(old, new, ctr), new),
    decreases new,
{
    if old.kind == new.kind {
        lemma_recon_seq_matches(old.children, new.children, ctr);
    } else {
        lemma_fresh_matches(new, ctr);
    }
}

/// Forest version of `lemma_recon_matches`.
pub proof fn lemma_recon_seq_matches(olds: Seq<StateModel>, news: Seq<WidgetModel>, ctr: int)
    ensures
        recon_seq(olds, news, ctr).len() == news.len(),
        forall|i: int|
            0 <= i < news.len() ==> state_matches(
                #[trigger] recon_seq(olds, news, ctr)[i],
                news[i],
            ),
    decreases news,
{
    if news.len() == 0 {
    } else if olds.len() == 0 {
        lemma_fresh_seq_matches(news, ctr);
    } else {
        lemma_recon_matches(olds[0], news[0], ctr);
        lemma_recon_seq_matches(
            olds.drop_first(),
            news.drop_first(),
            ctr + recon_fresh(olds[0], news[0]),
        );
        assert forall|i: int|
            0 <= i < news.len() implies state_matches(
            #[trigger] recon_seq(olds, news, ctr)[i],
            news[i],
        ) by {
            if i > 0 {
                assert(recon_seq(olds, news, ctr)[i] == recon_seq(
                    olds.drop_first(),
                    news.drop_first(),
                    ctr + recon_fresh(olds[0], news[0]),
                )[i - 1]);
                assert(news.drop_first()[i - 1] == news[i]);
            }
        }
    }
}

/// The whole tree carries default interaction state: nothing hovered,
/// nothing pressed, cursors and scroll offsets at zero.
pub open spec fn default_interaction(s: StateModel) -> bool
    decreases s,
{
    &&& !s.hovered
    &&& !s.pressed
    &&& s.cursor == 0
    &&& s.scroll == 0
    &&& forall|i: int| 0 <= i < s.children.len() ==> default_interaction(#[trigger] s.children[i])
}

/// Freshly mounted state is all default.
pub proof fn lemma_fresh_default(w: WidgetModel, ctr: int)
    ensures
        default_interaction(fresh_model(w, ctr)),
    decreases w,
{
    lemma_fresh_seq_default(w.children, ctr + 1);
    let f = fresh_model(w, ctr);
    assert forall|i: int| 0 <= i < f.children.len() implies default_interaction(
        #[trigger] f.children[i],
    ) by {
        assert(f.children[i] == fresh_seq(w.children, ctr + 1)[i]);
    }
}

/// Forest version of `lemma_fresh_default`.
pub proof fn lemma_fresh_seq_default(ws: Seq<WidgetModel>, ctr: int)
    ensures
        forall|i: int|
            0 <= i < fresh_seq(ws, ctr).len() ==> default_interaction(
                #[trigger] fresh_seq(ws, ctr)[i],
            ),
    decreases ws,
{
    if ws.len() > 0 {
        lemma_fresh_default(ws[0], ctr);
        lemma_fresh_seq_default(ws.drop_first(), ctr + node_count(ws[0]));
        assert forall|i: int|
            0 <= i < fresh_seq(ws, ctr).len() implies default_interaction(
            #[trigger] fresh_seq(ws, ctr)[i],
        ) by {
            if i > 0 {
                let rest = fresh_seq(ws.drop_first(), ctr + node_count(ws[0]));
                assert(fresh_seq(ws, ctr)[i] == rest[i - 1]);
            }
        }
    }
}

/// Positional reconciliation: when the new tree has the same kinds and
/// sibling structure as the old state tree, reconciliation is the identity
/// on the state tree — every node is reused and every identity and
/// interaction field survives, whatever the new tree's leaf parameters are.
pub proof fn lemma_reconcile_preserves_identity(old: StateModel, new: WidgetModel, ctr: int)
    requires
        state_matches(old, new),
    ensures
        recon_model(old, new, ctr) == old,
    decreases new,
{
    lemma_recon_seq_identity(old.children, new.children, ctr);
    assert(recon_model(old, new, ctr) =~= old);
}

/// Forest version of `lemma_reconcile_preserves_identity`.
pub proof fn lemma_recon_seq_identity(olds: Seq<StateModel>, news: Seq<WidgetModel>, ctr: int)
    requires
        olds.len() == news.len(),
        forall|i: int| 0 <= i < news.len() ==> state_matches(#[trigger] olds[i], news[i]),
    ensures
        recon_seq(olds, news, ctr) == olds,
    decreases news,
{
    if news.len() > 0 {
        lemma_reconcile_preserves_identity(olds[0], news[0], ctr);
        assert forall|i: int|
            0 <= i < news.drop_first().len() implies state_matches(
            #[trigger] olds.drop_first()[i],
            news.drop_first()[i],
        ) by {
            assert(olds.drop_first()[i] == olds[i + 1]);
            assert(news.drop_first()[i] == news[i + 1]);
        }
        lemma_recon_seq_identity(
            olds.drop_first(),
            news.drop_first(),
            ctr + recon_fresh(olds[0], news[0]),
        );
        assert(recon_seq(olds, news, ctr) =~= olds);
    } else {
        assert(recon_seq(olds, news, ctr) =~= olds);
    }
}

/// Replacing the widget kind at the root discards the whole old state
/// subtree: the result is a fresh default-state tree for the new widget.
pub proof fn lemma_kind_change_resets(old: StateModel, new: WidgetModel, ctr: int)
    requires
        old.kind != new.kind,
    ensures
        recon_model(old, new, ctr) == fresh_model(new, ctr),
        default_interaction(recon_model(old, new, ctr)),
        state_matches(recon_model(old, new, ctr), new),
{
    lemma_fresh_default(new, ctr);
    lemma_fresh_matches(new, ctr);
}

/// `fresh_seq` keeps the length.
pub proof fn lemma_fresh_seq_len(ws: Seq<WidgetModel>, ctr: int)
    ensures
        fresh_seq(ws, ctr).len() == ws.len(),
    decreases ws,
{
    if ws.len() > 0 {
        lemma_fresh_seq_len(ws.drop_first(), ctr + node_count(ws[0]));
    }
}

/// Each position of a fresh forest is a fresh tree for the widget there.
pub proof fn lemma_fresh_seq_index(ws: Seq<WidgetModel>, ctr: int, k: int)
    requires
        0 <= k < ws.len(),
    ensures
        exists|c: int| fresh_seq(ws, ctr)[k] == #[trigger] fresh_model(ws[k], c),
    decreases k,
{
    lemma_fresh_seq_len(ws, ctr);
    lemma_fresh_seq_len(ws.drop_first(), ctr + node_count(ws[0]));
    if k == 0 {
        assert(fresh_seq(ws, ctr)[0] == fresh_model(ws[0], ctr));
    } else {
        lemma_fresh_seq_index(ws.drop_first(), ctr + node_count(ws[0]), k - 1);
        let rest = fresh_seq(ws.drop_first(), ctr + node_count(ws[0]));
        let c = choose|c: int| rest[k - 1] == #[trigger] fresh_model(ws.drop_first()[k - 1], c);
        assert(fresh_seq(ws, ctr)[k] == rest[k - 1]);
        assert(ws.drop_first()[k - 1] == ws[k]);
        assert(fresh_seq(ws, ctr)[k] == fresh_model(ws[k], c));
    }
}

/// Each position of a reconciled forest is either the positional
/// reconciliation of the pair there, or — past the end of the old forest —
/// a fresh tree.
pub proof fn lemma_recon_seq_index(olds: Seq<StateModel>, news: Seq<WidgetModel>, ctr: int, k: int)
    requires
        0 <= k < news.len(),
    ensures
        recon_seq(olds, news, ctr).len() == news.len(),
        k < olds.len() ==> exists|c: int|
            recon_seq(olds, news, ctr)[k] == #[trigger] recon_model(olds[k], news[k], c),
        k >= olds.len() ==> exists|c: int|
            recon_seq(olds, news, ctr)[k] == #[trigger] fresh_model(news[k], c),
    decreases k,
{
    lemma_recon_seq_matches(olds, news, ctr);
    if olds.len() == 0 {
        lemma_fresh_seq_index(news, ctr, k);
    } else if k == 0 {
        assert(recon_seq(olds, news, ctr)[0] == recon_model(olds[0], news[0], ctr));
    } else {
        let ctr2 = ctr + recon_fresh(olds[0], news[0]);
        lemma_recon_seq_index(olds.drop_first(), news.drop_first(), ctr2, k - 1);
        let rest = recon_seq(olds.drop_first(), news.drop_first(), ctr2);
        assert(recon_seq(olds, news, ctr)[k] == rest[k - 1]);
        assert(news.drop_first()[k - 1] == news[k]);
        if k < olds.len() {
            assert(olds.drop_first()[k - 1] == olds[k]);
            let c = choose|c: int|
                rest[k - 1] == #[trigger] recon_model(
                    olds.drop_first()[k - 1],
                    news.drop_first()[k - 1],
                    c,
                );
            assert(recon_seq(olds, news, ctr)[k] == recon_model(olds[k], news[k], c));
        } else {
            let c = choose|c: int| rest[k - 1] == #[trigger] fresh_model(news.drop_first()[k - 1], c);
            assert(recon_seq(olds, news, ctr)[k] == fresh_model(news[k], c));
        }
    }
}

/// Replacing a child's widget kind at a fixed position resets exactly that
/// child's state subtree to default.
pub proof fn lemma_child_kind_change_resets(old: StateModel, new: WidgetModel, ctr: int, k: int)
    requires
        old.kind == new.kind,
        0 <= k < new.children.len(),
        k < old.children.len(),
        old.children[k].kind != new.children[k].kind,
    ensures
        default_interaction(recon_model(old, new, ctr).children[k]),
        state_matches(recon_model(old, new, ctr).children[k], new.children[k]),
{
    lemma_recon_seq_index(old.children, new.children, ctr, k);
    let c = choose|c: int|
        recon_seq(old.children, new.children, ctr)[k] == #[trigger] recon_model(
            old.children[k],
            new.children[k],
            c,
        );
    lemma_kind_change_resets(old.children[k], new.children[k], c);
}

/// A child whose kind and subtree structure are unchanged keeps its whole
/// state — identity, hover, press, cursor and scroll — across
/// reconciliation, whatever happened at its siblings.
pub proof fn lemma_child_unchanged_persists(old: StateModel, new: WidgetModel, ctr: int, k: int)
    requires
        old.kind == new.kind,
        0 <= k < new.children.len(),
        k < old.children.len(),
        state_matches(old.children[k], new.children[k]),
    ensures
        recon_model(old, new, ctr).children[k] == old.children[k],
{
    lemma_recon_seq_index(old.children, new.children, ctr, k);
    let c = choose|c: int|
        recon_seq(old.children, new.children, ctr)[k] == #[trigger] recon_model(
            old.children[k],
            new.children[k],
            c,
        );
    lemma_reconcile_preserves_identity(old.children[k], new.children[k], c);
}

/// Builds fresh state for `w`, allocating identities from `counter` in
/// preorder.
pub fn fresh_state(w: &Widget, counter: &mut u64) -> (s: StateNode)
    requires
        *old(counter) + node_count(widget_model(*w)) <= u64::MAX,
    ensures
        state_model(s) == fresh_model(widget_model(*w), *old(counter) as int),
        *final(counter) == *old(counter) + node_count(widget_model(*w)),
    decreases *w, 0int, 0int,
{
    proof {
        lemma_node_count_pos(widget_model(*w));
        lemma_node_count_seq_pos(widget_model(*w).children);
        assert(widget_models(w.children@).skip(0) =~= widget_models(w.children@));
    }
    let sid = *counter;
    *counter = *counter + 1;
    let children = fresh_forest(&w.children, 0, counter);
    let s = StateNode { kind: w.kind, sid, hovered: false, pressed: false, cursor: 0, scroll: 0, children };
    proof {
        assert(state_model(s) =~= fresh_model(widget_model(*w), *old(counter) as int));
    }
    s
}

/// Builds fresh state for the widgets of `ws` from position `i` on.
pub fn fresh_forest(ws: &Vec<Widget>, i: usize, counter: &mut u64) -> (out: Vec<StateNode>)
    requires
        i <= ws@.len(),
        *old(counter) + node_count_seq(widget_models(ws@).skip(i as int)) <= u64::MAX,
    ensures
        state_models(out@) == fresh_seq(
            widget_models(ws@).skip(i as int),
            *old(counter) as int,
        ),
        *final(counter) == *old(counter) + node_count_seq(widget_models(ws@).skip(i as int)),
    decreases ws@, ws@.len() - i, 0int,
{
    proof {
        lemma_widget_models_len(ws@);
    }
    let n = ws.len();
    if i == n {
        let out: Vec<StateNode> = Vec::new();
        proof {
            assert(widget_models(ws@).skip(i as int) =~= Seq::<WidgetModel>::empty());
            assert(state_models(out@) =~= fresh_seq(
                widget_models(ws@).skip(i as int),
                *old(counter) as int,
            ));
        }
        out
    } else {
        let ghost tail = widget_models(ws@).skip(i as int);
        proof {
            lemma_widget_models_index(ws@, i as int);
            assert(tail[0] == widget_model(ws@[i as int]));
            assert(tail.drop_first() =~= widget_models(ws@).skip(i as int + 1));
            lemma_node_count_pos(tail[0]);
            lemma_node_count_seq_pos(tail.drop_first());
            assert(node_count_seq(tail) == node_count(tail[0]) + node_count_seq(tail.drop_first()));
        }
        let head = fresh_state(&ws[i], counter);
        let mut out = fresh_forest(ws, i + 1, counter);
        let ghost rest_view = out@;
        out.insert(0, head);
        proof {
            assert(out@[0] == head);
            assert(out@.drop_first() =~= rest_view);
            assert(state_models(out@) == seq![state_model(head)] + state_models(out@.drop_first()));
            assert(state_models(out@) =~= fresh_seq(tail, *old(counter) as int));
        }
        out
    }
}

/// Reconciles the old state tree against the new widget tree, reusing the
/// node where the kind matches and mounting fresh state where it does not.
pub fn reconcile(old_state: StateNode, w: &Widget, counter: &mut u64) -> (s: StateNode)
    requires
        *old(counter) + recon_fresh(state_model(old_state), widget_model(*w)) <= u64::MAX,
    ensures
        state_model(s) == recon_model(
            state_model(old_state),
            widget_model(*w),
            *old(counter) as int,
        ),
        *final(counter) == *old(counter) + recon_fresh(state_model(old_state), widget_model(*w)),
    decreases *w, 0int, 1int,
{
    if old_state.kind == w.kind {
        let StateNode { kind, sid, hovered, pressed, cursor, scroll, children } = old_state;
        proof {
            assert(widget_models(w.children@).skip(0) =~= widget_models(w.children@));
        }
        let new_children = reconcile_forest(children, &w.children, 0, counter);
        let s = StateNode { kind, sid, hovered, pressed, cursor, scroll, children: new_children };
        proof {
            assert(state_model(s) =~= recon_model(
                state_model(old_state),
                widget_model(*w),
                *old(counter) as int,
            ));
        }
        s
    } else {
        fresh_state(w, counter)
    }
}

/// Reconciles old state nodes against the widgets of `news` from position
/// `i` on; surplus old state is dropped, surplus widgets get fresh state.
pub fn reconcile_forest(olds: Vec<StateNode>, news: &Vec<Widget>, i: usize, counter: &mut u64) -> (out: Vec<
    StateNode,
>)
    requires
        i <= news@.len(),
        *old(counter) + recon_fresh_seq(
            state_models(olds@),
            widget_models(news@).skip(i as int),
        ) <= u64::MAX,
    ensures
        state_models(out@) == recon_seq(
            state_models(olds@),
            widget_models(news@).skip(i as int),
            *old(counter) as int,
        ),
        *final(counter) == *old(counter) + recon_fresh_seq(
            state_models(olds@),
            widget_models(news@).skip(i as int),
        ),
    decreases news@, news@.len() - i, 1int,
{
    proof {
        lemma_widget_models_len(news@);
        lemma_state_models_len(olds@);
    }
    let n = news.len();
    if i == n {
        let out: Vec<StateNode> = Vec::new();
        proof {
            assert(widget_models(news@).skip(i as int) =~= Seq::<WidgetModel>::empty());
            assert(state_models(out@) =~= recon_seq(
                state_models(olds@),
                widget_models(news@).skip(i as int),
                *old(counter) as int,
            ));
        }
        out
    } else if olds.len() == 0 {
        let out = fresh_forest(news, i, counter);
        out
    } else {
        let ghost tail = widget_models(news@).skip(i as int);
        let ghost oldm = state_models(olds@);
        let mut olds = olds;
        let ghost olds0 = olds@;
        proof {
            lemma_widget_models_index(news@, i as int);
            assert(tail[0] == widget_model(news@[i as int]));
            assert(tail.drop_first() =~= widget_models(news@).skip(i as int + 1));
            lemma_state_models_index(olds@, 0);
            lemma_recon_fresh_bound(oldm[0], tail[0]);
            lemma_recon_fresh_seq_bound(oldm.drop_first(), tail.drop_first());
            assert(recon_fresh_seq(oldm, tail) == recon_fresh(oldm[0], tail[0]) + recon_fresh_seq(
                oldm.drop_first(),
                tail.drop_first(),
            ));
        }
        let head_old = olds.remove(0);
        proof {
            assert(olds@ =~= olds0.drop_first());
            assert forall|j: int| 0 <= j < olds@.len() implies #[trigger] state_models(olds@)[j]
                == oldm.drop_first()[j] by {
                lemma_state_models_index(olds@, j);
                lemma_state_models_index(olds0, j + 1);
            }
            lemma_state_models_len(olds@);
            assert(state_models(olds@) =~= oldm.drop_first());
        }
        let head = reconcile(head_old, &news[i], counter);
        let rest = reconcile_forest(olds, news, i + 1, counter);
        let mut out = rest;
        let ghost rest_view = out@;
        out.insert(0, head);
        proof {
            assert(out@[0] == head);
            assert(out@.drop_first() =~= rest_view);
            assert(state_models(out@) == seq![state_model(head)] + state_models(out@.drop_first()));
            assert(state_models(out@) =~= recon_seq(oldm, tail, *old(counter) as int));
        }
        out
    }
}

/// The identities of a state tree, in preorder.
pub open spec fn sids(s: StateModel) -> Seq<u64>
    decreases s,
{
    seq![s.sid] + sids_seq(s.children)
}

/// Forest version of `sids`.
pub open spec fn sids_seq(ss: Seq<StateModel>) -> Seq<u64>
    decreases ss,
{
    if ss.len() == 0 {
        Seq::empty()
    } else {
        sids(ss[0]) + sids_seq(ss.drop_first())
    }
}

/// Fresh allocation hands out consecutive identities: the preorder
/// identity sequence of `fresh_model(w, ctr)` is exactly
/// `ctr, ctr + 1, ...`, one per node — so fresh identities are distinct
/// and all lie at or above `ctr`.
pub proof fn lemma_fresh_sids(w: WidgetModel, ctr: int)
    requires
        0 <= ctr,
        ctr + node_count(w) <= u64::MAX + 1,
    ensures
        sids(fresh_model(w, ctr)).len() == node_count(w),
        forall|k: int|
            0 <= k < node_count(w) ==> sids(fresh_model(w, ctr))[k] == (ctr + k) as u64,
    decreases w,
{
    lemma_node_count_seq_pos(w.children);
    lemma_fresh_sids_seq(w.children, ctr + 1);
    let out = sids(fresh_model(w, ctr));
    let rest = sids_seq(fresh_seq(w.children, ctr + 1));
    assert forall|k: int| 0 <= k < node_count(w) implies out[k] == (ctr + k) as u64 by {
        if k > 0 {
            assert(out[k] == rest[k - 1]);
        }
    }
}

/// Forest version of `lemma_fresh_sids`.
pub proof fn lemma_fresh_sids_seq(ws: Seq<WidgetModel>, ctr: int)
    requires
        0 <= ctr,
        ctr + node_count_seq(ws) <= u64::MAX + 1,
    ensures
        sids_seq(fresh_seq(ws, ctr)).len() == node_count_seq(ws),
        forall|k: int|
            0 <= k < node_count_seq(ws) ==> sids_seq(fresh_seq(ws, ctr))[k] == (ctr + k) as u64,
    decreases ws,
{
    lemma_node_count_seq_pos(ws);
    if ws.len() > 0 {
        lemma_node_count_pos(ws[0]);
        lemma_node_count_seq_pos(ws.drop_first());
        lemma_fresh_sids(ws[0], ctr);
        lemma_fresh_sids_seq(ws.drop_first(), ctr + node_count(ws[0]));
        let head = sids(fresh_model(ws[0], ctr));
        let rest = sids_seq(fresh_seq(ws.drop_first(), ctr + node_count(ws[0])));
        let out = sids_seq(fresh_seq(ws, ctr));
        assert(fresh_seq(ws, ctr)[0] == fresh_model(ws[0], ctr));
        assert(fresh_seq(ws, ctr).drop_first() =~= fresh_seq(ws.drop_first(), ctr + node_count(ws[0])));
        assert(out == head + rest);
        assert forall|k: int| 0 <= k < node_count_seq(ws) implies out[k] == (ctr + k) as u64 by {
            if k < head.len() {
                assert(out[k] == head[k]);
            } else {
                assert(out[k] == rest[k - node_count(ws[0])]);
            }
        }
    }
}

/// Fresh identities never collide: the identity sequence of a freshly
/// mounted tree has no duplicates.
pub proof fn lemma_fresh_sids_distinct(w: WidgetModel, ctr: int)
    requires
        0 <= ctr,
        ctr + node_count(w) <= u64::MAX + 1,
    ensures
        forall|a: int, b: int|
            0 <= a < b < sids(fresh_model(w, ctr)).len() ==> sids(fresh_model(w, ctr))[a] != sids(
                fresh_model(w, ctr),
            )[b],
{
    lemma_fresh_sids(w, ctr);
}

/// The identity multiset of a fresh tree is exactly the identities
/// `ctr, ..., ctr + node_count - 1`, each once.
pub proof fn lemma_fresh_sids_counts(w: WidgetModel, ctr: int)
    requires
        0 <= ctr,
        ctr + node_count(w) <= u64::MAX + 1,
    ensures
        forall|x: u64|
            sids(fresh_model(w, ctr)).to_multiset().count(x) == (if ctr <= x < ctr + node_count(w) {
                1int
            } else {
                0int
            }),
{
    lemma_node_count_pos(w);
    lemma_fresh_sids(w, ctr);
    let out = sids(fresh_model(w, ctr));
    assert(out.no_duplicates());
    out.lemma_multiset_has_no_duplicates();
    out.to_multiset_ensures();
    assert forall|x: u64|
        out.to_multiset().count(x) == (if ctr <= x < ctr + node_count(w) {
            1int
        } else {
            0int
        }) by {
        if ctr <= x < ctr + node_count(w) {
            assert(out[x - ctr] == x);
            assert(out.contains(x));
        } else {
            if out.contains(x) {
                let k = choose|k: int| 0 <= k < out.len() && out[k] == x;
                assert(out[k] == (ctr + k) as u64);
            }
            assert(!out.contains(x));
            assert(out.to_multiset().count(x) == 0);
        }
    }
}

/// Forest version of `lemma_fresh_sids_counts`.
pub proof fn lemma_fresh_seq_sids_counts(ws: Seq<WidgetModel>, ctr: int)
    requires
        0 <= ctr,
        ctr + node_count_seq(ws) <= u64::MAX + 1,
    ensures
        forall|x: u64|
            sids_seq(fresh_seq(ws, ctr)).to_multiset().count(x) == (if ctr <= x < ctr
                + node_count_seq(ws) {
                1int
            } else {
                0int
            }),
{
    lemma_node_count_seq_pos(ws);
    lemma_fresh_sids_seq(ws, ctr);
    let out = sids_seq(fresh_seq(ws, ctr));
    assert(out.no_duplicates());
    out.lemma_multiset_has_no_duplicates();
    out.to_multiset_ensures();
    assert forall|x: u64|
        out.to_multiset().count(x) == (if ctr <= x < ctr + node_count_seq(ws) {
            1int
        } else {
            0int
        }) by {
        if ctr <= x < ctr + node_count_seq(ws) {
            assert(out[x - ctr] == x);
            assert(out.contains(x));
        } else {
            if out.contains(x) {
                let k = choose|k: int| 0 <= k < out.len() && out[k] == x;
                assert(out[k] == (ctr + k) as u64);
            }
            assert(!out.contains(x));
            assert(out.to_multiset().count(x) == 0);
        }
    }
}

/// Reconciliation never makes an identity more common: each identity of
/// the result occurs at most as often as in the old tree, plus once if it
/// lies in the fresh range handed to this reconciliation.
pub proof fn lemma_recon_sids_counts(old: StateModel, new: WidgetModel, ctr: int)
    requires
        0 <= ctr,
        ctr + recon_fresh(old, new) <= u64::MAX + 1,
    ensures
        forall|x: u64|
            sids(recon_model(old, new, ctr)).to_multiset().count(x) <= sids(
                old,
            ).to_multiset().count(x) + (if ctr <= x < ctr + recon_fresh(old, new) {
                1int
            } else {
                0int
            }),
    decreases new,
{
    broadcast use vstd::multiset::group_multiset_axioms;

    lemma_recon_fresh_bound(old, new);
    if old.kind == new.kind {
        lemma_recon_seq_sids_counts(old.children, new.children, ctr);
        let r = recon_model(old, new, ctr);
        lemma_multiset_commutative(seq![r.sid], sids_seq(r.children));
        lemma_multiset_commutative(seq![old.sid], sids_seq(old.children));
        assert forall|x: u64|
            sids(r).to_multiset().count(x) <= sids(old).to_multiset().count(x) + (if ctr <= x < ctr
                + recon_fresh(old, new) {
                1int
            } else {
                0int
            }) by {
            assert(sids(r) == seq![r.sid] + sids_seq(r.children));
            assert(sids(old) == seq![old.sid] + sids_seq(old.children));
            seq![r.sid].to_multiset_ensures();
        }
    } else {
        lemma_fresh_sids_counts(new, ctr);
        lemma_node_count_pos(new);
        assert forall|x: u64|
            sids(recon_model(old, new, ctr)).to_multiset().count(x) <= sids(
                old,
            ).to_multiset().count(x) + (if ctr <= x < ctr + recon_fresh(old, new) {
                1int
            } else {
                0int
            }) by {
            sids(old).to_multiset_ensures();
        }
    }
}

/// Forest version of `lemma_recon_sids_counts`.
pub proof fn lemma_recon_seq_sids_counts(olds: Seq<StateModel>, news: Seq<WidgetModel>, ctr: int)
    requires
        0 <= ctr,
        ctr + recon_fresh_seq(olds, news) <= u64::MAX + 1,
    ensures
        forall|x: u64|
            sids_seq(recon_seq(olds, news, ctr)).to_multiset().count(x) <= sids_seq(
                olds,
            ).to_multiset().count(x) + (if ctr <= x < ctr + recon_fresh_seq(olds, news) {
                1int
            } else {
                0int
            }),
    decreases news,
{
    broadcast use vstd::multiset::group_multiset_axioms;

    lemma_recon_fresh_seq_bound(olds, news);
    if news.len() == 0 {
        assert(sids_seq(recon_seq(olds, news, ctr)) == Seq::<u64>::empty());
        assert forall|x: u64|
            sids_seq(recon_seq(olds, news, ctr)).to_multiset().count(x) <= sids_seq(
                olds,
            ).to_multiset().count(x) + (if ctr <= x < ctr + recon_fresh_seq(olds, news) {
                1int
            } else {
                0int
            }) by {
            Seq::<u64>::empty().to_multiset_ensures();
            assert(!Seq::<u64>::empty().contains(x));
            sids_seq(olds).to_multiset_ensures();
        }
    } else if olds.len() == 0 {
        lemma_fresh_seq_sids_counts(news, ctr);
        lemma_node_count_seq_pos(news);
        assert forall|x: u64|
            sids_seq(recon_seq(olds, news, ctr)).to_multiset().count(x) <= sids_seq(
                olds,
            ).to_multiset().count(x) + (if ctr <= x < ctr + recon_fresh_seq(olds, news) {
                1int
            } else {
                0int
            }) by {
            sids_seq(olds).to_multiset_ensures();
        }
    } else {
        let f0 = recon_fresh(olds[0], news[0]);
        lemma_recon_fresh_bound(olds[0], news[0]);
        lemma_recon_fresh_seq_bound(olds.drop_first(), news.drop_first());
        lemma_recon_sids_counts(olds[0], news[0], ctr);
        lemma_recon_seq_sids_counts(olds.drop_first(), news.drop_first(), ctr + f0);
        let head = recon_model(olds[0], news[0], ctr);
        let rest = recon_seq(olds.drop_first(), news.drop_first(), ctr + f0);
        assert(recon_seq(olds, news, ctr)[0] == head);
        assert(recon_seq(olds, news, ctr).drop_first() =~= rest);
        assert(sids_seq(recon_seq(olds, news, ctr)) == sids(head) + sids_seq(rest));
        lemma_multiset_commutative(sids(head), sids_seq(rest));
        lemma_multiset_commutative(sids(olds[0]), sids_seq(olds.drop_first()));
        assert(sids_seq(olds) == sids(olds[0]) + sids_seq(olds.drop_first()));
    }
}

/// Reconciliation keeps identities distinct, and every identity of the
/// result is either a surviving old identity or one of the fresh ones
/// handed out by this reconciliation.
pub proof fn lemma_recon_sids_distinct(old: StateModel, new: WidgetModel, ctr: int)
    requires
        sids(old).no_duplicates(),
        forall|k: int| 0 <= k < sids(old).len() ==> sids(old)[k] < ctr,
        0 <= ctr,
        ctr + recon_fresh(old, new) <= u64::MAX + 1,
    ensures
        sids(recon_model(old, new, ctr)).no_duplicates(),
        forall|k: int|
            0 <= k < sids(recon_model(old, new, ctr)).len() ==> sids(recon_model(old, new, ctr))[k]
                < ctr + recon_fresh(old, new),
{
    lemma_recon_fresh_bound(old, new);
    lemma_recon_sids_counts(old, new, ctr);
    let out = sids(recon_model(old, new, ctr));
    sids(old).lemma_multiset_has_no_duplicates();
    sids(old).to_multiset_ensures();
    out.to_multiset_ensures();
    assert forall|x: u64| out.to_multiset().contains(x) implies out.to_multiset().count(x)
        == 1 by {
        assert(out.to_multiset().count(x) > 0);
        if x < ctr {
            assert(out.to_multiset().count(x) <= sids(old).to_multiset().count(x));
            assert(sids(old).to_multiset().count(x) > 0);
            assert(sids(old).contains(x));
            assert(sids(old).to_multiset().count(x) == 1);
        } else {
            if sids(old).contains(x) {
                let k = choose|k: int| 0 <= k < sids(old).len() && sids(old)[k] == x;
                assert(sids(old)[k] < ctr);
            }
            assert(sids(old).to_multiset().count(x) == 0);
        }
    }
    out.lemma_multiset_has_no_duplicates_conv();
    assert forall|k: int| 0 <= k < out.len() implies out[k] < ctr + recon_fresh(old, new) by {
        let x = out[k];
        assert(out.contains(x));
        assert(out.to_multiset().count(x) > 0);
        if !(ctr <= x < ctr + recon_fresh(old, new)) {
            assert(sids(old).to_multiset().count(x) > 0);
            assert(sids(old).contains(x));
            let j = choose|j: int| 0 <= j < sids(old).len() && sids(old)[j] == x;
            assert(sids(old)[j] < ctr);
        }
    }
}

} // verus!
