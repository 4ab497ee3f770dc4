//! Hit-testing: which node a pointer coordinate lands on.
//!
//! A hit is the deepest node whose bounds contain the coordinate; among
//! overlapping siblings the last-drawn (topmost) one wins, so children are
//! probed from the last to the first.

use vstd::prelude::*;
use crate::geometry::rect_contains;
use crate::layout::{LayoutNode, LayoutModel, layout_node_model, layout_node_models};

verus! {

broadcast use
    vstd::seq::axiom_seq_index_decreases,
    vstd::seq::axiom_seq_subrange_decreases,
    vstd::std_specs::vec::axiom_vec_index_decreases;

/// The hit path for `(px, py)` in the tree `l`: `None` when the point is
/// outside `l`, otherwise the child-index path to the deepest, topmost
/// node containing the point (empty path: `l` itself).
pub open spec fn hit_model(l: LayoutModel, px: u32, py: u32) -> Option<Seq<int>>
    decreases l,
{
    if !rect_contains(l.rect, px, py) {
        None
    } else {
        match hit_children(l.children, px, py) {
            Option::Some(p) => Option::Some(p),
            Option::None => Option::Some(Seq::empty()),
        }
    }
}

/// The hit path within a forest, probing from the last sibling backwards.
pub open spec fn hit_children(ls: Seq<LayoutModel>, px: u32, py: u32) -> Option<Seq<int>>
    decreases ls,
{
    if ls.len() == 0 {
        Option::None
    } else {
        match hit_model(ls.last(), px, py) {
            Option::Some(p) => Option::Some(seq![ls.len() - 1] + p),
            Option::None => hit_children(ls.drop_last(), px, py),
        }
    }
}

/// Whether `path` denotes a node of `l`.
pub open spec fn valid_layout_path(l: LayoutModel, path: Seq<int>) -> bool
    decreases path.len(),
{
    path.len() == 0 || (0 <= path[0] < l.children.len() && valid_layout_path(
        l.children[path[0]],
        path.drop_first(),
    ))
}

/// The node of `l` that `path` denotes.
pub open spec fn layout_at(l: LayoutModel, path: Seq<int>) -> LayoutModel
    decreases path.len(),
{
    if path.len() == 0 || !(0 <= path[0] < l.children.len()) {
        l
    } else {
        layout_at(l.children[path[0]], path.drop_first())
    }
}

/// Walking a path is one child step followed by the rest of the path.
pub proof fn lemma_layout_at_cons(l: LayoutModel, i: int, q: Seq<int>)
    requires
        0 <= i < l.children.len(),
    ensures
        layout_at(l, seq![i] + q) == layout_at(l.children[i], q),
        valid_layout_path(l, seq![i] + q) == valid_layout_path(l.children[i], q),
{
    let p = seq![i] + q;
    assert(p[0] == i);
    assert(p.drop_first() =~= q);
}

/// What a hit within a forest means: the chosen sibling contains the
/// point, and every sibling drawn above it (later in order) does not.
pub proof fn lemma_hit_children(ls: Seq<LayoutModel>, px: u32, py: u32)
    ensures
        hit_children(ls, px, py) is None ==> forall|j: int|
            0 <= j < ls.len() ==> !rect_contains(#[trigger] ls[j].rect, px, py),
        hit_children(ls, px, py) is Some ==> {
            let q = hit_children(ls, px, py)->Some_0;
            &&& q.len() >= 1
            &&& 0 <= q[0] < ls.len()
            &&& hit_model(ls[q[0]], px, py) == Option::Some(q.drop_first())
            &&& forall|j: int|
                q[0] < j < ls.len() ==> !rect_contains(#[trigger] ls[j].rect, px, py)
        },
    decreases ls,
{
    if ls.len() > 0 {
        lemma_hit_children(ls.drop_last(), px, py);
        match hit_model(ls.last(), px, py) {
            Option::Some(p) => {
                let q = seq![ls.len() - 1] + p;
                assert(q[0] == ls.len() - 1);
                assert(q.drop_first() =~= p);
            },
            Option::None => {
                assert(!rect_contains(ls.last().rect, px, py));
                match hit_children(ls.drop_last(), px, py) {
                    Option::Some(q) => {
                        assert forall|j: int| q[0] < j < ls.len() implies !rect_contains(
                            #[trigger] ls[j].rect,
                            px,
                            py,
                        ) by {
                            if j < ls.len() - 1 {
                                assert(ls.drop_last()[j] == ls[j]);
                            }
                        }
                        assert(ls.drop_last()[q[0]] == ls[q[0]]);
                    },
                    Option::None => {
                        assert forall|j: int| 0 <= j < ls.len() implies !rect_contains(
                            #[trigger] ls[j].rect,
                            px,
                            py,
                        ) by {
                            if j < ls.len() - 1 {
                                assert(ls.drop_last()[j] == ls[j]);
                            }
                        }
                    },
                }
            },
        }
    }
}

/// Hit-test correctness: a hit exists exactly when the point lies in the
/// root's bounds, and the hit path then leads to the deepest node whose
/// bounds contain the point — no child of the hit node contains it — with
/// ties among overlapping siblings resolved to the last-drawn (topmost)
/// node at every level along the path.
pub proof fn lemma_hit_deepest_topmost(l: LayoutModel, px: u32, py: u32)
    ensures
        hit_model(l, px, py) is Some <==> rect_contains(l.rect, px, py),
        hit_model(l, px, py) is Some ==> {
            let path = hit_model(l, px, py)->Some_0;
            &&& valid_layout_path(l, path)
            &&& rect_contains(layout_at(l, path).rect, px, py)
            &&& forall|j: int|
                0 <= j < layout_at(l, path).children.len() ==> !rect_contains(
                    (#[trigger] layout_at(l, path).children[j]).rect,
                    px,
                    py,
                )
            &&& forall|d: int, j: int|
                0 <= d < path.len() && path[d] < j < layout_at(l, path.take(d)).children.len()
                    ==> !rect_contains(
                    (#[trigger] layout_at(l, path.take(d)).children[j]).rect,
                    px,
                    py,
                )
        },
    decreases l,
{
    if rect_contains(l.rect, px, py) {
        lemma_hit_children(l.children, px, py);
        match hit_children(l.children, px, py) {
            Option::None => {
                let path = hit_model(l, px, py)->Some_0;
                assert(path =~= Seq::<int>::empty());
                assert(layout_at(l, path) == l);
            },
            Option::Some(q) => {
                let i = q[0];
                let p = q.drop_first();
                lemma_hit_deepest_topmost(l.children[i], px, py);
                assert(q =~= seq![i] + p);
                lemma_layout_at_cons(l, i, p);
                assert(layout_at(l, q) == layout_at(l.children[i], p));
                assert forall|d: int, j: int|
                    0 <= d < q.len() && q[d] < j < layout_at(l, q.take(d)).children.len()
                        implies !rect_contains(
                    (#[trigger] layout_at(l, q.take(d)).children[j]).rect,
                    px,
                    py,
                ) by {
                    if d == 0 {
                        assert(q.take(0) =~= Seq::<int>::empty());
                        assert(layout_at(l, q.take(0)) == l);
                        assert(q[0] < j < l.children.len());
                    } else {
                        assert(q.take(d) =~= seq![i] + p.take(d - 1));
                        lemma_layout_at_cons(l, i, p.take(d - 1));
                        assert(layout_at(l, q.take(d)) == layout_at(l.children[i], p.take(d - 1)));
                        assert(q[d] == p[d - 1]);
                    }
                }
            },
        }
    }
}

/// Hit-tests the laid-out tree; returns the child-index path to the hit
/// node, or `None` when the point misses the tree entirely.
pub fn hit_test(l: &LayoutNode, px: u32, py: u32) -> (r: Option<Vec<usize>>)
    ensures
        match r {
            Option::None => hit_model(layout_node_model(*l), px, py) is None,
            Option::Some(path) => hit_model(layout_node_model(*l), px, py) == Option::Some(
                path@.map_values(|u: usize| u as int),
            ),
        },
    decreases *l, 0int,
{
    if !l.rect.contains(px, py) {
        None
    } else {
        let k = l.children.len();
        proof {
            lemma_layout_node_models_len(l.children@);
            assert(layout_node_models(l.children@).take(k as int) =~= layout_node_models(
                l.children@,
            ));
        }
        match hit_forest(&l.children, k, px, py) {
            Option::Some(path) => Some(path),
            Option::None => {
                let path: Vec<usize> = Vec::new();
                proof {
                    assert(path@.map_values(|u: usize| u as int) =~= Seq::<int>::empty());
                }
                Some(path)
            },
        }
    }
}

/// Hit-tests the first `k` siblings of a forest, from the last backwards.
pub fn hit_forest(ls: &Vec<LayoutNode>, k: usize, px: u32, py: u32) -> (r: Option<Vec<usize>>)
    requires
        k <= ls@.len(),
    ensures
        match r {
            Option::None => hit_children(layout_node_models(ls@).take(k as int), px, py) is None,
            Option::Some(path) => hit_children(layout_node_models(ls@).take(k as int), px, py)
                == Option::Some(path@.map_values(|u: usize| u as int)),
        },
    decreases ls@, k, 1int,
{
    proof {
        lemma_layout_node_models_len(ls@);
    }
    if k == 0 {
        proof {
            assert(layout_node_models(ls@).take(0) =~= Seq::<LayoutModel>::empty());
        }
        None
    } else {
        let ghost pre = layout_node_models(ls@).take(k as int);
        proof {
            lemma_layout_node_models_index(ls@, k - 1);
            assert(pre.last() == layout_node_model(ls@[k - 1]));
            assert(pre.drop_last() =~= layout_node_models(ls@).take(k as int - 1));
        }
        match hit_test(&ls[k - 1], px, py) {
            Option::Some(sub) => {
                let mut path = sub;
                let ghost sub_view = path@;
                path.insert(0, k - 1);
                proof {
                    let f = |u: usize| u as int;
                    assert(path@[0] == (k - 1) as usize);
                    assert(path@.drop_first() =~= sub_view);
                    assert(path@.map_values(f) =~= seq![pre.len() - 1] + sub_view.map_values(f));
                }
                Some(path)
            },
            Option::None => {
                let r = hit_forest(ls, k - 1, px, py);
                r
            },
        }
    }
}

/// `layout_node_models` keeps the length.
pub proof fn lemma_layout_node_models_len(ls: Seq<LayoutNode>)
    ensures
        layout_node_models(ls).len() == ls.len(),
    decreases ls,
{
    if ls.len() > 0 {
        lemma_layout_node_models_len(ls.drop_first());
    }
}

/// `layout_node_models` maps the sequence element by element.
pub proof fn lemma_layout_node_models_index(ls: Seq<LayoutNode>, i: int)
    requires
        0 <= i < ls.len(),
    ensures
        layout_node_models(ls).len() == ls.len(),
        layout_node_models(ls)[i] == layout_node_model(ls[i]),
    decreases ls.len(),
{
    lemma_layout_node_models_len(ls);
    if i > 0 {
        lemma_layout_node_models_index(ls.drop_first(), i - 1);
    }
}

} // verus!
