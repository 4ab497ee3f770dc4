//! Keyboard focus: the focusable nodes in tree order, and Tab cycling.
//!
//! At most one node holds focus, tracked by its state identity. Tab moves
//! focus to the next focusable node in preorder, wrapping from the last to
//! the first; Shift-Tab moves backwards, wrapping from the first to the
//! last. A focus target that disappears from the tree is cleared silently.

use vstd::prelude::*;
use vstd::seq_lib::lemma_multiset_commutative;
use crate::state::{StateNode, StateModel, state_model, state_models, lemma_state_models_index, lemma_state_models_len, sids, sids_seq};
use crate::widget::spec_focusable;

verus! {

broadcast use
    vstd::seq::axiom_seq_index_decreases,
    vstd::seq::axiom_seq_subrange_decreases,
    vstd::std_specs::vec::axiom_vec_index_decreases;

/// The identities of the focusable nodes of `s`, in preorder.
pub open spec fn focus_list(s: StateModel) -> Seq<u64>
    decreases s,
{
    (if spec_focusable(s.kind) {
        seq![s.sid]
    } else {
        Seq::empty()
    }) + focus_list_seq(s.children)
}

/// Forest version of `focus_list`.
pub open spec fn focus_list_seq(ss: Seq<StateModel>) -> Seq<u64>
    decreases ss,
{
    if ss.len() == 0 {
        Seq::empty()
    } else {
        focus_list(ss[0]) + focus_list_seq(ss.drop_first())
    }
}

/// The position of the first occurrence of `id` in `list`.
pub open spec fn find_first(list: Seq<u64>, id: u64) -> Option<int>
    decreases list,
{
    if list.len() == 0 {
        Option::None
    } else if list[0] == id {
        Option::Some(0)
    } else {
        match find_first(list.drop_first(), id) {
            Option::Some(i) => Option::Some(i + 1),
            Option::None => Option::None,
        }
    }
}

/// `find_first` finds a valid position holding `id`, exactly when `id`
/// occurs; on a duplicate-free list it finds every element at its index.
pub proof fn lemma_find_first(list: Seq<u64>, id: u64)
    ensures
        find_first(list, id) is Some ==> {
            let i = find_first(list, id)->Some_0;
            0 <= i < list.len() && list[i] == id
        },
        find_first(list, id) is None ==> forall|j: int| 0 <= j < list.len() ==> list[j] != id,
    decreases list,
{
    if list.len() > 0 && list[0] != id {
        lemma_find_first(list.drop_first(), id);
        if find_first(list, id) is None {
            assert forall|j: int| 0 <= j < list.len() implies list[j] != id by {
                if j > 0 {
                    assert(list.drop_first()[j - 1] == list[j]);
                }
            }
        }
    }
}

/// On a duplicate-free list, the first occurrence of `list[k]` is `k`.
pub proof fn lemma_find_first_distinct(list: Seq<u64>, k: int)
    requires
        0 <= k < list.len(),
        forall|a: int, b: int| 0 <= a < b < list.len() ==> list[a] != list[b],
    ensures
        find_first(list, list[k]) == Option::Some(k),
    decreases list,
{
    if k == 0 {
    } else {
        assert(list[0] != list[k]);
        let rest = list.drop_first();
        assert forall|a: int, b: int| 0 <= a < b < rest.len() implies rest[a] != rest[b] by {
            assert(rest[a] == list[a + 1]);
            assert(rest[b] == list[b + 1]);
        }
        assert(list.drop_first()[k - 1] == list[k]);
        lemma_find_first_distinct(list.drop_first(), k - 1);
    }
}

/// The focus after a Tab (or Shift-Tab, when `backwards`): the neighbour
/// of the current focus in the list, wrapping at both ends; with no
/// current focus, or a vanished one, the first (or, backwards, the last)
/// focusable node.
pub open spec fn spec_cycle(list: Seq<u64>, cur: Option<u64>, backwards: bool) -> Option<u64> {
    if list.len() == 0 {
        Option::None
    } else {
        let fallback = if backwards {
            list.last()
        } else {
            list[0]
        };
        match cur {
            Option::None => Option::Some(fallback),
            Option::Some(id) => match find_first(list, id) {
                Option::None => Option::Some(fallback),
                Option::Some(i) => Option::Some(
                    if backwards {
                        if i == 0 {
                            list.last()
                        } else {
                            list[i - 1]
                        }
                    } else {
                        if i == list.len() - 1 {
                            list[0]
                        } else {
                            list[i + 1]
                        }
                    },
                ),
            },
        }
    }
}

/// Focus cycling wraps: on a duplicate-free list of focusable nodes, Tab
/// from the last focusable node moves focus to the first, and Shift-Tab
/// from the first moves it to the last.
pub proof fn lemma_focus_cycle_wraps(list: Seq<u64>)
    requires
        list.len() > 0,
        forall|a: int, b: int| 0 <= a < b < list.len() ==> list[a] != list[b],
    ensures
        spec_cycle(list, Option::Some(list.last()), false) == Option::Some(list[0]),
        spec_cycle(list, Option::Some(list[0]), true) == Option::Some(list.last()),
{
    lemma_find_first_distinct(list, list.len() - 1);
    lemma_find_first_distinct(list, 0);
}

/// Cycling always lands on a focusable node of the list, and only an
/// empty list leaves focus empty.
pub proof fn lemma_cycle_in_list(list: Seq<u64>, cur: Option<u64>, backwards: bool)
    ensures
        spec_cycle(list, cur, backwards) is Some <==> list.len() > 0,
        spec_cycle(list, cur, backwards) is Some ==> list.contains(
            spec_cycle(list, cur, backwards)->Some_0,
        ),
{
    if list.len() > 0 {
        match cur {
            Option::None => {
                assert(list.contains(if backwards { list.last() } else { list[0] }));
            },
            Option::Some(id) => {
                lemma_find_first(list, id);
                match find_first(list, id) {
                    Option::None => {
                        assert(list.contains(if backwards { list.last() } else { list[0] }));
                    },
                    Option::Some(i) => {
                        let r = spec_cycle(list, cur, backwards)->Some_0;
                        if backwards {
                            if i == 0 {
                                assert(list[list.len() - 1] == r);
                            } else {
                                assert(list[i - 1] == r);
                            }
                        } else {
                            if i == list.len() - 1 {
                                assert(list[0] == r);
                            } else {
                                assert(list[i + 1] == r);
                            }
                        }
                    },
                }
            },
        }
    }
}

/// Appends the identities of the focusable nodes of `s`, in preorder.
pub fn collect_focus(s: &StateNode, out: &mut Vec<u64>)
    ensures
        final(out)@ == old(out)@ + focus_list(state_model(*s)),
    decreases *s, 0int,
{
    let ghost sm = state_model(*s);
    if s.kind.focusable() {
        out.push(s.sid);
    }
    collect_focus_forest(&s.children, 0, out);
    proof {
        assert(state_models(s.children@).skip(0) =~= state_models(s.children@));
        assert(out@ =~= old(out)@ + focus_list(sm));
    }
}

/// Appends the focusable identities of the state nodes of `ss` from
/// position `i` on.
pub fn collect_focus_forest(ss: &Vec<StateNode>, i: usize, out: &mut Vec<u64>)
    requires
        i <= ss@.len(),
    ensures
        final(out)@ == old(out)@ + focus_list_seq(state_models(ss@).skip(i as int)),
    decreases ss@, ss@.len() - i, 1int,
{
    proof {
        lemma_state_models_len(ss@);
    }
    let n = ss.len();
    if i == n {
        proof {
            assert(state_models(ss@).skip(i as int) =~= Seq::<StateModel>::empty());
            assert(out@ =~= old(out)@ + focus_list_seq(state_models(ss@).skip(i as int)));
        }
    } else {
        let ghost tail = state_models(ss@).skip(i as int);
        proof {
            lemma_state_models_index(ss@, i as int);
            assert(tail[0] == state_model(ss@[i as int]));
            assert(tail.drop_first() =~= state_models(ss@).skip(i as int + 1));
        }
        collect_focus(&ss[i], out);
        collect_focus_forest(ss, i + 1, out);
        proof {
            assert(out@ =~= old(out)@ + focus_list_seq(tail));
        }
    }
}

/// The position of the first occurrence of `id`, if any.
pub fn find_in_list(list: &Vec<u64>, id: u64) -> (r: Option<usize>)
    ensures
        match r {
            Option::Some(i) => find_first(list@, id) == Option::Some(i as int),
            Option::None => find_first(list@, id) is None,
        },
{
    let n = list.len();
    let mut k: usize = 0;
    while k < n
        invariant
            k <= n,
            n == list@.len(),
            forall|j: int| 0 <= j < k ==> list@[j] != id,
        decreases n - k,
    {
        if list[k] == id {
            proof {
                lemma_find_first_prefix(list@, id, k as int);
            }
            return Some(k);
        }
        k += 1;
    }
    proof {
        lemma_find_first(list@, id);
        if find_first(list@, id) is Some {
            let i = find_first(list@, id)->Some_0;
            assert(list@[i] == id);
        }
    }
    None
}

/// If everything before `k` differs from `id` and `list[k] == id`, then
/// `k` is the first occurrence.
pub proof fn lemma_find_first_prefix(list: Seq<u64>, id: u64, k: int)
    requires
        0 <= k < list.len(),
        list[k] == id,
        forall|j: int| 0 <= j < k ==> list[j] != id,
    ensures
        find_first(list, id) == Option::Some(k),
    decreases list,
{
    if k > 0 {
        assert forall|j: int| 0 <= j < k - 1 implies list.drop_first()[j] != id by {
            assert(list.drop_first()[j] == list[j + 1]);
        }
        assert(list.drop_first()[k - 1] == list[k]);
        lemma_find_first_prefix(list.drop_first(), id, k - 1);
    }
}

/// Moves focus one step through `list`, wrapping at the ends.
pub fn cycle_focus(list: &Vec<u64>, cur: Option<u64>, backwards: bool) -> (r: Option<u64>)
    ensures
        r == spec_cycle(list@, cur, backwards),
{
    let n = list.len();
    if n == 0 {
        return None;
    }
    let fallback = if backwards {
        list[n - 1]
    } else {
        list[0]
    };
    match cur {
        Option::None => Some(fallback),
        Option::Some(id) => {
            match find_in_list(list, id) {
                Option::None => Some(fallback),
                Option::Some(i) => {
                    proof {
                        lemma_find_first(list@, id);
                    }
                    if backwards {
                        if i == 0 {
                            Some(list[n - 1])
                        } else {
                            Some(list[i - 1])
                        }
                    } else {
                        if i == n - 1 {
                            Some(list[0])
                        } else {
                            Some(list[i + 1])
                        }
                    }
                },
            }
        },
    }
}

/// The focus list draws on the tree's identities: it names each identity
/// at most as often as the tree holds it.
pub proof fn lemma_focus_list_sub_sids(s: StateModel)
    ensures
        forall|x: u64|
            focus_list(s).to_multiset().count(x) <= sids(s).to_multiset().count(x),
    decreases s,
{
    broadcast use vstd::multiset::group_multiset_axioms;

    let own = if spec_focusable(s.kind) {
        seq![s.sid]
    } else {
        Seq::<u64>::empty()
    };
    lemma_focus_seq_sub_sids(s.children);
    lemma_multiset_commutative(own, focus_list_seq(s.children));
    lemma_multiset_commutative(seq![s.sid], sids_seq(s.children));
    assert forall|x: u64| focus_list(s).to_multiset().count(x) <= sids(s).to_multiset().count(
        x,
    ) by {
        own.to_multiset_ensures();
        seq![s.sid].to_multiset_ensures();
        if own.len() == 0 {
            assert(own.to_multiset().count(x) == 0) by {
                assert(!own.contains(x));
            }
        } else {
            assert(own =~= seq![s.sid]);
        }
    }
}

/// Forest version of `lemma_focus_list_sub_sids`.
pub proof fn lemma_focus_seq_sub_sids(ss: Seq<StateModel>)
    ensures
        forall|x: u64|
            focus_list_seq(ss).to_multiset().count(x) <= sids_seq(ss).to_multiset().count(x),
    decreases ss,
{
    broadcast use vstd::multiset::group_multiset_axioms;

    if ss.len() > 0 {
        lemma_focus_list_sub_sids(ss[0]);
        lemma_focus_seq_sub_sids(ss.drop_first());
        lemma_multiset_commutative(focus_list(ss[0]), focus_list_seq(ss.drop_first()));
        lemma_multiset_commutative(sids(ss[0]), sids_seq(ss.drop_first()));
    }
}

/// A tree whose identities are distinct has a duplicate-free focus list.
pub proof fn lemma_focus_list_distinct(s: StateModel)
    requires
        sids(s).no_duplicates(),
    ensures
        focus_list(s).no_duplicates(),
{
    broadcast use vstd::multiset::group_multiset_axioms;

    sids(s).lemma_multiset_has_no_duplicates();
    lemma_focus_list_sub_sids(s);
    sids(s).to_multiset_ensures();
    focus_list(s).to_multiset_ensures();
    assert forall|x: u64|
        focus_list(s).to_multiset().contains(x) implies focus_list(s).to_multiset().count(x)
        == 1 by {
        assert(focus_list(s).to_multiset().count(x) > 0);
        assert(sids(s).to_multiset().count(x) > 0);
        assert(sids(s).contains(x));
        assert(sids(s).to_multiset().count(x) == 1);
    }
    focus_list(s).lemma_multiset_has_no_duplicates_conv();
}

/// Focus cycling wraps on the tree itself: in a state tree with distinct
/// identities, Tab from the last focusable node moves focus to the first,
/// and Shift-Tab from the first moves it to the last.
pub proof fn lemma_tree_focus_wraps(s: StateModel)
    requires
        sids(s).no_duplicates(),
        focus_list(s).len() > 0,
    ensures
        spec_cycle(focus_list(s), Option::Some(focus_list(s).last()), false) == Option::Some(
            focus_list(s)[0],
        ),
        spec_cycle(focus_list(s), Option::Some(focus_list(s)[0]), true) == Option::Some(
            focus_list(s).last(),
        ),
{
    lemma_focus_list_distinct(s);
    lemma_focus_cycle_wraps(focus_list(s));
}

} // verus!
