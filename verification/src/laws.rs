//! What holds of the tree and its cursor across calls.
//!
//! The laws speak of trees as values: `Bst::single(v)` is what `Bst::new`
//! returns, `tree.inserted(v)` is `tree` after `insert(v)`, `copy.copy_of(tree)`
//! holds of what `clone` returns, and `step` is what `next` does to the values
//! that a cursor has still to give.

use crate::cursor::{step, BstIter};
use crate::sorted::{
    ascending, holds, lemma_ascending_joined, lemma_placed_grows, lemma_placed_holds,
    lemma_placed_keeps, lemma_placed_values, placed,
};
use crate::tree::{clones_exactly, lemma_copy, lemma_inserted, values_of, Bst};
use vstd::laws_cmp::obeys_cmp;
use vstd::prelude::*;

verus! {

/// The tree that `Bst::new(first)` and then one `insert` for each value of
/// `more`, in their order, build.
pub open spec fn built<E: Ord>(first: E, more: Seq<E>) -> Bst<E>
    decreases more.len(),
{
    if more.len() == 0 {
        Bst::single(first)
    } else {
        built(first, more.drop_last()).inserted(more.last())
    }
}

/// What is left to come after `count` steps of a cursor that had `pending` to
/// give.
pub open spec fn after_steps<E>(pending: Seq<E>, count: nat) -> Seq<E>
    decreases count,
{
    if count == 0 {
        pending
    } else {
        step(after_steps(pending, (count - 1) as nat)).1
    }
}

/// A tree is never higher than it has values.
pub proof fn law_height_within_size<E>(tree: Bst<E>)
    ensures
        1 <= tree.height() <= tree@.len(),
    decreases tree,
{
    if let Some(node) = tree.lesser() {
        law_height_within_size(node);
    }
    if let Some(node) = tree.greater() {
        law_height_within_size(node);
    }
}

/// A tree built by `new` and any number of insertions is ordered.
pub proof fn law_built_is_ordered<E: Ord>(first: E, more: Seq<E>)
    requires
        obeys_cmp::<E>(),
    ensures
        built(first, more).ordered(),
    decreases more.len(),
{
    if more.len() > 0 {
        law_built_is_ordered(first, more.drop_last());
        lemma_inserted(built(first, more.drop_last()), more.last());
    }
}

/// The values of an ordered tree from left to right ascend strictly, so no
/// two of them are equivalent.
pub proof fn law_in_order_ascends<E: Ord>(tree: Bst<E>)
    requires
        obeys_cmp::<E>(),
        tree.ordered(),
    ensures
        ascending(tree@),
    decreases tree,
{
    if let Some(node) = tree.lesser() {
        law_in_order_ascends(node);
    }
    if let Some(node) = tree.greater() {
        law_in_order_ascends(node);
    }
    lemma_ascending_joined(values_of(tree.lesser()), tree.root(), values_of(tree.greater()));
}

/// The values of a built tree from left to right are the values it was built
/// from in ascending order, each once: the sequence ascends, holds a value
/// equivalent to each value that went in, and holds no value that did not go
/// in.
pub proof fn law_built_is_sorted_input<E: Ord>(first: E, more: Seq<E>)
    requires
        obeys_cmp::<E>(),
    ensures
        ascending(built(first, more)@),
        forall|i: int| 0 <= i < more.len() ==> holds(built(first, more)@, #[trigger] more[i]),
        holds(built(first, more)@, first),
        forall|j: int|
            0 <= j < built(first, more)@.len() ==> first == built(first, more)@[j] || more.contains(
                #[trigger] built(first, more)@[j],
            ),
    decreases more.len(),
{
    let tree = built(first, more);
    law_built_is_ordered(first, more);
    law_in_order_ascends(tree);
    if more.len() == 0 {
        lemma_placed_holds(Seq::<E>::empty(), first);
    } else {
        let earlier = more.drop_last();
        let last = more.last();
        let before = built(first, earlier);
        law_built_is_ordered(first, earlier);
        law_built_is_sorted_input(first, earlier);
        lemma_inserted(before, last);
        lemma_placed_holds(before@, last);
        lemma_placed_keeps(before@, last, first);
        lemma_placed_values(before@, last);
        assert forall|i: int| 0 <= i < more.len() implies holds(tree@, #[trigger] more[i]) by {
            if i < earlier.len() {
                lemma_placed_keeps(before@, last, earlier[i]);
            }
        }
        assert forall|j: int| 0 <= j < tree@.len() implies first == tree@[j] || more.contains(
            #[trigger] tree@[j],
        ) by {
            let w = tree@[j];
            if w == last {
                assert(more[more.len() - 1] == w);
            } else if first != w {
                assert(earlier.contains(w));
                let m = choose|m: int| 0 <= m < earlier.len() && earlier[m] == w;
                assert(more[m] == w);
            }
        }
    }
}

/// A value inserted a second time is found and changes nothing: after
/// `insert(val)` the tree holds a value equivalent to `val`, so the next
/// `insert(val)` returns `false`, and the tree it leaves is the same tree.
pub proof fn law_second_insert_changes_nothing<E: Ord>(tree: Bst<E>, val: E)
    requires
        obeys_cmp::<E>(),
        tree.ordered(),
    ensures
        holds(tree.inserted(val)@, val),
        tree.inserted(val).inserted(val) == tree.inserted(val),
        tree.inserted(val).inserted(val)@ == tree.inserted(val)@,
{
    lemma_inserted(tree, val);
    lemma_placed_holds(tree@, val);
    lemma_inserted(tree.inserted(val), val);
}

/// A value that the tree does not hold yet makes it one value longer; one
/// that it holds leaves it as it is.
pub proof fn law_insert_adds_at_most_one<E: Ord>(tree: Bst<E>, val: E)
    requires
        obeys_cmp::<E>(),
        tree.ordered(),
    ensures
        holds(tree@, val) ==> tree.inserted(val) == tree,
        !holds(tree@, val) ==> tree.inserted(val)@.len() == tree@.len() + 1,
{
    lemma_inserted(tree, val);
    if !holds(tree@, val) {
        lemma_placed_grows(tree@, val);
    }
}

/// A clone and the tree it was made from go separate ways. The clone holds,
/// place for place, a clone of each value that the tree held when the clone
/// was made. Where clones of values are exact the two are equal then, and an
/// insertion into either gives that one the values of the other with the new
/// value at its place, while the other still is what both were.
pub proof fn law_clone_is_independent<E: Ord + Clone>(tree: Bst<E>, copy: Bst<E>, val: E)
    requires
        obeys_cmp::<E>(),
        tree.ordered(),
        copy.copy_of(tree),
    ensures
        copy@.len() == tree@.len(),
        forall|i: int| 0 <= i < tree@.len() ==> cloned::<E>(#[trigger] tree@[i], copy@[i]),
        clones_exactly::<E>() ==> {
            &&& copy == tree
            &&& tree.inserted(val)@ == placed(copy@, val)
            &&& copy.inserted(val)@ == placed(tree@, val)
            &&& !holds(tree@, val) ==> tree.inserted(val)@ != copy@ && copy.inserted(val)@
                != tree@
        },
{
    lemma_copy(copy, tree);
    lemma_inserted(tree, val);
    if !holds(tree@, val) {
        lemma_placed_grows(tree@, val);
    }
}

/// A cursor has values to give just as long as its stack holds a node.
pub proof fn law_pending_while_stacked<'a, E>(cursor: BstIter<'a, E>)
    ensures
        (cursor@.len() == 0) == (cursor.depth() == 0),
{
}

/// A cursor gives the values it has pending one by one in their order, and
/// after the last of them nothing, however often it is asked.
pub proof fn law_cursor_runs_out<E>(pending: Seq<E>, count: nat)
    ensures
        count < pending.len() ==> step(after_steps(pending, count)).0 == Some(
            pending[count as int],
        ),
        count >= pending.len() ==> step(after_steps(pending, count)).0 is None,
        after_steps(pending, count) == pending.skip(
            if count <= pending.len() {
                count as int
            } else {
                pending.len() as int
            },
        ),
    decreases count,
{
    if count > 0 {
        law_cursor_runs_out(pending, (count - 1) as nat);
    }
}

} // verus!
