//! The cursor: an in-order walk over a tree, one value at a time, that keeps
//! a stack of the nodes still owed a visit and never recurses.

use crate::tree::{height_of, values_of, Bst};
use vstd::prelude::*;
use vstd::std_specs::iter::IteratorSpecImpl;

verus! {

/// Iterator for a [`Bst`].
///
/// The stack holds the nodes whose value is still to come and whose left
/// subtree holds the node on top of them; the top of the stack is the node
/// whose value comes next. The view is the sequence of the values still to
/// come.
#[derive(Debug)]
pub struct BstIter<'a, E> {
    pub(crate) nodes: Vec<&'a Bst<E>>,
}

/// The values that a stack of nodes still owes, in the order in which they
/// come: for each node from the top down its value and then the values of
/// its right subtree.
pub open spec fn owed<E>(stack: Seq<&Bst<E>>) -> Seq<E>
    decreases stack.len(),
{
    if stack.len() == 0 {
        Seq::empty()
    } else {
        seq![stack.last().root()] + values_of(stack.last().greater()) + owed(stack.drop_last())
    }
}

/// The way down from `node` by left children: `node`, its left child, the
/// left child of that one, as far as there is one.
pub open spec fn left_spine<E>(node: &Bst<E>) -> Seq<&Bst<E>>
    decreases node,
{
    match node.lesser() {
        Some(child) => seq![node] + left_spine(&child),
        None => seq![node],
    }
}

/// `node` is the tree `subtree` or lies inside one of its subtrees.
pub open spec fn inside<E>(node: Bst<E>, subtree: Option<Bst<E>>) -> bool
    decreases subtree,
{
    match subtree {
        Some(tree) => node == tree || inside(node, tree.lesser()) || inside(node, tree.greater()),
        None => false,
    }
}

/// Each node of the stack lies in the left subtree of the node under it.
pub open spec fn nested<E>(stack: Seq<&Bst<E>>) -> bool {
    forall|i: int| 0 < i < stack.len() ==> inside(*#[trigger] stack[i], stack[i - 1].lesser())
}

/// A stack after one step: without its top node, and with the way down by
/// left children from the right child of that node in its place, if it had
/// one. An empty stack stays empty.
pub open spec fn stepped<E>(stack: Seq<&Bst<E>>) -> Seq<&Bst<E>> {
    if stack.len() == 0 {
        stack
    } else {
        match stack.last().greater() {
            Some(child) => stack.drop_last() + left_spine(&child),
            None => stack.drop_last(),
        }
    }
}

/// What one step of a cursor over the values `pending` gives: the first of
/// them and the rest, or nothing and no change once none is left.
pub open spec fn step<E>(pending: Seq<E>) -> (Option<E>, Seq<E>) {
    if pending.len() > 0 {
        (Some(pending[0]), pending.drop_first())
    } else {
        (None, pending)
    }
}

impl<'a, E> View for BstIter<'a, E> {
    type V = Seq<E>;

    open spec fn view(&self) -> Seq<E> {
        owed(self.stack())
    }
}

impl<'a, E> BstIter<'a, E> {
    /// The nodes on the stack, from the bottom to the top.
    pub closed spec fn stack(self) -> Seq<&'a Bst<E>> {
        self.nodes@
    }

    /// The stack is a way down a tree: each node lies in the left subtree of
    /// the node under it.
    pub open spec fn settled(self) -> bool {
        nested(self.stack())
    }

    /// The number of nodes on the stack.
    pub open spec fn depth(self) -> nat {
        self.stack().len()
    }

    /// The height of the tree at the bottom of the stack; 0 for an empty
    /// stack. A settled stack is never deeper than this.
    pub open spec fn reach(self) -> nat {
        if self.stack().len() == 0 {
            0
        } else {
            self.stack()[0].height()
        }
    }

    /// Pushes `node` and then, from each node pushed, its left child, down
    /// to a node without one.
    fn fill_left(&mut self, node: &'a Bst<E>)
        ensures
            final(self).stack() == old(self).stack() + left_spine(node),
            final(self)@ == node@ + old(self)@,
            old(self).settled() && (old(self).depth() > 0 ==> inside(
                *node,
                old(self).stack().last().lesser(),
            )) ==> final(self).settled(),
    {
        let ghost before = self.nodes@;
        let ghost fits = nested(before) && (before.len() > 0 ==> inside(
            *node,
            before.last().lesser(),
        ));
        let mut cur: &'a Bst<E> = node;
        loop
            invariant_except_break
                self.nodes@ + left_spine(cur) == before + left_spine(node),
                cur@ + owed(self.nodes@) == node@ + owed(before),
                fits && self.nodes@.len() > 0 ==> inside(*cur, self.nodes@.last().lesser()),
            invariant
                fits ==> nested(self.nodes@),
            ensures
                self.nodes@ == before + left_spine(node),
                owed(self.nodes@) == node@ + owed(before),
            decreases cur.height(),
        {
            let ghost stack = self.nodes@;
            self.nodes.push(cur);
            proof {
                assert(self.nodes@.drop_last() =~= stack);
                assert(fits ==> nested(self.nodes@));
            }
            match &cur.left {
                Some(child) => {
                    cur = child;
                },
                None => {
                    break ;
                },
            }
        }
    }

    /// Makes an iterator over the values of `node`, which starts at the least
    /// of them.
    pub fn new(node: &'a Bst<E>) -> (cursor: BstIter<'a, E>)
        ensures
            cursor@ == node@,
            cursor@.len() > 0,
            cursor.stack() == left_spine(node),
            cursor.settled(),
            cursor.depth() <= cursor.reach(),
            cursor.reach() == node.height(),
    {
        let mut iter = BstIter { nodes: Vec::<&Bst<E>>::new() };
        iter.fill_left(node);
        proof {
            lemma_depth_within_reach(iter);
        }
        iter
    }
}

impl<'a, E> Iterator for BstIter<'a, E> {
    type Item = &'a E;

    /// Returns the value that comes next, and moves on: the node on top of
    /// the stack leaves it, and the leftmost way down its right subtree, if
    /// it has one, takes its place. Returns `None` once no value is left,
    /// from then on always.
    fn next(&mut self) -> (value: Option<&'a E>)
        ensures
            step(old(self)@).0 == match value {
                Some(v) => Some(*v),
                None => None,
            },
            step(old(self)@).1 == final(self)@,
            final(self).stack() == stepped(old(self).stack()),
            old(self).settled() ==> {
                &&& final(self).settled()
                &&& final(self).depth() <= final(self).reach()
                &&& final(self).reach() <= old(self).reach()
            },
    {
        let ghost before = self.nodes@;
        match self.nodes.pop() {
            None => None,
            Some(node) => {
                let ghost rest = self.nodes@;
                proof {
                    assert(nested(before) ==> nested(rest));
                }
                if let Some(right) = &node.right {
                    proof {
                        if rest.len() > 0 && nested(before) {
                            lemma_inside_deeper(**right, *node, rest.last().lesser());
                        }
                    }
                    self.fill_left(right);
                    proof {
                        lemma_inside_lower(**right, node.greater());
                    }
                }
                proof {
                    if nested(before) {
                        lemma_depth_within_reach(*self);
                    }
                }
                Some(&node.value)
            },
        }
    }
}

impl<'a, E> IteratorSpecImpl for BstIter<'a, E> {
    /// `next` does what the iterator laws say, in every state.
    open spec fn obeys_prophetic_iter_laws(&self) -> bool {
        true
    }

    /// The values still to come, as `next` hands them out: by reference.
    open spec fn remaining(&self) -> Seq<&'a E> {
        self@.map_values(|v: E| &v)
    }

    /// Every walk ends: a tree holds finitely many values.
    open spec fn will_return_none(&self) -> bool {
        true
    }

    /// The number of values still to come, which falls with every value
    /// given.
    open spec fn decrease(&self) -> Option<nat> {
        Some(self@.len())
    }

    /// A cursor stands for the expression it was made from when both have
    /// the same values to give.
    open spec fn initial_value_relation(&self, init: &Self) -> bool {
        self@ == init@
    }

    /// The value that comes after `index` more steps, if one does.
    open spec fn peek(&self, index: int) -> Option<&'a E> {
        if 0 <= index < self@.len() {
            Some(&self@[index])
        } else {
            None
        }
    }
}

/// What lies inside a subtree of a node that lies inside a tree lies inside
/// that tree.
pub proof fn lemma_inside_deeper<E>(inner: Bst<E>, node: Bst<E>, subtree: Option<Bst<E>>)
    requires
        inside(node, subtree),
        inside(inner, node.lesser()) || inside(inner, node.greater()),
    ensures
        inside(inner, subtree),
    decreases subtree,
{
    let tree = subtree.unwrap();
    if node != tree {
        if inside(node, tree.lesser()) {
            lemma_inside_deeper(inner, node, tree.lesser());
        } else {
            lemma_inside_deeper(inner, node, tree.greater());
        }
    }
}

/// A tree is at least as high as what lies inside it, and higher than what
/// lies inside one of its subtrees.
pub proof fn lemma_inside_lower<E>(inner: Bst<E>, subtree: Option<Bst<E>>)
    requires
        inside(inner, subtree),
    ensures
        inner.height() <= height_of(subtree),
        forall|tree: Bst<E>|
            tree.lesser() == subtree || tree.greater() == subtree ==> inner.height()
                < #[trigger] tree.height(),
    decreases subtree,
{
    let tree = subtree.unwrap();
    if inner != tree {
        if inside(inner, tree.lesser()) {
            lemma_inside_lower(inner, tree.lesser());
        } else {
            lemma_inside_lower(inner, tree.greater());
        }
    }
}

/// A settled stack is no deeper than the tree at its bottom is high.
pub proof fn lemma_depth_within_reach<'a, E>(cursor: BstIter<'a, E>)
    requires
        cursor.settled(),
    ensures
        cursor.depth() <= cursor.reach(),
{
    let stack = cursor.stack();
    if stack.len() > 0 {
        lemma_heights_fall(stack, stack.len() - 1);
    }
}

/// Along a nested stack the heights fall by at least one from each node to
/// the next.
proof fn lemma_heights_fall<E>(stack: Seq<&Bst<E>>, i: int)
    requires
        nested(stack),
        0 <= i < stack.len(),
    ensures
        stack[i].height() + i <= stack[0].height(),
        stack[i].height() >= 1,
    decreases i,
{
    if i > 0 {
        lemma_heights_fall(stack, i - 1);
        lemma_inside_lower(*stack[i], stack[i - 1].lesser());
    }
}

} // verus!
