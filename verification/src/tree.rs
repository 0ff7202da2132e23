//! The search tree: a value with an optional subtree of smaller values on its
//! left and an optional subtree of greater values on its right.

use crate::cursor::{left_spine, BstIter};
use crate::laws::law_in_order_ascends;
use crate::order::{equivalent, lemma_exclusive, lemma_operators_follow_spec, lemma_total, precedes};
use crate::sorted::{
    all_after, all_before, ascending, holds, lemma_after_holds_none, lemma_before_holds_none,
    lemma_holds_in_parts, lemma_placed_left, lemma_placed_right, lemma_placed_same,
    lemma_placed_values, placed,
};
use vstd::laws_cmp::obeys_cmp;
use vstd::prelude::*;

verus! {

/// A binary search tree with element type `E`.
///
/// A tree is never empty. It stands for the sequence of its values from left
/// to right, [`Bst::in_order`], which is also its view.
#[derive(Debug)]
pub struct Bst<E> {
    pub(crate) value: E,
    pub(crate) left: Option<Box<Bst<E>>>,
    pub(crate) right: Option<Box<Bst<E>>>,
}

/// The values of a subtree that may be missing, from left to right; none
/// where it is missing.
pub open spec fn values_of<E>(subtree: Option<Bst<E>>) -> Seq<E> {
    match subtree {
        Some(tree) => tree.in_order(),
        None => Seq::empty(),
    }
}

/// The height of a subtree that may be missing; 0 where it is missing.
pub open spec fn height_of<E>(subtree: Option<Bst<E>>) -> nat {
    match subtree {
        Some(tree) => tree.height(),
        None => 0,
    }
}

impl<E> Bst<E> {
    /// The value at the root.
    pub open(crate) spec fn root(self) -> E {
        self.value
    }

    /// The subtree of the smaller values, if there is one.
    pub open(crate) spec fn lesser(self) -> Option<Bst<E>> {
        match self.left {
            Some(node) => Some(*node),
            None => None,
        }
    }

    /// The subtree of the greater values, if there is one.
    pub open(crate) spec fn greater(self) -> Option<Bst<E>> {
        match self.right {
            Some(node) => Some(*node),
            None => None,
        }
    }

    /// The tree with `root` at its root and the given subtrees.
    pub open(crate) spec fn node(lesser: Option<Bst<E>>, root: E, greater: Option<Bst<E>>) -> Self {
        Bst {
            value: root,
            left: match lesser {
                Some(tree) => Some(Box::new(tree)),
                None => None,
            },
            right: match greater {
                Some(tree) => Some(Box::new(tree)),
                None => None,
            },
        }
    }

    /// The tree of the one value `value`.
    pub open spec fn single(value: E) -> Self {
        Self::node(None, value, None)
    }

    /// The values of the tree from left to right: those of the left subtree,
    /// the root, those of the right subtree.
    pub open spec fn in_order(self) -> Seq<E>
        decreases self,
    {
        let before = match self.lesser() {
            Some(tree) => tree.in_order(),
            None => Seq::empty(),
        };
        let after = match self.greater() {
            Some(tree) => tree.in_order(),
            None => Seq::empty(),
        };
        before + seq![self.root()] + after
    }

    /// The number of nodes on the longest way from the root down.
    pub open spec fn height(self) -> nat
        decreases self,
    {
        let below_lesser = match self.lesser() {
            Some(tree) => tree.height(),
            None => 0,
        };
        let below_greater = match self.greater() {
            Some(tree) => tree.height(),
            None => 0,
        };
        if below_lesser >= below_greater {
            below_lesser + 1
        } else {
            below_greater + 1
        }
    }
}

impl<E> View for Bst<E> {
    type V = Seq<E>;

    open spec fn view(&self) -> Seq<E> {
        self.in_order()
    }
}

impl<E: Ord> Bst<E> {
    /// The search order holds at every node: the values of its left subtree
    /// sort before its value, and its value sorts before those of its right
    /// subtree.
    pub open spec fn ordered(self) -> bool
        decreases self,
    {
        &&& match self.lesser() {
            Some(tree) => tree.ordered() && all_before(tree.in_order(), self.root()),
            None => true,
        }
        &&& match self.greater() {
            Some(tree) => tree.ordered() && all_after(tree.in_order(), self.root()),
            None => true,
        }
    }

    /// The tree after `val` was inserted: the same tree where a value
    /// equivalent to `val` is met on the way down, else the tree with a new
    /// node of `val` at the empty place where the way down ends.
    pub open spec fn inserted(self, val: E) -> Self
        decreases self,
    {
        if equivalent(val, self.root()) {
            self
        } else if precedes(val, self.root()) {
            let grown = match self.lesser() {
                Some(tree) => tree.inserted(val),
                None => Self::single(val),
            };
            Self::node(Some(grown), self.root(), self.greater())
        } else {
            let grown = match self.greater() {
                Some(tree) => tree.inserted(val),
                None => Self::single(val),
            };
            Self::node(self.lesser(), self.root(), Some(grown))
        }
    }

    /// Makes the tree of the one value `value`.
    pub fn new(value: E) -> (tree: Self)
        ensures
            tree == Self::single(value),
            tree@ == seq![value],
            tree.ordered(),
    {
        let tree = Bst { value, left: None, right: None };
        proof {
            assert(tree@ =~= seq![value]);
        }
        tree
    }

    /// An iterator over the values of the tree in ascending order, which
    /// starts at the least of them.
    pub fn iter(&self) -> (cursor: BstIter<'_, E>)
        ensures
            cursor@ == self@,
            cursor@.len() > 0,
            cursor.stack() == left_spine(self),
            cursor.settled(),
            cursor.depth() <= cursor.reach(),
            cursor.reach() == self.height(),
            obeys_cmp::<E>() && self.ordered() ==> ascending(cursor@),
    {
        proof {
            if obeys_cmp::<E>() && self.ordered() {
                law_in_order_ascends(*self);
            }
        }
        BstIter::new(self)
    }

    /// Inserts `val` at its place in the search order. Returns `true` if it
    /// was inserted, `false` if the tree already held an equivalent value, in
    /// which case the tree is unchanged.
    pub fn insert(&mut self, val: E) -> (fresh: bool)
        ensures
            obeys_cmp::<E>() ==> {
                &&& *final(self) == old(self).inserted(val)
                &&& fresh == (*final(self) != *old(self))
            },
            obeys_cmp::<E>() && old(self).ordered() ==> {
                &&& final(self).ordered()
                &&& fresh == !holds(old(self)@, val)
                &&& final(self)@ == placed(old(self)@, val)
            },
        decreases *old(self),
    {
        proof {
            if obeys_cmp::<E>() {
                lemma_operators_follow_spec::<E>();
                if old(self).ordered() {
                    lemma_inserted(*old(self), val);
                }
            }
        }
        if val == self.value {
            return false;
        }
        if val < self.value {
            if let Some(left) = &mut self.left {
                return left.insert(val);
            }
            self.left = Some(Box::new(Bst::new(val)));
            true
        } else {
            if let Some(right) = &mut self.right {
                return right.insert(val);
            }
            self.right = Some(Box::new(Bst::new(val)));
            true
        }
    }
}

/// A node has the root and the subtrees it was made of.
pub proof fn lemma_node_parts<E>(lesser: Option<Bst<E>>, root: E, greater: Option<Bst<E>>)
    ensures
        Bst::node(lesser, root, greater).lesser() == lesser,
        Bst::node(lesser, root, greater).root() == root,
        Bst::node(lesser, root, greater).greater() == greater,
{
}

/// Every tree is the node of its root and its subtrees.
pub proof fn lemma_tree_is_node<E>(tree: Bst<E>)
    ensures
        tree == Bst::node(tree.lesser(), tree.root(), tree.greater()),
{
}

/// A tree holds at least one value.
pub proof fn lemma_in_order_not_empty<E>(tree: Bst<E>)
    ensures
        tree@.len() > 0,
{
}

/// Every clone of a value of `E` is equal to the value it was made from.
pub open spec fn clones_exactly<E: Clone>() -> bool {
    forall|a: E, b: E| #[trigger] cloned::<E>(a, b) ==> a == b
}

impl<E: Clone> Bst<E> {
    /// `self` has the shape of `source`, node for node, and the value at
    /// each node is a clone of the value at the source's node.
    pub open spec fn copy_of(self, source: Self) -> bool
        decreases source,
    {
        &&& cloned::<E>(source.root(), self.root())
        &&& match source.lesser() {
            Some(tree) => self.lesser() is Some && self.lesser().unwrap().copy_of(tree),
            None => self.lesser() is None,
        }
        &&& match source.greater() {
            Some(tree) => self.greater() is Some && self.greater().unwrap().copy_of(tree),
            None => self.greater() is None,
        }
    }
}

impl<E: Clone> Clone for Bst<E> {
    /// Makes a tree of its own with a clone of every value at the place of
    /// the value it was made from.
    fn clone(&self) -> (copy: Self)
        ensures
            copy.copy_of(*self),
            copy@.len() == self@.len(),
            forall|i: int| 0 <= i < self@.len() ==> cloned::<E>(#[trigger] self@[i], copy@[i]),
            clones_exactly::<E>() ==> copy == *self,
        decreases self,
    {
        let left = match &self.left {
            Some(node) => Some(Box::new((**node).clone())),
            None => None,
        };
        let right = match &self.right {
            Some(node) => Some(Box::new((**node).clone())),
            None => None,
        };
        let copy = Bst { value: self.value.clone(), left, right };
        proof {
            lemma_copy(copy, *self);
        }
        copy
    }
}

/// A copy holds as many values as its source, each a clone of the value at
/// the same place, and is equal to the source where clones are exact.
pub proof fn lemma_copy<E: Clone>(copy: Bst<E>, source: Bst<E>)
    requires
        copy.copy_of(source),
    ensures
        copy@.len() == source@.len(),
        forall|i: int| 0 <= i < source@.len() ==> cloned::<E>(#[trigger] source@[i], copy@[i]),
        clones_exactly::<E>() ==> copy == source,
    decreases source,
{
    if let Some(node) = source.lesser() {
        lemma_copy(copy.lesser().unwrap(), node);
    }
    if let Some(node) = source.greater() {
        lemma_copy(copy.greater().unwrap(), node);
    }
    let a = values_of(source.lesser());
    let b = values_of(source.greater());
    let ca = values_of(copy.lesser());
    let cb = values_of(copy.greater());
    assert forall|i: int| 0 <= i < source@.len() implies cloned::<E>(
        #[trigger] source@[i],
        copy@[i],
    ) by {
        if i < a.len() {
            assert(source@[i] == a[i] && copy@[i] == ca[i]);
        } else if i > a.len() {
            assert(source@[i] == b[i - a.len() - 1] && copy@[i] == cb[i - a.len() - 1]);
        }
    }
}

/// What inserting does to an ordered tree, in terms of its values from left
/// to right: the tree stays ordered, `val` takes its place among the values,
/// and the tree is unchanged just where it held an equivalent value.
pub proof fn lemma_inserted<E: Ord>(tree: Bst<E>, val: E)
    requires
        obeys_cmp::<E>(),
        tree.ordered(),
    ensures
        tree.inserted(val).ordered(),
        tree.inserted(val)@ == placed(tree@, val),
        (tree.inserted(val) == tree) == holds(tree@, val),
    decreases tree,
{
    let a = values_of(tree.lesser());
    let b = values_of(tree.greater());
    let x = tree.root();
    lemma_holds_in_parts(a, x, b, val);
    if equivalent(val, x) {
        lemma_placed_same(a, x, b, val);
    } else if precedes(val, x) {
        lemma_exclusive(val, x);
        lemma_after_holds_none(b, x, val);
        lemma_placed_left(a, x, b, val);
        let grown = match tree.lesser() {
            Some(node) => node.inserted(val),
            None => Bst::single(val),
        };
        match tree.lesser() {
            Some(node) => {
                lemma_inserted(node, val);
            },
            None => {
                assert(grown.ordered());
            },
        }
        lemma_placed_values(a, val);
        assert forall|i: int| 0 <= i < grown@.len() implies #[trigger] precedes(
            grown@[i],
            x,
        ) by {
            let w = grown@[i];
            if w != val {
                let j = choose|j: int| 0 <= j < a.len() && a[j] == w;
                assert(precedes(a[j], x));
            }
        }
    } else {
        lemma_total(val, x);
        lemma_exclusive(x, val);
        lemma_before_holds_none(a, x, val);
        lemma_placed_right(a, x, b, val);
        let grown = match tree.greater() {
            Some(node) => node.inserted(val),
            None => Bst::single(val),
        };
        match tree.greater() {
            Some(node) => {
                lemma_inserted(node, val);
            },
            None => {
                assert(grown.ordered());
            },
        }
        lemma_placed_values(b, val);
        assert forall|i: int| 0 <= i < grown@.len() implies #[trigger] precedes(
            x,
            grown@[i],
        ) by {
            let w = grown@[i];
            if w != val {
                let j = choose|j: int| 0 <= j < b.len() && b[j] == w;
                assert(precedes(x, b[j]));
            }
        }
    }
}

} // verus!
