//! The rendering of a tree as text: the texts of its values from left to
//! right, with one space between neighbours.

use crate::tree::{lemma_in_order_not_empty, values_of, Bst};
use std::fmt::Display;
use vstd::prelude::*;
use vstd::string::{to_string_from_display_ensures, StringExecFns};

verus! {

/// The texts `parts` in a row, with one space between neighbours and none at
/// either end.
pub open spec fn spaced(parts: Seq<String>) -> Seq<char>
    decreases parts.len(),
{
    if parts.len() == 0 {
        Seq::empty()
    } else if parts.len() == 1 {
        parts[0]@
    } else {
        parts[0]@ + seq![' '] + spaced(parts.drop_first())
    }
}

/// `parts` holds a text for each of `values`, in their order: `parts[i]` is
/// what `to_string` gave, or may give, for `values[i]`.
pub open spec fn renders<E: Display>(values: Seq<E>, parts: Seq<String>) -> bool {
    &&& parts.len() == values.len()
    &&& forall|i: int|
        0 <= i < values.len() ==> #[trigger] to_string_from_display_ensures::<E>(
            &values[i],
            parts[i],
        )
}

/// The text of a node, from the text of its value and the texts of its
/// subtrees: the left text and a space where there is a left subtree, the
/// value, a space and the right text where there is a right subtree.
pub open spec fn framed(left: Option<Seq<char>>, value: Seq<char>, right: Option<Seq<char>>) -> Seq<
    char,
> {
    let before = match left {
        Some(text) => text + seq![' '],
        None => Seq::empty(),
    };
    let after = match right {
        Some(text) => seq![' '] + text,
        None => Seq::empty(),
    };
    before + value + after
}

/// The view of a text that may be missing.
pub open spec fn text_of(text: Option<String>) -> Option<Seq<char>> {
    match text {
        Some(s) => Some(s@),
        None => None,
    }
}

/// Puts the text of a node together from the text of its value and the
/// texts of its subtrees.
pub fn frame(left: Option<String>, value: String, right: Option<String>) -> (text: String)
    ensures
        text@ == framed(text_of(left), value@, text_of(right)),
{
    proof {
        reveal_strlit(" ");
    }
    let mut text = String::new();
    if let Some(part) = left {
        text.append(part.as_str());
        text.append(" ");
    }
    text.append(value.as_str());
    if let Some(part) = right {
        text.append(" ");
        text.append(part.as_str());
    }
    text
}

impl<E: Display> Bst<E> {
    /// Renders the tree as the texts of its values from left to right,
    /// separated by single spaces. The text of a value is what `to_string`
    /// gives for it.
    pub fn display(&self) -> (text: String)
        ensures
            exists|parts: Seq<String>| renders(self@, parts) && text@ == spaced(parts),
        decreases self,
    {
        let ghost mut left_parts: Seq<String> = Seq::empty();
        let ghost mut right_parts: Seq<String> = Seq::empty();
        let left = match &self.left {
            Some(node) => {
                let part = node.display();
                proof {
                    left_parts = choose|parts: Seq<String>|
                        renders(node@, parts) && part@ == spaced(parts);
                }
                Some(part)
            },
            None => None,
        };
        let value = self.value.to_string();
        let right = match &self.right {
            Some(node) => {
                let part = node.display();
                proof {
                    right_parts = choose|parts: Seq<String>|
                        renders(node@, parts) && part@ == spaced(parts);
                }
                Some(part)
            },
            None => None,
        };
        let text = frame(left, value, right);
        proof {
            let parts = left_parts + seq![value] + right_parts;
            let a = values_of(self.lesser());
            let b = values_of(self.greater());
            assert forall|i: int| 0 <= i < self@.len() implies #[trigger]
                to_string_from_display_ensures::<E>(&self@[i], parts[i]) by {
                if i < a.len() {
                    assert(self@[i] == a[i] && parts[i] == left_parts[i]);
                } else if i > a.len() {
                    let j = i - a.len() - 1;
                    assert(self@[i] == b[j] && parts[i] == right_parts[j]);
                }
            }
            lemma_spaced_around(left_parts, value, right_parts);
            if let Some(node) = self.lesser() {
                lemma_in_order_not_empty(node);
            }
            if let Some(node) = self.greater() {
                lemma_in_order_not_empty(node);
            }
        }
        text
    }
}

/// Texts in a row, taken in two rows: the first row, a space, the second
/// row; where one of the two rows is empty, the other alone.
pub proof fn lemma_spaced_joined(a: Seq<String>, b: Seq<String>)
    ensures
        spaced(a + b) == if a.len() == 0 {
            spaced(b)
        } else if b.len() == 0 {
            spaced(a)
        } else {
            spaced(a) + seq![' '] + spaced(b)
        },
    decreases a.len(),
{
    if a.len() == 0 {
        assert(a + b =~= b);
    } else if b.len() == 0 {
        assert(a + b =~= a);
    } else {
        assert((a + b).drop_first() =~= a.drop_first() + b);
        lemma_spaced_joined(a.drop_first(), b);
        if a.len() > 1 {
            assert(a[0]@ + seq![' '] + (spaced(a.drop_first()) + seq![' '] + spaced(b)) =~= a[0]@
                + seq![' '] + spaced(a.drop_first()) + seq![' '] + spaced(b));
        }
    }
}

/// The text of a row with `value` in it is the text of a node whose subtrees
/// render as what stands left and right of `value`.
pub proof fn lemma_spaced_around(a: Seq<String>, value: String, b: Seq<String>)
    ensures
        spaced(a + seq![value] + b) == framed(
            if a.len() == 0 {
                None
            } else {
                Some(spaced(a))
            },
            value@,
            if b.len() == 0 {
                None
            } else {
                Some(spaced(b))
            },
        ),
{
    lemma_spaced_joined(a, seq![value]);
    lemma_spaced_joined(a + seq![value], b);
}

} // verus!
