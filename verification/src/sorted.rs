//! Ascending sequences: the model in which the contracts of the tree speak.
//!
//! A search tree stands for the sequence of its values from left to right.
//! This module says what it means for such a sequence to ascend, to hold a
//! value, and to take a new value at its place.

use crate::order::{
    equivalent, lemma_congruent, lemma_exclusive, lemma_reflexive, lemma_symmetric,
    lemma_transitive, precedes,
};
use vstd::laws_cmp::obeys_cmp;
use vstd::prelude::*;

verus! {

/// Each value of `s` sorts strictly before all that follow it.
pub open spec fn ascending<E: Ord>(s: Seq<E>) -> bool {
    forall|i: int, j: int| 0 <= i < j < s.len() ==> #[trigger] precedes(s[i], s[j])
}

/// Some value of `s` is equivalent to `v`.
pub open spec fn holds<E: Ord>(s: Seq<E>, v: E) -> bool {
    exists|i: int| 0 <= i < s.len() && #[trigger] equivalent(v, s[i])
}

/// Every value of `s` sorts before `x`.
pub open spec fn all_before<E: Ord>(s: Seq<E>, x: E) -> bool {
    forall|i: int| 0 <= i < s.len() ==> #[trigger] precedes(s[i], x)
}

/// `x` sorts before every value of `s`.
pub open spec fn all_after<E: Ord>(s: Seq<E>, x: E) -> bool {
    forall|i: int| 0 <= i < s.len() ==> #[trigger] precedes(x, s[i])
}

/// The ascending sequence `s` with `v` at its place: before the first value
/// that `v` sorts before. Where `s` already holds a value equivalent to `v`,
/// it is `s` itself.
pub open spec fn placed<E: Ord>(s: Seq<E>, v: E) -> Seq<E>
    decreases s.len(),
{
    if s.len() == 0 {
        seq![v]
    } else if equivalent(v, s[0]) {
        s
    } else if precedes(v, s[0]) {
        seq![v] + s
    } else {
        seq![s[0]] + placed(s.drop_first(), v)
    }
}

/// A sequence in three parts holds what one of its parts holds.
pub proof fn lemma_holds_in_parts<E: Ord>(a: Seq<E>, x: E, b: Seq<E>, v: E)
    ensures
        holds(a + seq![x] + b, v) == (holds(a, v) || equivalent(v, x) || holds(b, v)),
{
    let s = a + seq![x] + b;
    if holds(s, v) {
        let i = choose|i: int| 0 <= i < s.len() && #[trigger] equivalent(v, s[i]);
        if i < a.len() {
            assert(equivalent(v, a[i]));
        } else if i > a.len() {
            assert(equivalent(v, b[i - a.len() - 1]));
        }
    }
    if holds(a, v) {
        let i = choose|i: int| 0 <= i < a.len() && #[trigger] equivalent(v, a[i]);
        assert(equivalent(v, s[i]));
    }
    if equivalent(v, x) {
        assert(equivalent(v, s[a.len() as int]));
    }
    if holds(b, v) {
        let i = choose|i: int| 0 <= i < b.len() && #[trigger] equivalent(v, b[i]);
        assert(equivalent(v, s[a.len() + 1 + i]));
    }
}

/// Values that all sort before `x` hold nothing that `x` sorts before or is
/// equivalent to.
pub proof fn lemma_before_holds_none<E: Ord>(a: Seq<E>, x: E, v: E)
    requires
        obeys_cmp::<E>(),
        all_before(a, x),
        precedes(x, v) || equivalent(v, x),
    ensures
        all_before(a, v),
        !holds(a, v),
{
    assert forall|i: int| 0 <= i < a.len() implies #[trigger] precedes(a[i], v) by {
        if equivalent(v, x) {
            lemma_symmetric(v, x);
            lemma_congruent(a[i], x, v);
        } else {
            lemma_transitive(a[i], x, v);
        }
    }
    assert forall|i: int| 0 <= i < a.len() implies !#[trigger] equivalent(v, a[i]) by {
        lemma_exclusive(a[i], v);
    }
}

/// Values that `x` sorts before hold nothing that sorts before `x` or is
/// equivalent to it.
pub proof fn lemma_after_holds_none<E: Ord>(b: Seq<E>, x: E, v: E)
    requires
        obeys_cmp::<E>(),
        all_after(b, x),
        precedes(v, x) || equivalent(v, x),
    ensures
        all_after(b, v),
        !holds(b, v),
{
    assert forall|i: int| 0 <= i < b.len() implies #[trigger] precedes(v, b[i]) by {
        if equivalent(v, x) {
            lemma_symmetric(v, x);
            lemma_congruent(b[i], x, v);
        } else {
            lemma_transitive(v, x, b[i]);
        }
    }
    assert forall|i: int| 0 <= i < b.len() implies !#[trigger] equivalent(v, b[i]) by {
        lemma_exclusive(v, b[i]);
    }
}

/// A value that sorts before `x` takes its place among what stands left of
/// `x`.
pub proof fn lemma_placed_left<E: Ord>(a: Seq<E>, x: E, b: Seq<E>, v: E)
    requires
        obeys_cmp::<E>(),
        precedes(v, x),
    ensures
        placed(a + seq![x] + b, v) == placed(a, v) + seq![x] + b,
    decreases a.len(),
{
    let s = a + seq![x] + b;
    lemma_exclusive(v, x);
    if a.len() > 0 && !equivalent(v, a[0]) && !precedes(v, a[0]) {
        assert(s.drop_first() =~= a.drop_first() + seq![x] + b);
        lemma_placed_left(a.drop_first(), x, b, v);
        assert(seq![a[0]] + (placed(a.drop_first(), v) + seq![x] + b) =~= seq![a[0]] + placed(
            a.drop_first(),
            v,
        ) + seq![x] + b);
    }
}

/// What holds of all values of a sequence holds of all but the first.
proof fn lemma_all_before_rest<E: Ord>(a: Seq<E>, x: E)
    requires
        all_before(a, x),
        a.len() > 0,
    ensures
        all_before(a.drop_first(), x),
{
    assert forall|i: int| 0 <= i < a.drop_first().len() implies #[trigger] precedes(
        a.drop_first()[i],
        x,
    ) by {
        assert(precedes(a[i + 1], x));
    }
}

/// A value that `x` sorts before takes its place among what stands right of
/// `x`, where all that stands left of `x` sorts before `x`.
pub proof fn lemma_placed_right<E: Ord>(a: Seq<E>, x: E, b: Seq<E>, v: E)
    requires
        obeys_cmp::<E>(),
        all_before(a, x),
        precedes(x, v),
    ensures
        placed(a + seq![x] + b, v) == a + seq![x] + placed(b, v),
    decreases a.len(),
{
    let s = a + seq![x] + b;
    if a.len() == 0 {
        lemma_exclusive(x, v);
        assert(s.drop_first() =~= b);
    } else {
        lemma_transitive(a[0], x, v);
        lemma_exclusive(a[0], v);
        assert(s.drop_first() =~= a.drop_first() + seq![x] + b);
        lemma_all_before_rest(a, x);
        lemma_placed_right(a.drop_first(), x, b, v);
        assert(seq![a[0]] + (a.drop_first() + seq![x] + placed(b, v)) =~= a + seq![x] + placed(
            b,
            v,
        ));
    }
}

/// A value equivalent to `x` leaves the sequence as it is, where all that
/// stands left of `x` sorts before `x`.
pub proof fn lemma_placed_same<E: Ord>(a: Seq<E>, x: E, b: Seq<E>, v: E)
    requires
        obeys_cmp::<E>(),
        all_before(a, x),
        equivalent(v, x),
    ensures
        placed(a + seq![x] + b, v) == a + seq![x] + b,
    decreases a.len(),
{
    let s = a + seq![x] + b;
    if a.len() > 0 {
        lemma_symmetric(v, x);
        lemma_congruent(a[0], x, v);
        lemma_exclusive(a[0], v);
        assert(s.drop_first() =~= a.drop_first() + seq![x] + b);
        lemma_all_before_rest(a, x);
        lemma_placed_same(a.drop_first(), x, b, v);
    }
}

/// `placed(s, v)` is `s`, or `s` with `v` put in at one index.
pub proof fn lemma_placed_is_insertion<E: Ord>(s: Seq<E>, v: E)
    ensures
        placed(s, v) == s || exists|k: int|
            0 <= k <= s.len() && placed(s, v) == #[trigger] s.insert(k, v),
    decreases s.len(),
{
    if s.len() == 0 {
        assert(seq![v] =~= s.insert(0, v));
    } else if equivalent(v, s[0]) {
    } else if precedes(v, s[0]) {
        assert(seq![v] + s =~= s.insert(0, v));
    } else {
        let rest = s.drop_first();
        lemma_placed_is_insertion(rest, v);
        if placed(rest, v) != rest {
            let k = choose|k: int|
                0 <= k <= rest.len() && placed(rest, v) == #[trigger] rest.insert(k, v);
            assert(seq![s[0]] + rest.insert(k, v) =~= s.insert(k + 1, v));
        }
    }
}

/// Every value of `placed(s, v)` is `v` or a value of `s`, and every value
/// of `s` is one of `placed(s, v)`.
pub proof fn lemma_placed_values<E: Ord>(s: Seq<E>, v: E)
    ensures
        forall|i: int|
            0 <= i < placed(s, v).len() ==> placed(s, v)[i] == v || s.contains(
                #[trigger] placed(s, v)[i],
            ),
        forall|j: int| 0 <= j < s.len() ==> placed(s, v).contains(#[trigger] s[j]),
{
    lemma_placed_is_insertion(s, v);
    let p = placed(s, v);
    if p != s {
        let k = choose|k: int| 0 <= k <= s.len() && placed(s, v) == #[trigger] s.insert(k, v);
        assert forall|i: int| 0 <= i < p.len() implies p[i] == v || s.contains(#[trigger] p[i]) by {
            if i < k {
                assert(p[i] == s[i]);
            } else if i > k {
                assert(p[i] == s[i - 1]);
            }
        }
        assert forall|j: int| 0 <= j < s.len() implies p.contains(#[trigger] s[j]) by {
            if j < k {
                assert(p[j] == s[j]);
            } else {
                assert(p[j + 1] == s[j]);
            }
        }
    }
}

/// `placed(s, v)` holds `v`.
pub proof fn lemma_placed_holds<E: Ord>(s: Seq<E>, v: E)
    requires
        obeys_cmp::<E>(),
    ensures
        holds(placed(s, v), v),
    decreases s.len(),
{
    let p = placed(s, v);
    lemma_reflexive(v);
    if s.len() > 0 && !equivalent(v, s[0]) && !precedes(v, s[0]) {
        let rest = placed(s.drop_first(), v);
        lemma_placed_holds(s.drop_first(), v);
        let i = choose|i: int| 0 <= i < rest.len() && #[trigger] equivalent(v, rest[i]);
        assert(equivalent(v, p[i + 1]));
    } else {
        assert(equivalent(v, p[0]));
    }
}

/// `placed(s, v)` holds whatever `s` holds.
pub proof fn lemma_placed_keeps<E: Ord>(s: Seq<E>, v: E, u: E)
    requires
        holds(s, u),
    ensures
        holds(placed(s, v), u),
{
    let p = placed(s, v);
    let i = choose|i: int| 0 <= i < s.len() && #[trigger] equivalent(u, s[i]);
    lemma_placed_is_insertion(s, v);
    if p != s {
        let k = choose|k: int| 0 <= k <= s.len() && placed(s, v) == #[trigger] s.insert(k, v);
        if i < k {
            assert(equivalent(u, p[i]));
        } else {
            assert(equivalent(u, p[i + 1]));
        }
    }
}

/// A sequence without a value equivalent to `v` grows by one when `v` is
/// placed in it.
pub proof fn lemma_placed_grows<E: Ord>(s: Seq<E>, v: E)
    requires
        !holds(s, v),
    ensures
        placed(s, v).len() == s.len() + 1,
    decreases s.len(),
{
    if s.len() > 0 && !precedes(v, s[0]) {
        let rest = s.drop_first();
        if holds(rest, v) {
            let i = choose|i: int| 0 <= i < rest.len() && #[trigger] equivalent(v, rest[i]);
            assert(equivalent(v, s[i + 1]));
        }
        lemma_placed_grows(rest, v);
    }
}

/// Two ascending sequences around a value that sorts after all of the first
/// and before all of the second make one ascending sequence.
pub proof fn lemma_ascending_joined<E: Ord>(a: Seq<E>, x: E, b: Seq<E>)
    requires
        obeys_cmp::<E>(),
        ascending(a),
        ascending(b),
        all_before(a, x),
        all_after(b, x),
    ensures
        ascending(a + seq![x] + b),
{
    let s = a + seq![x] + b;
    assert forall|i: int, j: int| 0 <= i < j < s.len() implies #[trigger] precedes(s[i], s[j]) by {
        if i < a.len() && j > a.len() {
            lemma_transitive(a[i], x, b[j - a.len() - 1]);
        }
    }
}

} // verus!
