//! What callers may rely on, stated over the model and proved from it.
//!
//! Every operation of the executable structure guarantees that its view is
//! well-formed and changes as the model's operation of the same name says,
//! so each law here holds of the structure as well.

use crate::forest::{registrations, Call, Forest};
use vstd::prelude::*;

verus! {

/// Every call keeps a well-formed forest well-formed, and registers nobody
/// but, at most, the element it is asked to register.
pub proof fn law_well_formed_after<T>(forest: Forest<T>, call: Call<T>)
    requires
        forest.well_formed(),
    ensures
        forest.after(call).well_formed(),
        forest.after(call).entries.dom() == match call {
            Call::MakeSet(v) => forest.entries.dom().insert(v),
            _ => forest.entries.dom(),
        },
{
    match call {
        Call::MakeSet(v) => {
            forest.lemma_make_set(v);
            assert(forest.make_set(v).entries.dom() == forest.entries.dom().insert(v));
        },
        Call::Find(v) => {
            if forest.contains(v) {
                forest.lemma_compress(v);
            }
        },
        Call::Union(a, b) => forest.lemma_after_union(a, b),
    }
}

/// Whatever calls are made on a well-formed forest, it stays well-formed.
pub proof fn law_well_formed_throughout<T>(forest: Forest<T>, calls: Seq<Call<T>>)
    requires
        forest.well_formed(),
    ensures
        forest.after_all(calls).well_formed(),
    decreases calls.len(),
{
    if calls.len() > 0 {
        law_well_formed_throughout(forest, calls.drop_last());
        law_well_formed_after(forest.after_all(calls.drop_last()), calls.last());
    }
}

/// Looking up an element right after registering it yields the element
/// itself.
pub proof fn law_find_after_make_set<T>(forest: Forest<T>, v: T)
    requires
        forest.well_formed(),
    ensures
        forest.make_set(v).find(v) == Some(v),
{
    forest.lemma_make_set(v);
}

/// Only registering an element makes it known: an element that is not
/// registered, and that none of the calls registers, is not registered
/// afterwards, and looking it up yields nothing and changes nothing.
pub proof fn law_unregistered_is_not_found<T>(forest: Forest<T>, calls: Seq<Call<T>>, v: T)
    requires
        forest.well_formed(),
        !forest.contains(v),
        forall|i: int| 0 <= i < calls.len() ==> calls[i] != Call::MakeSet(v),
    ensures
        !forest.after_all(calls).contains(v),
        forest.after_all(calls).find(v) is None,
        forest.after_all(calls).after_find(v) == forest.after_all(calls),
    decreases calls.len(),
{
    if calls.len() > 0 {
        law_unregistered_is_not_found(forest, calls.drop_last(), v);
        law_well_formed_throughout(forest, calls.drop_last());
        law_well_formed_after(forest.after_all(calls.drop_last()), calls.last());
    }
}

/// Looking an element up changes no set: the same elements are registered,
/// with the same ranks and the same representatives.
pub proof fn law_find_keeps_sets<T>(forest: Forest<T>, v: T)
    requires
        forest.well_formed(),
    ensures
        forest.equivalent(forest.after_find(v)),
        forest.after_find(v).representatives() == forest.representatives(),
{
    if forest.contains(v) {
        forest.lemma_compress(v);
    }
}

/// Looking up a root yields the root itself and leaves the forest as it
/// was: there is nothing to compress.
pub proof fn law_find_of_root<T>(forest: Forest<T>, v: T)
    requires
        forest.well_formed(),
        forest.is_root(v),
    ensures
        forest.find(v) == Some(v),
        forest.after_find(v) == forest,
{
    assert(forest.compress(v).entries =~= forest.entries);
}

/// After an element is looked up, it and everything that was on its way to
/// the representative are children of the representative.
pub proof fn law_find_compresses<T>(forest: Forest<T>, v: T, x: T)
    requires
        forest.well_formed(),
        forest.contains(v),
        forest.on_path(v, x),
        x != forest.root(v),
    ensures
        forest.after_find(v).parent(x) == forest.find(v),
{
    forest.lemma_on_path(v, x);
    forest.lemma_root(x);
}

/// A merge in which either element is unregistered yields nothing and
/// changes no set: every registered element keeps its rank and its
/// representative.
pub proof fn law_union_with_unregistered<T>(forest: Forest<T>, a: T, b: T)
    requires
        forest.well_formed(),
        !forest.contains(a) || !forest.contains(b),
    ensures
        forest.union(a, b) is None,
        forest.equivalent(forest.after_union(a, b)),
        forest.after_union(a, b).representatives() == forest.representatives(),
{
    forest.lemma_after_union(a, b);
}

/// A merge looks its two elements up in turn, as two lookups would, and then
/// links their roots if both are registered and the roots differ.
pub proof fn law_union_looks_both_up<T>(forest: Forest<T>, a: T, b: T)
    requires
        forest.well_formed(),
    ensures
        forest.after_union(a, b) == if !forest.contains(a) {
            forest
        } else if forest.contains(b) && forest.root(a) != forest.root(b) {
            forest.after_find(a).after_find(b).link(forest.root(a), forest.root(b))
        } else {
            forest.after_find(a).after_find(b)
        },
{
    if forest.contains(a) && forest.contains(b) {
        forest.lemma_compress_both(a, b);
    }
}

/// After two registered elements are merged they are in the same set, and
/// the merge returned the representative of one of them.
pub proof fn law_union_merges<T>(forest: Forest<T>, a: T, b: T)
    requires
        forest.well_formed(),
        forest.contains(a),
        forest.contains(b),
    ensures
        forest.after_union(a, b).same_set(a, b),
        forest.union(a, b) == Some(forest.root(a)) || forest.union(a, b) == Some(forest.root(b)),
{
    forest.lemma_after_union(a, b);
}

/// A merge changes at most one rank: when the two roots tie, the rank of
/// the root that survives, the root of the first element, grows by one.
pub proof fn law_union_ranks<T>(forest: Forest<T>, a: T, b: T, x: T)
    requires
        forest.well_formed(),
        forest.contains(x),
    ensures
        forest.after_union(a, b).rank(x) == if forest.contains(a) && forest.contains(b)
            && forest.root(a) != forest.root(b) && forest.rank(forest.root(a)) == forest.rank(
            forest.root(b),
        ) && x == forest.root(a) {
            forest.rank(x) + 1
        } else {
            forest.rank(x)
        },
{
    if forest.contains(a) && forest.contains(b) {
        forest.lemma_root(a);
        forest.lemma_root(b);
    }
}

/// A merge never separates: elements that are in the same set stay in the
/// same set whatever is merged.
pub proof fn law_union_keeps_together<T>(forest: Forest<T>, a: T, b: T, x: T, y: T)
    requires
        forest.well_formed(),
        forest.same_set(x, y),
    ensures
        forest.after_union(a, b).same_set(x, y),
{
    forest.lemma_after_union(a, b);
}

/// Elements that are in the same set stay in the same set through any
/// sequence of calls in which no element is registered a second time.
pub proof fn law_merged_stay_merged<T>(forest: Forest<T>, calls: Seq<Call<T>>, x: T, y: T)
    requires
        forest.well_formed(),
        forest.same_set(x, y),
        forest.registers_once(calls),
    ensures
        forest.after_all(calls).same_set(x, y),
    decreases calls.len(),
{
    if calls.len() > 0 {
        let earlier = calls.drop_last();
        assert forall|i: int| 0 <= i < earlier.len() implies match #[trigger] earlier[i] {
            Call::MakeSet(v) => !forest.after_all(earlier.take(i)).contains(v),
            _ => true,
        } by {
            assert(earlier.take(i) == calls.take(i));
        }
        law_merged_stay_merged(forest, earlier, x, y);
        law_well_formed_throughout(forest, earlier);
        let before = forest.after_all(earlier);
        match calls.last() {
            Call::MakeSet(v) => {
                before.lemma_make_set_fresh(v, x);
                before.lemma_make_set_fresh(v, y);
            },
            Call::Find(v) => {
                if before.contains(v) {
                    before.lemma_compress(v);
                }
            },
            Call::Union(a, b) => before.lemma_after_union(a, b),
        }
    }
}

/// Merging an element with itself returns its representative and changes
/// no more than looking it up does: no set, no rank and no representative
/// changes, and if the element is a root the forest is left as it was.
pub proof fn law_union_with_itself<T>(forest: Forest<T>, a: T)
    requires
        forest.well_formed(),
        forest.contains(a),
    ensures
        forest.union(a, a) == forest.find(a),
        forest.after_union(a, a) == forest.after_find(a),
        forest.equivalent(forest.after_union(a, a)),
        forest.is_root(a) ==> forest.after_union(a, a) == forest,
{
    forest.lemma_compress_both(a, a);
    forest.lemma_compress(a);
}

/// There are never more sets than elements were registered: after any
/// calls on the empty forest, the number of representatives is at most the
/// number of registering calls.
pub proof fn law_sets_bounded_by_registrations<T>(calls: Seq<Call<T>>)
    ensures
        Forest::<T>::empty().after_all(calls).representatives().finite(),
        Forest::<T>::empty().after_all(calls).representatives().len() <= Forest::<T>::empty().after_all(
            calls,
        ).size(),
        Forest::<T>::empty().after_all(calls).size() <= registrations(calls),
    decreases calls.len(),
{
    let empty = Forest::<T>::empty();
    Forest::<T>::lemma_empty();
    law_well_formed_throughout(empty, calls);
    empty.after_all(calls).lemma_representatives();
    if calls.len() > 0 {
        law_sets_bounded_by_registrations(calls.drop_last());
        law_well_formed_throughout(empty, calls.drop_last());
        law_well_formed_after(empty.after_all(calls.drop_last()), calls.last());
    }
}

/// Merging two registered elements of different sets leaves exactly one
/// set fewer; any other merge leaves the number of sets as it was.
pub proof fn law_union_counts_down<T>(forest: Forest<T>, a: T, b: T)
    requires
        forest.well_formed(),
    ensures
        forest.representatives().finite(),
        forest.contains(a) && forest.contains(b) && !forest.same_set(a, b)
            ==> forest.after_union(a, b).representatives().len() == forest.representatives().len()
            - 1,
        !(forest.contains(a) && forest.contains(b) && !forest.same_set(a, b))
            ==> forest.after_union(a, b).representatives() == forest.representatives(),
{
    let after = forest.after_union(a, b);
    forest.lemma_after_union(a, b);
    forest.lemma_representatives();
    after.lemma_representatives();
    if forest.contains(a) && forest.contains(b) && !forest.same_set(a, b) {
        let first = forest.compress(a);
        let second = first.compress(b);
        forest.lemma_compress(a);
        first.lemma_compress(b);
        forest.lemma_compress_both(a, b);
        forest.lemma_equivalent_representatives(first);
        first.lemma_equivalent_representatives(second);
        second.lemma_representatives();
        forest.lemma_root(a);
        forest.lemma_root(b);
        second.lemma_link_roots(forest.root(a), forest.root(b));
    }
}

/// Registering an element makes it a singleton set, whether or not it was
/// registered before: it is its own representative with rank 0, and it is
/// the representative of no other element.
pub proof fn law_make_set_resets<T>(forest: Forest<T>, v: T)
    requires
        forest.well_formed(),
    ensures
        forest.make_set(v).find(v) == Some(v),
        forest.make_set(v).rank(v) == 0,
        forall|x: T|
            x != v && forest.make_set(v).contains(x) ==> #[trigger] forest.make_set(v).root(x)
                != v,
{
    forest.lemma_make_set(v);
    assert forall|x: T| x != v && forest.make_set(v).contains(x) implies #[trigger] forest.make_set(
        v,
    ).root(x) != v by {
        forest.lemma_make_set_isolates(v, x);
    }
}

/// Registering an element for the first time changes no other set: every
/// element registered before keeps its rank and its representative.
pub proof fn law_first_make_set_keeps_sets<T>(forest: Forest<T>, v: T)
    requires
        forest.well_formed(),
        !forest.contains(v),
    ensures
        forall|x: T|
            forest.contains(x) ==> forest.make_set(v).rank(x) == forest.rank(x)
                && #[trigger] forest.make_set(v).root(x) == forest.root(x),
{
    assert forall|x: T| forest.contains(x) implies forest.make_set(v).rank(x) == forest.rank(x)
        && #[trigger] forest.make_set(v).root(x) == forest.root(x) by {
        forest.lemma_make_set_fresh(v, x);
    }
}

} // verus!
