//! Lists that hold the same items in another order.
//!
//! Two lists are taken to hold the same items where their multisets are
//! equal. The lemmas here say which operations keep that: mapping each item,
//! and dropping the empty outcomes.

use crate::report::present;
use vstd::multiset::*;
use vstd::prelude::*;
use vstd::seq_lib::*;

verus! {

/// Two lists without repetitions that hold the same items hold them equally
/// often.
pub proof fn lemma_same_members_same_multiset<A>(a: Seq<A>, b: Seq<A>)
    requires
        a.no_duplicates(),
        b.no_duplicates(),
        forall|x: A| a.contains(x) <==> b.contains(x),
    ensures
        a.to_multiset() == b.to_multiset(),
{
    a.lemma_multiset_has_no_duplicates();
    b.lemma_multiset_has_no_duplicates();
    assert forall|x: A| a.to_multiset().count(x) == b.to_multiset().count(x) by {
        to_multiset_contains(a, x);
        to_multiset_contains(b, x);
        assert(a.contains(x) <==> b.contains(x));
    }
    assert(a.to_multiset() =~= b.to_multiset());
}

/// Mapping each item keeps "the same items in another order".
pub proof fn lemma_map_of_permutation<A, B>(a: Seq<A>, b: Seq<A>, each: spec_fn(A) -> B)
    requires
        a.to_multiset() == b.to_multiset(),
    ensures
        a.map_values(each).to_multiset() == b.map_values(each).to_multiset(),
    decreases a.len(),
{
    broadcast use group_multiset_axioms;

    to_multiset_len(a);
    to_multiset_len(b);
    if a.len() == 0 {
        assert(a.map_values(each) =~= b.map_values(each));
    } else {
        let last = a.last();
        let shorter = a.drop_last();
        assert(a =~= shorter.push(last));
        to_multiset_build(shorter, last);
        to_multiset_contains(b, last);
        assert(b.contains(last));
        let at = choose|at: int| 0 <= at < b.len() && b[at] == last;
        let rest = b.remove(at);
        to_multiset_remove(b, at);
        assert(shorter.to_multiset() =~= rest.to_multiset());
        lemma_map_of_permutation(shorter, rest, each);
        // On the left the mapped last item is appended.
        assert(a.map_values(each) =~= shorter.map_values(each).push(each(last)));
        to_multiset_build(shorter.map_values(each), each(last));
        // On the right it is taken out at `at`.
        assert(b.map_values(each).remove(at) =~= rest.map_values(each));
        to_multiset_remove(b.map_values(each), at);
        to_multiset_contains(b.map_values(each), each(last));
        assert(b.map_values(each)[at] == each(last));
        assert(b.map_values(each).contains(each(last)));
        assert(b.map_values(each).to_multiset() =~= rest.map_values(each).to_multiset().insert(
            each(last),
        ));
    }
}

/// Dropping the empty outcomes of two lists one after the other is dropping
/// them in each.
pub proof fn lemma_present_of_concat<A>(front: Seq<Option<A>>, back: Seq<Option<A>>)
    ensures
        present(front + back) == present(front) + present(back),
    decreases back.len(),
{
    if back.len() == 0 {
        assert(front + back =~= front);
        assert(present(back) =~= Seq::<A>::empty());
        assert(present(front) + present(back) =~= present(front));
    } else {
        let shorter = back.drop_last();
        assert((front + back).drop_last() =~= front + shorter);
        assert((front + back).last() == back.last());
        lemma_present_of_concat(front, shorter);
        match back.last() {
            Some(kept) => {
                assert(present(front + back) =~= present(front + shorter) + seq![kept]);
                assert(present(back) =~= present(shorter) + seq![kept]);
                assert(present(front) + present(back) =~= present(front) + present(shorter)
                    + seq![kept]);
            },
            None => {
                assert(present(front + back) =~= present(front + shorter));
                assert(present(back) =~= present(shorter));
            },
        }
    }
}

/// An empty outcome adds nothing: without it the kept items are the same.
pub proof fn lemma_present_without_empty<A>(outcomes: Seq<Option<A>>, at: int)
    requires
        0 <= at < outcomes.len(),
        outcomes[at] is None,
    ensures
        present(outcomes) == present(outcomes.remove(at)),
{
    let front = outcomes.take(at);
    let one = seq![outcomes[at]];
    let back = outcomes.skip(at + 1);
    assert(outcomes =~= front + one + back);
    assert(outcomes.remove(at) =~= front + back);
    lemma_present_of_concat(front + one, back);
    lemma_present_of_concat(front, one);
    lemma_present_of_concat(front, back);
    assert(present(one) =~= Seq::<A>::empty()) by {
        assert(one.drop_last() =~= Seq::<Option<A>>::empty());
        assert(present(one.drop_last()) =~= Seq::<A>::empty());
    }
    assert(present(front) + present(one) =~= present(front));
}

/// An item is kept as often as it was present.
pub proof fn lemma_present_count<A>(outcomes: Seq<Option<A>>, item: A)
    ensures
        present(outcomes).to_multiset().count(item) == outcomes.to_multiset().count(Some(item)),
    decreases outcomes.len(),
{
    broadcast use group_multiset_axioms;

    if outcomes.len() == 0 {
        assert(present(outcomes) =~= Seq::<A>::empty());
        to_multiset_len(present(outcomes));
        to_multiset_len(outcomes);
        assert(present(outcomes).to_multiset().count(item) == 0) by {
            to_multiset_contains(present(outcomes), item);
        }
        assert(outcomes.to_multiset().count(Some(item)) == 0) by {
            to_multiset_contains(outcomes, Some(item));
        }
    } else {
        let last = outcomes.last();
        let shorter = outcomes.drop_last();
        assert(outcomes =~= shorter.push(last));
        to_multiset_build(shorter, last);
        lemma_present_count(shorter, item);
        match last {
            Some(kept) => {
                assert(present(outcomes) =~= present(shorter).push(kept));
                to_multiset_build(present(shorter), kept);
            },
            None => {
                assert(present(outcomes) =~= present(shorter));
            },
        }
    }
}

/// Dropping the empty outcomes keeps "the same items in another order".
pub proof fn lemma_present_of_permutation<A>(a: Seq<Option<A>>, b: Seq<Option<A>>)
    requires
        a.to_multiset() == b.to_multiset(),
    ensures
        present(a).to_multiset() == present(b).to_multiset(),
{
    assert forall|item: A|
        present(a).to_multiset().count(item) == present(b).to_multiset().count(item) by {
        lemma_present_count(a, item);
        lemma_present_count(b, item);
    }
    assert(present(a).to_multiset() =~= present(b).to_multiset());
}

} // verus!
