//! Choosing positions of a list by a test.

use vstd::prelude::*;

verus! {

/// The positions `0, 1, .., n - 1`.
pub open spec fn positions(n: nat) -> Seq<int> {
    Seq::new(n, |i: int| i)
}

/// The positions below `n` that pass `keep`, ascending.
pub open spec fn chosen(n: nat, keep: spec_fn(int) -> bool) -> Seq<int> {
    positions(n).filter(keep)
}

/// One more position: it is appended if it passes, and changes nothing if not.
pub proof fn lemma_chosen_step(n: nat, keep: spec_fn(int) -> bool)
    ensures
        chosen(n + 1, keep) == if keep(n as int) {
            chosen(n, keep).push(n as int)
        } else {
            chosen(n, keep)
        },
        chosen(0, keep) == Seq::<int>::empty(),
{
    assert(positions(n + 1) =~= positions(n).push(n as int));
    positions(n).lemma_filter_push(n as int, keep);
    assert(positions(0) =~= Seq::<int>::empty());
}

/// Two tests that agree below `n` choose the same positions below `n`.
pub proof fn lemma_chosen_agree(n: nat, keep: spec_fn(int) -> bool, other: spec_fn(int) -> bool)
    requires
        forall|i: int| 0 <= i < n ==> #[trigger] keep(i) == other(i),
    ensures
        chosen(n, keep) == chosen(n, other),
    decreases n,
{
    if n > 0 {
        lemma_chosen_agree((n - 1) as nat, keep, other);
        lemma_chosen_step((n - 1) as nat, keep);
        lemma_chosen_step((n - 1) as nat, other);
    } else {
        lemma_chosen_step(0, keep);
        lemma_chosen_step(0, other);
    }
}

/// The chosen positions are exactly the positions below `n` that pass the
/// test, each once, in strictly ascending order.
pub proof fn lemma_chosen(n: nat, keep: spec_fn(int) -> bool)
    ensures
        forall|k: int|
            0 <= k < chosen(n, keep).len() ==> 0 <= #[trigger] chosen(n, keep)[k] < n && keep(
                chosen(n, keep)[k],
            ),
        forall|j: int, k: int|
            0 <= j < k < chosen(n, keep).len() ==> #[trigger] chosen(n, keep)[j]
                < #[trigger] chosen(n, keep)[k],
        forall|i: int| 0 <= i < n && #[trigger] keep(i) ==> chosen(n, keep).contains(i),
        chosen(n, keep).no_duplicates(),
    decreases n,
{
    lemma_chosen_step((n - 1) as nat, keep);
    if n > 0 {
        let shorter = chosen((n - 1) as nat, keep);
        let longer = chosen(n, keep);
        lemma_chosen((n - 1) as nat, keep);
        assert forall|i: int| 0 <= i < n && #[trigger] keep(i) implies longer.contains(i) by {
            if i < n - 1 {
                assert(shorter.contains(i));
                let k = choose|k: int| 0 <= k < shorter.len() && shorter[k] == i;
                assert(longer[k] == i);
            } else {
                assert(longer[longer.len() - 1] == i);
            }
        }
    }
    let kept = chosen(n, keep);
    assert forall|j: int, k: int| 0 <= j < kept.len() && 0 <= k < kept.len() && j != k implies kept[j]
        != kept[k] by {
        if j < k {
            assert(kept[j] < kept[k]);
        } else {
            assert(kept[k] < kept[j]);
        }
    }
}

} // verus!
