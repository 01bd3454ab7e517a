//! Facts about sequences seen as multisets, as the tree invariant needs them.

use vstd::prelude::*;
use vstd::multiset::Multiset;

verus! {

/// An empty sequence holds nothing.
pub proof fn lemma_empty_bag<A>(s: Seq<A>)
    requires
        s.len() == 0,
    ensures
        s.to_multiset() == Multiset::<A>::empty(),
{
    vstd::seq_lib::to_multiset_len(s);
    vstd::multiset::lemma_multiset_empty_len(s.to_multiset());
}

/// Moving the element at position `k` of `from` to the end of `to` leaves
/// the two sequences together with what they held before.
pub proof fn lemma_move_keeps_bag<A>(from: Seq<A>, to: Seq<A>, k: int)
    requires
        0 <= k < from.len(),
    ensures
        from.remove(k).to_multiset().add(to.push(from[k]).to_multiset()) == from.to_multiset().add(
            to.to_multiset(),
        ),
{
    broadcast use vstd::multiset::group_multiset_axioms;

    vstd::seq_lib::to_multiset_remove(from, k);
    vstd::seq_lib::to_multiset_build(to, from[k]);
    vstd::seq_lib::to_multiset_contains(from, from[k]);
    assert(from.contains(from[k]));
    assert(from.remove(k).to_multiset().add(to.push(from[k]).to_multiset()) =~= from.to_multiset().add(
        to.to_multiset(),
    ));
}

/// An element of one of two sequences is an element of any sequence that
/// holds what the two hold together.
pub proof fn lemma_part_of_bag<A>(part: Seq<A>, rest: Seq<A>, whole: Seq<A>, k: int) -> (j: int)
    requires
        0 <= k < part.len(),
        part.to_multiset().add(rest.to_multiset()) == whole.to_multiset(),
    ensures
        0 <= j < whole.len(),
        whole[j] == part[k],
{
    broadcast use vstd::multiset::group_multiset_axioms;

    vstd::seq_lib::to_multiset_contains(part, part[k]);
    vstd::seq_lib::to_multiset_contains(whole, part[k]);
    assert(part.contains(part[k]));
    assert(whole.to_multiset().count(part[k]) > 0);
    assert(whole.contains(part[k]));
    choose|j: int| 0 <= j < whole.len() && whole[j] == part[k]
}

/// Two sequences that together hold what `whole` holds have together its
/// length.
pub proof fn lemma_bag_lengths<A>(part: Seq<A>, rest: Seq<A>, whole: Seq<A>)
    requires
        part.to_multiset().add(rest.to_multiset()) == whole.to_multiset(),
    ensures
        part.len() + rest.len() == whole.len(),
{
    broadcast use vstd::multiset::group_multiset_axioms;

    vstd::seq_lib::to_multiset_len(part);
    vstd::seq_lib::to_multiset_len(rest);
    vstd::seq_lib::to_multiset_len(whole);
}

} // verus!
