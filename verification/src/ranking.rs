//! Ordering for reports: items are ranked by three numbers, smallest first,
//! the second number deciding among equal first ones and the third among equal
//! second ones.

use vstd::prelude::*;
use vstd::seq_lib::to_multiset_insert;

verus! {

/// An item with the three numbers that it is ranked by.
#[derive(Debug, Clone, Copy, PartialEq, Eq, Structural)]
pub struct Rank {
    /// What decides first: the smaller comes first.
    pub major: usize,
    /// What decides among equal `major`.
    pub minor: usize,
    /// What decides among equal `major` and `minor`.
    pub tie: usize,
    /// What is ranked: a place in the table that the ranking is of.
    pub item: usize,
}

/// Whether `a` may stand before `b`.
pub open spec fn rank_le(a: Rank, b: Rank) -> bool {
    a.major < b.major || (a.major == b.major && (a.minor < b.minor || (a.minor == b.minor && a.tie
        <= b.tie)))
}

/// Whether every item of `s` may stand before all that follow it.
pub open spec fn ranked(s: Seq<Rank>) -> bool {
    forall|i: int, j: int| 0 <= i < j < s.len() ==> rank_le(s[i], s[j])
}

/// Whether `a` may stand before `b`.
pub fn may_precede(a: &Rank, b: &Rank) -> (res: bool)
    ensures
        res == rank_le(*a, *b),
{
    a.major < b.major || (a.major == b.major && (a.minor < b.minor || (a.minor == b.minor && a.tie
        <= b.tie)))
}

/// The items in ranked order.
pub fn rank(items: &Vec<Rank>) -> (res: Vec<Rank>)
    ensures
        ranked(res@),
        res@.to_multiset() == items@.to_multiset(),
        res@.len() == items@.len(),
{
    let mut res: Vec<Rank> = Vec::new();
    let mut taken: usize = 0;
    assert(items@.take(0) =~= Seq::<Rank>::empty());
    while taken < items.len()
        invariant
            taken <= items@.len(),
            ranked(res@),
            res@.to_multiset() == items@.take(taken as int).to_multiset(),
            res@.len() == taken,
        decreases items@.len() - taken,
    {
        let item = items[taken];
        let mut at: usize = 0;
        while at < res.len() && may_precede(&res[at], &item)
            invariant
                at <= res@.len(),
                ranked(res@),
                forall|i: int| 0 <= i < at ==> rank_le(res@[i], item),
            decreases res@.len() - at,
        {
            at += 1;
        }
        let ghost before = res@;
        res.insert(at, item);
        proof {
            to_multiset_insert(before, at as int, item);
            vstd::seq_lib::to_multiset_build(items@.take(taken as int), item);
            assert(items@.take(taken + 1) =~= items@.take(taken as int).push(item));
            assert forall|i: int, j: int| 0 <= i < j < res@.len() implies rank_le(
                res@[i],
                res@[j],
            ) by {
                if j == at {
                    assert(res@[i] == before[i]);
                } else if i == at {
                    assert(res@[j] == before[j - 1]);
                    assert(rank_le(before[at as int], before[j - 1]) || j - 1 == at);
                } else {
                    let bi = if i < at { i } else { i - 1 };
                    let bj = if j < at { j } else { j - 1 };
                    assert(res@[i] == before[bi]);
                    assert(res@[j] == before[bj]);
                }
            }
        }
        taken += 1;
    }
    assert(items@.take(taken as int) =~= items@);
    res
}

/// Two sequences with the same items, counted, hold each other's items.
pub proof fn lemma_same_items(a: Seq<Rank>, b: Seq<Rank>)
    requires
        a.to_multiset() == b.to_multiset(),
    ensures
        forall|k: int| 0 <= k < a.len() ==> b.contains(#[trigger] a[k]),
        forall|k: int| 0 <= k < b.len() ==> a.contains(#[trigger] b[k]),
{
    assert forall|k: int| 0 <= k < a.len() implies b.contains(#[trigger] a[k]) by {
        assert(a.contains(a[k]));
        vstd::seq_lib::to_multiset_contains(a, a[k]);
        vstd::seq_lib::to_multiset_contains(b, a[k]);
    }
    assert forall|k: int| 0 <= k < b.len() implies a.contains(#[trigger] b[k]) by {
        assert(b.contains(b[k]));
        vstd::seq_lib::to_multiset_contains(a, b[k]);
        vstd::seq_lib::to_multiset_contains(b, b[k]);
    }
}

} // verus!
