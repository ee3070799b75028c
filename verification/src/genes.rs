//! The sparse per-gene counter: a growable sequence of slots, indexed by gene
//! id, in which a slot that was never touched differs from one that holds zero.

use vstd::prelude::*;

verus! {

/// The slots of a counter, by gene: the count of a gene that was touched, and
/// nothing for one that was not.
pub type Slots = Seq<Option<nat>>;

/// The slot of gene `g`, where every gene beyond the end is unset.
pub open spec fn slot_at(s: Slots, g: int) -> Option<nat> {
    if 0 <= g < s.len() {
        s[g]
    } else {
        None
    }
}

/// The count that a slot stands for in a sum: unset counts as nothing.
pub open spec fn count_of(slot: Option<nat>) -> nat {
    match slot {
        Some(c) => c,
        None => 0,
    }
}

/// `s`, extended by unset slots to at least `n` slots.
pub open spec fn grown(s: Slots, n: nat) -> Slots {
    if s.len() >= n {
        s
    } else {
        s + Seq::new((n - s.len()) as nat, |i: int| None::<nat>)
    }
}

/// `s` after one more observation of gene `g`.
pub open spec fn incremented(s: Slots, g: nat) -> Slots {
    grown(s, g + 1).update(g as int, Some(count_of(slot_at(s, g as int)) + 1))
}

/// The sum of two slots: unset only where both are.
pub open spec fn combined(a: Option<nat>, b: Option<nat>) -> Option<nat> {
    match (a, b) {
        (None, None) => None,
        _ => Some(count_of(a) + count_of(b)),
    }
}

/// One more than the highest gene that is set in `s`, or 0 where none is.
pub open spec fn extent(s: Slots) -> nat
    decreases s.len(),
{
    if s.len() == 0 {
        0
    } else if s.last() is Some {
        s.len()
    } else {
        extent(s.drop_last())
    }
}

/// `a` after every set slot of `b` was added to it: `a` grows only as far as
/// the set slots of `b` reach.
pub open spec fn merged(a: Slots, b: Slots) -> Slots {
    Seq::new(
        if a.len() >= extent(b) { a.len() } else { extent(b) },
        |g: int| combined(slot_at(a, g), slot_at(b, g)),
    )
}

/// The sum of all set slots.
pub open spec fn sum(s: Slots) -> nat
    decreases s.len(),
{
    if s.len() == 0 {
        0
    } else {
        sum(s.drop_last()) + count_of(s.last())
    }
}

/// What a stored value means: a negative one marks a slot that was never touched.
pub open spec fn slot_of(v: isize) -> Option<nat> {
    if v < 0 {
        None
    } else {
        Some(v as nat)
    }
}

/// Whether no stored value is negative but the one that marks an unset slot.
pub open spec fn valid_slots(data: Seq<isize>) -> bool {
    forall|g: int| 0 <= g < data.len() ==> #[trigger] data[g] >= -1
}

/// A counter of events per gene. `data[g]` is `Genes::EMPTY` until gene `g` is
/// first touched, and its count from then on.
pub struct Genes {
    /// The stored value of each slot, by gene.
    pub data: Vec<isize>,
}

impl View for Genes {
    type V = Slots;

    open spec fn view(&self) -> Slots {
        Seq::new(self.data@.len(), |g: int| slot_of(self.data@[g]))
    }
}

impl Default for Genes {
    fn default() -> (res: Self)
        ensures
            res.data@.len() == 0,
            res.wf(),
            res@ == Slots::empty(),
            sum(res@) == 0,
    {
        Genes { data: Vec::new() }
    }
}

impl Genes {
    /// The stored value of a slot that was never touched.
    pub const EMPTY: isize = -1;

    /// No slot holds a negative value other than `EMPTY`.
    pub open spec fn wf(&self) -> bool {
        valid_slots(self.data@)
    }

    /// Extends the counter by unset slots so that gene `gene` has one.
    fn reach(&mut self, gene: usize)
        requires
            old(self).wf(),
            gene < usize::MAX,
        ensures
            final(self).wf(),
            final(self)@ == grown(old(self)@, (gene + 1) as nat),
            final(self).data@.len() > gene,
            final(self).data@.len() >= old(self).data@.len(),
            forall|g: int|
                0 <= g < old(self).data@.len() ==> final(self).data@[g] == old(self).data@[g],
            forall|g: int|
                old(self).data@.len() <= g < final(self).data@.len() ==> final(self).data@[g]
                    == -1,
    {
        if gene >= self.data.len() {
            self.data.resize(gene + 1, Self::EMPTY);
            assert forall|g: int|
                old(self).data@.len() <= g < self.data@.len() implies self.data@[g] == -1 by {
                assert(cloned::<isize>(Self::EMPTY, self.data@[g]));
            }
            assert forall|g: int| 0 <= g < old(self).data@.len() implies self.data@[g] == old(
                self,
            ).data@[g] by {
                assert(self.data@.subrange(0, old(self).data@.len() as int)[g] == old(
                    self,
                ).data@[g]);
            }
        }
        assert(self@ =~= grown(old(self)@, (gene + 1) as nat));
    }

    /// Counts one more event for `gene`, touching it if need be.
    pub fn increment(&mut self, gene: usize)
        requires
            old(self).wf(),
            gene < usize::MAX,
            count_of(slot_at(old(self)@, gene as int)) < isize::MAX,
        ensures
            final(self).wf(),
            final(self)@ == incremented(old(self)@, gene as nat),
            sum(final(self)@) == sum(old(self)@) + 1,
    {
        self.reach(gene);
        let before: isize = self.data[gene];
        let count: isize = if before == Self::EMPTY { 0 } else { before };
        self.data.set(gene, count + 1);
        assert(self@ =~= incremented(old(self)@, gene as nat));
        proof {
            lemma_incremented_total(old(self)@, gene as nat);
        }
    }

    /// The count of `gene`, or `None` where it was never touched.
    pub fn get(&self, gene: usize) -> (res: Option<usize>)
        requires
            self.wf(),
        ensures
            match res {
                Some(c) => slot_at(self@, gene as int) == Some(c as nat),
                None => slot_at(self@, gene as int) is None,
            },
    {
        if gene >= self.data.len() {
            return None;
        }
        let count: isize = self.data[gene];
        if count == Self::EMPTY {
            None
        } else {
            Some(count as usize)
        }
    }

    /// The sum of all counts, or `None` where it exceeds the machine word.
    pub fn checked_total(&self) -> (res: Option<usize>)
        requires
            self.wf(),
        ensures
            match res {
                Some(total) => total == sum(self@),
                None => sum(self@) > usize::MAX,
            },
    {
        let mut acc: usize = 0;
        let mut i: usize = 0;
        while i < self.data.len()
            invariant
                i <= self.data@.len(),
                acc == sum(self@.take(i as int)),
            decreases self.data@.len() - i,
        {
            let stored: isize = self.data[i];
            proof {
                lemma_sum_take_step(self@, i as int);
                lemma_sum_take_le(self@, i + 1);
            }
            if stored > 0 {
                if stored as usize > usize::MAX - acc {
                    return None;
                }
                acc = acc + stored as usize;
            }
            i += 1;
        }
        assert(self@.take(i as int) =~= self@);
        Some(acc)
    }

    /// The sum of all counts.
    pub fn total(&self) -> (res: usize)
        requires
            self.wf(),
            sum(self@) <= usize::MAX,
        ensures
            res == sum(self@),
    {
        let mut acc: usize = 0;
        let mut i: usize = 0;
        while i < self.data.len()
            invariant
                i <= self.data@.len(),
                acc == sum(self@.take(i as int)),
                sum(self@) <= usize::MAX,
            decreases self.data@.len() - i,
        {
            let stored: isize = self.data[i];
            proof {
                lemma_sum_take_step(self@, i as int);
                lemma_sum_take_le(self@, i + 1);
            }
            if stored > 0 {
                acc = acc + stored as usize;
            }
            i += 1;
        }
        assert(self@.take(i as int) =~= self@);
        acc
    }

    /// Adds every set slot of `other` to this counter. A gene that is unset in
    /// `other` is left as it was, and this counter grows only as far as the set
    /// slots of `other` reach.
    pub fn merge_from(&mut self, other: &Self)
        requires
            old(self).wf(),
            other.wf(),
            forall|g: int|
                0 <= g < other@.len() && other@[g] is Some ==> count_of(
                    #[trigger] slot_at(old(self)@, g),
                ) + count_of(other@[g]) <= isize::MAX,
        ensures
            final(self).wf(),
            final(self)@ == merged(old(self)@, other@),
            sum(final(self)@) == sum(old(self)@) + sum(other@),
    {
        proof {
            lemma_merge_total(old(self)@, other@);
        }
        let mut gene: usize = 0;
        assert(self@ =~= merged(old(self)@, other@.take(0)));
        while gene < other.data.len()
            invariant
                gene <= other.data@.len(),
                self.wf(),
                other.wf(),
                self@ == merged(old(self)@, other@.take(gene as int)),
                forall|g: int|
                    0 <= g < other@.len() && other@[g] is Some ==> count_of(
                        #[trigger] slot_at(old(self)@, g),
                    ) + count_of(other@[g]) <= isize::MAX,
            decreases other.data@.len() - gene,
        {
            let count: isize = other.data[gene];
            let ghost before = self@;
            let ghost seen = other@.take(gene as int);
            let ghost next = other@.take(gene + 1);
            assert(next.drop_last() =~= seen);
            assert(next.last() == other@[gene as int]);
            proof {
                lemma_extent_bounds(seen);
            }
            if count != Self::EMPTY {
                assert(other@[gene as int] is Some);
                assert(slot_at(before, gene as int) == slot_at(old(self)@, gene as int));
                self.reach(gene);
                assert(self@.len() == if before.len() >= gene + 1 {
                    before.len()
                } else {
                    (gene + 1) as nat
                });
                let ghost reached = self@.len();
                let mine: isize = self.data[gene];
                let base: isize = if mine == Self::EMPTY { 0 } else { mine };
                self.data.set(gene, base + count);
                assert(extent(next) == gene + 1);
                assert forall|g: int| 0 <= g < self@.len() implies self@[g] == combined(
                    slot_at(old(self)@, g),
                    slot_at(next, g),
                ) by {
                    if g == gene {
                        if gene < before.len() {
                            assert(before[g] == combined(slot_at(old(self)@, g), slot_at(seen, g)));
                            assert(slot_at(seen, g) is None);
                        }
                    } else if g < before.len() {
                        assert(self@[g] == before[g]);
                        assert(before[g] == combined(slot_at(old(self)@, g), slot_at(seen, g)));
                        assert(slot_at(next, g) == slot_at(seen, g));
                    } else {
                        assert(self@[g] is None);
                        assert(slot_at(seen, g) is None);
                        assert(slot_at(next, g) == slot_at(seen, g));
                    }
                }
                assert(before.len() == if old(self)@.len() >= extent(seen) {
                    old(self)@.len()
                } else {
                    extent(seen)
                });
                assert(self@.len() == reached);
                assert(self@ =~= merged(old(self)@, next));
            } else {
                assert(self@ =~= merged(old(self)@, next));
            }
            gene += 1;
        }
        assert(other@.take(gene as int) =~= other@);
    }

    /// A counter over the stored values in `slice`, taken as they are.
    pub fn from_slice(slice: &[isize]) -> (res: Self)
        ensures
            res.data@ == slice@,
            res.wf() <==> valid_slots(slice@),
    {
        let mut data: Vec<isize> = Vec::new();
        let mut i: usize = 0;
        while i < slice.len()
            invariant
                i <= slice@.len(),
                data@ == slice@.take(i as int),
            decreases slice@.len() - i,
        {
            data.push(slice[i]);
            i += 1;
            assert(data@ =~= slice@.take(i as int));
        }
        assert(data@ =~= slice@);
        Genes { data }
    }
}

/// The sum over the first `i + 1` slots is the sum over the first `i` and slot `i`.
pub proof fn lemma_sum_take_step(s: Slots, i: int)
    requires
        0 <= i < s.len(),
    ensures
        sum(s.take(i + 1)) == sum(s.take(i)) + count_of(s[i]),
{
    assert(s.take(i + 1).drop_last() =~= s.take(i));
}

/// A sum over the first slots never exceeds the sum over all.
pub proof fn lemma_sum_take_le(s: Slots, i: int)
    requires
        0 <= i <= s.len(),
    ensures
        sum(s.take(i)) <= sum(s),
    decreases s.len() - i,
{
    if i == s.len() {
        assert(s.take(i) =~= s);
    } else {
        lemma_sum_take_step(s, i);
        lemma_sum_take_le(s, i + 1);
    }
}

/// `extent` lies within the sequence, nothing is set from it on, and the slot
/// just below it is set.
pub proof fn lemma_extent_bounds(s: Slots)
    ensures
        extent(s) <= s.len(),
        forall|g: int| extent(s) <= g ==> (#[trigger] slot_at(s, g)) is None,
        extent(s) > 0 ==> s[extent(s) - 1] is Some,
    decreases s.len(),
{
    if s.len() > 0 && s.last() is None {
        lemma_extent_bounds(s.drop_last());
        assert forall|g: int| extent(s) <= g implies (#[trigger] slot_at(s, g)) is None by {
            if g < s.len() - 1 {
                assert(slot_at(s.drop_last(), g) is None);
            }
        }
    }
}

/// The counter that a run of `increment` calls builds from an empty one, the
/// calls given by their genes, first call first.
pub open spec fn after_increments(calls: Seq<nat>) -> Slots
    decreases calls.len(),
{
    if calls.len() == 0 {
        Seq::empty()
    } else {
        incremented(after_increments(calls.drop_last()), calls.last())
    }
}

/// How often `gene` occurs in `calls`.
pub open spec fn occurrences(calls: Seq<nat>, gene: nat) -> nat
    decreases calls.len(),
{
    if calls.len() == 0 {
        0
    } else {
        occurrences(calls.drop_last(), gene) + if calls.last() == gene { 1nat } else { 0nat }
    }
}

/// One increment changes the slot of its own gene only, and raises it by one.
pub proof fn lemma_incremented_slot(s: Slots, h: nat, g: int)
    ensures
        slot_at(incremented(s, h), g) == if g == h {
            Some(count_of(slot_at(s, g)) + 1)
        } else {
            slot_at(s, g)
        },
{
}

/// After any run of increments on an empty counter, the slot of a gene holds
/// the number of increments made to that gene, and the slot of a gene that was
/// never incremented is unset, not zero.
pub proof fn lemma_increments_count(calls: Seq<nat>, gene: nat)
    ensures
        slot_at(after_increments(calls), gene as int) == if occurrences(calls, gene) == 0 {
            None
        } else {
            Some(occurrences(calls, gene))
        },
    decreases calls.len(),
{
    if calls.len() > 0 {
        lemma_increments_count(calls.drop_last(), gene);
        lemma_incremented_slot(after_increments(calls.drop_last()), calls.last(), gene as int);
    }
}

/// A merge adds slot by slot, for every gene, also beyond either length.
pub proof fn lemma_merged_slot(a: Slots, b: Slots, g: int)
    ensures
        slot_at(merged(a, b), g) == combined(slot_at(a, g), slot_at(b, g)),
{
    lemma_extent_bounds(b);
    if g >= merged(a, b).len() {
        assert(slot_at(b, g) is None);
    }
}

/// `n` slots of `s`, from the first on, with unset slots where `s` has ended.
pub open spec fn fitted(s: Slots, n: nat) -> Slots {
    Seq::new(n, |g: int| slot_at(s, g))
}

/// Cutting or padding a counter changes no sum, as long as every set slot stays.
pub proof fn lemma_sum_fitted(s: Slots, n: nat)
    requires
        extent(s) <= n,
    ensures
        sum(fitted(s, n)) == sum(s),
    decreases s.len() + n,
{
    lemma_extent_bounds(s);
    if n > s.len() {
        assert(fitted(s, n).drop_last() =~= fitted(s, (n - 1) as nat));
        lemma_sum_fitted(s, (n - 1) as nat);
    } else if n == s.len() {
        assert(fitted(s, n) =~= s);
    } else {
        assert(slot_at(s, s.len() - 1) is None);
        assert(fitted(s, n) =~= fitted(s.drop_last(), n));
        lemma_sum_fitted(s.drop_last(), n);
    }
}

/// Two counters of one length, added slot by slot, sum to the sum of both.
pub proof fn lemma_sum_slotwise(a: Slots, b: Slots, c: Slots)
    requires
        a.len() == b.len(),
        a.len() == c.len(),
        forall|g: int| 0 <= g < c.len() ==> c[g] == combined(a[g], b[g]),
    ensures
        sum(c) == sum(a) + sum(b),
    decreases c.len(),
{
    if c.len() > 0 {
        lemma_sum_slotwise(a.drop_last(), b.drop_last(), c.drop_last());
    }
}

/// The total after a merge is the sum of the two totals, whether or not the
/// two counters have genes in common.
pub proof fn lemma_merge_total(a: Slots, b: Slots)
    ensures
        sum(merged(a, b)) == sum(a) + sum(b),
{
    let c = merged(a, b);
    lemma_extent_bounds(a);
    lemma_extent_bounds(b);
    lemma_sum_fitted(a, c.len());
    lemma_sum_fitted(b, c.len());
    lemma_sum_slotwise(fitted(a, c.len()), fitted(b, c.len()), c);
}

/// The extent of a merge is the larger of the two extents.
pub proof fn lemma_merged_extent(a: Slots, b: Slots)
    ensures
        extent(merged(a, b)) == if extent(a) >= extent(b) { extent(a) } else { extent(b) },
{
    let c = merged(a, b);
    let e = if extent(a) >= extent(b) { extent(a) } else { extent(b) };
    lemma_extent_bounds(a);
    lemma_extent_bounds(b);
    lemma_extent_bounds(c);
    if extent(c) > e {
        lemma_merged_slot(a, b, extent(c) - 1);
        assert(slot_at(a, extent(c) - 1) is None);
        assert(slot_at(b, extent(c) - 1) is None);
    } else if extent(c) < e {
        lemma_merged_slot(a, b, e - 1);
        assert(slot_at(c, e - 1) is None);
    }
}

/// Merging is associative: three counters merge to the same slots, and the
/// same length, whichever two are merged first.
pub proof fn lemma_merge_associative(a: Slots, b: Slots, c: Slots)
    ensures
        merged(merged(a, b), c) == merged(a, merged(b, c)),
{
    let left = merged(merged(a, b), c);
    let right = merged(a, merged(b, c));
    lemma_merged_extent(b, c);
    assert forall|g: int| 0 <= g < left.len() implies left[g] == right[g] by {
        lemma_merged_slot(merged(a, b), c, g);
        lemma_merged_slot(a, b, g);
        lemma_merged_slot(a, merged(b, c), g);
        lemma_merged_slot(b, c, g);
    }
    assert(left =~= right);
}

/// Merging is commutative gene by gene: either order gives every gene the same
/// slot. (The lengths may differ by unset slots at the end.)
pub proof fn lemma_merge_commutative(a: Slots, b: Slots, g: int)
    ensures
        slot_at(merged(a, b), g) == slot_at(merged(b, a), g),
{
    lemma_merged_slot(a, b, g);
    lemma_merged_slot(b, a, g);
}

/// No slot holds more than all slots together.
pub proof fn lemma_slot_le_sum(s: Slots, g: int)
    ensures
        count_of(slot_at(s, g)) <= sum(s),
    decreases s.len(),
{
    if s.len() > 0 && g < s.len() - 1 {
        lemma_slot_le_sum(s.drop_last(), g);
    }
}

/// A counter in which gene `g` holds `count` and no other gene is set.
pub open spec fn single(g: nat, count: nat) -> Slots {
    Seq::new(g + 1, |i: int| if i == g { Some(count) } else { None })
}

/// A counter without a set slot sums to nothing.
pub proof fn lemma_sum_unset(s: Slots)
    requires
        forall|i: int| 0 <= i < s.len() ==> s[i] is None,
    ensures
        sum(s) == 0,
    decreases s.len(),
{
    if s.len() > 0 {
        lemma_sum_unset(s.drop_last());
    }
}

/// One increment is a merge with a counter that holds a single event, and so
/// raises the total by one.
pub proof fn lemma_incremented_total(s: Slots, g: nat)
    ensures
        incremented(s, g) == merged(s, single(g, 1)),
        sum(incremented(s, g)) == sum(s) + 1,
{
    let one = single(g, 1);
    assert(extent(one) == g + 1);
    assert(incremented(s, g) =~= merged(s, one));
    lemma_sum_unset(one.drop_last());
    lemma_merge_total(s, one);
}

} // verus!
