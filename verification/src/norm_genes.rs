//! The normalized gene counter: per gene, the ratios of counts to normalizers
//! that were credited to it. The ratios are kept as pairs of integers, so the
//! counter is exact; whoever reports it divides.

use crate::genes::{extent, lemma_extent_bounds, slot_at, Genes, Slots};
use vstd::prelude::*;

verus! {

/// One contribution to the normalized value of `gene`: `count` events out of
/// the `normalizer` events that they are measured against.
#[derive(Debug, Clone, Copy, PartialEq, Eq, Structural)]
pub struct Ratio {
    /// The gene that the ratio is credited to.
    pub gene: usize,
    /// The events that are measured.
    pub count: usize,
    /// The events that they are measured against, never zero.
    pub normalizer: usize,
}

/// Whether gene `g` is touched in `touched`; a gene beyond the end is not.
pub open spec fn touched_at(touched: Seq<bool>, g: int) -> bool {
    0 <= g < touched.len() && touched[g]
}

/// The touched genes after every gene that is set in `counts` was touched.
pub open spec fn marked(touched: Seq<bool>, counts: Slots) -> Seq<bool> {
    Seq::new(
        if touched.len() >= extent(counts) { touched.len() } else { extent(counts) },
        |g: int| touched_at(touched, g) || slot_at(counts, g) is Some,
    )
}

/// The ratio that gene `g` contributes, where its count is set and its
/// normalizer is set and not zero; elsewhere the ratio is undefined.
pub open spec fn ratio_at(counts: Slots, normalizer: Slots, g: int) -> Option<Ratio> {
    match (slot_at(counts, g), slot_at(normalizer, g)) {
        (Some(c), Some(n)) => if n > 0 {
            Some(Ratio { gene: g as usize, count: c as usize, normalizer: n as usize })
        } else {
            None
        },
        _ => None,
    }
}

/// Whether gene `g` has a count but no ratio: its normalizer is unset or zero.
pub open spec fn undefined_at(counts: Slots, normalizer: Slots, g: int) -> bool {
    slot_at(counts, g) is Some && ratio_at(counts, normalizer, g) is None
}

/// The ratios of the genes below `upto`, in the order of the genes.
pub open spec fn ratios_of(counts: Slots, normalizer: Slots, upto: nat) -> Seq<Ratio>
    decreases upto,
{
    if upto == 0 {
        Seq::empty()
    } else {
        let before = ratios_of(counts, normalizer, (upto - 1) as nat);
        match ratio_at(counts, normalizer, upto - 1) {
            Some(ratio) => before.push(ratio),
            None => before,
        }
    }
}

/// How many genes below `upto` have a count but no ratio.
pub open spec fn undefined_in(counts: Slots, normalizer: Slots, upto: nat) -> nat
    decreases upto,
{
    if upto == 0 {
        0
    } else {
        undefined_in(counts, normalizer, (upto - 1) as nat) + if undefined_at(
            counts,
            normalizer,
            upto - 1,
        ) {
            1nat
        } else {
            0nat
        }
    }
}

/// Whether every ratio has a normalizer that is not zero and belongs to a
/// touched gene.
pub open spec fn sound(touched: Seq<bool>, terms: Seq<Ratio>) -> bool {
    forall|i: int|
        0 <= i < terms.len() ==> (#[trigger] terms[i]).normalizer > 0 && touched_at(
            touched,
            terms[i].gene as int,
        )
}

/// A counter of normalized events per gene. `touched[g]` says whether gene `g`
/// was ever credited; its value is the sum of `count / normalizer` over the
/// ratios in `terms` that name it, which is zero where there is none.
pub struct NormGenes {
    /// For each gene, whether it was ever credited.
    pub touched: Vec<bool>,
    /// The ratios that were credited, in the order of the credits.
    pub terms: Vec<Ratio>,
}

impl Default for NormGenes {
    fn default() -> (res: Self)
        ensures
            res.wf(),
            res.touched@ == Seq::<bool>::empty(),
            res.terms@ == Seq::<Ratio>::empty(),
    {
        NormGenes { touched: Vec::new(), terms: Vec::new() }
    }
}

impl NormGenes {
    /// No ratio divides by zero, and every ratio belongs to a touched gene.
    pub open spec fn wf(&self) -> bool {
        sound(self.touched@, self.terms@)
    }

    /// Credits to every gene that is set in `counts` the ratio of its count to
    /// its normalizer. Where the normalizer is unset or zero the ratio is
    /// undefined: the gene is touched, nothing is credited to it, and the
    /// result counts it.
    pub fn merge_normalized_from_counts(
        &mut self,
        counts: &Genes,
        normalizer: &Genes,
    ) -> (undefined: usize)
        requires
            old(self).wf(),
            counts.wf(),
            normalizer.wf(),
        ensures
            final(self).wf(),
            final(self).touched@ == marked(old(self).touched@, counts@),
            final(self).terms@ == old(self).terms@ + ratios_of(counts@, normalizer@, counts@.len()),
            undefined == undefined_in(counts@, normalizer@, counts@.len()),
    {
        let mut undefined: usize = 0;
        let mut gene: usize = 0;
        assert(self.touched@ =~= marked(old(self).touched@, counts@.take(0)));
        assert(self.terms@ =~= old(self).terms@ + ratios_of(counts@, normalizer@, 0));
        while gene < counts.data.len()
            invariant
                gene <= counts.data@.len(),
                counts.wf(),
                normalizer.wf(),
                self.wf(),
                self.touched@ == marked(old(self).touched@, counts@.take(gene as int)),
                self.terms@ == old(self).terms@ + ratios_of(counts@, normalizer@, gene as nat),
                undefined == undefined_in(counts@, normalizer@, gene as nat),
                undefined <= gene,
            decreases counts.data@.len() - gene,
        {
            let ghost seen = counts@.take(gene as int);
            let ghost next = counts@.take(gene + 1);
            let ghost before = self.touched@;
            let ghost terms = self.terms@;
            proof {
                assert(next.drop_last() =~= seen);
                assert(next.last() == counts@[gene as int]);
                lemma_extent_bounds(seen);
            }
            match counts.get(gene) {
                Some(count) => {
                    if gene >= self.touched.len() {
                        self.touched.resize(gene + 1, false);
                        assert forall|g: int| before.len() <= g < self.touched@.len() implies
                            !self.touched@[g] by {
                            assert(cloned::<bool>(false, self.touched@[g]));
                        }
                        assert forall|g: int| 0 <= g < before.len() implies self.touched@[g]
                            == before[g] by {
                            assert(self.touched@.subrange(0, before.len() as int)[g] == before[g]);
                        }
                    }
                    let ghost reached = self.touched@;
                    assert(forall|g: int| 0 <= g < before.len() ==> reached[g] == before[g]);
                    assert(forall|g: int| before.len() <= g < reached.len() ==> !reached[g]);
                    self.touched.set(gene, true);
                    proof {
                        assert(extent(next) == gene + 1);
                        assert forall|g: int| 0 <= g < self.touched@.len() implies self.touched@[g]
                            == (touched_at(old(self).touched@, g) || slot_at(next, g) is Some) by {
                            if g == gene {
                                assert(slot_at(next, g) is Some);
                            } else if g < before.len() {
                                assert(self.touched@[g] == before[g]);
                                assert(before[g] == (touched_at(old(self).touched@, g) || slot_at(
                                    seen,
                                    g,
                                ) is Some));
                                assert(slot_at(next, g) == slot_at(seen, g));
                            } else {
                                assert(!self.touched@[g]);
                                assert(slot_at(next, g) == slot_at(seen, g));
                                assert(slot_at(seen, g) is None);
                            }
                        }
                        assert(self.touched@ =~= marked(old(self).touched@, next));
                        assert(sound(self.touched@, terms));
                    }
                    match normalizer.get(gene) {
                        Some(total) => {
                            if total > 0 {
                                self.terms.push(Ratio { gene, count, normalizer: total });
                            } else {
                                undefined += 1;
                            }
                        },
                        None => {
                            undefined += 1;
                        },
                    }
                    proof {
                        assert(self.terms@ =~= old(self).terms@ + ratios_of(
                            counts@,
                            normalizer@,
                            (gene + 1) as nat,
                        ));
                    }
                },
                None => {
                    assert(self.touched@ =~= marked(old(self).touched@, next));
                },
            }
            gene += 1;
        }
        assert(counts@.take(gene as int) =~= counts@);
        undefined
    }
}

} // verus!
