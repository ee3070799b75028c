//! The per-taxon leak ledger: for each gene of a taxon, how many reads were
//! assigned to it correctly, how many leaked onto it from elsewhere, and how
//! many of its own reads leaked away.

use crate::common::{GeneID, TaxID};
use crate::ranking::{lemma_same_items, rank, rank_le, ranked, Rank};
use crate::table::{lemma_position_of, lemma_position_unique, position_of, KeyIndex};
use vstd::prelude::*;

verus! {

/// The slots of a taxon's ledger, by gene: the counts of a gene that was
/// touched, and nothing for one that was not.
pub type LeakSlots = Seq<Option<Leaks>>;

/// The entries of a ledger in its order: each taxon with its slots.
pub type Ledger = Seq<(TaxID, LeakSlots)>;

/// The three counts of one gene.
#[derive(Debug, Clone, Copy, PartialEq, Eq, Structural)]
pub struct Leaks {
    /// Reads of this gene that were assigned to it.
    pub correct: usize,
    /// Reads from elsewhere that were assigned to this gene.
    pub incoming: usize,
    /// Reads of this gene that were assigned elsewhere.
    pub outgoing: usize,
}

impl Default for Leaks {
    fn default() -> (res: Self)
        ensures
            res == (Leaks { correct: 0, incoming: 0, outgoing: 0 }),
    {
        Leaks { correct: 0, incoming: 0, outgoing: 0 }
    }
}

/// Which of the three counts an event goes to.
#[derive(Debug, Clone, Copy, PartialEq, Eq, Structural)]
pub enum Account {
    /// Reads that were assigned to their own gene.
    Correct,
    /// Reads from elsewhere that were assigned to the gene.
    Incoming,
    /// Reads of the gene that were assigned elsewhere.
    Outgoing,
}

/// The counts of gene `g`; a gene beyond the end was never touched.
pub open spec fn leaks_at(s: LeakSlots, g: int) -> Option<Leaks> {
    if 0 <= g < s.len() {
        s[g]
    } else {
        None
    }
}

/// The counts that a slot stands for: all zero where it was never touched.
pub open spec fn leaks_or_zero(slot: Option<Leaks>) -> Leaks {
    match slot {
        Some(leaks) => leaks,
        None => Leaks { correct: 0, incoming: 0, outgoing: 0 },
    }
}

/// `s`, extended by untouched slots to at least `n` slots.
pub open spec fn extended(s: LeakSlots, n: nat) -> LeakSlots {
    if s.len() >= n {
        s
    } else {
        s + Seq::new((n - s.len()) as nat, |i: int| None::<Leaks>)
    }
}

/// The count of `account` in `leaks`.
pub open spec fn balance(leaks: Leaks, account: Account) -> usize {
    match account {
        Account::Correct => leaks.correct,
        Account::Incoming => leaks.incoming,
        Account::Outgoing => leaks.outgoing,
    }
}

/// `leaks` with `weight` more on `account`.
pub open spec fn raised(leaks: Leaks, account: Account, weight: usize) -> Leaks {
    match account {
        Account::Correct => Leaks { correct: (leaks.correct + weight) as usize, ..leaks },
        Account::Incoming => Leaks { incoming: (leaks.incoming + weight) as usize, ..leaks },
        Account::Outgoing => Leaks { outgoing: (leaks.outgoing + weight) as usize, ..leaks },
    }
}

/// `s` after `weight` was added to `account` of gene `g`, the gene touched if
/// need be.
pub open spec fn credited_to(s: LeakSlots, g: nat, account: Account, weight: usize) -> LeakSlots {
    extended(s, g + 1).update(
        g as int,
        Some(raised(leaks_or_zero(leaks_at(s, g as int)), account, weight)),
    )
}

/// How many genes were ever touched.
pub open spec fn touched_genes(s: LeakSlots) -> nat
    decreases s.len(),
{
    if s.len() == 0 {
        0
    } else {
        touched_genes(s.drop_last()) + if s.last() is Some { 1nat } else { 0nat }
    }
}

/// Whether a gene counts as leaked at `threshold`: it was touched and its
/// incoming count exceeds the threshold.
pub open spec fn is_leaked(slot: Option<Leaks>, threshold: usize) -> bool {
    slot is Some && slot->0.incoming > threshold
}

/// How many genes are leaked at `threshold`.
pub open spec fn leaked_genes(s: LeakSlots, threshold: usize) -> nat
    decreases s.len(),
{
    if s.len() == 0 {
        0
    } else {
        leaked_genes(s.drop_last(), threshold) + if is_leaked(s.last(), threshold) {
            1nat
        } else {
            0nat
        }
    }
}

/// The incoming counts of the genes that are leaked at `threshold`, summed.
pub open spec fn leaked_incoming(s: LeakSlots, threshold: usize) -> nat
    decreases s.len(),
{
    if s.len() == 0 {
        0
    } else {
        leaked_incoming(s.drop_last(), threshold) + if is_leaked(s.last(), threshold) {
            s.last()->0.incoming as nat
        } else {
            0nat
        }
    }
}

/// No more genes are leaked than were touched, at any threshold, and no more
/// were touched than there are slots.
pub proof fn lemma_leaked_le_touched(s: LeakSlots, threshold: usize)
    ensures
        leaked_genes(s, threshold) <= touched_genes(s) <= s.len(),
    decreases s.len(),
{
    if s.len() > 0 {
        lemma_leaked_le_touched(s.drop_last(), threshold);
    }
}

/// The leaked incoming counts of the first genes never exceed those of all.
pub proof fn lemma_leaked_incoming_take(s: LeakSlots, threshold: usize, n: int)
    requires
        0 <= n <= s.len(),
    ensures
        leaked_incoming(s.take(n), threshold) <= leaked_incoming(s, threshold),
    decreases s.len() - n,
{
    if n == s.len() {
        assert(s.take(n) =~= s);
    } else {
        assert(s.take(n + 1).drop_last() =~= s.take(n));
        lemma_leaked_incoming_take(s, threshold, n + 1);
    }
}

/// The counts of `account` of all genes, summed.
pub open spec fn account_sum(s: LeakSlots, account: Account) -> nat
    decreases s.len(),
{
    if s.len() == 0 {
        0
    } else {
        account_sum(s.drop_last(), account) + balance(leaks_or_zero(s.last()), account) as nat
    }
}

/// The leaked genes hold no more incoming reads than all genes.
pub proof fn lemma_leaked_le_incoming(s: LeakSlots, threshold: usize)
    ensures
        leaked_incoming(s, threshold) <= account_sum(s, Account::Incoming),
    decreases s.len(),
{
    if s.len() > 0 {
        lemma_leaked_le_incoming(s.drop_last(), threshold);
    }
}

/// Changing one slot changes the sum of an account by the difference of the
/// two slots, and no slot holds more than the sum.
pub proof fn lemma_account_sum_update(
    s: LeakSlots,
    g: int,
    slot: Option<Leaks>,
    account: Account,
)
    requires
        0 <= g < s.len(),
    ensures
        account_sum(s.update(g, slot), account) + balance(leaks_or_zero(s[g]), account)
            == account_sum(s, account) + balance(leaks_or_zero(slot), account),
        balance(leaks_or_zero(s[g]), account) <= account_sum(s, account),
    decreases s.len(),
{
    let changed = s.update(g, slot);
    if g == s.len() - 1 {
        assert(changed.drop_last() =~= s.drop_last());
    } else {
        assert(changed.drop_last() =~= s.drop_last().update(g, slot));
        lemma_account_sum_update(s.drop_last(), g, slot, account);
    }
}

/// Untouched slots add nothing to the sum of an account.
pub proof fn lemma_account_sum_extended(s: LeakSlots, n: nat, account: Account)
    ensures
        account_sum(extended(s, n), account) == account_sum(s, account),
    decreases n,
{
    if n > s.len() {
        lemma_account_sum_extended(s, (n - 1) as nat, account);
        assert(extended(s, n).drop_last() =~= extended(s, (n - 1) as nat));
    }
}

/// No gene holds more on an account than all genes together.
pub proof fn lemma_balance_le_sum(s: LeakSlots, g: int, account: Account)
    ensures
        balance(leaks_or_zero(leaks_at(s, g)), account) <= account_sum(s, account),
{
    if 0 <= g < s.len() {
        lemma_account_sum_update(s, g, s[g], account);
    }
}

/// A credit adds its weight to the sum of its own account, and to no other.
pub proof fn lemma_account_sum_credit(
    s: LeakSlots,
    g: nat,
    account: Account,
    weight: usize,
    other: Account,
)
    requires
        balance(leaks_or_zero(leaks_at(s, g as int)), account) + weight <= usize::MAX,
    ensures
        account_sum(credited_to(s, g, account, weight), other) == account_sum(s, other)
            + if other == account {
            weight as nat
        } else {
            0nat
        },
{
    let grown = extended(s, g + 1);
    lemma_account_sum_extended(s, g + 1, other);
    lemma_account_sum_update(
        grown,
        g as int,
        Some(raised(leaks_or_zero(leaks_at(s, g as int)), account, weight)),
        other,
    );
}

/// The change that a credit makes to the sums of the accounts of one taxon.
pub open spec fn account_sums_after(
    before: LeakSlots,
    after: LeakSlots,
    credited: Account,
    weight: usize,
) -> bool {
    forall|account: Account|
        #[trigger] account_sum(after, account) == account_sum(before, account) + if account
            == credited {
            weight as nat
        } else {
            0nat
        }
}

/// A credit changes the sums of the accounts by its weight on its own account.
pub proof fn lemma_credit_account_sums(s: LeakSlots, g: nat, account: Account, weight: usize)
    requires
        balance(leaks_or_zero(leaks_at(s, g as int)), account) + weight <= usize::MAX,
    ensures
        account_sums_after(s, credited_to(s, g, account, weight), account, weight),
{
    assert forall|other: Account|
        #[trigger] account_sum(credited_to(s, g, account, weight), other) == account_sum(s, other)
            + if other == account {
            weight as nat
        } else {
            0nat
        } by {
        lemma_account_sum_credit(s, g, account, weight, other);
    }
}

/// The ledger of one taxon: a slot of counts for each gene that was touched.
pub struct Species {
    /// The taxon.
    pub id: TaxID,
    /// The counts of each gene, `None` for a gene that was never touched.
    pub leaks: Vec<Option<Leaks>>,
}

impl Species {
    /// The empty ledger of taxon `taxid`.
    pub fn new(taxid: TaxID) -> (res: Self)
        ensures
            res.id == taxid,
            res.leaks@ == LeakSlots::empty(),
            forall|account: Account| #[trigger] account_sum(res.leaks@, account) == 0,
    {
        Self { id: taxid, leaks: Vec::new() }
    }

    /// The counts of `geneid`, for the caller to change. The gene is touched
    /// first: the ledger grows by untouched slots as far as the gene, and the
    /// gene gets zero counts where it had none.
    pub fn get(&mut self, geneid: usize) -> (res: &mut Leaks)
        requires
            geneid < usize::MAX,
        ensures
            *res == leaks_or_zero(leaks_at(old(self).leaks@, geneid as int)),
            final(self).id == old(self).id,
            final(self).leaks@ == extended(old(self).leaks@, (geneid + 1) as nat).update(
                geneid as int,
                Some(*final(res)),
            ),
    {
        if geneid >= self.leaks.len() {
            let mut at: usize = self.leaks.len();
            while at <= geneid
                invariant
                    geneid < usize::MAX,
                    old(self).leaks@.len() <= at <= geneid + 1,
                    self.id == old(self).id,
                    self.leaks@ == extended(old(self).leaks@, at as nat),
                decreases geneid + 1 - at,
            {
                self.leaks.push(None);
                at += 1;
                assert(self.leaks@ =~= extended(old(self).leaks@, at as nat));
            }
        }
        assert(self.leaks@ =~= extended(old(self).leaks@, (geneid + 1) as nat));
        if self.leaks[geneid].is_none() {
            self.leaks.set(geneid, Some(Leaks::default()));
        }
        match &mut self.leaks[geneid] {
            Some(leaks) => leaks,
            None => unreached(),
        }
    }
    /// Adds `increment` to the correct count of `geneid`.
    pub fn add_correct(&mut self, geneid: usize, increment: usize)
        requires
            geneid < usize::MAX,
            leaks_or_zero(leaks_at(old(self).leaks@, geneid as int)).correct + increment
                <= usize::MAX,
        ensures
            final(self).id == old(self).id,
            final(self).leaks@ == credited_to(
                old(self).leaks@,
                geneid as nat,
                Account::Correct,
                increment,
            ),
            account_sums_after(old(self).leaks@, final(self).leaks@, Account::Correct, increment),
    {
        proof {
            lemma_credit_account_sums(old(self).leaks@, geneid as nat, Account::Correct, increment);
        }
        let leaks = self.get(geneid);
        leaks.correct = leaks.correct + increment;
    }

    /// Adds `increment` to the incoming count of `geneid` where `incoming`
    /// holds, and to its outgoing count where it does not.
    pub fn add_incorrect(&mut self, geneid: usize, incoming: bool, increment: usize)
        requires
            geneid < usize::MAX,
            balance(
                leaks_or_zero(leaks_at(old(self).leaks@, geneid as int)),
                if incoming { Account::Incoming } else { Account::Outgoing },
            ) + increment <= usize::MAX,
        ensures
            final(self).id == old(self).id,
            final(self).leaks@ == credited_to(
                old(self).leaks@,
                geneid as nat,
                if incoming { Account::Incoming } else { Account::Outgoing },
                increment,
            ),
            account_sums_after(
                old(self).leaks@,
                final(self).leaks@,
                if incoming { Account::Incoming } else { Account::Outgoing },
                increment,
            ),
    {
        proof {
            lemma_credit_account_sums(
                old(self).leaks@,
                geneid as nat,
                if incoming { Account::Incoming } else { Account::Outgoing },
                increment,
            );
        }
        let leaks = self.get(geneid);
        if incoming {
            leaks.incoming = leaks.incoming + increment;
        } else {
            leaks.outgoing = leaks.outgoing + increment;
        }
    }

    /// How many genes were ever touched.
    pub fn num_genes(&self) -> (res: usize)
        ensures
            res == touched_genes(self.leaks@),
    {
        let mut count: usize = 0;
        let mut g: usize = 0;
        assert(self.leaks@.take(0) =~= LeakSlots::empty());
        while g < self.leaks.len()
            invariant
                g <= self.leaks@.len(),
                count == touched_genes(self.leaks@.take(g as int)),
                count <= g,
            decreases self.leaks@.len() - g,
        {
            assert(self.leaks@.take(g + 1).drop_last() =~= self.leaks@.take(g as int));
            if self.leaks[g].is_some() {
                count += 1;
            }
            g += 1;
        }
        assert(self.leaks@.take(g as int) =~= self.leaks@);
        count
    }

    /// How many genes are leaked at `threshold`: touched, with an incoming
    /// count above it.
    pub fn num_leaked_on_genes(&self, threshold: usize) -> (res: usize)
        ensures
            res == leaked_genes(self.leaks@, threshold),
    {
        let mut count: usize = 0;
        let mut g: usize = 0;
        assert(self.leaks@.take(0) =~= LeakSlots::empty());
        while g < self.leaks.len()
            invariant
                g <= self.leaks@.len(),
                count == leaked_genes(self.leaks@.take(g as int), threshold),
                count <= g,
            decreases self.leaks@.len() - g,
        {
            assert(self.leaks@.take(g + 1).drop_last() =~= self.leaks@.take(g as int));
            match &self.leaks[g] {
                Some(leaks) => {
                    if leaks.incoming > threshold {
                        count += 1;
                    }
                },
                None => {},
            }
            g += 1;
        }
        assert(self.leaks@.take(g as int) =~= self.leaks@);
        count
    }

    /// The incoming counts of the genes that are leaked at `threshold`, summed.
    pub fn total_incoming_leaks(&self, threshold: usize) -> (res: usize)
        requires
            account_sum(self.leaks@, Account::Incoming) <= usize::MAX,
        ensures
            res == leaked_incoming(self.leaks@, threshold),
    {
        proof {
            lemma_leaked_le_incoming(self.leaks@, threshold);
        }
        let mut total: usize = 0;
        let mut g: usize = 0;
        assert(self.leaks@.take(0) =~= LeakSlots::empty());
        while g < self.leaks.len()
            invariant
                g <= self.leaks@.len(),
                total == leaked_incoming(self.leaks@.take(g as int), threshold),
                leaked_incoming(self.leaks@, threshold) <= usize::MAX,
            decreases self.leaks@.len() - g,
        {
            proof {
                assert(self.leaks@.take(g + 1).drop_last() =~= self.leaks@.take(g as int));
                lemma_leaked_incoming_take(self.leaks@, threshold, g + 1);
            }
            match &self.leaks[g] {
                Some(leaks) => {
                    if leaks.incoming > threshold {
                        total = total + leaks.incoming;
                    }
                },
                None => {},
            }
            g += 1;
        }
        assert(self.leaks@.take(g as int) =~= self.leaks@);
        total
    }

    /// How many touched genes are not leaked at `threshold`. Together with the
    /// leaked ones they are all the touched genes.
    pub fn num_good_genes(&self, threshold: usize) -> (res: usize)
        ensures
            res == touched_genes(self.leaks@) - leaked_genes(self.leaks@, threshold),
            res + leaked_genes(self.leaks@, threshold) == touched_genes(self.leaks@),
    {
        proof {
            lemma_leaked_le_touched(self.leaks@, threshold);
        }
        self.num_genes() - self.num_leaked_on_genes(threshold)
    }
}

/// The taxa of a ledger as keys, in its order.
pub open spec fn ledger_keys(entries: Ledger) -> Seq<u64> {
    Seq::new(entries.len(), |i: int| entries[i].0 as u64)
}

/// The slots of `taxon`, none where the ledger has not seen the taxon.
pub open spec fn ledger_at(entries: Ledger, taxon: TaxID) -> LeakSlots {
    match position_of(ledger_keys(entries), taxon as u64) {
        Some(i) => entries[i].1,
        None => Seq::empty(),
    }
}

/// The ledger after `weight` was added to `account` of gene `gene` of
/// `taxon`: in the taxon's place where it has one, in a new place at the end
/// where the taxon is new.
pub open spec fn credited_at(
    entries: Ledger,
    taxon: TaxID,
    gene: nat,
    account: Account,
    weight: usize,
) -> Ledger {
    let slots = credited_to(ledger_at(entries, taxon), gene, account, weight);
    match position_of(ledger_keys(entries), taxon as u64) {
        Some(i) => entries.update(i, (taxon, slots)),
        None => entries.push((taxon, slots)),
    }
}

/// The count of `account` for gene `gene` of `taxon`, zero where it was never touched.
pub open spec fn balance_at(
    entries: Ledger,
    taxon: TaxID,
    gene: int,
    account: Account,
) -> usize {
    balance(leaks_or_zero(leaks_at(ledger_at(entries, taxon), gene)), account)
}

/// The counts of `account` of all taxa of a ledger, summed.
pub open spec fn ledger_sum(entries: Ledger, account: Account) -> nat
    decreases entries.len(),
{
    if entries.len() == 0 {
        0
    } else {
        ledger_sum(entries.drop_last(), account) + account_sum(entries.last().1, account)
    }
}

/// Changing the ledger of one taxon changes the sum of an account by the
/// difference of the two ledgers, and no taxon holds more than the sum.
pub proof fn lemma_ledger_sum_update(
    entries: Ledger,
    i: int,
    entry: (TaxID, LeakSlots),
    account: Account,
)
    requires
        0 <= i < entries.len(),
    ensures
        ledger_sum(entries.update(i, entry), account) + account_sum(entries[i].1, account)
            == ledger_sum(entries, account) + account_sum(entry.1, account),
        account_sum(entries[i].1, account) <= ledger_sum(entries, account),
    decreases entries.len(),
{
    let changed = entries.update(i, entry);
    if i == entries.len() - 1 {
        assert(changed.drop_last() =~= entries.drop_last());
    } else {
        assert(changed.drop_last() =~= entries.drop_last().update(i, entry));
        lemma_ledger_sum_update(entries.drop_last(), i, entry, account);
    }
}

/// No gene of any taxon holds more on an account than the whole ledger.
pub proof fn lemma_balance_le_ledger(
    entries: Ledger,
    taxon: TaxID,
    gene: int,
    account: Account,
)
    ensures
        balance_at(entries, taxon, gene, account) <= ledger_sum(entries, account),
{
    lemma_position_of(ledger_keys(entries), taxon as u64);
    lemma_balance_le_sum(ledger_at(entries, taxon), gene, account);
    match position_of(ledger_keys(entries), taxon as u64) {
        Some(i) => {
            lemma_ledger_sum_update(entries, i, entries[i], account);
        },
        None => {},
    }
}

/// A credit adds its weight to the sum of its own account over the ledger,
/// and to no other.
pub proof fn lemma_ledger_sum_credit(
    entries: Ledger,
    taxon: TaxID,
    gene: nat,
    account: Account,
    weight: usize,
    other: Account,
)
    requires
        balance_at(entries, taxon, gene as int, account) + weight <= usize::MAX,
    ensures
        ledger_sum(credited_at(entries, taxon, gene, account, weight), other) == ledger_sum(
            entries,
            other,
        ) + if other == account {
            weight as nat
        } else {
            0nat
        },
{
    let slots = credited_to(ledger_at(entries, taxon), gene, account, weight);
    lemma_account_sum_credit(ledger_at(entries, taxon), gene, account, weight, other);
    lemma_position_of(ledger_keys(entries), taxon as u64);
    match position_of(ledger_keys(entries), taxon as u64) {
        Some(i) => {
            lemma_ledger_sum_update(entries, i, (taxon, slots), other);
        },
        None => {
            assert(entries.push((taxon, slots)).drop_last() =~= entries);
        },
    }
}

/// Whether a credit of `weight` to `account` of gene `gene` of `taxon` fits
/// the machine word: the count that it raises does, which it does wherever
/// the sum of the account over the whole ledger does.
pub open spec fn credit_fits(
    entries: Ledger,
    taxon: TaxID,
    gene: int,
    account: Account,
    weight: usize,
) -> bool {
    balance_at(entries, taxon, gene, account) + weight <= usize::MAX || ledger_sum(
        entries,
        account,
    ) + weight <= usize::MAX
}

/// The change that a credit makes to the sum of an account over the ledger.
pub open spec fn sums_after_credit(
    before: Ledger,
    after: Ledger,
    credited: Account,
    weight: usize,
) -> bool {
    forall|account: Account|
        #[trigger] ledger_sum(after, account) == ledger_sum(before, account) + if account
            == credited {
            weight as nat
        } else {
            0nat
        }
}

/// A credit that fits changes the sums of the ledger by its weight on its own
/// account.
pub proof fn lemma_credit_sums(
    entries: Ledger,
    taxon: TaxID,
    gene: nat,
    account: Account,
    weight: usize,
)
    requires
        credit_fits(entries, taxon, gene as int, account, weight),
    ensures
        balance_at(entries, taxon, gene as int, account) + weight <= usize::MAX,
        sums_after_credit(
            entries,
            credited_at(entries, taxon, gene, account, weight),
            account,
            weight,
        ),
{
    lemma_balance_le_ledger(entries, taxon, gene as int, account);
    assert forall|other: Account|
        #[trigger] ledger_sum(credited_at(entries, taxon, gene, account, weight), other)
            == ledger_sum(entries, other) + if other == account {
            weight as nat
        } else {
            0nat
        } by {
        lemma_ledger_sum_credit(entries, taxon, gene, account, weight, other);
    }
}

/// Whether the ledger `a` may stand before `b` in a report: more leaked genes
/// come first, then more leaked reads, then the smaller taxon. A gene counts
/// as leaked here as soon as one read leaked onto it.
pub open spec fn outranks(a: (TaxID, LeakSlots), b: (TaxID, LeakSlots)) -> bool {
    leaked_genes(a.1, 0) > leaked_genes(b.1, 0) || (leaked_genes(a.1, 0) == leaked_genes(b.1, 0)
        && (leaked_incoming(a.1, 0) > leaked_incoming(b.1, 0) || (leaked_incoming(a.1, 0)
        == leaked_incoming(b.1, 0) && a.0 <= b.0)))
}

/// What the ledger in place `place` is ranked by.
pub open spec fn rank_of(entry: (TaxID, LeakSlots), place: int) -> Rank {
    Rank {
        major: (usize::MAX - leaked_genes(entry.1, 0)) as usize,
        minor: (usize::MAX - leaked_incoming(entry.1, 0)) as usize,
        tie: entry.0,
        item: place as usize,
    }
}

/// Whether `taxon` stands in the report `res`.
pub open spec fn lists(res: Seq<(TaxID, &Species)>, taxon: TaxID) -> bool {
    exists|k: int| 0 <= k < res.len() && (#[trigger] res[k]).0 == taxon
}

/// The ledgers of all taxa, in the order in which the taxa were first seen.
pub struct GeneLeaks {
    index: KeyIndex,
    species: Vec<Species>,
}

impl View for GeneLeaks {
    type V = Ledger;

    closed spec fn view(&self) -> Ledger {
        Seq::new(self.index@.len(), |i: int| (self.species@[i].id, self.species@[i].leaks@))
    }
}

impl Default for GeneLeaks {
    fn default() -> (res: Self)
        ensures
            res.wf(),
            res@ == Ledger::empty(),
            forall|account: Account| #[trigger] ledger_sum(res@, account) == 0,
    {
        let res = GeneLeaks { index: KeyIndex::new(), species: Vec::new() };
        assert(res@ =~= Ledger::empty());
        res
    }
}

impl GeneLeaks {
    /// Every taxon has its ledger, under its own identifier.
    pub closed spec fn wf(&self) -> bool {
        &&& self.index.wf()
        &&& self.species@.len() == self.index@.len()
        &&& forall|i: int|
            0 <= i < self.species@.len() ==> (#[trigger] self.species@[i]).id as u64
                == self.index@[i]
    }

    /// The place of `taxon`, with a ledger in it: the taxon's own, or an
    /// empty one at the end where the taxon is new.
    fn place_of(&mut self, taxon: TaxID) -> (place: usize)
        requires
            old(self).wf(),
        ensures
            final(self).wf(),
            place < final(self).species@.len(),
            final(self).species@[place as int].id == taxon,
            final(self).species@[place as int].leaks@ == ledger_at(old(self)@, taxon),
            match position_of(ledger_keys(old(self)@), taxon as u64) {
                Some(i) => final(self)@ == old(self)@ && place == i,
                None => final(self)@ == old(self)@.push((taxon, Seq::empty())) && place == old(
                    self,
                )@.len(),
            },
    {
        proof {
            assert(ledger_keys(self@) =~= self.index@);
            lemma_position_of(self.index@, taxon as u64);
        }
        let place = self.index.intern(taxon as u64);
        if place == self.species.len() {
            self.species.push(Species::new(taxon));
            assert(self@ =~= old(self)@.push((taxon, Seq::empty())));
        } else {
            assert(self@ =~= old(self)@);
        }
        place
    }

    /// Adds `increment` to the correct count of gene `gene` of `species`.
    pub fn count_correct(&mut self, species: TaxID, gene: GeneID, increment: usize)
        requires
            old(self).wf(),
            gene < usize::MAX,
            credit_fits(old(self)@, species, gene as int, Account::Correct, increment),
        ensures
            final(self).wf(),
            final(self)@ == credited_at(
                old(self)@,
                species,
                gene as nat,
                Account::Correct,
                increment,
            ),
            sums_after_credit(old(self)@, final(self)@, Account::Correct, increment),
    {
        proof {
            lemma_credit_sums(old(self)@, species, gene as nat, Account::Correct, increment);
        }
        let place = self.place_of(species);
        let ghost placed = self.species@;
        let ghost mid = self@;
        self.species[place].add_correct(gene, increment);
        proof {
            assert(self.species@.len() == placed.len());
            assert(forall|i: int|
                0 <= i < placed.len() && i != place ==> self.species@[i] == placed[i]);
            let slots = credited_to(
                ledger_at(old(self)@, species),
                gene as nat,
                Account::Correct,
                increment,
            );
            assert(self@ =~= mid.update(place as int, (species, slots)));
            lemma_position_of(ledger_keys(old(self)@), species as u64);
            if position_of(ledger_keys(old(self)@), species as u64) is None {
                assert(mid.update(place as int, (species, slots)) =~= old(self)@.push(
                    (species, slots),
                ));
            }
            assert(self@ =~= credited_at(
                old(self)@,
                species,
                gene as nat,
                Account::Correct,
                increment,
            ));
        }
    }

    /// Adds `increment` to the incoming count of gene `gene` of `species`
    /// where `incoming` holds, and to its outgoing count where it does not.
    pub fn count_incorrect(
        &mut self,
        species: TaxID,
        gene: GeneID,
        incoming: bool,
        increment: usize,
    )
        requires
            old(self).wf(),
            gene < usize::MAX,
            credit_fits(
                old(self)@,
                species,
                gene as int,
                if incoming { Account::Incoming } else { Account::Outgoing },
                increment,
            ),
        ensures
            final(self).wf(),
            final(self)@ == credited_at(
                old(self)@,
                species,
                gene as nat,
                if incoming { Account::Incoming } else { Account::Outgoing },
                increment,
            ),
            sums_after_credit(
                old(self)@,
                final(self)@,
                if incoming { Account::Incoming } else { Account::Outgoing },
                increment,
            ),
    {
        proof {
            lemma_credit_sums(
                old(self)@,
                species,
                gene as nat,
                if incoming { Account::Incoming } else { Account::Outgoing },
                increment,
            );
        }
        let place = self.place_of(species);
        let ghost placed = self.species@;
        let ghost mid = self@;
        self.species[place].add_incorrect(gene, incoming, increment);
        proof {
            assert(self.species@.len() == placed.len());
            assert(forall|i: int|
                0 <= i < placed.len() && i != place ==> self.species@[i] == placed[i]);
            let slots = credited_to(
                ledger_at(old(self)@, species),
                gene as nat,
                if incoming { Account::Incoming } else { Account::Outgoing },
                increment,
            );
            assert(self@ =~= mid.update(place as int, (species, slots)));
            lemma_position_of(ledger_keys(old(self)@), species as u64);
            if position_of(ledger_keys(old(self)@), species as u64) is None {
                assert(mid.update(place as int, (species, slots)) =~= old(self)@.push(
                    (species, slots),
                ));
            }
            assert(self@ =~= credited_at(
                old(self)@,
                species,
                gene as nat,
                if incoming { Account::Incoming } else { Account::Outgoing },
                increment,
            ));
        }
    }

    /// The number of taxa.
    pub fn len(&self) -> (res: usize)
        requires
            self.wf(),
        ensures
            res == self@.len(),
    {
        self.index.len()
    }

    /// The ledger in place `i`.
    pub fn species_at(&self, i: usize) -> (res: &Species)
        requires
            self.wf(),
            i < self@.len(),
        ensures
            res.id == self@[i as int].0,
            res.leaks@ == self@[i as int].1,
    {
        &self.species[i]
    }

    /// The ledger of `taxon`, where the taxon was seen.
    pub fn species(&self, taxon: TaxID) -> (res: Option<&Species>)
        requires
            self.wf(),
        ensures
            match res {
                Some(species) => position_of(ledger_keys(self@), taxon as u64) is Some
                    && species.id == taxon && species.leaks@ == ledger_at(self@, taxon),
                None => position_of(ledger_keys(self@), taxon as u64) is None,
            },
    {
        proof {
            assert(ledger_keys(self@) =~= self.index@);
            lemma_position_of(self.index@, taxon as u64);
        }
        match self.index.find(taxon as u64) {
            Some(place) => Some(&self.species[place]),
            None => None,
        }
    }
    /// The ledgers of all taxa, each with its taxon, the worst first: by the
    /// number of genes that reads leaked onto, then by the number of such
    /// reads, then by the taxon.
    pub fn top_incoming(&self) -> (res: Vec<(TaxID, &Species)>)
        requires
            self.wf(),
            ledger_sum(self@, Account::Incoming) <= usize::MAX,
        ensures
            res@.len() == self@.len(),
            forall|k: int|
                0 <= k < res@.len() ==> position_of(
                    ledger_keys(self@),
                    (#[trigger] res@[k]).0 as u64,
                ) is Some && res@[k].1.id == res@[k].0 && res@[k].1.leaks@ == ledger_at(
                    self@,
                    res@[k].0,
                ),
            forall|p: int| 0 <= p < self@.len() ==> lists(res@, (#[trigger] self@[p]).0),
            forall|i: int, j: int|
                0 <= i < j < res@.len() ==> outranks(
                    (res@[i].0, res@[i].1.leaks@),
                    (res@[j].0, res@[j].1.leaks@),
                ),
    {
        let mut ranks: Vec<Rank> = Vec::new();
        let mut place: usize = 0;
        while place < self.species.len()
            invariant
                self.wf(),
                place <= self@.len(),
                ledger_sum(self@, Account::Incoming) <= usize::MAX,
                ranks@.len() == place,
                forall|p: int| 0 <= p < place ==> #[trigger] ranks@[p] == rank_of(self@[p], p),
            decreases self@.len() - place,
        {
            let species = &self.species[place];
            proof {
                lemma_leaked_le_touched(species.leaks@, 0);
                assert(self@[place as int].1 == species.leaks@);
                lemma_ledger_sum_update(
                    self@,
                    place as int,
                    self@[place as int],
                    Account::Incoming,
                );
            }
            let leaked = species.num_leaked_on_genes(0);
            let total = species.total_incoming_leaks(0);
            ranks.push(
                Rank {
                    major: usize::MAX - leaked,
                    minor: usize::MAX - total,
                    tie: species.id,
                    item: place,
                },
            );
            place += 1;
        }
        let sorted = rank(&ranks);
        proof {
            lemma_same_items(sorted@, ranks@);
            assert(ledger_keys(self@) =~= self.index@);
            self.index.lemma_distinct();
        }
        let mut res: Vec<(TaxID, &Species)> = Vec::new();
        let mut k: usize = 0;
        while k < sorted.len()
            invariant
                self.wf(),
                k <= sorted@.len(),
                sorted@.len() == self@.len(),
                ranks@.len() == self@.len(),
                ledger_keys(self@) == self.index@,
                crate::table::distinct(self.index@),
                forall|p: int|
                    0 <= p < ranks@.len() ==> #[trigger] ranks@[p] == rank_of(self@[p], p),
                forall|i: int| 0 <= i < sorted@.len() ==> ranks@.contains(#[trigger] sorted@[i]),
                res@.len() == k,
                forall|i: int|
                    0 <= i < k ==> (#[trigger] sorted@[i]).item < self@.len() && res@[i].0
                        == self@[sorted@[i].item as int].0 && res@[i].1.id == res@[i].0
                        && res@[i].1.leaks@ == self@[sorted@[i].item as int].1,
            decreases sorted@.len() - k,
        {
            let item = sorted[k].item;
            proof {
                assert(ranks@.contains(sorted@[k as int]));
                let p = choose|p: int| 0 <= p < ranks@.len() && ranks@[p] == sorted@[k as int];
                assert(ranks@[p] == rank_of(self@[p], p));
            }
            let species = &self.species[item];
            res.push((species.id, species));
            k += 1;
        }
        proof {
            assert forall|i: int| 0 <= i < res@.len() implies position_of(
                ledger_keys(self@),
                (#[trigger] res@[i]).0 as u64,
            ) is Some && res@[i].1.id == res@[i].0 && res@[i].1.leaks@ == ledger_at(
                self@,
                res@[i].0,
            ) by {
                assert(sorted@[i].item < self@.len());
                lemma_position_unique(self.index@, sorted@[i].item as int);
            }
            assert forall|p: int| 0 <= p < self@.len() implies lists(
                res@,
                (#[trigger] self@[p]).0,
            ) by {
                assert(ranks@[p] == rank_of(self@[p], p));
                assert(sorted@.contains(ranks@[p]));
                let k = choose|k: int| 0 <= k < sorted@.len() && sorted@[k] == ranks@[p];
                assert(sorted@[k].item < self@.len());
                assert(res@[k].0 == self@[p].0);
            }
            assert forall|i: int, j: int| 0 <= i < j < res@.len() implies outranks(
                (res@[i].0, res@[i].1.leaks@),
                (res@[j].0, res@[j].1.leaks@),
            ) by {
                assert(rank_le(sorted@[i], sorted@[j]));
                assert(ranks@.contains(sorted@[i]));
                assert(ranks@.contains(sorted@[j]));
                let p = choose|p: int| 0 <= p < ranks@.len() && ranks@[p] == sorted@[i];
                let q = choose|q: int| 0 <= q < ranks@.len() && ranks@[q] == sorted@[j];
                assert(ranks@[p] == rank_of(self@[p], p));
                assert(ranks@[q] == rank_of(self@[q], q));
                lemma_leaked_le_touched(self@[p].1, 0);
                lemma_leaked_le_touched(self@[q].1, 0);
                lemma_ledger_sum_update(self@, p, self@[p], Account::Incoming);
                lemma_ledger_sum_update(self@, q, self@[q], Account::Incoming);
                lemma_leaked_le_incoming(self@[p].1, 0);
                lemma_leaked_le_incoming(self@[q].1, 0);
                assert(self@[p].1 == self.species@[p].leaks@);
                assert(self@[q].1 == self.species@[q].leaks@);
                assert(self.species@[p].leaks.len() <= usize::MAX);
                assert(self.species@[q].leaks.len() <= usize::MAX);
                assert(sorted@[i].item == p);
                assert(sorted@[j].item == q);
                assert(res@[i].0 == self@[p].0 && res@[i].1.leaks@ == self@[p].1);
                assert(res@[j].0 == self@[q].0 && res@[j].1.leaks@ == self@[q].1);
            }
        }
        res
    }
}

} // verus!
