//! The report of a taxon's ledger: three lines, one for each of the correct,
//! incoming and outgoing counts. A line holds, separated by tabs, the taxon,
//! the number of its good genes, the number of its leaked genes, the name of
//! the count, and the count of every gene from gene 0 on, `None` for a gene
//! that was never touched. A gene counts as leaked here as soon as one read
//! leaked onto it.

use crate::common::{TAB, TaxID};
use crate::decimal::{decimal, unsigned_text};
use crate::joining::{join_texts, joined, views_of};
use crate::mask_genes::{balance, leaked_genes, touched_genes, Account, LeakSlots, Leaks, Species};
use vstd::prelude::*;
use vstd::string::StringExecFns;

verus! {

/// The character that separates the lines of a report.
pub const NEWLINE: char = '\n';

/// The name of a count in a report.
pub open spec fn account_name(account: Account) -> Seq<char> {
    match account {
        Account::Correct => "correct"@,
        Account::Incoming => "incoming"@,
        Account::Outgoing => "outgoing"@,
    }
}

/// The field of one gene: its count, or `None` where it was never touched.
pub open spec fn value_field(slot: Option<Leaks>, account: Account) -> Seq<char> {
    match slot {
        Some(leaks) => decimal(balance(leaks, account) as nat),
        None => "None"@,
    }
}

/// The fields of the line of one count.
pub open spec fn report_fields(id: TaxID, leaks: LeakSlots, account: Account) -> Seq<Seq<char>> {
    seq![
        decimal(id as nat),
        decimal((touched_genes(leaks) - leaked_genes(leaks, 0)) as nat),
        decimal(leaked_genes(leaks, 0)),
        account_name(account),
    ] + Seq::new(leaks.len(), |g: int| value_field(leaks[g], account))
}

/// The line of one count.
pub open spec fn report_line(id: TaxID, leaks: LeakSlots, account: Account) -> Seq<char> {
    joined(report_fields(id, leaks, account), TAB)
}

/// The report of a taxon: the lines of its correct, incoming and outgoing
/// counts, with a line feed between each two.
pub open spec fn report_of(id: TaxID, leaks: LeakSlots) -> Seq<char> {
    joined(
        seq![
            report_line(id, leaks, Account::Correct),
            report_line(id, leaks, Account::Incoming),
            report_line(id, leaks, Account::Outgoing),
        ],
        NEWLINE,
    )
}

/// The name of a count.
fn name_of(account: Account) -> (res: String)
    ensures
        res@ == account_name(account),
{
    match account {
        Account::Correct => String::from_str("correct"),
        Account::Incoming => String::from_str("incoming"),
        Account::Outgoing => String::from_str("outgoing"),
    }
}

impl Species {
    /// The count of `account` in `leaks`.
    fn balance_of(leaks: &Leaks, account: Account) -> (res: usize)
        ensures
            res == balance(*leaks, account),
    {
        match account {
            Account::Correct => leaks.correct,
            Account::Incoming => leaks.incoming,
            Account::Outgoing => leaks.outgoing,
        }
    }

    /// The line of one count of this taxon.
    pub fn line(&self, account: Account) -> (res: String)
        ensures
            res@ == report_line(self.id, self.leaks@, account),
    {
        let ghost fields = report_fields(self.id, self.leaks@, account);
        let mut parts: Vec<String> = Vec::new();
        parts.push(unsigned_text(self.id as u64));
        parts.push(unsigned_text(self.num_good_genes(0) as u64));
        parts.push(unsigned_text(self.num_leaked_on_genes(0) as u64));
        parts.push(name_of(account));
        assert(views_of(parts@) =~= fields.take(4));
        let mut gene: usize = 0;
        while gene < self.leaks.len()
            invariant
                gene <= self.leaks@.len(),
                fields == report_fields(self.id, self.leaks@, account),
                views_of(parts@) == fields.take(4 + gene),
            decreases self.leaks@.len() - gene,
        {
            let ghost seen = views_of(parts@);
            let text = match &self.leaks[gene] {
                Some(leaks) => unsigned_text(Self::balance_of(leaks, account) as u64),
                None => String::from_str("None"),
            };
            parts.push(text);
            proof {
                assert(fields[4 + gene] == value_field(self.leaks@[gene as int], account));
                assert(views_of(parts@) =~= seen.push(fields[4 + gene]));
                assert(fields.take(4 + gene + 1) =~= fields.take(4 + gene).push(fields[4 + gene]));
            }
            gene += 1;
        }
        assert(fields.take(4 + gene) =~= fields);
        join_texts(&parts, TAB)
    }

    /// The report of this taxon: the lines of its correct, incoming and
    /// outgoing counts.
    pub fn report(&self) -> (res: String)
        ensures
            res@ == report_of(self.id, self.leaks@),
    {
        let mut lines: Vec<String> = Vec::new();
        lines.push(self.line(Account::Correct));
        lines.push(self.line(Account::Incoming));
        lines.push(self.line(Account::Outgoing));
        assert(views_of(lines@) =~= seq![
            report_line(self.id, self.leaks@, Account::Correct),
            report_line(self.id, self.leaks@, Account::Incoming),
            report_line(self.id, self.leaks@, Account::Outgoing),
        ]);
        join_texts(&lines, NEWLINE)
    }
}

} // verus!
