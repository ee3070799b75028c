//! Leakage events as single records, and their counts per taxon: how many
//! reads of a taxon there are, how many of them were assigned correctly, how
//! many leaked away, and how many reads of other taxa leaked onto it.

use crate::common::{identity_of, taxid_geneid, TAB};
use crate::gene_table::{events, with_increment, Entries, GeneTable};
use crate::joining::views_of;
use crate::table::{lemma_position_of, position_of, KeyIndex};
use crate::text::{
    chars_of, field, has_field, lemma_has_earlier_fields, parse_unsigned, split_fields, text_of,
    unsigned_of,
};
use vstd::prelude::*;

verus! {

/// The identifier of a taxon, which is the number of its node in a tree.
pub type NodeId = usize;

/// The entries of a table of counters in its order: each taxon with its counts.
pub type Counters = Seq<(NodeId, LeakageCounter)>;

/// One read: the taxon and gene that it stems from, the taxon and gene that
/// it was assigned to, whether the two names were the same, and the mapping
/// quality.
#[derive(Debug, Clone, Copy, PartialEq, Eq, Structural)]
pub struct Leakage {
    pub from: NodeId,
    pub from_gene: NodeId,
    pub to: NodeId,
    pub to_gene: NodeId,
    pub correct: bool,
    pub mapq: usize,
}

impl Leakage {
    /// The two taxa of the read, the smaller first.
    pub fn key(&self) -> (res: (NodeId, NodeId))
        ensures
            res == key_of(*self),
    {
        if self.from <= self.to {
            (self.from, self.to)
        } else {
            (self.to, self.from)
        }
    }
}

/// The counts of one taxon.
#[derive(Debug, Clone, Copy, PartialEq, Eq, Structural)]
pub struct LeakageCounter {
    /// Reads that stem from the taxon.
    pub total: usize,
    /// Reads of the taxon that were assigned correctly.
    pub correct: usize,
    /// Reads of the taxon that were assigned elsewhere.
    pub out_incorrect: usize,
    /// Reads from elsewhere that were assigned to the taxon.
    pub in_incorrect: usize,
}

impl Default for LeakageCounter {
    fn default() -> (res: Self)
        ensures
            res == (LeakageCounter { total: 0, correct: 0, out_incorrect: 0, in_incorrect: 0 }),
    {
        LeakageCounter { total: 0, correct: 0, out_incorrect: 0, in_incorrect: 0 }
    }
}

/// The read that a line of a summary holds, or nothing where the line is
/// malformed. Of the tab-separated fields the second names the read's origin
/// and the third its target, each as `<taxon>_<gene>`, and the fifth is the
/// mapping quality. The read is correct where the two names are the same text.
pub open spec fn summary_of(line: Seq<char>) -> Option<Leakage> {
    if !has_field(line, TAB, 4) {
        None
    } else {
        match (
            unsigned_of(field(line, TAB, 4), usize::MAX as nat),
            identity_of(field(line, TAB, 1)),
            identity_of(field(line, TAB, 2)),
        ) {
            (Some(mapq), Ok((from, from_gene)), Ok((to, to_gene))) => Some(
                Leakage {
                    from: from as usize,
                    from_gene: from_gene as usize,
                    to: to as usize,
                    to_gene: to_gene as usize,
                    correct: field(line, TAB, 1) == field(line, TAB, 2),
                    mapq: mapq as usize,
                },
            ),
            _ => None,
        }
    }
}

/// Reads one read off a line of a summary.
pub fn parse_leakage(line: &str) -> (res: Option<Leakage>)
    ensures
        res == summary_of(line@),
{
    let chars = chars_of(line);
    let fields = split_fields(&chars, TAB, 5);
    if fields.len() < 5 {
        proof {
            if has_field(chars@, TAB, 4) {
                lemma_has_earlier_fields(chars@, TAB, fields@.len(), 4);
            }
        }
        return None;
    }
    let mapq = match parse_unsigned(&chars, fields[4].0, fields[4].1, usize::MAX as u64) {
        Some(v) => v as usize,
        None => {
            return None;
        },
    };
    let origin = text_of(&chars, fields[1].0, fields[1].1);
    let target = text_of(&chars, fields[2].0, fields[2].1);
    let (from, from_gene) = match taxid_geneid(origin.as_str()) {
        Ok(identity) => identity,
        Err(_) => {
            return None;
        },
    };
    let (to, to_gene) = match taxid_geneid(target.as_str()) {
        Ok(identity) => identity,
        Err(_) => {
            return None;
        },
    };
    let correct = origin == target;
    Some(Leakage { from, from_gene, to, to_gene, correct, mapq })
}

/// The reads that `rows` hold, in their order, without the malformed lines.
pub open spec fn reads_of(rows: Seq<Seq<char>>) -> Seq<Leakage>
    decreases rows.len(),
{
    if rows.len() == 0 {
        Seq::empty()
    } else {
        match summary_of(rows.last()) {
            Some(read) => reads_of(rows.drop_last()).push(read),
            None => reads_of(rows.drop_last()),
        }
    }
}

/// How many of `rows` are malformed.
pub open spec fn unread_in(rows: Seq<Seq<char>>) -> nat
    decreases rows.len(),
{
    if rows.len() == 0 {
        0
    } else {
        unread_in(rows.drop_last()) + if summary_of(rows.last()) is None {
            1nat
        } else {
            0nat
        }
    }
}

/// The reads that the lines of a summary hold, and the number of lines that
/// were malformed. A malformed line is skipped, and the next line is read.
pub fn read_leakage_file(lines: &[String]) -> (res: (Vec<Leakage>, usize))
    ensures
        res.0@ == reads_of(views_of(lines@)),
        res.1 == unread_in(views_of(lines@)),
{
    let mut reads: Vec<Leakage> = Vec::new();
    let mut skipped: usize = 0;
    let mut i: usize = 0;
    assert(views_of(lines@).take(0) =~= Seq::<Seq<char>>::empty());
    while i < lines.len()
        invariant
            i <= lines@.len(),
            reads@ == reads_of(views_of(lines@).take(i as int)),
            skipped == unread_in(views_of(lines@).take(i as int)),
            skipped <= i,
        decreases lines@.len() - i,
    {
        proof {
            let rows = views_of(lines@);
            assert(rows.take(i + 1).drop_last() =~= rows.take(i as int));
            assert(rows.take(i + 1).last() == lines@[i as int]@);
        }
        match parse_leakage(lines[i].as_str()) {
            Some(read) => {
                reads.push(read);
            },
            None => {
                skipped += 1;
            },
        }
        i += 1;
    }
    assert(views_of(lines@).take(i as int) =~= views_of(lines@));
    (reads, skipped)
}

/// The taxa of a table of counters as keys, in its order.
pub open spec fn counter_keys(entries: Counters) -> Seq<u64> {
    Seq::new(entries.len(), |i: int| entries[i].0 as u64)
}

/// The counts of `taxon`, all zero where the table has not seen the taxon.
pub open spec fn counter_at(entries: Counters, taxon: NodeId) -> LeakageCounter {
    match position_of(counter_keys(entries), taxon as u64) {
        Some(i) => entries[i].1,
        None => LeakageCounter { total: 0, correct: 0, out_incorrect: 0, in_incorrect: 0 },
    }
}

/// The table with `counter` for `taxon`: in the taxon's place where it has
/// one, at the end where the taxon is new.
pub open spec fn with_counter(
    entries: Counters,
    taxon: NodeId,
    counter: LeakageCounter,
) -> Counters {
    match position_of(counter_keys(entries), taxon as u64) {
        Some(i) => entries.update(i, (taxon, counter)),
        None => entries.push((taxon, counter)),
    }
}

/// The counts of a taxon after one more of its reads.
pub open spec fn sent(counter: LeakageCounter, correct: bool) -> LeakageCounter {
    if correct {
        LeakageCounter {
            total: (counter.total + 1) as usize,
            correct: (counter.correct + 1) as usize,
            ..counter
        }
    } else {
        LeakageCounter {
            total: (counter.total + 1) as usize,
            out_incorrect: (counter.out_incorrect + 1) as usize,
            ..counter
        }
    }
}

/// The counts of a taxon after one more read leaked onto it.
pub open spec fn received(counter: LeakageCounter) -> LeakageCounter {
    LeakageCounter { in_incorrect: (counter.in_incorrect + 1) as usize, ..counter }
}

/// The table after every read was counted at the taxon that it stems from.
pub open spec fn origins_counted(reads: Seq<Leakage>) -> Counters
    decreases reads.len(),
{
    if reads.len() == 0 {
        Seq::empty()
    } else {
        let before = origins_counted(reads.drop_last());
        let read = reads.last();
        with_counter(before, read.from, sent(counter_at(before, read.from), read.correct))
    }
}

/// `entries` after every incorrect read of `reads` was counted at the taxon
/// that it was assigned to.
pub open spec fn targets_counted(entries: Counters, reads: Seq<Leakage>) -> Counters
    decreases reads.len(),
{
    if reads.len() == 0 {
        entries
    } else {
        let before = targets_counted(entries, reads.drop_last());
        let read = reads.last();
        if read.correct {
            before
        } else {
            with_counter(before, read.to, received(counter_at(before, read.to)))
        }
    }
}

/// Whether no count of the table exceeds `limit`.
pub open spec fn counters_capped(entries: Counters, limit: nat) -> bool {
    forall|i: int|
        0 <= i < entries.len() ==> (#[trigger] entries[i]).1.total <= limit && entries[i].1.correct
            <= limit && entries[i].1.out_incorrect <= limit && entries[i].1.in_incorrect <= limit
}

/// The counts of all taxa, in the order in which the taxa were first seen.
pub struct CounterTable {
    index: KeyIndex,
    counters: Vec<LeakageCounter>,
    taxa: Vec<NodeId>,
}

impl View for CounterTable {
    type V = Counters;

    closed spec fn view(&self) -> Counters {
        Seq::new(self.index@.len(), |i: int| (self.taxa@[i], self.counters@[i]))
    }
}

impl CounterTable {
    /// Every taxon has its counts, under its own identifier.
    pub closed spec fn wf(&self) -> bool {
        &&& self.index.wf()
        &&& self.counters@.len() == self.index@.len()
        &&& self.taxa@.len() == self.index@.len()
        &&& forall|i: int|
            0 <= i < self.taxa@.len() ==> (#[trigger] self.taxa@[i]) as u64 == self.index@[i]
    }

    /// A table without taxa.
    pub fn new() -> (res: Self)
        ensures
            res.wf(),
            res@ == Counters::empty(),
    {
        let res = CounterTable { index: KeyIndex::new(), counters: Vec::new(), taxa: Vec::new() };
        assert(res@ =~= Counters::empty());
        res
    }

    /// The number of taxa.
    pub fn len(&self) -> (res: usize)
        requires
            self.wf(),
        ensures
            res == self@.len(),
    {
        self.index.len()
    }

    /// The taxon in place `i` and its counts.
    pub fn entry_at(&self, i: usize) -> (res: (NodeId, LeakageCounter))
        requires
            self.wf(),
            i < self@.len(),
        ensures
            res == self@[i as int],
    {
        (self.taxa[i], self.counters[i])
    }

    /// The counts of `taxon`, where the taxon was seen.
    pub fn get(&self, taxon: NodeId) -> (res: Option<LeakageCounter>)
        requires
            self.wf(),
        ensures
            match res {
                Some(counter) => position_of(counter_keys(self@), taxon as u64) is Some && counter
                    == counter_at(self@, taxon),
                None => position_of(counter_keys(self@), taxon as u64) is None,
            },
    {
        proof {
            assert(counter_keys(self@) =~= self.index@);
            lemma_position_of(self.index@, taxon as u64);
        }
        match self.index.find(taxon as u64) {
            Some(place) => Some(self.counters[place]),
            None => None,
        }
    }

    /// The place of `taxon`, with counts in it: the taxon's own, or zero ones
    /// at the end where the taxon is new.
    fn place_of(&mut self, taxon: NodeId) -> (place: usize)
        requires
            old(self).wf(),
        ensures
            final(self).wf(),
            place < final(self).counters@.len(),
            final(self).counters@[place as int] == counter_at(old(self)@, taxon),
            final(self).taxa@[place as int] == taxon,
            match position_of(counter_keys(old(self)@), taxon as u64) {
                Some(i) => final(self)@ == old(self)@ && place == i,
                None => final(self)@ == old(self)@.push((taxon, counter_at(old(self)@, taxon)))
                    && place == old(self)@.len(),
            },
    {
        proof {
            assert(counter_keys(self@) =~= self.index@);
            lemma_position_of(self.index@, taxon as u64);
        }
        let place = self.index.intern(taxon as u64);
        if place == self.counters.len() {
            self.counters.push(LeakageCounter::default());
            self.taxa.push(taxon);
            assert(self@ =~= old(self)@.push((taxon, counter_at(old(self)@, taxon))));
        } else {
            assert(self@ =~= old(self)@);
        }
        place
    }

    /// Puts `counter` in the place of `taxon`, in place of its counts.
    fn put(&mut self, taxon: NodeId, counter: LeakageCounter)
        requires
            old(self).wf(),
        ensures
            final(self).wf(),
            final(self)@ == with_counter(old(self)@, taxon, counter),
    {
        let place = self.place_of(taxon);
        let ghost mid = self@;
        self.counters.set(place, counter);
        proof {
            assert(self@ =~= mid.update(place as int, (taxon, counter)));
            lemma_position_of(counter_keys(old(self)@), taxon as u64);
            if position_of(counter_keys(old(self)@), taxon as u64) is None {
                assert(mid.update(place as int, (taxon, counter)) =~= old(self)@.push(
                    (taxon, counter),
                ));
            }
        }
    }

    /// Counts one more read of `taxon`, assigned correctly or not.
    pub fn count_sent(&mut self, taxon: NodeId, correct: bool)
        requires
            old(self).wf(),
            counter_at(old(self)@, taxon).total < usize::MAX,
            counter_at(old(self)@, taxon).correct < usize::MAX,
            counter_at(old(self)@, taxon).out_incorrect < usize::MAX,
        ensures
            final(self).wf(),
            final(self)@ == with_counter(
                old(self)@,
                taxon,
                sent(counter_at(old(self)@, taxon), correct),
            ),
    {
        let counter = match self.get(taxon) {
            Some(counter) => counter,
            None => LeakageCounter::default(),
        };
        let raised = if correct {
            LeakageCounter { total: counter.total + 1, correct: counter.correct + 1, ..counter }
        } else {
            LeakageCounter {
                total: counter.total + 1,
                out_incorrect: counter.out_incorrect + 1,
                ..counter
            }
        };
        self.put(taxon, raised);
    }

    /// Counts one more read that leaked onto `taxon`.
    pub fn count_received(&mut self, taxon: NodeId)
        requires
            old(self).wf(),
            counter_at(old(self)@, taxon).in_incorrect < usize::MAX,
        ensures
            final(self).wf(),
            final(self)@ == with_counter(
                old(self)@,
                taxon,
                received(counter_at(old(self)@, taxon)),
            ),
    {
        let counter = match self.get(taxon) {
            Some(counter) => counter,
            None => LeakageCounter::default(),
        };
        self.put(taxon, LeakageCounter { in_incorrect: counter.in_incorrect + 1, ..counter });
    }
}

/// In a capped table the counts of any taxon are capped, seen or not.
pub proof fn lemma_counter_capped(entries: Counters, taxon: NodeId, limit: nat)
    requires
        counters_capped(entries, limit),
    ensures
        counter_at(entries, taxon).total <= limit,
        counter_at(entries, taxon).correct <= limit,
        counter_at(entries, taxon).out_incorrect <= limit,
        counter_at(entries, taxon).in_incorrect <= limit,
{
    lemma_position_of(counter_keys(entries), taxon as u64);
}

/// Putting capped counts into a capped table leaves it capped.
pub proof fn lemma_with_counter_capped(
    entries: Counters,
    taxon: NodeId,
    counter: LeakageCounter,
    limit: nat,
)
    requires
        counters_capped(entries, limit),
        counter.total <= limit,
        counter.correct <= limit,
        counter.out_incorrect <= limit,
        counter.in_incorrect <= limit,
    ensures
        counters_capped(with_counter(entries, taxon, counter), limit),
{
    lemma_position_of(counter_keys(entries), taxon as u64);
    let after = with_counter(entries, taxon, counter);
    assert forall|i: int| 0 <= i < after.len() implies (#[trigger] after[i]).1.total <= limit
        && after[i].1.correct <= limit && after[i].1.out_incorrect <= limit
        && after[i].1.in_incorrect <= limit by {
        if after[i] != (taxon, counter) {
            assert(after[i] == entries[i]);
        }
    }
}

/// The counts per taxon of `leakage`: every read is counted at the taxon that
/// it stems from, as correct or as leaked away, and every incorrect read is
/// counted at the taxon that it was assigned to.
pub fn get_leakage_counter(leakage: &[Leakage]) -> (res: CounterTable)
    ensures
        res.wf(),
        res@ == targets_counted(origins_counted(leakage@), leakage@),
        counters_capped(res@, leakage@.len()),
{
    let mut table = CounterTable::new();
    let mut i: usize = 0;
    assert(leakage@.take(0) =~= Seq::<Leakage>::empty());
    while i < leakage.len()
        invariant
            i <= leakage@.len(),
            table.wf(),
            table@ == origins_counted(leakage@.take(i as int)),
            counters_capped(table@, i as nat),
            forall|k: int| 0 <= k < table@.len() ==> (#[trigger] table@[k]).1.in_incorrect == 0,
        decreases leakage@.len() - i,
    {
        let read = &leakage[i];
        let ghost before = table@;
        proof {
            assert(leakage@.take(i + 1).drop_last() =~= leakage@.take(i as int));
            assert(leakage@.take(i + 1).last() == leakage@[i as int]);
            lemma_counter_capped(table@, read.from, i as nat);
            lemma_capped_more(table@, i as nat, (i + 1) as nat);
            lemma_with_counter_capped(
                table@,
                read.from,
                sent(counter_at(table@, read.from), read.correct),
                (i + 1) as nat,
            );
        }
        table.count_sent(read.from, read.correct);
        proof {
            lemma_position_of(counter_keys(before), read.from as u64);
            assert forall|k: int| 0 <= k < table@.len() implies (
            #[trigger] table@[k]).1.in_incorrect == 0 by {
                if table@[k] != (read.from, sent(counter_at(before, read.from), read.correct)) {
                    assert(table@[k] == before[k]);
                }
            }
        }
        i += 1;
    }
    assert(leakage@.take(i as int) =~= leakage@);
    let ghost origins = table@;
    let mut j: usize = 0;
    assert(leakage@.take(0) =~= Seq::<Leakage>::empty());
    while j < leakage.len()
        invariant
            j <= leakage@.len(),
            table.wf(),
            origins == origins_counted(leakage@),
            table@ == targets_counted(origins, leakage@.take(j as int)),
            counters_capped(table@, leakage@.len()),
            forall|k: int| 0 <= k < table@.len() ==> (#[trigger] table@[k]).1.in_incorrect <= j,
        decreases leakage@.len() - j,
    {
        let read = &leakage[j];
        proof {
            assert(leakage@.take(j + 1).drop_last() =~= leakage@.take(j as int));
            assert(leakage@.take(j + 1).last() == leakage@[j as int]);
            lemma_position_of(counter_keys(table@), read.to as u64);
        }
        if !read.correct {
            let ghost before = table@;
            proof {
                lemma_counter_capped(before, read.to, leakage@.len());
                assert(counter_at(before, read.to).in_incorrect <= j);
                lemma_with_counter_capped(
                    before,
                    read.to,
                    received(counter_at(before, read.to)),
                    leakage@.len(),
                );
            }
            table.count_received(read.to);
            proof {
                assert forall|k: int| 0 <= k < table@.len() implies (
                #[trigger] table@[k]).1.in_incorrect <= j + 1 by {
                    if table@[k] != (read.to, received(counter_at(before, read.to))) {
                        assert(table@[k] == before[k]);
                    }
                }
            }
        }
        j += 1;
    }
    assert(leakage@.take(j as int) =~= leakage@);
    table
}

/// A table that is capped is capped by every larger limit.
pub proof fn lemma_capped_more(entries: Counters, limit: nat, larger: nat)
    requires
        counters_capped(entries, limit),
        limit <= larger,
    ensures
        counters_capped(entries, larger),
{
}

/// The two taxa of a read, the smaller first.
pub open spec fn key_of(read: Leakage) -> (NodeId, NodeId) {
    if read.from <= read.to {
        (read.from, read.to)
    } else {
        (read.to, read.from)
    }
}

/// The events per pair of taxa after one more read: the read counts at its
/// smaller taxon, in the slot of its larger one. A read whose larger taxon
/// leaves no room for a slot is not counted.
pub open spec fn pair_counted(entries: Entries, read: Leakage) -> Entries {
    if key_of(read).1 < usize::MAX {
        with_increment(entries, key_of(read).0 as u64, key_of(read).1 as nat)
    } else {
        entries
    }
}

/// The events per pair of taxa among `reads`, whichever of the two taxa a
/// read stems from.
pub open spec fn pairs_counted(reads: Seq<Leakage>) -> Entries
    decreases reads.len(),
{
    if reads.len() == 0 {
        Seq::empty()
    } else {
        pair_counted(pairs_counted(reads.drop_last()), reads.last())
    }
}

/// How many of `reads` have a larger taxon that leaves no room for a slot.
pub open spec fn uncounted_in(reads: Seq<Leakage>) -> nat
    decreases reads.len(),
{
    if reads.len() == 0 {
        0
    } else {
        uncounted_in(reads.drop_last()) + if key_of(reads.last()).1 < usize::MAX {
            0nat
        } else {
            1nat
        }
    }
}

/// Counts the reads per pair of taxa, whichever of the two a read stems from.
/// The table holds, under the smaller taxon of a pair, a counter with the
/// events of the pair in the slot of the larger taxon. The second result
/// counts the reads that were left out because their larger taxon leaves no
/// room for a slot.
pub fn species_pair_leakage(reads: &[Leakage]) -> (res: (GeneTable, usize))
    requires
        reads@.len() <= isize::MAX,
    ensures
        res.0.wf(),
        res.0@ == pairs_counted(reads@),
        res.1 == uncounted_in(reads@),
        events(res.0@) + res.1 == reads@.len(),
{
    let mut table = GeneTable::new();
    let mut uncounted: usize = 0;
    let mut i: usize = 0;
    assert(reads@.take(0) =~= Seq::<Leakage>::empty());
    while i < reads.len()
        invariant
            i <= reads@.len(),
            reads@.len() <= isize::MAX,
            table.wf(),
            table@ == pairs_counted(reads@.take(i as int)),
            uncounted == uncounted_in(reads@.take(i as int)),
            events(table@) + uncounted == i,
        decreases reads@.len() - i,
    {
        assert(reads@.take(i + 1).drop_last() =~= reads@.take(i as int));
        assert(reads@.take(i + 1).last() == reads@[i as int]);
        let key = reads[i].key();
        if key.1 < usize::MAX {
            table.increment(key.0 as u64, key.1);
        } else {
            uncounted += 1;
        }
        i += 1;
    }
    assert(reads@.take(i as int) =~= reads@);
    (table, uncounted)
}

} // verus!
