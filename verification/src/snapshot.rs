//! The pairwise leak table as lines of text, and back. A line holds, separated
//! by tabs, the origin, the target, the number of events, and the stored
//! value of every slot from gene 0 on, `-1` for a slot that is unset. A
//! counter without slots is written as one empty field.

use crate::common::TAB;
use crate::decimal::{
    decimal, lemma_decimal, lemma_signed_round_trip, lemma_unsigned_round_trip, signed_decimal,
    signed_text, unsigned_text,
};
use crate::gene_table::{events, keys_of, lemma_events_bound, put, Entries};
use crate::genes::{slot_of, sum, valid_slots, Genes, Slots};
use crate::joining::{free_of, join_texts, joined, lemma_joined_fields, views_of};
use crate::pairwise_leakage::{pair_key, pair_of, Leakage, LeakagePair};
use crate::table::{distinct, lemma_position_of, position_of};
use crate::text::{
    chars_of, field, field_end, field_start, find_sep, has_field, is_digit, is_field_bounds,
    lemma_field_bounds, lemma_field_start_min, lemma_has_earlier_fields, parse_signed,
    parse_unsigned, signed_of, split_fields, unsigned_of,
};
use vstd::prelude::*;

verus! {

/// The stored value of a slot.
pub open spec fn slot_value(slot: Option<nat>) -> int {
    match slot {
        Some(c) => c as int,
        None => -1,
    }
}

/// The fields that hold the slots of a counter.
pub open spec fn count_fields(counts: Slots) -> Seq<Seq<char>> {
    if counts.len() == 0 {
        seq![Seq::<char>::empty()]
    } else {
        Seq::new(counts.len(), |g: int| signed_decimal(slot_value(counts[g])))
    }
}

/// The fields of a counter: its total, then its slots.
pub open spec fn genes_fields(counts: Slots) -> Seq<Seq<char>> {
    seq![decimal(sum(counts))] + count_fields(counts)
}

/// The fields of the line of a pair and its counter.
pub open spec fn row_fields(entry: (u64, Slots)) -> Seq<Seq<char>> {
    seq![decimal(pair_of(entry.0).from as nat), decimal(pair_of(entry.0).to as nat)] + genes_fields(
        entry.1,
    )
}

/// The line of a pair and its counter.
pub open spec fn row_of(entry: (u64, Slots)) -> Seq<char> {
    joined(row_fields(entry), TAB)
}

/// The slots that the fields of `row` from field `k` on spell, where each of
/// them is a stored value: a count, or `-1`. (No field begins beyond the text,
/// which is what ends the recursion.)
pub open spec fn slots_from(row: Seq<char>, k: nat) -> Option<Slots>
    decreases row.len() + 1 - k,
{
    if !has_field(row, TAB, k) || k > row.len() {
        Some(Seq::empty())
    } else {
        match signed_of(field(row, TAB, k), -1, isize::MAX as int) {
            None => None,
            Some(v) => match slots_from(row, k + 1) {
                None => None,
                Some(rest) => Some(seq![slot_of(v as isize)] + rest),
            },
        }
    }
}

/// The pair and the counter that `row` holds, by the key of the pair, or
/// nothing where the line is malformed: it needs four fields, an origin and a
/// target that fit 32 bits, and stored values from the fourth field on. The
/// third field is not read.
pub open spec fn entry_of(row: Seq<char>) -> Option<(u64, Slots)> {
    if !has_field(row, TAB, 3) {
        None
    } else {
        match (
            unsigned_of(field(row, TAB, 0), u32::MAX as nat),
            unsigned_of(field(row, TAB, 1), u32::MAX as nat),
        ) {
            (Some(from), Some(to)) => {
                let key = pair_key(LeakagePair { from: from as u32, to: to as u32 });
                if field(row, TAB, 3).len() == 0 && !has_field(row, TAB, 4) {
                    Some((key, Seq::empty()))
                } else {
                    match slots_from(row, 3) {
                        Some(counts) => Some((key, counts)),
                        None => None,
                    }
                }
            },
            _ => None,
        }
    }
}

/// The table that the lines `rows` hold: each well-formed line puts its
/// counter at its pair, in place of an earlier one; a malformed line is
/// skipped.
pub open spec fn loaded(rows: Seq<Seq<char>>) -> Entries
    decreases rows.len(),
{
    if rows.len() == 0 {
        Seq::empty()
    } else {
        match entry_of(rows.last()) {
            Some((key, counts)) => put(loaded(rows.drop_last()), key, counts),
            None => loaded(rows.drop_last()),
        }
    }
}

/// How many of `rows` are malformed.
pub open spec fn malformed_rows(rows: Seq<Seq<char>>) -> nat
    decreases rows.len(),
{
    if rows.len() == 0 {
        0
    } else {
        malformed_rows(rows.drop_last()) + if entry_of(rows.last()) is None {
            1nat
        } else {
            0nat
        }
    }
}

/// `head` before the slots `tail`, where there are any.
pub open spec fn prepended(head: Slots, tail: Option<Slots>) -> Option<Slots> {
    match tail {
        Some(rest) => Some(head + rest),
        None => None,
    }
}

/// The slots that the stored values `data` stand for.
pub open spec fn slots_of(data: Seq<isize>) -> Slots {
    Seq::new(data.len(), |g: int| slot_of(data[g]))
}

/// Reads the slots off the fields of `chars` that begin at `start`, which is
/// where field `k` begins.
fn parse_slots(chars: &[char], start: usize, Ghost(k): Ghost<nat>) -> (res: Option<Vec<isize>>)
    requires
        has_field(chars@, TAB, k),
        start == field_start(chars@, TAB, k),
    ensures
        match res {
            Some(data) => slots_from(chars@, k) == Some(slots_of(data@))
                && valid_slots(data@),
            None => slots_from(chars@, k) is None,
        },
{
    let mut data: Vec<isize> = Vec::new();
    let mut from: usize = start;
    let ghost mut at: nat = k;
    proof {
        if slots_from(chars@, k) is Some {
            assert(slots_of(data@) + slots_from(chars@, k)->0 =~= slots_from(chars@, k)->0);
        }
    }
    loop
        invariant
            has_field(chars@, TAB, at),
            from == field_start(chars@, TAB, at),
            valid_slots(data@),
            slots_from(chars@, k) == prepended(slots_of(data@), slots_from(chars@, at)),
        decreases chars@.len() + 1 - from,
    {
        proof {
            lemma_field_bounds(chars@, TAB, at);
            lemma_field_start_min(chars@, TAB, at);
        }
        let to = find_sep(chars, TAB, from);
        let value = match parse_signed(chars, from, to, -1, isize::MAX as i64) {
            Some(v) => v as isize,
            None => {
                return None;
            },
        };
        let ghost before = slots_of(data@);
        data.push(value);
        proof {
            let after = slots_of(data@);
            assert(after =~= before + seq![slot_of(value)]);
            if slots_from(chars@, at + 1) is Some {
                let rest = slots_from(chars@, at + 1)->0;
                assert(slots_from(chars@, at) == Some(seq![slot_of(value)] + rest));
                assert(before + (seq![slot_of(value)] + rest) =~= after + rest);
            }
        }
        if to == chars.len() {
            proof {
                assert(!has_field(chars@, TAB, at + 1));
                assert(slots_from(chars@, at + 1) == Some(Slots::empty()));
                let after = slots_of(data@);
                assert(after + Slots::empty() =~= after);
            }
            return Some(data);
        }
        from = to + 1;
        proof {
            at = at + 1;
        }
    }
}

/// Reads a pair and its counter off a line, or nothing where the line is
/// malformed.
pub fn parse_row(line: &str) -> (res: Option<(LeakagePair, Genes)>)
    ensures
        match res {
            Some((pair, genes)) => entry_of(line@) == Some((pair_key(pair), genes@))
                && genes.wf(),
            None => entry_of(line@) is None,
        },
{
    let chars = chars_of(line);
    let fields = split_fields(&chars, TAB, 5);
    if fields.len() < 4 {
        proof {
            if has_field(chars@, TAB, 3) {
                lemma_has_earlier_fields(chars@, TAB, fields@.len(), 3);
            }
        }
        return None;
    }
    proof {
        assert forall|k: nat| k <= 3 implies 0 <= #[trigger] field_start(chars@, TAB, k)
            <= field_end(chars@, TAB, k) <= chars@.len() by {
            assert(is_field_bounds(chars@, TAB, k, fields@[k as int]));
            lemma_field_bounds(chars@, TAB, k);
        }
    }
    let from = match parse_unsigned(&chars, fields[0].0, fields[0].1, u32::MAX as u64) {
        Some(v) => v as u32,
        None => {
            return None;
        },
    };
    let to = match parse_unsigned(&chars, fields[1].0, fields[1].1, u32::MAX as u64) {
        Some(v) => v as u32,
        None => {
            return None;
        },
    };
    let pair = LeakagePair::from(from, to);
    if fields.len() == 4 && fields[3].0 == fields[3].1 {
        let genes = Genes::default();
        return Some((pair, genes));
    }
    proof {
        if fields@.len() == 5 {
            assert(is_field_bounds(chars@, TAB, 4, fields@[4]));
        }
    }
    match parse_slots(&chars, fields[3].0, Ghost(3)) {
        Some(data) => {
            let genes = Genes { data };
            assert(genes@ =~= slots_of(genes.data@));
            Some((pair, genes))
        },
        None => None,
    }
}

/// Appends to `parts` the fields of `genes`.
fn push_genes_fields(parts: &mut Vec<String>, genes: &Genes)
    requires
        genes.wf(),
        sum(genes@) <= usize::MAX,
    ensures
        views_of(final(parts)@) == views_of(old(parts)@) + genes_fields(genes@),
{
    let ghost before = views_of(parts@);
    parts.push(unsigned_text(genes.total() as u64));
    assert(views_of(parts@) =~= before + seq![decimal(sum(genes@))]);
    if genes.data.len() == 0 {
        parts.push(String::new());
        assert(genes@.len() == 0);
        assert(views_of(parts@) =~= before + genes_fields(genes@));
        return ;
    }
    let mut gene: usize = 0;
    while gene < genes.data.len()
        invariant
            genes.wf(),
            0 < genes.data@.len(),
            gene <= genes.data@.len(),
            views_of(parts@) == before + (seq![decimal(sum(genes@))] + count_fields(genes@).take(
                gene as int,
            )),
        decreases genes.data@.len() - gene,
    {
        let ghost seen = views_of(parts@);
        parts.push(signed_text(genes.data[gene] as i64));
        proof {
            assert(genes.data@[gene as int] as int == slot_value(genes@[gene as int]));
            assert(views_of(parts@) =~= seen.push(count_fields(genes@)[gene as int]));
            assert(count_fields(genes@).take(gene + 1) =~= count_fields(genes@).take(
                gene as int,
            ).push(count_fields(genes@)[gene as int]));
            assert(views_of(parts@) =~= before + (seq![decimal(sum(genes@))] + count_fields(
                genes@,
            ).take(gene + 1)));
        }
        gene += 1;
    }
    assert(count_fields(genes@).take(gene as int) =~= count_fields(genes@));
}

impl Genes {
    /// The counter as text: its total and then the stored value of every
    /// slot from gene 0 on, separated by tabs.
    pub fn row(&self) -> (res: String)
        requires
            self.wf(),
            sum(self@) <= usize::MAX,
        ensures
            res@ == joined(genes_fields(self@), TAB),
    {
        let mut parts: Vec<String> = Vec::new();
        push_genes_fields(&mut parts, self);
        assert(views_of(parts@) =~= genes_fields(self@));
        join_texts(&parts, TAB)
    }
}

/// The line of `pair` and its counter.
pub fn pair_row(pair: LeakagePair, genes: &Genes) -> (res: String)
    requires
        genes.wf(),
        sum(genes@) <= usize::MAX,
    ensures
        res@ == row_of((pair_key(pair), genes@)),
{
    let mut parts: Vec<String> = Vec::new();
    parts.push(unsigned_text(pair.from as u64));
    parts.push(unsigned_text(pair.to as u64));
    proof {
        assert(pair_of(pair_key(pair)) == pair);
        assert(views_of(parts@) =~= seq![decimal(pair.from as nat), decimal(pair.to as nat)]);
    }
    push_genes_fields(&mut parts, genes);
    assert(views_of(parts@) =~= row_fields((pair_key(pair), genes@)));
    join_texts(&parts, TAB)
}

impl Leakage {
    /// The table as lines, one for each pair, in the order of the table.
    pub fn rows(&self) -> (res: Vec<String>)
        requires
            self.wf(),
            events(self@) <= usize::MAX,
        ensures
            res@.len() == self@.len(),
            forall|i: int| 0 <= i < res@.len() ==> (#[trigger] res@[i])@ == row_of(self@[i]),
    {
        let mut res: Vec<String> = Vec::new();
        let mut i: usize = 0;
        while i < self.len()
            invariant
                self.wf(),
                events(self@) <= usize::MAX,
                i <= self@.len(),
                res@.len() == i,
                forall|j: int| 0 <= j < i ==> (#[trigger] res@[j])@ == row_of(self@[j]),
            decreases self@.len() - i,
        {
            proof {
                lemma_events_bound(self@, i as int);
            }
            res.push(pair_row(self.pair_at(i), self.genes_at(i)));
            i += 1;
        }
        res
    }

    /// The table that `lines` hold, and the number of lines that were
    /// malformed. A malformed line is skipped: it changes no counter, and the
    /// next line is read.
    pub fn load(lines: &[String]) -> (res: (Self, usize))
        ensures
            res.0.wf(),
            res.0@ == loaded(views_of(lines@)),
            res.1 == malformed_rows(views_of(lines@)),
    {
        let mut table = Leakage::default();
        let mut malformed: usize = 0;
        let mut i: usize = 0;
        assert(views_of(lines@).take(0) =~= Seq::<Seq<char>>::empty());
        while i < lines.len()
            invariant
                i <= lines@.len(),
                table.wf(),
                table@ == loaded(views_of(lines@).take(i as int)),
                malformed == malformed_rows(views_of(lines@).take(i as int)),
                malformed <= i,
            decreases lines@.len() - i,
        {
            proof {
                let rows = views_of(lines@);
                assert(rows.take(i + 1).drop_last() =~= rows.take(i as int));
                assert(rows.take(i + 1).last() == lines@[i as int]@);
            }
            match parse_row(lines[i].as_str()) {
                Some((pair, genes)) => {
                    table.insert(pair, genes);
                },
                None => {
                    malformed += 1;
                },
            }
            i += 1;
        }
        assert(views_of(lines@).take(i as int) =~= views_of(lines@));
        (table, malformed)
    }

    /// Lines that hold the rows of a well-formed table load as that table,
    /// with no line malformed.
    pub proof fn lemma_rows_load(&self, lines: Seq<String>)
        requires
            self.wf(),
            lines.len() == self@.len(),
            forall|i: int| 0 <= i < lines.len() ==> (#[trigger] lines[i])@ == row_of(self@[i]),
        ensures
            loaded(views_of(lines)) == self@,
            malformed_rows(views_of(lines)) == 0,
    {
        self.lemma_distinct_pairs();
        assert forall|i: int| 0 <= i < self@.len() implies storable((#[trigger] self@[i]).1) by {
            assert forall|g: int| 0 <= g < self@[i].1.len() implies slot_value(
                #[trigger] self@[i].1[g],
            ) <= isize::MAX by {
                self.lemma_counts_fit(i, g);
            }
        }
        lemma_save_load(self@, lines);
    }
}


/// Whether every count of `counts` fits the machine's signed word.
pub open spec fn storable(counts: Slots) -> bool {
    forall|g: int| 0 <= g < counts.len() ==> slot_value(#[trigger] counts[g]) <= isize::MAX
}

/// The fields of a line are at least four, and none holds a tab.
pub proof fn lemma_row_fields(entry: (u64, Slots))
    ensures
        row_fields(entry).len() >= 4,
        row_fields(entry).len() == 3 + count_fields(entry.1).len(),
        forall|k: int|
            0 <= k < row_fields(entry).len() ==> free_of(#[trigger] row_fields(entry)[k], TAB),
{
    let fields = row_fields(entry);
    lemma_decimal(pair_of(entry.0).from as nat);
    lemma_decimal(pair_of(entry.0).to as nat);
    lemma_decimal(sum(entry.1));
    assert forall|k: int| 0 <= k < fields.len() implies free_of(#[trigger] fields[k], TAB) by {
        if k >= 3 && entry.1.len() > 0 {
            let v = slot_value(entry.1[k - 3]);
            lemma_signed_round_trip(v, v, v);
            assert(fields[k] == signed_decimal(v));
        }
        assert forall|i: int| 0 <= i < fields[k].len() implies fields[k][i] != TAB by {
            assert(is_digit(fields[k][i]) || fields[k][i] == '-');
        }
    }
}

/// From the slot of gene `g` on, the line of an entry spells its slots.
pub proof fn lemma_slots_round_trip(entry: (u64, Slots), g: nat)
    requires
        storable(entry.1),
        entry.1.len() > 0,
        g <= entry.1.len(),
    ensures
        slots_from(row_of(entry), 3 + g) == Some(entry.1.skip(g as int)),
    decreases entry.1.len() - g,
{
    let row = row_of(entry);
    let counts = entry.1;
    lemma_row_fields(entry);
    lemma_joined_fields(row_fields(entry), TAB, 3 + g);
    if g == counts.len() {
        assert(counts.skip(g as int) =~= Slots::empty());
    } else {
        lemma_field_start_min(row, TAB, 3 + g);
        lemma_slots_round_trip(entry, g + 1);
        let v = slot_value(counts[g as int]);
        assert(row_fields(entry)[3 + g as int] == signed_decimal(v));
        lemma_signed_round_trip(v, -1, isize::MAX as int);
        assert(slot_of(v as isize) == counts[g as int]);
        assert(seq![counts[g as int]] + counts.skip(g as int + 1) =~= counts.skip(g as int));
    }
}

/// A line that was written for a pair and its counter reads back as that pair
/// and that counter: every slot is set or unset as it was, with the same count.
pub proof fn lemma_row_round_trip(entry: (u64, Slots))
    requires
        storable(entry.1),
    ensures
        entry_of(row_of(entry)) == Some(entry),
{
    let row = row_of(entry);
    let fields = row_fields(entry);
    lemma_row_fields(entry);
    lemma_joined_fields(fields, TAB, 0);
    lemma_joined_fields(fields, TAB, 1);
    lemma_joined_fields(fields, TAB, 3);
    lemma_joined_fields(fields, TAB, 4);
    lemma_unsigned_round_trip(pair_of(entry.0).from as nat, u32::MAX as nat);
    lemma_unsigned_round_trip(pair_of(entry.0).to as nat, u32::MAX as nat);
    assert(pair_key(pair_of(entry.0)) == entry.0);
    if entry.1.len() == 0 {
        assert(fields[3] =~= Seq::<char>::empty());
        assert(entry.1 =~= Slots::empty());
    } else {
        let v = slot_value(entry.1[0]);
        lemma_signed_round_trip(v, -1, isize::MAX as int);
        assert(fields[3] == signed_decimal(v));
        lemma_slots_round_trip(entry, 0);
        assert(entry.1.skip(0) =~= entry.1);
    }
}

/// The lines of a table, one for each entry, in its order.
pub open spec fn saved(entries: Entries) -> Seq<Seq<char>> {
    Seq::new(entries.len(), |i: int| row_of(entries[i]))
}

/// Saving a table and loading the lines gives the table back: the same pairs
/// in the same order, each with the same slots, set or unset, and the same
/// counts; and no line is malformed. This holds of every sequence of entries
/// with distinct pairs, so of the table in any order.
pub proof fn lemma_table_round_trip(entries: Entries)
    requires
        distinct(keys_of(entries)),
        forall|i: int| 0 <= i < entries.len() ==> storable((#[trigger] entries[i]).1),
    ensures
        loaded(saved(entries)) == entries,
        malformed_rows(saved(entries)) == 0,
    decreases entries.len(),
{
    if entries.len() == 0 {
        assert(entries =~= Entries::empty());
    } else {
        let before = entries.drop_last();
        let last = entries.last();
        assert(saved(entries).drop_last() =~= saved(before));
        assert(keys_of(before) =~= keys_of(entries).drop_last());
        assert(distinct(keys_of(before)));
        lemma_table_round_trip(before);
        lemma_row_round_trip(last);
        lemma_position_of(keys_of(before), last.0);
        assert forall|j: int| 0 <= j < before.len() implies keys_of(before)[j] != last.0 by {
            assert(keys_of(entries)[j] != keys_of(entries)[entries.len() - 1]);
        }
        assert(position_of(keys_of(before), last.0) is None);
        assert(before.push(last) =~= entries);
    }
}

/// Lines that hold the saved lines of a table load as that table.
pub proof fn lemma_save_load(entries: Entries, lines: Seq<String>)
    requires
        distinct(keys_of(entries)),
        forall|i: int| 0 <= i < entries.len() ==> storable((#[trigger] entries[i]).1),
        lines.len() == entries.len(),
        forall|i: int| 0 <= i < lines.len() ==> (#[trigger] lines[i])@ == row_of(entries[i]),
    ensures
        loaded(views_of(lines)) == entries,
        malformed_rows(views_of(lines)) == 0,
{
    assert(views_of(lines) =~= saved(entries));
    lemma_table_round_trip(entries);
}

} // verus!
