//! The lines of input files: which of them are records, and what a line of a
//! table with two columns holds.

use crate::common::{fault_of, Sam, TAB};
use crate::text::{chars_of, find_sep, first_sep, text_of};
use vstd::prelude::*;

verus! {

/// Whether a line is a header line of a SAM file: it begins with `@`.
pub open spec fn header(line: Seq<char>) -> bool {
    line.len() > 0 && line[0] == '@'
}

/// Whether a line is a header line of a SAM file.
pub fn is_header(line: &str) -> (res: bool)
    ensures
        res == header(line@),
{
    let chars = chars_of(line);
    chars.len() > 0 && chars[0] == '@'
}

/// How many of `lines` are neither a header nor a record.
pub open spec fn faulty_in(lines: Seq<String>) -> nat
    decreases lines.len(),
{
    if lines.len() == 0 {
        0
    } else {
        faulty_in(lines.drop_last()) + if !header(lines.last()@) && fault_of(
            lines.last()@,
        ) is Some {
            1nat
        } else {
            0nat
        }
    }
}

/// Which of `lines` hold the records `records`, in their order: the lines
/// that are no header and fail no check.
pub open spec fn records_of(lines: Seq<String>, records: Seq<Sam>) -> bool
    decreases lines.len(),
{
    if lines.len() == 0 {
        records.len() == 0
    } else if header(lines.last()@) || fault_of(lines.last()@) is Some {
        records_of(lines.drop_last(), records)
    } else {
        records.len() > 0 && records.last().holds(lines.last()@) && records_of(
            lines.drop_last(),
            records.drop_last(),
        )
    }
}

/// The records of the lines of a SAM file, and the number of lines that were
/// malformed. Header lines are left out. A malformed line is skipped: it
/// gives no record, and the next line is read.
pub fn sam_records(lines: &[String]) -> (res: (Vec<Sam>, usize))
    ensures
        records_of(lines@, res.0@),
        res.1 == faulty_in(lines@),
{
    let mut records: Vec<Sam> = Vec::new();
    let mut faulty: usize = 0;
    let mut i: usize = 0;
    assert(lines@.take(0) =~= Seq::<String>::empty());
    while i < lines.len()
        invariant
            i <= lines@.len(),
            records_of(lines@.take(i as int), records@),
            faulty == faulty_in(lines@.take(i as int)),
            faulty <= i,
        decreases lines@.len() - i,
    {
        let ghost before = records@;
        proof {
            assert(lines@.take(i + 1).drop_last() =~= lines@.take(i as int));
            assert(lines@.take(i + 1).last() == lines@[i as int]);
        }
        let line = lines[i].as_str();
        if !is_header(line) {
            match Sam::parse(line) {
                Ok(sam) => {
                    records.push(sam);
                    assert(records@.drop_last() =~= before);
                },
                Err(_) => {
                    faulty += 1;
                },
            }
        }
        i += 1;
    }
    assert(lines@.take(i as int) =~= lines@);
    (records, faulty)
}

/// The key and the value of a line of a table with two columns: what stands
/// before the first tab, and all that follows it. A line without a tab has
/// neither.
pub fn tsv_entry(line: &str) -> (res: Option<(String, String)>)
    ensures
        match res {
            Some((key, value)) => first_sep(line@, TAB, 0) < line@.len() && key@
                == line@.subrange(0, first_sep(line@, TAB, 0)) && value@ == line@.subrange(
                first_sep(line@, TAB, 0) + 1,
                line@.len() as int,
            ),
            None => first_sep(line@, TAB, 0) == line@.len(),
        },
{
    let chars = chars_of(line);
    let at = find_sep(&chars, TAB, 0);
    if at == chars.len() {
        return None;
    }
    Some((text_of(&chars, 0, at), text_of(&chars, at + 1, chars.len())))
}

} // verus!
