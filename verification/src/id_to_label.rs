//! The labels of taxa: which species name belongs to which identifier.

use crate::common::TAB;
use crate::joining::views_of;
use crate::text::{
    chars_of, field, has_field, lemma_has_earlier_fields, parse_unsigned, split_fields, text_of,
    unsigned_of,
};
use vstd::prelude::*;
use vstd::string::StringExecFns;

verus! {

/// The character that separates the ranks of a lineage.
pub const SEMICOLON: char = ';';

/// Where the part of `s` behind its last `sep` begins: at 0 where there is no `sep`.
pub open spec fn last_start(s: Seq<char>, sep: char) -> int
    decreases s.len(),
{
    if s.len() == 0 {
        0
    } else if s.last() == sep {
        s.len() as int
    } else {
        last_start(s.drop_last(), sep)
    }
}

/// The part of `s` behind its last `sep`, or all of it where there is none.
pub open spec fn last_segment(s: Seq<char>, sep: char) -> Seq<char> {
    s.subrange(last_start(s, sep), s.len() as int)
}

/// The identifier and the species that a line names, or nothing where the
/// line is malformed. Of the tab-separated fields the second is the
/// identifier, which must leave room for a slot, and the fourth the lineage,
/// whose last rank is the species.
pub open spec fn label_of(line: Seq<char>) -> Option<(nat, Seq<char>)> {
    if !has_field(line, TAB, 3) {
        None
    } else {
        match unsigned_of(field(line, TAB, 1), (usize::MAX - 1) as nat) {
            Some(id) => Some((id, last_segment(field(line, TAB, 3), SEMICOLON))),
            None => None,
        }
    }
}

/// The labels after `species` was appended to the label of `id`; the labels
/// grow by empty ones as far as the identifier.
pub open spec fn labelled(labels: Seq<Seq<char>>, id: nat, species: Seq<char>) -> Seq<Seq<char>> {
    let grown = if labels.len() > id {
        labels
    } else {
        labels + Seq::new((id + 1 - labels.len()) as nat, |i: int| Seq::<char>::empty())
    };
    grown.update(id as int, grown[id as int] + species)
}

/// The labels by identifier that `rows` name.
pub open spec fn labels_of(rows: Seq<Seq<char>>) -> Seq<Seq<char>>
    decreases rows.len(),
{
    if rows.len() == 0 {
        Seq::empty()
    } else {
        match label_of(rows.last()) {
            Some((id, species)) => labelled(labels_of(rows.drop_last()), id, species),
            None => labels_of(rows.drop_last()),
        }
    }
}

/// The species of `rows` with their identifiers, line by line.
pub open spec fn species_of(rows: Seq<Seq<char>>) -> Seq<(Seq<char>, usize)>
    decreases rows.len(),
{
    if rows.len() == 0 {
        Seq::empty()
    } else {
        match label_of(rows.last()) {
            Some((id, species)) => species_of(rows.drop_last()).push((species, id as usize)),
            None => species_of(rows.drop_last()),
        }
    }
}

/// How many of `rows` are malformed.
pub open spec fn unlabelled_in(rows: Seq<Seq<char>>) -> nat
    decreases rows.len(),
{
    if rows.len() == 0 {
        0
    } else {
        unlabelled_in(rows.drop_last()) + if label_of(rows.last()) is None {
            1nat
        } else {
            0nat
        }
    }
}

/// The part behind the last separator begins where a separator stands just
/// before and none follows.
pub proof fn lemma_last_start(s: Seq<char>, sep: char, m: int)
    requires
        0 <= m <= s.len(),
        m > 0 ==> s[m - 1] == sep,
        forall|j: int| m <= j < s.len() ==> s[j] != sep,
    ensures
        last_start(s, sep) == m,
    decreases s.len(),
{
    if s.len() > m {
        lemma_last_start(s.drop_last(), sep, m);
    }
}

/// The views of the species of `pairs`, pair by pair, with their identifiers.
pub open spec fn pair_views(pairs: Seq<(String, usize)>) -> Seq<(Seq<char>, usize)> {
    Seq::new(pairs.len(), |i: int| (pairs[i].0@, pairs[i].1))
}

/// Reads the identifier and the species off a line.
pub fn parse_label_line(line: &str) -> (res: Option<(usize, String)>)
    ensures
        match res {
            Some((id, species)) => label_of(line@) == Some((id as nat, species@)) && id
                < usize::MAX,
            None => label_of(line@) is None,
        },
{
    let chars = chars_of(line);
    let fields = split_fields(&chars, TAB, 4);
    if fields.len() < 4 {
        proof {
            if has_field(chars@, TAB, 3) {
                lemma_has_earlier_fields(chars@, TAB, fields@.len(), 3);
            }
        }
        return None;
    }
    let id = match parse_unsigned(&chars, fields[1].0, fields[1].1, (usize::MAX - 1) as u64) {
        Some(v) => v as usize,
        None => {
            return None;
        },
    };
    let (from, to) = fields[3];
    let ghost lineage = field(chars@, TAB, 3);
    let mut start: usize = to;
    while start > from && chars[start - 1] != SEMICOLON
        invariant
            from <= start <= to <= chars@.len(),
            forall|j: int| start <= j < to ==> chars@[j] != SEMICOLON,
        decreases start,
    {
        start -= 1;
    }
    proof {
        assert(lineage == chars@.subrange(from as int, to as int));
        lemma_last_start(lineage, SEMICOLON, start - from);
        assert(last_segment(lineage, SEMICOLON) =~= chars@.subrange(start as int, to as int));
    }
    Some((id, text_of(&chars, start, to)))
}

/// What the lines of a map of labels hold.
pub struct Labels {
    /// The label of each identifier, empty where the lines name none.
    pub id2lab: Vec<String>,
    /// Each species with its identifier, line by line. Where a species stands
    /// on several lines, the last of them holds.
    pub lab2id: Vec<(String, usize)>,
    /// How many lines were malformed and skipped.
    pub skipped: usize,
}

/// Reads the labels of taxa off the lines `lines`. A malformed line is
/// skipped, and the next line is read.
pub fn get_labels_map(lines: &[String]) -> (res: Labels)
    ensures
        views_of(res.id2lab@) == labels_of(views_of(lines@)),
        pair_views(res.lab2id@) == species_of(views_of(lines@)),
        res.skipped == unlabelled_in(views_of(lines@)),
{
    let mut id2lab: Vec<String> = Vec::new();
    let mut lab2id: Vec<(String, usize)> = Vec::new();
    let mut skipped: usize = 0;
    let mut i: usize = 0;
    assert(views_of(lines@).take(0) =~= Seq::<Seq<char>>::empty());
    assert(views_of(id2lab@) =~= Seq::<Seq<char>>::empty());
    assert(pair_views(lab2id@) =~= Seq::<(Seq<char>, usize)>::empty());
    while i < lines.len()
        invariant
            i <= lines@.len(),
            views_of(id2lab@) == labels_of(views_of(lines@).take(i as int)),
            pair_views(lab2id@) == species_of(views_of(lines@).take(i as int)),
            skipped == unlabelled_in(views_of(lines@).take(i as int)),
            skipped <= i,
        decreases lines@.len() - i,
    {
        proof {
            let rows = views_of(lines@);
            assert(rows.take(i + 1).drop_last() =~= rows.take(i as int));
            assert(rows.take(i + 1).last() == lines@[i as int]@);
        }
        match parse_label_line(lines[i].as_str()) {
            Some((id, species)) => {
                let ghost labels = views_of(id2lab@);
                let ghost pairs = pair_views(lab2id@);
                while id2lab.len() <= id
                    invariant
                        id < usize::MAX,
                        labels.len() <= id2lab@.len(),
                        id2lab@.len() <= id + 1 || id2lab@.len() == labels.len(),
                        views_of(id2lab@) == labels + Seq::new(
                            (id2lab@.len() - labels.len()) as nat,
                            |k: int| Seq::<char>::empty(),
                        ),
                    decreases id + 1 - id2lab@.len(),
                {
                    let ghost before = views_of(id2lab@);
                    id2lab.push(String::new());
                    assert(views_of(id2lab@) =~= before.push(Seq::<char>::empty()));
                    assert(views_of(id2lab@) =~= labels + Seq::new(
                        (id2lab@.len() - labels.len()) as nat,
                        |k: int| Seq::<char>::empty(),
                    ));
                }
                let ghost grown = views_of(id2lab@);
                let ghost stored = id2lab@;
                id2lab[id].append(species.as_str());
                proof {
                    assert(id2lab@.len() == stored.len());
                    assert(forall|k: int|
                        0 <= k < stored.len() && k != id ==> id2lab@[k] == stored[k]);
                    assert(views_of(id2lab@) =~= grown.update(
                        id as int,
                        grown[id as int] + species@,
                    ));
                    assert(views_of(id2lab@) =~= labelled(labels, id as nat, species@));
                }
                lab2id.push((species, id));
                assert(pair_views(lab2id@) =~= pairs.push((species@, id)));
            },
            None => {
                skipped += 1;
            },
        }
        i += 1;
    }
    assert(views_of(lines@).take(i as int) =~= views_of(lines@));
    Labels { id2lab, lab2id, skipped }
}

} // verus!
