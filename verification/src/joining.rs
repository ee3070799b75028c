//! Joining fields with a separator, such that splitting gives the fields back.

use crate::text::{field, field_start, first_sep, has_field, lemma_field_bounds, lemma_first_sep};
use vstd::prelude::*;

verus! {

/// The parts one after the other, with `sep` between each two.
pub open spec fn joined(parts: Seq<Seq<char>>, sep: char) -> Seq<char>
    decreases parts.len(),
{
    if parts.len() == 0 {
        Seq::empty()
    } else if parts.len() == 1 {
        parts[0]
    } else {
        parts[0] + seq![sep] + joined(parts.skip(1), sep)
    }
}

/// Whether `part` holds no `sep`.
pub open spec fn free_of(part: Seq<char>, sep: char) -> bool {
    forall|i: int| 0 <= i < part.len() ==> part[i] != sep
}

/// The texts of `parts`, part by part.
pub open spec fn views_of(parts: Seq<String>) -> Seq<Seq<char>> {
    Seq::new(parts.len(), |i: int| parts[i]@)
}

/// Behind a prefix, the next separator is found where it is found without
/// the prefix.
pub proof fn lemma_first_sep_shift(p: Seq<char>, s: Seq<char>, sep: char, i: int)
    requires
        0 <= i,
    ensures
        first_sep(p + s, sep, p.len() + i) == p.len() + first_sep(s, sep, i),
    decreases s.len() - i,
{
    if i < s.len() {
        assert((p + s)[p.len() + i] == s[i]);
        if s[i] != sep {
            lemma_first_sep_shift(p, s, sep, i + 1);
        }
    }
}

/// In a text without a separator, the next separator is the end.
pub proof fn lemma_first_sep_free(a: Seq<char>, sep: char, from: int)
    requires
        free_of(a, sep),
        0 <= from,
    ensures
        first_sep(a, sep, from) == a.len(),
    decreases a.len() - from,
{
    if from < a.len() {
        lemma_first_sep_free(a, sep, from + 1);
    }
}

/// Within a part without separators that a separator follows, the next
/// separator is the one that follows.
pub proof fn lemma_first_sep_head(a: Seq<char>, rest: Seq<char>, sep: char, from: int)
    requires
        free_of(a, sep),
        0 <= from <= a.len(),
    ensures
        first_sep(a + seq![sep] + rest, sep, from) == a.len(),
    decreases a.len() - from,
{
    let x = a + seq![sep] + rest;
    if from < a.len() {
        assert(x[from] == a[from]);
        lemma_first_sep_head(a, rest, sep, from + 1);
    } else {
        assert(x[from] == sep);
    }
}

/// No field begins before the text.
pub proof fn lemma_field_start_nonneg(s: Seq<char>, sep: char, k: nat)
    ensures
        0 <= field_start(s, sep, k),
    decreases k,
{
    if k > 0 {
        lemma_field_start_nonneg(s, sep, (k - 1) as nat);
        let before = field_start(s, sep, (k - 1) as nat);
        if before <= s.len() {
            lemma_first_sep(s, sep, before);
        }
    }
}

/// Behind a part without separators and one separator, field `k + 1` begins
/// where field `k` of the rest begins.
pub proof fn lemma_field_start_shift(a: Seq<char>, rest: Seq<char>, sep: char, k: nat)
    requires
        free_of(a, sep),
    ensures
        field_start(a + seq![sep] + rest, sep, k + 1) == a.len() + 1 + field_start(rest, sep, k),
    decreases k,
{
    let x = a + seq![sep] + rest;
    if k == 0 {
        lemma_first_sep_head(a, rest, sep, 0);
        assert(field_start(x, sep, 0) == 0);
    } else {
        lemma_field_start_shift(a, rest, sep, (k - 1) as nat);
        lemma_field_start_nonneg(rest, sep, (k - 1) as nat);
        lemma_first_sep_shift(a + seq![sep], rest, sep, field_start(rest, sep, (k - 1) as nat));
    }
}

/// A text without a separator has no field but field 0.
pub proof fn lemma_lone_field(a: Seq<char>, sep: char, k: nat)
    requires
        free_of(a, sep),
        k >= 1,
    ensures
        !has_field(a, sep, k),
    decreases k,
{
    if k == 1 {
        lemma_first_sep_free(a, sep, 0);
        assert(field_start(a, sep, 0) == 0);
        assert(field_start(a, sep, 1) == first_sep(a, sep, 0) + 1);
    } else {
        lemma_lone_field(a, sep, (k - 1) as nat);
        let before = field_start(a, sep, (k - 1) as nat);
        assert(first_sep(a, sep, before) == a.len());
    }
}

/// The fields of joined parts are the parts, where no part holds the
/// separator: field `k` is part `k`, and there is no field beyond the last part.
pub proof fn lemma_joined_fields(parts: Seq<Seq<char>>, sep: char, k: nat)
    requires
        parts.len() >= 1,
        forall|i: int| 0 <= i < parts.len() ==> free_of(#[trigger] parts[i], sep),
    ensures
        k < parts.len() ==> has_field(joined(parts, sep), sep, k) && field(
            joined(parts, sep),
            sep,
            k,
        ) == parts[k as int],
        k >= parts.len() ==> !has_field(joined(parts, sep), sep, k),
    decreases parts.len(),
{
    let x = joined(parts, sep);
    let a = parts[0];
    assert(free_of(a, sep));
    if parts.len() == 1 {
        lemma_first_sep_free(a, sep, 0);
        if k == 0 {
            assert(field(x, sep, 0) =~= a);
        } else {
            lemma_lone_field(a, sep, k);
        }
    } else {
        let tail = parts.skip(1);
        let rest = joined(tail, sep);
        assert forall|i: int| 0 <= i < tail.len() implies free_of(#[trigger] tail[i], sep) by {
            assert(tail[i] == parts[i + 1]);
        }
        if k == 0 {
            lemma_first_sep_head(a, rest, sep, 0);
            assert(field(x, sep, 0) =~= a);
        } else {
            let j = (k - 1) as nat;
            lemma_joined_fields(tail, sep, j);
            lemma_field_start_shift(a, rest, sep, j);
            lemma_field_start_nonneg(rest, sep, j);
            lemma_first_sep_shift(a + seq![sep], rest, sep, field_start(rest, sep, j));
            if k < parts.len() {
                lemma_field_bounds(rest, sep, j);
                assert(field(x, sep, k) =~= field(rest, sep, j));
            }
        }
    }
}

/// Joins `parts` with `sep` between each two, by `itertools::join`, which
/// writes out each item as it displays and puts the separator between the
/// items; a `String` displays as its own text.
#[verifier::external_body]
pub(crate) fn join_texts(parts: &Vec<String>, sep: char) -> (res: String)
    ensures
        res@ == joined(views_of(parts@), sep),
{
    itertools::join(parts.iter(), sep.encode_utf8(&mut [0u8; 4]))
}

} // verus!
