//! Fields and decimal numbers in text.

use vstd::prelude::*;
use vstd::std_specs::iter::IteratorSpec;
use vstd::string::group_string_axioms;

verus! {

/// Appends one character, by `String::push`.
#[verifier::external_body]
pub(crate) fn push_char(out: &mut String, c: char)
    ensures
        final(out)@ == old(out)@.push(c),
{
    out.push(c)
}

/// The characters of `text`, one by one.
pub fn chars_of(text: &str) -> (res: Vec<char>)
    ensures
        res@ == text@,
{
    broadcast use group_string_axioms;

    let mut res: Vec<char> = Vec::new();
    let mut chars = text.chars();
    assert(text@.skip(0) =~= text@);
    assert(res@ =~= text@.take(0));
    loop
        invariant
            res@.len() <= text@.len(),
            res@ == text@.take(res@.len() as int),
            chars.remaining() == text@.skip(res@.len() as int),
        ensures
            res@ == text@,
        decreases text@.len() - res@.len(),
    {
        let ghost rest = chars.remaining();
        let ghost seen = res@;
        match chars.next() {
            Some(c) => {
                res.push(c);
                proof {
                    assert(rest.drop_first() =~= text@.skip(seen.len() as int + 1));
                    assert(res@ =~= text@.take(seen.len() as int + 1));
                }
            },
            None => {
                assert(text@.take(res@.len() as int) =~= text@);
                break ;
            },
        }
    }
    res
}

/// The text that `chars[from..to]` holds.
pub fn text_of(chars: &[char], from: usize, to: usize) -> (res: String)
    requires
        from <= to <= chars@.len(),
    ensures
        res@ == chars@.subrange(from as int, to as int),
{
    let mut res = String::new();
    let mut at: usize = from;
    assert(res@ =~= chars@.subrange(from as int, at as int));
    while at < to
        invariant
            from <= at <= to <= chars@.len(),
            res@ == chars@.subrange(from as int, at as int),
        decreases to - at,
    {
        push_char(&mut res, chars[at]);
        at += 1;
        assert(res@ =~= chars@.subrange(from as int, at as int));
    }
    res
}

/// The offset of the first `sep` at or after `from`, or the length where there
/// is none.
pub open spec fn first_sep(s: Seq<char>, sep: char, from: int) -> int
    decreases s.len() - from,
{
    if from < 0 || from >= s.len() {
        s.len() as int
    } else if s[from] == sep {
        from
    } else {
        first_sep(s, sep, from + 1)
    }
}

/// Where field `k` begins, the fields being what lies between separators. A
/// result beyond the length says that there is no such field.
pub open spec fn field_start(s: Seq<char>, sep: char, k: nat) -> int
    decreases k,
{
    if k == 0 {
        0
    } else {
        first_sep(s, sep, field_start(s, sep, (k - 1) as nat)) + 1
    }
}

/// Where field `k` ends: at the next separator, or at the end.
pub open spec fn field_end(s: Seq<char>, sep: char, k: nat) -> int {
    first_sep(s, sep, field_start(s, sep, k))
}

/// Whether `s` has a field `k`. Every text has a field 0, which may be empty.
pub open spec fn has_field(s: Seq<char>, sep: char, k: nat) -> bool {
    field_start(s, sep, k) <= s.len()
}

/// Field `k` of `s`, without its separators.
pub open spec fn field(s: Seq<char>, sep: char, k: nat) -> Seq<char> {
    s.subrange(field_start(s, sep, k), field_end(s, sep, k))
}

/// `first_sep` stays between its start and the end, and finds a separator or
/// the end.
pub proof fn lemma_first_sep(s: Seq<char>, sep: char, from: int)
    requires
        0 <= from <= s.len(),
    ensures
        from <= first_sep(s, sep, from) <= s.len(),
        first_sep(s, sep, from) < s.len() ==> s[first_sep(s, sep, from)] == sep,
        forall|i: int| from <= i < first_sep(s, sep, from) ==> s[i] != sep,
    decreases s.len() - from,
{
    if from < s.len() && s[from] != sep {
        lemma_first_sep(s, sep, from + 1);
    }
}

/// A field that exists lies within the text, and so does every field before it.
pub proof fn lemma_field_bounds(s: Seq<char>, sep: char, k: nat)
    requires
        has_field(s, sep, k),
    ensures
        0 <= field_start(s, sep, k) <= field_end(s, sep, k) <= s.len(),
        k > 0 ==> has_field(s, sep, (k - 1) as nat),
        k > 0 ==> field_end(s, sep, (k - 1) as nat) < s.len(),
        forall|i: int| field_start(s, sep, k) <= i < field_end(s, sep, k) ==> s[i] != sep,
        field_end(s, sep, k) < s.len() ==> s[field_end(s, sep, k)] == sep,
    decreases k,
{
    if k > 0 {
        let before = field_start(s, sep, (k - 1) as nat);
        if before > s.len() {
            assert(first_sep(s, sep, before) == s.len());
        } else {
            lemma_field_bounds(s, sep, (k - 1) as nat);
            lemma_first_sep(s, sep, before);
        }
    }
    lemma_first_sep(s, sep, field_start(s, sep, k));
}

/// A text that has a field has every field before it.
pub proof fn lemma_has_earlier_fields(s: Seq<char>, sep: char, j: nat, k: nat)
    requires
        j <= k,
        has_field(s, sep, k),
    ensures
        has_field(s, sep, j),
    decreases k - j,
{
    if j < k {
        lemma_field_bounds(s, sep, k);
        lemma_has_earlier_fields(s, sep, j, (k - 1) as nat);
    }
}

/// A field begins no earlier than at its own number.
pub proof fn lemma_field_start_min(s: Seq<char>, sep: char, k: nat)
    requires
        has_field(s, sep, k),
    ensures
        k <= field_start(s, sep, k) <= s.len(),
    decreases k,
{
    if k > 0 {
        lemma_field_bounds(s, sep, k);
        lemma_field_start_min(s, sep, (k - 1) as nat);
        lemma_first_sep(s, sep, field_start(s, sep, (k - 1) as nat));
    }
}

/// The offset of the first `sep` at or after `from`.
pub fn find_sep(chars: &[char], sep: char, from: usize) -> (res: usize)
    requires
        from <= chars@.len(),
    ensures
        res == first_sep(chars@, sep, from as int),
        from <= res <= chars@.len(),
{
    let mut at: usize = from;
    while at < chars.len() && chars[at] != sep
        invariant
            from <= at <= chars@.len(),
            first_sep(chars@, sep, at as int) == first_sep(chars@, sep, from as int),
        decreases chars@.len() - at,
    {
        at += 1;
    }
    at
}

/// Whether `bounds` is where field `k` of `s` begins and ends.
pub open spec fn is_field_bounds(s: Seq<char>, sep: char, k: nat, bounds: (usize, usize)) -> bool {
    &&& has_field(s, sep, k)
    &&& bounds.0 == field_start(s, sep, k)
    &&& bounds.1 == field_end(s, sep, k)
}

/// The bounds of the first `limit` fields of `chars`, or of all of them where
/// there are fewer: `res[k]` is where field `k` begins and ends.
pub fn split_fields(chars: &[char], sep: char, limit: usize) -> (res: Vec<(usize, usize)>)
    ensures
        res@.len() <= limit,
        res@.len() == limit || !has_field(chars@, sep, res@.len()),
        forall|k: int|
            0 <= k < res@.len() ==> is_field_bounds(chars@, sep, k as nat, #[trigger] res@[k]),
        forall|k: int|
            0 <= k < res@.len() ==> (#[trigger] res@[k]).0 <= res@[k].1 <= chars@.len(),
{
    let mut res: Vec<(usize, usize)> = Vec::new();
    let mut start: usize = 0;
    while res.len() < limit
        invariant
            res@.len() <= limit,
            start <= chars@.len(),
            start == field_start(chars@, sep, res@.len()),
            forall|k: int|
                0 <= k < res@.len() ==> is_field_bounds(chars@, sep, k as nat, #[trigger] res@[k]),
            forall|k: int|
                0 <= k < res@.len() ==> (#[trigger] res@[k]).0 <= res@[k].1 <= chars@.len(),
        decreases limit - res@.len(),
    {
        let end: usize = find_sep(chars, sep, start);
        res.push((start, end));
        if end == chars.len() {
            return res;
        }
        start = end + 1;
    }
    res
}

/// Whether `c` is one of the ten digits.
pub open spec fn is_digit(c: char) -> bool {
    '0' <= c <= '9'
}

/// Whether `s` holds digits only.
pub open spec fn all_digits(s: Seq<char>) -> bool {
    forall|i: int| 0 <= i < s.len() ==> is_digit(#[trigger] s[i])
}

/// The value of a digit; no other character has a value.
pub open spec fn digit_of(c: char) -> nat {
    if is_digit(c) {
        (c as int - '0' as int) as nat
    } else {
        0
    }
}

/// The number that a run of decimal digits spells.
pub open spec fn digits_value(s: Seq<char>) -> nat
    decreases s.len(),
{
    if s.len() == 0 {
        0
    } else {
        digits_value(s.drop_last()) * 10 + digit_of(s.last())
    }
}

/// The number that `s` spells where it is a decimal number without a sign or
/// with `+`, and no greater than `max`.
pub open spec fn unsigned_of(s: Seq<char>, max: nat) -> Option<nat> {
    let body = if s.len() > 0 && s[0] == '+' { s.skip(1) } else { s };
    if body.len() > 0 && all_digits(body) && digits_value(body) <= max {
        Some(digits_value(body))
    } else {
        None
    }
}

/// The number that `s` spells where it is a decimal number with or without a
/// sign, and between `min` and `max`.
pub open spec fn signed_of(s: Seq<char>, min: int, max: int) -> Option<int> {
    let signed = s.len() > 0 && (s[0] == '+' || s[0] == '-');
    let body = if signed { s.skip(1) } else { s };
    let value = if s.len() > 0 && s[0] == '-' {
        -digits_value(body)
    } else {
        digits_value(body) as int
    };
    if body.len() > 0 && all_digits(body) && min <= value <= max {
        Some(value)
    } else {
        None
    }
}

/// More digits never spell a smaller number.
pub proof fn lemma_digits_prefix(s: Seq<char>, n: int)
    requires
        0 <= n <= s.len(),
    ensures
        digits_value(s.take(n)) <= digits_value(s),
    decreases s.len(),
{
    if n == s.len() {
        assert(s.take(n) =~= s);
    } else {
        assert(s.drop_last().take(n) =~= s.take(n));
        lemma_digits_prefix(s.drop_last(), n);
    }
}

/// The number spelt by the digits in `chars[from..to]`, where there is at
/// least one digit and nothing else, and the number is no greater than `max`.
pub fn parse_digits(chars: &[char], from: usize, to: usize, max: u64) -> (res: Option<u64>)
    requires
        from <= to <= chars@.len(),
    ensures
        res is Some <==> from < to && all_digits(chars@.subrange(from as int, to as int))
            && digits_value(chars@.subrange(from as int, to as int)) <= max,
        res is Some ==> res->0 == digits_value(chars@.subrange(from as int, to as int)),
{
    let ghost body = chars@.subrange(from as int, to as int);
    if from == to {
        return None;
    }
    let mut value: u64 = 0;
    let mut at: usize = from;
    assert(body.take(0) =~= Seq::<char>::empty());
    while at < to
        invariant
            from <= at <= to <= chars@.len(),
            body == chars@.subrange(from as int, to as int),
            all_digits(body.take(at - from)),
            value == digits_value(body.take(at - from)),
            value <= max,
        decreases to - at,
    {
        let c: char = chars[at];
        let ghost seen = body.take(at - from);
        let ghost next = body.take(at - from + 1);
        assert(next.drop_last() =~= seen);
        assert(next.last() == c);
        if c < '0' || c > '9' {
            assert(!is_digit(body[at - from]));
            return None;
        }
        let digit: u64 = (c as u64) - ('0' as u64);
        if digit > max || value > (max - digit) / 10 {
            proof {
                lemma_digits_prefix(body, at - from + 1);
            }
            return None;
        }
        value = value * 10 + digit;
        at += 1;
        assert forall|i: int| 0 <= i < next.len() implies is_digit(#[trigger] next[i]) by {
            if i < seen.len() {
                assert(next[i] == seen[i]);
            }
        }
    }
    assert(body.take(at - from) =~= body);
    Some(value)
}

/// Reads `chars[from..to]` as a decimal number without a sign or with `+`.
pub fn parse_unsigned(chars: &[char], from: usize, to: usize, max: u64) -> (res: Option<u64>)
    requires
        from <= to <= chars@.len(),
    ensures
        match res {
            Some(v) => unsigned_of(chars@.subrange(from as int, to as int), max as nat) == Some(
                v as nat,
            ),
            None => unsigned_of(chars@.subrange(from as int, to as int), max as nat) is None,
        },
{
    let ghost s = chars@.subrange(from as int, to as int);
    if from < to && chars[from] == '+' {
        assert(s.skip(1) =~= chars@.subrange(from + 1, to as int));
        parse_digits(chars, from + 1, to, max)
    } else {
        parse_digits(chars, from, to, max)
    }
}

/// Reads `chars[from..to]` as a decimal number with or without a sign.
pub fn parse_signed(
    chars: &[char],
    from: usize,
    to: usize,
    min: i64,
    max: i64,
) -> (res: Option<i64>)
    requires
        from <= to <= chars@.len(),
        min <= 0 <= max,
    ensures
        match res {
            Some(v) => signed_of(chars@.subrange(from as int, to as int), min as int, max as int)
                == Some(v as int),
            None => signed_of(chars@.subrange(from as int, to as int), min as int, max as int)
                is None,
        },
{
    let ghost s = chars@.subrange(from as int, to as int);
    if from < to && chars[from] == '-' {
        assert(s.skip(1) =~= chars@.subrange(from + 1, to as int));
        let limit: u64 = if min == 0 { 0 } else { ((-(min + 1)) as u64) + 1 };
        match parse_digits(chars, from + 1, to, limit) {
            Some(m) => if m == 0 {
                Some(0)
            } else {
                Some(-((m - 1) as i64) - 1)
            },
            None => None,
        }
    } else if from < to && chars[from] == '+' {
        assert(s.skip(1) =~= chars@.subrange(from + 1, to as int));
        match parse_digits(chars, from + 1, to, max as u64) {
            Some(m) => Some(m as i64),
            None => None,
        }
    } else {
        match parse_digits(chars, from, to, max as u64) {
            Some(m) => Some(m as i64),
            None => None,
        }
    }
}

} // verus!
