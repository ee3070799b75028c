//! Quoting in Newick trees, and the neighbours of their nodes.

use crate::leakage::NodeId;
use crate::text::{chars_of, push_char};
use vstd::prelude::*;

verus! {

/// How often `c` stands in `text`.
pub open spec fn occurrences_of(text: Seq<char>, c: char) -> nat
    decreases text.len(),
{
    if text.len() == 0 {
        0
    } else {
        occurrences_of(text.drop_last(), c) + if text.last() == c { 1nat } else { 0nat }
    }
}

/// `text` with every single quote turned into a double quote.
pub open spec fn requoted(text: Seq<char>) -> Seq<char> {
    Seq::new(text.len(), |i: int| if text[i] == '\'' { '"' } else { text[i] })
}

/// A tree that is quoted with single quotes only, requoted with double
/// quotes. Of any other tree nothing is kept: the result is empty.
pub open spec fn cleaned(newick: Seq<char>) -> Seq<char> {
    if occurrences_of(newick, '\'') > 0 && occurrences_of(newick, '"') == 0 {
        requoted(newick)
    } else {
        Seq::empty()
    }
}

/// Requotes a tree with double quotes where it is quoted with single quotes
/// only; of any other tree the result is empty.
pub fn clean_newick(newick: &str) -> (res: String)
    ensures
        res@ == cleaned(newick@),
{
    let chars = chars_of(newick);
    let mut single_quotes: usize = 0;
    let mut double_quotes: usize = 0;
    let mut out = String::new();
    let mut at: usize = 0;
    assert(out@ =~= requoted(chars@.take(0)));
    while at < chars.len()
        invariant
            at <= chars@.len(),
            single_quotes == occurrences_of(chars@.take(at as int), '\''),
            double_quotes == occurrences_of(chars@.take(at as int), '"'),
            single_quotes <= at,
            double_quotes <= at,
            out@ == requoted(chars@.take(at as int)),
        decreases chars@.len() - at,
    {
        let c = chars[at];
        assert(chars@.take(at + 1).drop_last() =~= chars@.take(at as int));
        if c == '\'' {
            single_quotes += 1;
            push_char(&mut out, '"');
        } else {
            if c == '"' {
                double_quotes += 1;
            }
            push_char(&mut out, c);
        }
        at += 1;
        assert(out@ =~= requoted(chars@.take(at as int)));
    }
    assert(chars@.take(at as int) =~= chars@);
    if single_quotes > 0 && double_quotes == 0 {
        out
    } else {
        String::new()
    }
}

/// The label of a node. Labels are not read yet: every label is empty.
pub fn parse_label(label: &str) -> (res: String)
    ensures
        res@ == Seq::<char>::empty(),
{
    String::new()
}

/// `text` without the characters `c` in it.
pub open spec fn without(text: Seq<char>, c: char) -> Seq<char>
    decreases text.len(),
{
    if text.len() == 0 {
        Seq::empty()
    } else if text.last() == c {
        without(text.drop_last(), c)
    } else {
        without(text.drop_last(), c).push(text.last())
    }
}

/// The label of a node without its double quotes.
pub fn strip_quotes(name: &str) -> (res: String)
    ensures
        res@ == without(name@, '"'),
{
    let chars = chars_of(name);
    let mut out = String::new();
    let mut at: usize = 0;
    assert(out@ =~= without(chars@.take(0), '"'));
    while at < chars.len()
        invariant
            at <= chars@.len(),
            out@ == without(chars@.take(at as int), '"'),
        decreases chars@.len() - at,
    {
        let c = chars[at];
        assert(chars@.take(at + 1).drop_last() =~= chars@.take(at as int));
        if c != '"' {
            push_char(&mut out, c);
        }
        at += 1;
    }
    assert(chars@.take(at as int) =~= chars@);
    out
}

/// The nodes of `children` other than `id`, in their order.
pub open spec fn others(children: Seq<NodeId>, id: NodeId) -> Seq<NodeId>
    decreases children.len(),
{
    if children.len() == 0 {
        Seq::empty()
    } else if children.last() == id {
        others(children.drop_last(), id)
    } else {
        others(children.drop_last(), id).push(children.last())
    }
}

/// The siblings of the node `id` among the children of its parent.
pub fn siblings(children: &[NodeId], id: NodeId) -> (res: Vec<NodeId>)
    ensures
        res@ == others(children@, id),
{
    let mut res: Vec<NodeId> = Vec::new();
    let mut at: usize = 0;
    assert(res@ =~= others(children@.take(0), id));
    while at < children.len()
        invariant
            at <= children@.len(),
            res@ == others(children@.take(at as int), id),
        decreases children@.len() - at,
    {
        assert(children@.take(at + 1).drop_last() =~= children@.take(at as int));
        if children[at] != id {
            res.push(children[at]);
        }
        at += 1;
    }
    assert(children@.take(at as int) =~= children@);
    res
}

} // verus!
