//! Telling compressed input from plain text.

use vstd::prelude::*;

verus! {

/// Whether a file that begins with `head` is gzipped: it begins with the two
/// bytes `1F 8B`.
pub fn is_gzipped(head: &[u8]) -> (res: bool)
    ensures
        res == (head@.len() >= 2 && head@[0] == 0x1F && head@[1] == 0x8B),
{
    head.len() >= 2 && head[0] == 0x1F && head[1] == 0x8B
}

} // verus!
