//! A double-array trie: a fixed-alphabet string dictionary built in two
//! phases.  First an arena-allocated trie records every inserted word as a
//! chain of labeled edges; then a compactor folds all per-node transition
//! rows into a single pair of flat arrays (`next`/`check`) plus a per-node
//! `offset`, so that one transition costs one array probe.

use vstd::prelude::*;

pub mod array_trie;
pub mod triple_array;

verus! {

/// Width of one transition row: the number of distinct edge labels a node
/// can carry.  Symbols are character codes taken relative to `'a'`.
pub const VOCAB_SIZE: usize = 128;

/// A character is a usable symbol when its code, taken relative to `'a'`,
/// falls inside a transition row.
pub open spec fn sym_valid(c: char) -> bool {
    'a' as int <= c as int && (c as int - 'a' as int) < (VOCAB_SIZE as int)
}

/// Row index of a valid symbol.
pub open spec fn sym_idx(c: char) -> int {
    c as int - 'a' as int
}

/// Converts a character to its row index, rejecting characters outside the
/// supported alphabet.
pub fn symbol_index(c: char) -> (r: Option<usize>)
    ensures
        r is Some <==> sym_valid(c),
        r is Some ==> r->0 == sym_idx(c),
{
    let u = c as u32;
    if 97 <= u && u - 97 < VOCAB_SIZE as u32 {
        Some((u - 97) as usize)
    } else {
        None
    }
}

} // verus!
