//! Stored node orders of the example road networks.
use crate::library::{read_to_usize_vec, u32_at};
use vstd::prelude::*;

verus! {

/// The node order of the Karlsruhe network, from the contents of its order
/// file (32-bit little-endian ids).
pub fn ord_karlsruhe(file_contents: &[u8]) -> (r: Vec<usize>)
    requires
        file_contents@.len() % 4 == 0,
    ensures
        r@.len() == file_contents@.len() / 4,
        forall|i: int| 0 <= i < r@.len() ==> #[trigger] r@[i] == u32_at(file_contents@, i),
{
    read_to_usize_vec(file_contents)
}

/// The node order of the Germany network, from the contents of its order
/// file (32-bit little-endian ids).
pub fn ord_germany(file_contents: &[u8]) -> (r: Vec<usize>)
    requires
        file_contents@.len() % 4 == 0,
    ensures
        r@.len() == file_contents@.len() / 4,
        forall|i: int| 0 <= i < r@.len() ==> #[trigger] r@[i] == u32_at(file_contents@, i),
{
    read_to_usize_vec(file_contents)
}

/// The node order of the Europe network, from the contents of its order file
/// (32-bit little-endian ids).
pub fn ord_europe(file_contents: &[u8]) -> (r: Vec<usize>)
    requires
        file_contents@.len() % 4 == 0,
    ensures
        r@.len() == file_contents@.len() / 4,
        forall|i: int| 0 <= i < r@.len() ==> #[trigger] r@[i] == u32_at(file_contents@, i),
{
    read_to_usize_vec(file_contents)
}

} // verus!
