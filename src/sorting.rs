//! Stable sorting of positions by a key, highest key first.

use vstd::prelude::*;

verus! {

/// `positions` lists distinct positions by key, highest first, and equal
/// keys in ascending position.
pub open spec fn is_sorted_by_key_desc(positions: Seq<usize>, keys: Seq<i128>) -> bool {
    forall|a: int, b: int|
        0 <= a < b < positions.len() ==> {
            let ka = keys[#[trigger] positions[a] as int];
            let kb = keys[#[trigger] positions[b] as int];
            ka > kb || (ka == kb && positions[a] < positions[b])
        }
}

/// Relies on `slice::sort_by_key`, which is stable: the positions come out
/// by key, highest first, and positions with equal keys keep their order,
/// here ascending.
#[verifier::external_body]
pub(crate) fn sort_positions_desc(positions: &mut Vec<usize>, keys: &[i128])
    requires
        forall|k: int| 0 <= k < old(positions)@.len() ==> old(positions)@[k] < keys@.len(),
        forall|a: int, b: int| 0 <= a < b < old(positions)@.len() ==> #[trigger] old(positions)@[a] < #[trigger] old(positions)@[b],
    ensures
        final(positions)@.to_multiset() == old(positions)@.to_multiset(),
        is_sorted_by_key_desc(final(positions)@, keys@),
{
    positions.sort_by_key(|&i| std::cmp::Reverse(keys[i]));
}

} // verus!
