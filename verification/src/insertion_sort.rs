use vstd::prelude::*;
use crate::events::{apply_ops_keys, emitted, no_done, ops_wf, Operation};
use crate::models::{key_seq, same_key_classes, sorted_keys, SortBar};
use crate::sort_utils::insertion_sort_range_visual;

verus! {

/// Insertion sort of the whole store, with one `Compare` per probe and
/// one `Swap` per exchange.  It is stable: every key class of the store
/// is preserved.
pub fn insertion_sort(bars: &mut Vec<SortBar>, ops: &mut Vec<Operation>)
    ensures
        final(bars)@.len() == old(bars)@.len(),
        sorted_keys(final(bars)@),
        same_key_classes(final(bars)@, old(bars)@),
        final(bars)@.to_multiset() == old(bars)@.to_multiset(),
        old(ops)@.is_prefix_of(final(ops)@),
        ops_wf(emitted(old(ops)@, final(ops)@), old(bars)@.len() as nat),
        no_done(emitted(old(ops)@, final(ops)@)),
        apply_ops_keys(key_seq(old(bars)@), emitted(old(ops)@, final(ops)@)) == key_seq(
            final(bars)@,
        ),
{
    let n = bars.len();
    insertion_sort_range_visual(bars, 0, n, ops);
}

} // verus!
