//! Operations on mutable slices.

use vstd::prelude::*;

verus! {

/// Borrows the elements `start..end` of a slice mutably.
///
/// Trusted: this is `core`'s `IndexMut` on a slice with a `Range<usize>`. The contract claims that
/// the result is that range, that the range keeps its length for as long as it is borrowed (a
/// slice reference has no way to change length), and that once the borrow ends, the slice holds
/// what was left in the range, with everything outside the range untouched.
#[verifier::external_body]
pub(crate) fn range_mut<T>(slice: &mut [T], start: usize, end: usize) -> (range: &mut [T])
    requires
        start <= end <= old(slice)@.len(),
    ensures
        range@ == old(slice)@.subrange(start as int, end as int),
        final(range)@.len() == range@.len(),
        final(slice)@ == old(slice)@.take(start as int) + final(range)@ + old(slice)@.skip(
            end as int,
        ),
{
    &mut slice[start..end]
}

/// Copies `source` over `target`, which must be of the same length.
pub(crate) fn copy_over<T: Copy>(target: &mut [T], source: &[T])
    requires
        old(target)@.len() == source@.len(),
    ensures
        final(target)@ == source@,
{
    let mut i: usize = 0;
    while i < source.len()
        invariant
            i <= source@.len(),
            target@.len() == source@.len(),
            target@.take(i as int) == source@.take(i as int),
        decreases source@.len() - i,
    {
        let ghost before = target@;
        target[i] = source[i];
        i = i + 1;
        assert(target@.take(i as int) =~= source@.take(i as int)) by {
            assert forall|j: int| 0 <= j < i implies target@[j] == source@[j] by {
                if j < i - 1 {
                    assert(before.take(i - 1)[j] == source@.take(i - 1)[j]);
                }
            }
        }
    }
    assert(target@ =~= target@.take(i as int));
    assert(source@ =~= source@.take(i as int));
}

} // verus!
