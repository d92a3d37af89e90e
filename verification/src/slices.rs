use vstd::prelude::*;

verus! {

/// `<[E]>::copy_from_slice` of std: the destination becomes a copy of the
/// source.  It panics unless both are of one length.
pub assume_specification<E>[ <[E]>::copy_from_slice ](dst: &mut [E], src: &[E]) where E: Copy
    requires
        old(dst)@.len() == src@.len(),
    ensures
        final(dst)@ == src@,
;

} // verus!
