use vstd::prelude::*;

verus! {

/// A byte region borrowed for the lifetime of its mapping.
pub struct Memory<'a> {
    inner: &'a mut [u8],
    /// Length of the region in bytes at the time it was wrapped.
    pub size: usize,
}

impl<'a> Memory<'a> {
    /// The bytes of the region.
    pub closed spec fn view(&self) -> Seq<u8> {
        (*self.inner)@
    }

    /// The value of the `size` field.
    pub closed spec fn recorded_size(&self) -> usize {
        self.size
    }

    /// A region is never longer than an index can address.
    pub proof fn lemma_len_bounded(&self)
        ensures
            self@.len() <= usize::MAX,
    {
        vstd::slice::axiom_spec_len(&*self.inner);
    }

    /// Wraps a byte buffer.
    pub fn new(inner: &'a mut [u8]) -> (memory: Memory<'a>)
        ensures
            memory@ == old(inner)@,
            memory.recorded_size() == old(inner)@.len(),
    {
        let size: usize = inner.len();
        Memory { inner, size }
    }

    /// Returns memory reference.
    pub fn mem_ref(&self) -> (bytes: &[u8])
        ensures
            bytes@ == self@,
    {
        self.inner
    }

    /// Returns mutable memory reference.
    pub fn mem_ref_mut(&mut self) -> (bytes: &mut [u8])
        ensures
            bytes@ == old(self)@,
            final(self)@ == final(bytes)@,
            final(self).recorded_size() == old(self).recorded_size(),
    {
        self.inner
    }
}

} // verus!
