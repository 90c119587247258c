//! The buffers that an encode writes into, and who owns them.

use vstd::prelude::*;
use crate::error::VariantError;

verus! {

/// The owner of the two growing buffers of an encode. The encoder borrows a
/// buffer, writes, and gives it back before it asks for more room: growth
/// may move a buffer.
pub trait MemoryAllocator {
    /// What the value buffer holds.
    open spec fn value_bytes(&self) -> Seq<u8> {
        arbitrary()
    }

    /// What the metadata buffer holds.
    open spec fn metadata_bytes(&self) -> Seq<u8> {
        arbitrary()
    }

    /// This allocator never fails to grow a buffer. An allocator says so
    /// only where that is proved of it.
    open spec fn infallible(&self) -> bool {
        false
    }

    /// Returns the slice that the value is written to. What was written
    /// through an earlier borrow is still there.
    fn borrow_value_buffer(&mut self) -> (buffer: &mut [u8])
        ensures
            buffer@ == old(self).value_bytes(),
            final(self).value_bytes() == final(buffer)@,
            final(self).metadata_bytes() == old(self).metadata_bytes(),
            final(self).infallible() == old(self).infallible(),
    ;

    /// Ensures that the value buffer has at least `size` bytes. Whether or
    /// not that succeeds, the buffer is no shorter than it was, and the
    /// bytes that it held stay where they were: what was written is there
    /// at every borrow.
    fn ensure_value_buffer_size(&mut self, size: usize) -> (result: Result<(), VariantError>)
        ensures
            final(self).metadata_bytes() == old(self).metadata_bytes(),
            final(self).infallible() == old(self).infallible(),
            kept(old(self).value_bytes(), final(self).value_bytes()),
            result is Ok ==> final(self).value_bytes().len() >= size,
            old(self).infallible() ==> result is Ok,
    ;

    /// Returns the slice that the metadata is written to. What was written
    /// through an earlier borrow is still there.
    fn borrow_metadata_buffer(&mut self) -> (buffer: &mut [u8])
        ensures
            buffer@ == old(self).metadata_bytes(),
            final(self).metadata_bytes() == final(buffer)@,
            final(self).value_bytes() == old(self).value_bytes(),
            final(self).infallible() == old(self).infallible(),
    ;

    /// Ensures that the metadata buffer has at least `size` bytes. Whether
    /// or not that succeeds, the buffer is no shorter than it was, and the
    /// bytes that it held stay where they were.
    fn ensure_metadata_buffer_size(&mut self, size: usize) -> (result: Result<(), VariantError>)
        ensures
            final(self).value_bytes() == old(self).value_bytes(),
            final(self).infallible() == old(self).infallible(),
            kept(old(self).metadata_bytes(), final(self).metadata_bytes()),
            result is Ok ==> final(self).metadata_bytes().len() >= size,
            old(self).infallible() ==> result is Ok,
    ;
}

/// The buffer `after` is no shorter than the buffer `before`, and what
/// `before` held is where it was.
pub open spec fn kept(before: Seq<u8>, after: Seq<u8>) -> bool {
    &&& after.len() >= before.len()
    &&& after.take(before.len() as int) == before
}

/// A buffer keeps what it holds where nothing is done to it.
pub proof fn lemma_kept_same(bytes: Seq<u8>)
    ensures
        kept(bytes, bytes),
{
    assert(bytes.take(bytes.len() as int) =~= bytes);
}

/// From `before` to `after` nothing has changed but the value buffer.
pub open spec fn value_only<T: MemoryAllocator>(after: &T, before: &T) -> bool {
    &&& after.metadata_bytes() == before.metadata_bytes()
    &&& after.infallible() == before.infallible()
}

/// From `before` to `after` nothing has changed but the metadata buffer.
pub open spec fn metadata_only<T: MemoryAllocator>(after: &T, before: &T) -> bool {
    &&& after.value_bytes() == before.value_bytes()
    &&& after.infallible() == before.infallible()
}

/// `after` is `before`, filled up with zeros to `size` bytes where it was
/// shorter than that.
pub open spec fn zero_filled(before: Seq<u8>, after: Seq<u8>, size: usize) -> bool {
    &&& after.len() == if size > before.len() { size as int } else { before.len() as int }
    &&& after.take(before.len() as int) == before
    &&& forall|i: int| before.len() <= i < after.len() ==> after[i] == 0
}

/// `std::vec::Vec::into_boxed_slice`: the boxed slice holds the elements of
/// the vector, in the same order.
#[verifier::external_body]
fn into_boxed_slice(bytes: Vec<u8>) -> (boxed: Box<[u8]>)
    ensures
        boxed@ == bytes@,
{
    bytes.into_boxed_slice()
}

/// A memory allocator that keeps each buffer in a boxed slice and replaces
/// it by a larger one, filled up with zeros, when more room is asked for.
pub struct SampleMemoryAllocator {
    pub value_buffer: Box<[u8]>,
    pub metadata_buffer: Box<[u8]>,
}

/// `buffer`, or a copy of it filled up with zeros to `size` bytes where it
/// is shorter than that.
fn grow(buffer: &[u8], size: usize) -> (larger: Vec<u8>)
    ensures
        zero_filled(buffer@, larger@, size),
{
    let mut larger: Vec<u8> = Vec::new();
    let mut i: usize = 0;
    while i < buffer.len()
        invariant
            i <= buffer@.len(),
            larger@ == buffer@.take(i as int),
        decreases buffer@.len() - i,
    {
        larger.push(buffer[i]);
        assert(larger@ =~= buffer@.take(i + 1));
        i += 1;
    }
    assert(buffer@.take(i as int) =~= buffer@);
    while i < size
        invariant
            buffer@.len() <= i,
            i <= size || i == buffer@.len(),
            i == larger@.len(),
            larger@.take(buffer@.len() as int) == buffer@,
            forall|j: int| buffer@.len() <= j < larger@.len() ==> larger@[j] == 0,
        decreases size - i,
    {
        let ghost before = larger@;
        larger.push(0);
        assert(larger@.take(buffer@.len() as int) =~= before.take(buffer@.len() as int));
        i += 1;
    }
    assert(larger@.take(buffer@.len() as int) == buffer@);
    larger
}

impl MemoryAllocator for SampleMemoryAllocator {
    open spec fn value_bytes(&self) -> Seq<u8> {
        self.value_buffer@
    }

    open spec fn metadata_bytes(&self) -> Seq<u8> {
        self.metadata_buffer@
    }

    open spec fn infallible(&self) -> bool {
        true
    }

    fn borrow_value_buffer(&mut self) -> (buffer: &mut [u8]) {
        &mut *self.value_buffer
    }

    /// Never fails, and fills the new room with zeros.
    fn ensure_value_buffer_size(&mut self, size: usize) -> (result: Result<(), VariantError>)
        ensures
            result is Ok,
            zero_filled(old(self).value_buffer@, final(self).value_buffer@, size),
    {
        let cur_len = self.value_buffer.len();
        assert(self.value_buffer@.take(cur_len as int) =~= self.value_buffer@);
        if size > cur_len {
            let larger = grow(&*self.value_buffer, size);
            self.value_buffer = into_boxed_slice(larger);
        }
        Ok(())
    }

    fn borrow_metadata_buffer(&mut self) -> (buffer: &mut [u8]) {
        &mut *self.metadata_buffer
    }

    /// Never fails, and fills the new room with zeros.
    fn ensure_metadata_buffer_size(&mut self, size: usize) -> (result: Result<(), VariantError>)
        ensures
            result is Ok,
            zero_filled(old(self).metadata_buffer@, final(self).metadata_buffer@, size),
    {
        let cur_len = self.metadata_buffer.len();
        assert(self.metadata_buffer@.take(cur_len as int) =~= self.metadata_buffer@);
        if size > cur_len {
            let larger = grow(&*self.metadata_buffer, size);
            self.metadata_buffer = into_boxed_slice(larger);
        }
        Ok(())
    }
}

} // verus!
