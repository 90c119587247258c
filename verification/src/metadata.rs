//! The metadata writer: the dictionary as bytes, once the value is
//! written.

use vstd::prelude::*;
use vstd::utf8::encode_utf8;
use crate::builder::VariantBuilder;
use crate::container::{ints, lemma_le_table_len, push_le_table};
use crate::dictionary::FieldDictionary;
use crate::encoding::{joined, le_table, metadata_bytes, metadata_error, metadata_offset_size, name_parts, starts};
use crate::error::VariantError;
use crate::memory_allocator::{kept, metadata_only, MemoryAllocator};
use crate::variant_utils::{get_integer_size, metadata_header, metadata_header_byte};
use crate::wire::{copy_into, le_bytes, lemma_le_bytes_len, to_le_bytes};

verus! {

/// The part of the metadata before the string heap: the header byte, the
/// count of names, where each name starts in the heap, and the size of the
/// heap.
pub open spec fn metadata_header_bytes(names: Seq<Seq<char>>) -> Seq<u8> {
    let parts = name_parts(names);
    let count = names.len() as int;
    let heap_size = joined(parts, count).len() as int;
    let offset_size = metadata_offset_size(names);
    seq![metadata_header_byte(offset_size)] + le_bytes(count, offset_size as nat) + le_table(
        starts(parts),
        offset_size as nat,
    ) + le_bytes(heap_size, offset_size as nat)
}

/// The size of the metadata of `names`.
pub proof fn lemma_metadata_size(names: Seq<Seq<char>>)
    ensures
        metadata_bytes(names) == metadata_header_bytes(names) + joined(name_parts(names), names.len() as int),
        metadata_header_bytes(names).len() == 1 + metadata_offset_size(names) * (names.len() + 2),
        1 <= metadata_offset_size(names) <= 3,
{
    let width = metadata_offset_size(names) as nat;
    let parts = name_parts(names);
    lemma_le_bytes_len(names.len() as int, width);
    lemma_le_bytes_len(joined(parts, names.len() as int).len() as int, width);
    lemma_le_table_len(starts(parts), width);
    assert(1 + width + names.len() * width + width == 1 + width * (names.len() + 2)) by (nonlinear_arith);
}

/// The joined parts only grow with their count.
pub proof fn lemma_joined_grows(parts: Seq<Seq<u8>>, fewer: int, more: int)
    requires
        0 <= fewer <= more <= parts.len(),
    ensures
        joined(parts, fewer).len() <= joined(parts, more).len(),
    decreases more - fewer,
{
    if fewer < more {
        lemma_joined_grows(parts, fewer, more - 1);
    }
}

/// Where each name of `dictionary` starts in the string heap, and the size
/// of the heap; `None` as soon as the heap is found to be larger than
/// `size_limit`.
pub fn heap_offsets(dictionary: &FieldDictionary, size_limit: usize) -> (result: Option<(Vec<usize>, usize)>)
    ensures
        match result {
            Some((offsets, heap_size)) => {
                &&& ints(offsets@) == starts(name_parts(dictionary@))
                &&& heap_size == joined(name_parts(dictionary@), dictionary@.len() as int).len()
                &&& heap_size <= size_limit
            },
            None => joined(name_parts(dictionary@), dictionary@.len() as int).len() > size_limit,
        },
{
    let ghost parts = name_parts(dictionary@);
    let mut offsets: Vec<usize> = Vec::new();
    let mut heap_size: usize = 0;
    let mut i: usize = 0;
    let count = dictionary.len();
    while i < count
        invariant
            i <= count,
            count == dictionary@.len(),
            parts == name_parts(dictionary@),
            offsets@.len() == i,
            forall|j: int| 0 <= j < i ==> offsets@[j] == joined(parts, j).len(),
            heap_size == joined(parts, i as int).len(),
            heap_size <= size_limit,
        decreases count - i,
    {
        let length = dictionary.name(i).as_bytes().len();
        offsets.push(heap_size);
        assert(parts[i as int] == encode_utf8(dictionary@[i as int]));
        if length > size_limit - heap_size {
            proof {
                lemma_joined_grows(parts, i + 1, count as int);
            }
            return None;
        }
        heap_size = heap_size + length;
        i += 1;
    }
    assert(ints(offsets@) =~= starts(parts));
    Some((offsets, heap_size))
}

impl VariantBuilder {
    /// What writing the metadata comes to. Where nothing stops it, the
    /// metadata buffer begins with the metadata bytes of the dictionary,
    /// and `result` is their count. Where it stops, nothing is written, and
    /// `result` says why: the limit refuses the metadata, or the memory
    /// allocator, which is one that can fail, did not grow the metadata
    /// buffer, which was too short.
    pub open spec fn metadata_outcome<T: MemoryAllocator>(
        &self,
        allocator: &T,
        allocator_before: &T,
        result: Result<usize, VariantError>,
    ) -> bool {
        let bytes = metadata_bytes(self.dictionary@);
        match result {
            Ok(size) => {
                &&& metadata_error(self.dictionary@, self.size_limit as int) is None
                &&& size == bytes.len()
                &&& size <= allocator.metadata_bytes().len()
                &&& allocator.metadata_bytes().take(size as int) == bytes
            },
            Err(error) => {
                ||| error == VariantError::SizeLimitExceeded && metadata_error(
                    self.dictionary@,
                    self.size_limit as int,
                ) is Some && allocator.metadata_bytes() == allocator_before.metadata_bytes()
                ||| error == VariantError::AllocationFailed && metadata_error(
                    self.dictionary@,
                    self.size_limit as int,
                ) is None && allocator_before.metadata_bytes().len() < bytes.len()
                    && !allocator_before.infallible() && kept(
                    allocator_before.metadata_bytes(),
                    allocator.metadata_bytes(),
                )
            },
        }
    }

    /// Writes the names of the dictionary, in the order of their ids, to
    /// the metadata buffer, from `at` on. Room for all was made.
    fn write_names<T: MemoryAllocator>(&self, allocator: &mut T, at: usize, heap_size: usize)
        requires
            self.dictionary.wf(),
            heap_size == joined(name_parts(self.dictionary@), self.dictionary@.len() as int).len(),
            at + heap_size <= old(allocator).metadata_bytes().len(),
        ensures
            metadata_only(final(allocator), old(allocator)),
            final(allocator).metadata_bytes().len() == old(allocator).metadata_bytes().len(),
            final(allocator).metadata_bytes().take(at as int) == old(allocator).metadata_bytes().take(at as int),
            final(allocator).metadata_bytes().subrange(at as int, at + heap_size) == joined(
                name_parts(self.dictionary@),
                self.dictionary@.len() as int,
            ),
    {
        let ghost parts = name_parts(self.dictionary@);
        let count = self.dictionary.len();
        let mut cursor: usize = at;
        let mut i: usize = 0;
        assert(allocator.metadata_bytes().subrange(at as int, at as int) =~= joined(parts, 0));
        while i < count
            invariant
                i <= count,
                count == self.dictionary@.len(),
                self.dictionary.wf(),
                parts == name_parts(self.dictionary@),
                heap_size == joined(parts, count as int).len(),
                at + heap_size <= allocator.metadata_bytes().len(),
                cursor == at + joined(parts, i as int).len(),
                cursor <= at + heap_size,
                metadata_only(allocator, old(allocator)),
                allocator.metadata_bytes().len() == old(allocator).metadata_bytes().len(),
                allocator.metadata_bytes().take(at as int) == old(allocator).metadata_bytes().take(at as int),
                allocator.metadata_bytes().subrange(at as int, cursor as int) == joined(parts, i as int),
            decreases count - i,
        {
            let bytes = self.dictionary.name(i).as_bytes();
            proof {
                assert(parts[i as int] == encode_utf8(self.dictionary@[i as int]));
                assert(joined(parts, i + 1) == joined(parts, i as int) + parts[i as int]);
                lemma_joined_grows(parts, i + 1, count as int);
            }
            let ghost before = allocator.metadata_bytes();
            let buffer = allocator.borrow_metadata_buffer();
            assert(bytes@ == parts[i as int]);
            assert(cursor + bytes@.len() <= buffer.len());
            copy_into(buffer, cursor, bytes);
            proof {
                let after = allocator.metadata_bytes();
                assert(after.take(at as int) =~= before.take(at as int));
                assert(after.subrange(at as int, cursor + bytes@.len()) =~= before.subrange(
                    at as int,
                    cursor as int,
                ) + bytes@);
            }
            cursor = cursor + bytes.len();
            i += 1;
        }
    }

    /// Writes the metadata: the dictionary as it is now, in the order of
    /// the ids. Returns the size of the metadata.
    pub fn write_metadata<T: MemoryAllocator>(&self, allocator: &mut T) -> (result: Result<usize, VariantError>)
        requires
            self.dictionary.wf(),
        ensures
            metadata_only(final(allocator), old(allocator)),
            self.metadata_outcome(final(allocator), old(allocator), result),
    {
        let ghost names = self.dictionary@;
        let ghost parts = name_parts(names);
        proof {
            lemma_metadata_size(names);
        }
        let num_keys = self.dictionary.len();
        if num_keys > self.size_limit {
            return Err(VariantError::SizeLimitExceeded);
        }
        let (offsets, heap_size) = match heap_offsets(&self.dictionary, self.size_limit) {
            Some(found) => found,
            None => {
                return Err(VariantError::SizeLimitExceeded);
            },
        };
        let max_size = if num_keys > heap_size { num_keys } else { heap_size };
        let offset_size = get_integer_size(max_size);
        assert(offset_size * (num_keys + 2) <= 3 * (num_keys + 2)) by (nonlinear_arith)
            requires
                offset_size <= 3,
        ;
        let metadata_size: u128 = 1 + (offset_size as u128) * (num_keys as u128 + 2) + heap_size as u128;
        if metadata_size > self.size_limit as u128 {
            return Err(VariantError::SizeLimitExceeded);
        }
        let metadata_size = metadata_size as usize;
        let cur_len = allocator.borrow_metadata_buffer().len();
        if metadata_size > cur_len {
            match allocator.ensure_metadata_buffer_size(metadata_size) {
                Ok(()) => {},
                Err(_) => {
                    return Err(VariantError::AllocationFailed);
                },
            }
        }
        let mut header: Vec<u8> = Vec::new();
        header.push(metadata_header(offset_size as u8));
        let mut count = to_le_bytes(num_keys as u128, offset_size);
        header.append(&mut count);
        push_le_table(&mut header, &offsets, offset_size);
        let mut terminal = to_le_bytes(heap_size as u128, offset_size);
        header.append(&mut terminal);
        assert(header@ =~= metadata_header_bytes(names));
        let buffer = allocator.borrow_metadata_buffer();
        copy_into(buffer, 0, header.as_slice());
        assert(allocator.metadata_bytes().take(header@.len() as int) =~= header@);
        self.write_names(allocator, header.len(), heap_size);
        proof {
            let written = allocator.metadata_bytes();
            assert(written.take(metadata_size as int) =~= written.take(header@.len() as int) + written.subrange(
                header@.len() as int,
                header@.len() + heap_size,
            ));
        }
        Ok(metadata_size)
    }
}

} // verus!
