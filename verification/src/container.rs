//! Closing a container: when the children of an array or of an object are
//! written, their size is known, and the header goes in before them.

use vstd::prelude::*;
use crate::builder::VariantBuilder;
use crate::encoding::{array_header, le_table, object_header};
use crate::error::VariantError;
use crate::fields::{entry_ids, entry_models, entry_offsets, max_id, sort_entries, sort_fields, FieldEntry};
use crate::memory_allocator::{lemma_kept_same, value_only, MemoryAllocator};
use crate::variant_utils::{
    array_header as array_header_byte_of, get_integer_size, object_header as object_header_byte_of, U32_SIZE,
    U8_MAX, U8_SIZE,
};
use crate::wire::{copy_into, le_bytes, lemma_le_bytes_len, overwritten, shift_right, to_le_bytes};

verus! {

/// The values of `values` as mathematical integers.
pub open spec fn ints(values: Seq<usize>) -> Seq<int> {
    Seq::new(values.len(), |i: int| values[i] as int)
}

/// A table of `width`-byte values has `width` bytes for each.
pub proof fn lemma_le_table_len(values: Seq<int>, width: nat)
    ensures
        le_table(values, width).len() == values.len() * width,
    decreases values.len(),
{
    if values.len() > 0 {
        lemma_le_table_len(values.drop_last(), width);
        lemma_le_bytes_len(values.last(), width);
        assert((values.len() - 1) * width + width == values.len() * width) by (nonlinear_arith);
    }
}

/// Appends each of `values`, as `width` little-endian bytes, to `out`.
pub fn push_le_table(out: &mut Vec<u8>, values: &Vec<usize>, width: usize)
    ensures
        final(out)@ == old(out)@ + le_table(ints(values@), width as nat),
{
    let mut i: usize = 0;
    assert(ints(values@).take(0) =~= Seq::<int>::empty());
    assert(out@ =~= old(out)@ + le_table(ints(values@).take(0), width as nat));
    while i < values.len()
        invariant
            i <= values@.len(),
            out@ == old(out)@ + le_table(ints(values@).take(i as int), width as nat),
        decreases values@.len() - i,
    {
        let mut bytes = to_le_bytes(values[i] as u128, width);
        let ghost before = out@;
        out.append(&mut bytes);
        proof {
            let upto = ints(values@).take(i + 1);
            assert(upto.drop_last() =~= ints(values@).take(i as int));
            assert(upto.last() == values@[i as int] as int);
            assert(out@ =~= old(out)@ + le_table(upto, width as nat));
        }
        i += 1;
    }
    assert(ints(values@).take(i as int) =~= ints(values@));
}

/// The header of an array whose elements start at `offsets` and take
/// `data_size` bytes in all.
pub fn array_header_bytes(offsets: &Vec<usize>, data_size: usize) -> (header: Vec<u8>)
    ensures
        header@ == array_header(ints(offsets@), data_size as int),
{
    let num_offsets = offsets.len();
    let large_size = num_offsets > U8_MAX as usize;
    let size_bytes = if large_size { U32_SIZE as usize } else { U8_SIZE as usize };
    let offset_size = get_integer_size(data_size);
    let mut header: Vec<u8> = Vec::new();
    header.push(array_header_byte_of(large_size, offset_size as u8));
    let mut count = to_le_bytes(num_offsets as u128, size_bytes);
    header.append(&mut count);
    push_le_table(&mut header, offsets, offset_size);
    let mut terminal = to_le_bytes(data_size as u128, offset_size);
    header.append(&mut terminal);
    assert(header@ =~= array_header(ints(offsets@), data_size as int));
    header
}

/// The largest id among `fields`, or 0 where there is none.
pub fn largest_id(fields: &Vec<FieldEntry>) -> (largest: usize)
    ensures
        largest == max_id(entry_models(fields@)),
{
    let mut largest: usize = 0;
    let mut i: usize = 0;
    assert(entry_models(fields@).take(0) =~= Seq::empty());
    while i < fields.len()
        invariant
            i <= fields@.len(),
            largest == max_id(entry_models(fields@).take(i as int)),
        decreases fields@.len() - i,
    {
        proof {
            let upto = entry_models(fields@).take(i + 1);
            assert(upto.drop_last() =~= entry_models(fields@).take(i as int));
            assert(upto.last() == fields@[i as int]@);
        }
        if fields[i].id > largest {
            largest = fields[i].id;
        }
        i += 1;
    }
    assert(entry_models(fields@).take(i as int) =~= entry_models(fields@));
    largest
}

/// Appends to `header` the id of each of `fields` in `id_size` bytes, then
/// the offset of each in `offset_size` bytes, then `data_size` in
/// `offset_size` bytes.
pub fn write_field_ids_and_offsets(
    header: &mut Vec<u8>,
    id_size: usize,
    offset_size: usize,
    data_size: usize,
    fields: &Vec<FieldEntry>,
)
    ensures
        final(header)@ == old(header)@ + le_table(entry_ids(entry_models(fields@)), id_size as nat) + le_table(
            entry_offsets(entry_models(fields@)),
            offset_size as nat,
        ) + le_bytes(data_size as int, offset_size as nat),
{
    let mut ids: Vec<usize> = Vec::new();
    let mut offsets: Vec<usize> = Vec::new();
    let mut i: usize = 0;
    while i < fields.len()
        invariant
            i <= fields@.len(),
            ids@.len() == i,
            offsets@.len() == i,
            forall|j: int| 0 <= j < i ==> ids@[j] == fields@[j].id && offsets@[j] == fields@[j].offset,
        decreases fields@.len() - i,
    {
        ids.push(fields[i].id);
        offsets.push(fields[i].offset);
        i += 1;
    }
    assert(ints(ids@) =~= entry_ids(entry_models(fields@)));
    assert(ints(offsets@) =~= entry_offsets(entry_models(fields@)));
    push_le_table(header, &ids, id_size);
    push_le_table(header, &offsets, offset_size);
    let mut terminal = to_le_bytes(data_size as u128, offset_size);
    header.append(&mut terminal);
}

/// The header of an object whose fields, in the order of their names, are
/// `sorted` and whose values take `data_size` bytes.
pub fn object_header_bytes(sorted: &Vec<FieldEntry>, data_size: usize) -> (header: Vec<u8>)
    ensures
        header@ == object_header(entry_models(sorted@), data_size as int),
{
    let num_fields = sorted.len();
    let max_id = largest_id(sorted);
    let large_size = num_fields > U8_MAX as usize;
    let size_bytes: usize = if large_size { U32_SIZE as usize } else { U8_SIZE as usize };
    let id_size = get_integer_size(max_id);
    let offset_size = get_integer_size(data_size);
    let mut header: Vec<u8> = Vec::new();
    header.push(object_header_byte_of(large_size, id_size as u8, offset_size as u8));
    let mut count = to_le_bytes(num_fields as u128, size_bytes);
    header.append(&mut count);
    write_field_ids_and_offsets(&mut header, id_size, offset_size, data_size, sorted);
    assert(header@ =~= object_header(entry_models(sorted@), data_size as int));
    header
}

impl VariantBuilder {
    /// What closing a container comes to, where `header` is its header and
    /// its children were written from `start` on: the header stands before
    /// the children where the limit and the memory allocator grant the room
    /// for it, and `result` says which of the two refused it otherwise, in
    /// which case nothing is moved or written.
    pub open spec fn close_outcome<T: MemoryAllocator>(
        &self,
        allocator: &T,
        before: &VariantBuilder,
        allocator_before: &T,
        result: Result<(), VariantError>,
        start: int,
        header: Seq<u8>,
    ) -> bool {
        match result {
            Ok(()) => {
                &&& before.size + header.len() <= before.size_limit
                &&& self.size == before.size + header.len()
                &&& self.size_limit == before.size_limit
                &&& self.size <= allocator.value_bytes().len()
                &&& self.written(allocator) == before.written(allocator_before).take(start) + header
                    + before.written(allocator_before).skip(start)
                &&& allocator.value_bytes().len() >= allocator_before.value_bytes().len()
                &&& value_only(allocator, allocator_before)
                &&& self.dictionary == before.dictionary
            },
            Err(error) => self.refusal(allocator, before, allocator_before, error, header.len() as int),
        }
    }

    /// Moves the bytes in `start..end` of the value buffer to `new_start..`
    /// and the write cursor as far to the right. Fails, and moves nothing,
    /// where the value buffer has no room for that.
    pub fn shift_bytes<T: MemoryAllocator>(&mut self, allocator: &mut T, new_start: usize, start: usize, end: usize) -> (result:
        Result<(), VariantError>)
        requires
            start <= new_start,
            start <= end <= old(self).size,
        ensures
            final(self).size_limit == old(self).size_limit,
            final(self).dictionary == old(self).dictionary,
            value_only(final(allocator), old(allocator)),
            final(allocator).value_bytes().len() == old(allocator).value_bytes().len(),
            match result {
                Ok(()) => {
                    &&& old(self).size + (new_start - start) <= old(allocator).value_bytes().len()
                    &&& final(self).size == old(self).size + (new_start - start)
                    &&& final(allocator).value_bytes() == overwritten(
                        old(allocator).value_bytes(),
                        new_start as int,
                        old(allocator).value_bytes().subrange(start as int, end as int),
                    )
                },
                Err(error) => {
                    &&& error == VariantError::InternalInvariant
                    &&& old(self).size + (new_start - start) > old(allocator).value_bytes().len()
                    &&& final(self).size == old(self).size
                    &&& final(allocator).value_bytes() == old(allocator).value_bytes()
                },
            },
    {
        let additional = new_start - start;
        let borrowed_value = allocator.borrow_value_buffer();
        if self.size > borrowed_value.len() || additional > borrowed_value.len() - self.size {
            return Err(VariantError::InternalInvariant);
        }
        shift_right(borrowed_value, start, end, new_start);
        self.size += additional;
        Ok(())
    }

    /// Puts `header` before the bytes that were written from `start` on.
    pub fn insert_header<T: MemoryAllocator>(&mut self, allocator: &mut T, start: usize, header: &[u8]) -> (result:
        Result<(), VariantError>)
        requires
            old(self).ready(old(allocator)),
            start <= old(self).size,
        ensures
            final(self).wf(),
            final(self).close_outcome(final(allocator), old(self), old(allocator), result, start as int, header@),
    {
        proof {
            lemma_kept_same(allocator.value_bytes());
        }
        if header.len() > self.size_limit - self.size {
            return Err(VariantError::SizeLimitExceeded);
        }
        self.check_capacity(allocator, header.len())?;
        let ghost written = self.written(allocator);
        let end = self.size;
        self.shift_bytes(allocator, start + header.len(), start, end)?;
        let value_buffer = allocator.borrow_value_buffer();
        copy_into(value_buffer, start, header);
        assert(self.written(allocator) =~= written.take(start as int) + header@ + written.skip(start as int));
        Ok(())
    }

    /// Closes an array whose elements were written from `start` on and
    /// start at `offsets`: puts the header before them.
    pub fn finish_writing_array<T: MemoryAllocator>(&mut self, allocator: &mut T, start: usize, offsets: &Vec<usize>) -> (result:
        Result<(), VariantError>)
        requires
            old(self).ready(old(allocator)),
            start <= old(self).size,
        ensures
            final(self).wf(),
            final(self).close_outcome(
                final(allocator),
                old(self),
                old(allocator),
                result,
                start as int,
                array_header(ints(offsets@), old(self).size - start),
            ),
    {
        let data_size = self.size - start;
        let header = array_header_bytes(offsets, data_size);
        self.insert_header(allocator, start, header.as_slice())
    }

    /// The id of the field name `key`: the one it has, or, where it has
    /// none, the next free one, which it then gets.
    pub fn add_key(&mut self, key: &str) -> (id: usize)
        requires
            old(self).wf(),
        ensures
            final(self).wf(),
            final(self).size == old(self).size,
            final(self).size_limit == old(self).size_limit,
            final(self).dictionary@ == crate::dictionary::dictionary_add(old(self).dictionary@, key@),
            id == crate::dictionary::field_id(final(self).dictionary@, key@),
    {
        self.dictionary.add(key)
    }

    /// Closes an object whose values were written from `start` on and whose
    /// fields, in the order in which they were written, are `fields`: sorts
    /// the fields by name, fields with the same name staying in their
    /// order, and puts the header, which lists them in that order, before
    /// the values. The fields are left sorted whether or not the header
    /// finds room.
    pub fn finish_writing_object<'a, T: MemoryAllocator>(
        &mut self,
        allocator: &mut T,
        start: usize,
        fields: &mut Vec<FieldEntry<'a>>,
    ) -> (result: Result<(), VariantError>)
        requires
            old(self).ready(old(allocator)),
            start <= old(self).size,
        ensures
            final(self).wf(),
            entry_models(final(fields)@) == sort_entries(entry_models(old(fields)@)),
            final(self).close_outcome(
                final(allocator),
                old(self),
                old(allocator),
                result,
                start as int,
                object_header(sort_entries(entry_models(old(fields)@)), old(self).size - start),
            ),
    {
        *fields = sort_fields(fields);
        let data_size = self.size - start;
        let header = object_header_bytes(fields, data_size);
        self.insert_header(allocator, start, header.as_slice())
    }
}

} // verus!
