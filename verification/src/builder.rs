//! The value encoder: a writer that appends one physical value after the
//! other to the value buffer.

use vstd::prelude::*;
use vstd::utf8::encode_utf8;
use crate::dictionary::FieldDictionary;
use crate::encoding::{decimal_bytes, double_bytes, int_bytes, string_bytes};
use crate::error::VariantError;
use crate::memory_allocator::{kept, lemma_kept_same, value_only, MemoryAllocator};
use crate::variant_utils::{
    primitive_header, primitive_header_byte, short_string_header, short_string_header_byte, DECIMAL16,
    DECIMAL4, DECIMAL8, DOUBLE, FALSE, INT1, INT2, INT4, INT8, LONG_STR, MAX_PRECISION_DECIMAL_4,
    MAX_PRECISION_DECIMAL_8, MAX_SHORT_STR_SIZE, MAX_UNSCALED_DECIMAL_4, MAX_UNSCALED_DECIMAL_8, NULL,
    TRUE, U32_SIZE, U64_SIZE,
};
use crate::wire::{copy_into, le_bytes, lemma_le_bytes_len, overwritten, to_le_bytes, twos_complement};

verus! {

/// The state of one encode: how much of the value buffer is written, how
/// much may be, and the field names met so far.
pub struct VariantBuilder {
    /// The write cursor: the number of bytes of the value buffer that are
    /// written.
    pub size: usize,
    /// The size that neither buffer may exceed.
    pub size_limit: usize,
    /// The field names met so far.
    pub dictionary: FieldDictionary,
}

/// The smallest power of two, starting from the power `power`, that is no
/// less than `n`.
pub open spec fn power_of_two_from(power: nat, n: nat) -> nat
    decreases (if power < n { n - power } else { 0 }),
{
    if power == 0 || power >= n {
        power
    } else {
        power_of_two_from(2 * power, n)
    }
}

/// The size that a buffer is grown to where it has to hold `n` bytes: the
/// smallest power of two that is no less than `n`, or `n` itself where that
/// power is beyond `usize`.
pub open spec fn grown_size(n: nat) -> nat {
    if power_of_two_from(1, n) <= usize::MAX {
        power_of_two_from(1, n)
    } else {
        n
    }
}

/// The smallest power of two that is no less than `n`, or `n` itself where
/// that power is beyond `usize`.
pub fn next_power_of_two(n: usize) -> (power: usize)
    ensures
        power == grown_size(n as nat),
        power >= n,
{
    let mut power: usize = 1;
    while power < n
        invariant
            power >= 1,
            power_of_two_from(power as nat, n as nat) == power_of_two_from(1, n as nat),
        decreases (if power < n { n - power } else { 0 }),
    {
        if power > usize::MAX / 2 {
            proof {
                lemma_power_of_two_from_grows(2 * power as nat, n as nat);
            }
            return n;
        }
        power = power * 2;
    }
    power
}

/// `power_of_two_from` is no less than the power that it starts from.
pub proof fn lemma_power_of_two_from_grows(power: nat, n: nat)
    ensures
        power_of_two_from(power, n) >= power,
    decreases (if power < n { n - power } else { 0 }),
{
    if !(power == 0 || power >= n) {
        lemma_power_of_two_from_grows(2 * power, n);
    }
}

/// An encode that was refused `room` more bytes at the write cursor `size`
/// failed with `error`: the size limit refuses them, or the limit allows
/// them, the buffer of `buffer_size` bytes is too short for them and the
/// memory allocator, which is one that can fail, did not grow it.
pub open spec fn refused(
    error: VariantError,
    size: int,
    room: int,
    limit: int,
    buffer_size: int,
    infallible: bool,
) -> bool {
    ||| error == VariantError::SizeLimitExceeded && size + room > limit
    ||| error == VariantError::AllocationFailed && size + room <= limit && size + room > buffer_size
        && !infallible
}

/// Of a buffer that is kept, the beginning is kept.
pub proof fn lemma_written_kept(before: Seq<u8>, after: Seq<u8>, size: int)
    requires
        kept(before, after),
        0 <= size <= before.len(),
    ensures
        kept(before.take(size), after),
        after.take(size) == before.take(size),
{
    assert(after.take(size) =~= after.take(before.len() as int).take(size));
}

impl VariantBuilder {
    /// The write cursor is within the limit, and the dictionary is
    /// well-formed.
    pub open spec fn wf(&self) -> bool {
        &&& self.size <= self.size_limit
        &&& self.dictionary.wf()
    }

    /// The builder can write to the buffers of `allocator`: what it has
    /// written is in the value buffer.
    pub open spec fn ready<T: MemoryAllocator>(&self, allocator: &T) -> bool {
        &&& self.wf()
        &&& self.size <= allocator.value_bytes().len()
    }

    /// The bytes of the value buffer that are written.
    pub open spec fn written<T: MemoryAllocator>(&self, allocator: &T) -> Seq<u8> {
        allocator.value_bytes().take(self.size as int)
    }

    /// From the builder `before` on the buffers of `allocator_before`, this
    /// builder on the buffers of `allocator` has written `bytes` behind
    /// what was written, and nothing else has changed but the room in the
    /// value buffer, which has not shrunk.
    pub open spec fn appended<T: MemoryAllocator>(
        &self,
        allocator: &T,
        before: &VariantBuilder,
        allocator_before: &T,
        bytes: Seq<u8>,
    ) -> bool {
        &&& self.size == before.size + bytes.len()
        &&& self.size_limit == before.size_limit
        &&& self.size <= allocator.value_bytes().len()
        &&& self.written(allocator) == before.written(allocator_before) + bytes
        &&& allocator.value_bytes().len() >= allocator_before.value_bytes().len()
        &&& value_only(allocator, allocator_before)
    }

    /// From the builder `before` on the buffers of `allocator_before`, this
    /// builder on the buffers of `allocator` stands where it stood: the
    /// cursor, the limit and the dictionary are as they were, and so is
    /// what was in the value buffer, which may have grown.
    pub open spec fn stands<T: MemoryAllocator>(
        &self,
        allocator: &T,
        before: &VariantBuilder,
        allocator_before: &T,
    ) -> bool {
        &&& self.size == before.size
        &&& self.size_limit == before.size_limit
        &&& self.dictionary == before.dictionary
        &&& kept(allocator_before.value_bytes(), allocator.value_bytes())
        &&& value_only(allocator, allocator_before)
    }

    /// What a request for `room` bytes that `result` says was refused comes
    /// to: the builder stands where it stood, and where it was the limit
    /// that refused, the value buffer was not touched.
    pub open spec fn refusal<T: MemoryAllocator>(
        &self,
        allocator: &T,
        before: &VariantBuilder,
        allocator_before: &T,
        error: VariantError,
        room: int,
    ) -> bool {
        &&& refused(
            error,
            before.size as int,
            room,
            before.size_limit as int,
            allocator_before.value_bytes().len() as int,
            allocator_before.infallible(),
        )
        &&& self.stands(allocator, before, allocator_before)
        &&& error == VariantError::SizeLimitExceeded ==> allocator.value_bytes()
            == allocator_before.value_bytes()
    }

    /// What an append of `bytes`, for which `room` bytes are asked, comes
    /// to: the bytes are written where the limit and the memory allocator
    /// grant the room, and `result` says which of the two refused it
    /// otherwise, in which case nothing is written.
    pub open spec fn append_outcome<T: MemoryAllocator>(
        &self,
        allocator: &T,
        before: &VariantBuilder,
        allocator_before: &T,
        result: Result<(), VariantError>,
        bytes: Seq<u8>,
        room: int,
    ) -> bool {
        match result {
            Ok(()) => {
                &&& before.size + room <= before.size_limit
                &&& self.appended(allocator, before, allocator_before, bytes)
                &&& self.dictionary == before.dictionary
            },
            Err(error) => self.refusal(allocator, before, allocator_before, error, room),
        }
    }

    /// A builder that has written nothing and met no field name.
    pub fn new(size_limit: usize) -> (builder: VariantBuilder)
        ensures
            builder.wf(),
            builder.size == 0,
            builder.size_limit == size_limit,
            builder.dictionary@ == Seq::<Seq<char>>::empty(),
    {
        VariantBuilder { size: 0, size_limit, dictionary: FieldDictionary::new() }
    }

    /// Makes room for `additional` bytes behind the write cursor. Where the
    /// limit refuses them, nothing is touched. Where the value buffer is
    /// too short for them, the memory allocator is asked to grow it to
    /// `grown_size` of what is needed; whether or not it does, what was in
    /// the buffer stays there.
    pub fn check_capacity<T: MemoryAllocator>(&self, allocator: &mut T, additional: usize) -> (result: Result<
        (),
        VariantError,
    >)
        requires
            self.ready(old(allocator)),
        ensures
            value_only(final(allocator), old(allocator)),
            kept(old(allocator).value_bytes(), final(allocator).value_bytes()),
            self.written(final(allocator)) == self.written(old(allocator)),
            self.size + additional <= old(allocator).value_bytes().len() || self.size + additional
                > self.size_limit ==> final(allocator).value_bytes() == old(allocator).value_bytes(),
            match result {
                Ok(()) => {
                    &&& self.size + additional <= self.size_limit
                    &&& self.size + additional <= final(allocator).value_bytes().len()
                    &&& self.size + additional > old(allocator).value_bytes().len()
                        ==> final(allocator).value_bytes().len() >= grown_size((self.size + additional) as nat)
                },
                Err(error) => refused(
                    error,
                    self.size as int,
                    additional as int,
                    self.size_limit as int,
                    old(allocator).value_bytes().len() as int,
                    old(allocator).infallible(),
                ),
            },
    {
        proof {
            lemma_kept_same(allocator.value_bytes());
        }
        if additional > self.size_limit - self.size {
            return Err(VariantError::SizeLimitExceeded);
        }
        let required = self.size + additional;
        let cur_len = allocator.borrow_value_buffer().len();
        if required > cur_len {
            let new_size = next_power_of_two(required);
            let ghost before = allocator.value_bytes();
            let result = allocator.ensure_value_buffer_size(new_size);
            assert(allocator.value_bytes().take(self.size as int) =~= before.take(self.size as int));
            match result {
                Ok(()) => {},
                Err(_) => {
                    return Err(VariantError::AllocationFailed);
                },
            }
        }
        Ok(())
    }

    /// Writes `bytes` at the write cursor and moves the cursor behind them.
    /// Fails, and writes nothing, where the value buffer has no room for
    /// them.
    pub fn write_bytes<T: MemoryAllocator>(&mut self, allocator: &mut T, bytes: &[u8]) -> (result: Result<
        (),
        VariantError,
    >)
        ensures
            final(self).size_limit == old(self).size_limit,
            final(self).dictionary == old(self).dictionary,
            value_only(final(allocator), old(allocator)),
            final(allocator).value_bytes().len() == old(allocator).value_bytes().len(),
            match result {
                Ok(()) => {
                    &&& old(self).size + bytes@.len() <= old(allocator).value_bytes().len()
                    &&& final(self).size == old(self).size + bytes@.len()
                    &&& final(allocator).value_bytes() == overwritten(
                        old(allocator).value_bytes(),
                        old(self).size as int,
                        bytes@,
                    )
                    &&& final(self).written(final(allocator)) == old(self).written(old(allocator)) + bytes@
                },
                Err(error) => {
                    &&& error == VariantError::InternalInvariant
                    &&& old(self).size + bytes@.len() > old(allocator).value_bytes().len()
                    &&& final(self).size == old(self).size
                    &&& final(allocator).value_bytes() == old(allocator).value_bytes()
                },
            },
    {
        let value_buffer = allocator.borrow_value_buffer();
        if self.size > value_buffer.len() || bytes.len() > value_buffer.len() - self.size {
            return Err(VariantError::InternalInvariant);
        }
        copy_into(value_buffer, self.size, bytes);
        self.size += bytes.len();
        assert(self.written(allocator) =~= old(self).written(old(allocator)) + bytes@);
        Ok(())
    }

    /// Writes the header byte of a primitive of sub-type `typ`.
    pub fn write_primitive_header<T: MemoryAllocator>(&mut self, allocator: &mut T, typ: u8) -> (result: Result<
        (),
        VariantError,
    >)
        requires
            typ < 64,
        ensures
            final(self).size_limit == old(self).size_limit,
            final(self).dictionary == old(self).dictionary,
            value_only(final(allocator), old(allocator)),
            final(allocator).value_bytes().len() == old(allocator).value_bytes().len(),
            match result {
                Ok(()) => {
                    &&& old(self).size + 1 <= old(allocator).value_bytes().len()
                    &&& final(self).size == old(self).size + 1
                    &&& final(self).written(final(allocator)) == old(self).written(old(allocator)).push(
                        primitive_header_byte(typ),
                    )
                },
                Err(error) => {
                    &&& error == VariantError::InternalInvariant
                    &&& old(self).size + 1 > old(allocator).value_bytes().len()
                    &&& final(self).size == old(self).size
                    &&& final(allocator).value_bytes() == old(allocator).value_bytes()
                },
            },
    {
        let header = [primitive_header(typ)];
        let ghost written = self.written(allocator);
        let result = self.write_bytes(allocator, header.as_slice());
        assert(written + header@ =~= written.push(primitive_header_byte(typ)));
        result
    }

    /// Writes the header byte of a short string of `size` bytes.
    pub fn write_short_string_header<T: MemoryAllocator>(&mut self, allocator: &mut T, size: u8) -> (result:
        Result<(), VariantError>)
        requires
            size <= MAX_SHORT_STR_SIZE,
        ensures
            final(self).size_limit == old(self).size_limit,
            final(self).dictionary == old(self).dictionary,
            value_only(final(allocator), old(allocator)),
            final(allocator).value_bytes().len() == old(allocator).value_bytes().len(),
            match result {
                Ok(()) => {
                    &&& old(self).size + 1 <= old(allocator).value_bytes().len()
                    &&& final(self).size == old(self).size + 1
                    &&& final(self).written(final(allocator)) == old(self).written(old(allocator)).push(
                        short_string_header_byte(size),
                    )
                },
                Err(error) => {
                    &&& error == VariantError::InternalInvariant
                    &&& old(self).size + 1 > old(allocator).value_bytes().len()
                    &&& final(self).size == old(self).size
                    &&& final(allocator).value_bytes() == old(allocator).value_bytes()
                },
            },
    {
        let header = [short_string_header(size)];
        let ghost written = self.written(allocator);
        let result = self.write_bytes(allocator, header.as_slice());
        assert(written + header@ =~= written.push(short_string_header_byte(size)));
        result
    }

    /// Appends a null.
    pub fn append_null<T: MemoryAllocator>(&mut self, allocator: &mut T) -> (result: Result<(), VariantError>)
        requires
            old(self).ready(old(allocator)),
        ensures
            final(self).wf(),
            final(self).append_outcome(
                final(allocator),
                old(self),
                old(allocator),
                result,
                seq![primitive_header_byte(NULL)],
                1,
            ),
    {
        self.check_capacity(allocator, 1)?;
        let ghost written = self.written(allocator);
        self.write_primitive_header(allocator, NULL)?;
        assert(written.push(primitive_header_byte(NULL)) =~= written + seq![primitive_header_byte(NULL)]);
        Ok(())
    }

    /// Appends a boolean.
    pub fn append_boolean<T: MemoryAllocator>(&mut self, allocator: &mut T, b: bool) -> (result: Result<
        (),
        VariantError,
    >)
        requires
            old(self).ready(old(allocator)),
        ensures
            final(self).wf(),
            final(self).append_outcome(
                final(allocator),
                old(self),
                old(allocator),
                result,
                seq![primitive_header_byte(if b { TRUE } else { FALSE })],
                1,
            ),
    {
        self.check_capacity(allocator, 1)?;
        let ghost written = self.written(allocator);
        let typ = if b { TRUE } else { FALSE };
        self.write_primitive_header(allocator, typ)?;
        assert(written.push(primitive_header_byte(typ)) =~= written + seq![primitive_header_byte(typ)]);
        Ok(())
    }

    /// Writes the header byte of a primitive of sub-type `typ`, then the
    /// low `width` bytes of `value`. Room for both was made.
    fn write_primitive<T: MemoryAllocator>(&mut self, allocator: &mut T, typ: u8, value: i128, width: usize) -> (result:
        Result<(), VariantError>)
        requires
            typ < 64,
            width <= 16,
            old(self).size + 1 + width <= old(allocator).value_bytes().len(),
        ensures
            result is Ok,
            final(self).size_limit == old(self).size_limit,
            final(self).dictionary == old(self).dictionary,
            value_only(final(allocator), old(allocator)),
            final(allocator).value_bytes().len() == old(allocator).value_bytes().len(),
            final(self).size == old(self).size + 1 + width,
            final(self).written(final(allocator)) == old(self).written(old(allocator)) + (seq![
                primitive_header_byte(typ),
            ] + le_bytes(value as int, width as nat)),
            le_bytes(value as int, width as nat).len() == width,
    {
        let ghost written = self.written(allocator);
        self.write_primitive_header(allocator, typ)?;
        let payload = to_le_bytes(twos_complement(value), width);
        proof {
            lemma_le_bytes_len(value as int, width as nat);
        }
        self.write_bytes(allocator, payload.as_slice())?;
        assert(written.push(primitive_header_byte(typ)) + payload@ =~= written + (seq![
            primitive_header_byte(typ),
        ] + payload@));
        Ok(())
    }

    /// Appends an integer, in the narrowest of the four widths that holds
    /// it. Room is asked for the widest.
    pub fn append_int<T: MemoryAllocator>(&mut self, allocator: &mut T, i: i64) -> (result: Result<
        (),
        VariantError,
    >)
        requires
            old(self).ready(old(allocator)),
        ensures
            final(self).wf(),
            final(self).append_outcome(final(allocator), old(self), old(allocator), result, int_bytes(i), 9),
    {
        self.check_capacity(allocator, 1 + U64_SIZE as usize)?;
        if -0x80 <= i && i <= 0x7F {
            self.write_primitive(allocator, INT1, i as i128, 1)?;
        } else if -0x8000 <= i && i <= 0x7FFF {
            self.write_primitive(allocator, INT2, i as i128, 2)?;
        } else if -0x8000_0000 <= i && i <= 0x7FFF_FFFF {
            self.write_primitive(allocator, INT4, i as i128, 4)?;
        } else {
            self.write_primitive(allocator, INT8, i as i128, 8)?;
        }
        Ok(())
    }

    /// Writes the header byte of a decimal of sub-type `typ`, the scale,
    /// and the low `width` bytes of the unscaled value. Room for all was
    /// made.
    fn write_decimal<T: MemoryAllocator>(
        &mut self,
        allocator: &mut T,
        typ: u8,
        scale: u8,
        unscaled: i128,
        width: usize,
    ) -> (result: Result<(), VariantError>)
        requires
            typ < 64,
            width <= 16,
            old(self).size + 2 + width <= old(allocator).value_bytes().len(),
        ensures
            result is Ok,
            final(self).size_limit == old(self).size_limit,
            final(self).dictionary == old(self).dictionary,
            value_only(final(allocator), old(allocator)),
            final(allocator).value_bytes().len() == old(allocator).value_bytes().len(),
            final(self).size == old(self).size + 2 + width,
            final(self).written(final(allocator)) == old(self).written(old(allocator)) + (seq![
                primitive_header_byte(typ),
                scale,
            ] + le_bytes(unscaled as int, width as nat)),
            le_bytes(unscaled as int, width as nat).len() == width,
    {
        let ghost written = self.written(allocator);
        self.write_primitive_header(allocator, typ)?;
        let scale_byte = [scale];
        self.write_bytes(allocator, scale_byte.as_slice())?;
        let payload = to_le_bytes(twos_complement(unscaled), width);
        proof {
            lemma_le_bytes_len(unscaled as int, width as nat);
        }
        self.write_bytes(allocator, payload.as_slice())?;
        assert(written.push(primitive_header_byte(typ)) + scale_byte@ + payload@ =~= written + (seq![
            primitive_header_byte(typ),
            scale,
        ] + payload@));
        Ok(())
    }

    /// Appends a decimal with the unscaled value `unscaled` and `scale`
    /// fractional digits, in the narrowest of the three widths that holds
    /// its digits and goes with its scale. Room is asked for the widest.
    pub fn append_decimal<T: MemoryAllocator>(&mut self, allocator: &mut T, unscaled: i128, scale: u8) -> (result:
        Result<(), VariantError>)
        requires
            old(self).ready(old(allocator)),
        ensures
            final(self).wf(),
            final(self).append_outcome(
                final(allocator),
                old(self),
                old(allocator),
                result,
                decimal_bytes(unscaled, scale),
                18,
            ),
    {
        self.check_capacity(allocator, 2 + 16)?;
        if -(MAX_UNSCALED_DECIMAL_4 as i128) <= unscaled && unscaled <= MAX_UNSCALED_DECIMAL_4 as i128 && scale
            <= MAX_PRECISION_DECIMAL_4 {
            self.write_decimal(allocator, DECIMAL4, scale, unscaled, 4)?;
        } else if -(MAX_UNSCALED_DECIMAL_8 as i128) <= unscaled && unscaled <= MAX_UNSCALED_DECIMAL_8 as i128
            && scale <= MAX_PRECISION_DECIMAL_8 {
            self.write_decimal(allocator, DECIMAL8, scale, unscaled, 8)?;
        } else {
            self.write_decimal(allocator, DECIMAL16, scale, unscaled, 16)?;
        }
        Ok(())
    }

    /// Appends the double whose bits are `bits`.
    pub fn append_double<T: MemoryAllocator>(&mut self, allocator: &mut T, bits: u64) -> (result: Result<
        (),
        VariantError,
    >)
        requires
            old(self).ready(old(allocator)),
        ensures
            final(self).wf(),
            final(self).append_outcome(final(allocator), old(self), old(allocator), result, double_bytes(bits), 9),
    {
        self.check_capacity(allocator, 1 + 8)?;
        self.write_primitive(allocator, DOUBLE, bits as i128, 8)?;
        Ok(())
    }

    /// Appends a string: short where it has at most 63 bytes, else long.
    pub fn append_string<T: MemoryAllocator>(&mut self, allocator: &mut T, s: &str) -> (result: Result<
        (),
        VariantError,
    >)
        requires
            old(self).ready(old(allocator)),
        ensures
            final(self).wf(),
            final(self).append_outcome(
                final(allocator),
                old(self),
                old(allocator),
                result,
                string_bytes(encode_utf8(s@)),
                string_bytes(encode_utf8(s@)).len() as int,
            ),
    {
        proof {
            lemma_kept_same(allocator.value_bytes());
        }
        let bytes = s.as_bytes();
        let long_str = bytes.len() > MAX_SHORT_STR_SIZE as usize;
        let additional: usize = if long_str { 1 + U32_SIZE as usize } else { 1 };
        proof {
            lemma_le_bytes_len(bytes@.len() as int, 4);
        }
        if bytes.len() > self.size_limit - self.size {
            return Err(VariantError::SizeLimitExceeded);
        }
        if additional > self.size_limit - self.size - bytes.len() {
            return Err(VariantError::SizeLimitExceeded);
        }
        self.check_capacity(allocator, additional + bytes.len())?;
        let ghost written = self.written(allocator);
        if long_str {
            self.write_primitive_header(allocator, LONG_STR)?;
            let length = to_le_bytes(bytes.len() as u128, 4);
            self.write_bytes(allocator, length.as_slice())?;
            self.write_bytes(allocator, bytes)?;
            assert(written.push(primitive_header_byte(LONG_STR)) + length@ + bytes@ =~= written + (seq![
                primitive_header_byte(LONG_STR),
            ] + length@ + bytes@));
        } else {
            self.write_short_string_header(allocator, bytes.len() as u8)?;
            self.write_bytes(allocator, bytes)?;
            assert(written.push(short_string_header_byte(bytes@.len() as u8)) + bytes@ =~= written + (seq![
                short_string_header_byte(bytes@.len() as u8),
            ] + bytes@));
        }
        Ok(())
    }
}

} // verus!
