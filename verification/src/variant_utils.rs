//! The constants of the Variant binary format, and the header bytes built
//! from them.

use vstd::prelude::*;

verus! {

/// The version of the metadata layout.
pub const VERSION: u8 = 1;

/// Basic type tags: the low two bits of every header byte.
pub const PRIMITIVE: u8 = 0;
pub const SHORT_STR: u8 = 1;
pub const OBJECT: u8 = 2;
pub const ARRAY: u8 = 3;

/// Primitive sub-types: the upper six bits of a primitive header byte.
pub const NULL: u8 = 0;
pub const TRUE: u8 = 1;
pub const FALSE: u8 = 2;
pub const INT1: u8 = 3;
pub const INT2: u8 = 4;
pub const INT4: u8 = 5;
pub const INT8: u8 = 6;
pub const DOUBLE: u8 = 7;
pub const DECIMAL4: u8 = 8;
pub const DECIMAL8: u8 = 9;
pub const DECIMAL16: u8 = 10;
pub const LONG_STR: u8 = 16;

/// The longest string, in bytes, that is written as a short string.
pub const MAX_SHORT_STR_SIZE: u8 = 0x3F;

pub const U8_SIZE: u8 = 1;
pub const U16_SIZE: u8 = 2;
pub const U24_SIZE: u8 = 3;
pub const U32_SIZE: u8 = 4;
pub const U64_SIZE: u8 = 8;

pub const U8_MAX: u8 = 0xFF;
pub const U16_MAX: u16 = 0xFFFF;

/// The number of bits that the basic type tag takes in a header byte.
pub const BASIC_TYPE_BITS: u8 = 2;

pub const MAX_UNSCALED_DECIMAL_4: i32 = 999999999;
pub const MAX_PRECISION_DECIMAL_4: u8 = 9;
pub const MAX_UNSCALED_DECIMAL_8: i64 = 999999999999999999i64;
pub const MAX_PRECISION_DECIMAL_8: u8 = 18;

/// The width, in bytes, of an offset or id field that has to hold `value`:
/// the smallest of one, two and three.
pub open spec fn min_width(value: int) -> int {
    if value <= 0xFF {
        1
    } else if value <= 0xFFFF {
        2
    } else {
        3
    }
}

/// The width, in bytes, of the count field of a container with `count`
/// elements.
pub open spec fn count_width(count: int) -> int {
    if count > 0xFF {
        4
    } else {
        1
    }
}

/// The header byte of a primitive of sub-type `typ`.
pub open spec fn primitive_header_byte(typ: u8) -> u8
    recommends
        typ < 64,
{
    (typ * 4) as u8
}

/// The header byte of a short string of `size` bytes.
pub open spec fn short_string_header_byte(size: u8) -> u8
    recommends
        size < 64,
{
    (size * 4 + 1) as u8
}

/// The header byte of an array: the large-size flag in bit 4, the offset
/// width less one in bits 2 and 3, the array tag below.
pub open spec fn array_header_byte(large_size: bool, offset_size: int) -> u8
    recommends
        1 <= offset_size <= 4,
{
    ((if large_size { 16int } else { 0int }) + (offset_size - 1) * 4 + 3) as u8
}

/// The header byte of an object: the large-size flag in bit 6, the id width
/// less one in bits 4 and 5, the offset width less one in bits 2 and 3, the
/// object tag below.
pub open spec fn object_header_byte(large_size: bool, id_size: int, offset_size: int) -> u8
    recommends
        1 <= id_size <= 4,
        1 <= offset_size <= 4,
{
    ((if large_size { 64int } else { 0int }) + (id_size - 1) * 16 + (offset_size - 1) * 4 + 2) as u8
}

/// The header byte of the metadata: the offset width less one in the two
/// high bits, the version in the low bits.
pub open spec fn metadata_header_byte(offset_size: int) -> u8
    recommends
        1 <= offset_size <= 4,
{
    ((offset_size - 1) * 64 + 1) as u8
}

/// The smallest width that holds `value`.
pub fn get_integer_size(value: usize) -> (size: usize)
    ensures
        size == min_width(value as int),
{
    if value <= U8_MAX as usize {
        return U8_SIZE as usize;
    }
    if value <= U16_MAX as usize {
        return U16_SIZE as usize;
    }
    U24_SIZE as usize
}

/// Builds the header byte of a primitive.
pub fn primitive_header(typ: u8) -> (byte: u8)
    requires
        typ < 64,
    ensures
        byte == primitive_header_byte(typ),
        byte & 0b11 == PRIMITIVE,
        byte >> 2 == typ,
{
    assert(typ < 64 ==> (typ << 2) | 0 == typ * 4) by (bit_vector);
    assert(typ < 64 ==> (((typ << 2) | 0) & 0b11 == 0 && ((typ << 2) | 0) >> 2 == typ)) by (bit_vector);
    (typ << BASIC_TYPE_BITS) | PRIMITIVE
}

/// Builds the header byte of a short string.
pub fn short_string_header(size: u8) -> (byte: u8)
    requires
        size <= MAX_SHORT_STR_SIZE,
    ensures
        byte == short_string_header_byte(size),
        byte & 0b11 == SHORT_STR,
        byte >> 2 == size,
{
    assert(size < 64 ==> (size << 2) | 1 == size * 4 + 1) by (bit_vector);
    assert(size < 64 ==> (((size << 2) | 1) & 0b11 == 1 && ((size << 2) | 1) >> 2 == size)) by (bit_vector);
    (size << BASIC_TYPE_BITS) | SHORT_STR
}

/// Builds the header byte of an array.
pub fn array_header(large_size: bool, offset_size: u8) -> (byte: u8)
    requires
        1 <= offset_size <= 4,
    ensures
        byte == array_header_byte(large_size, offset_size as int),
        byte & 0b11 == ARRAY,
        (byte >> 2) & 0b11 == offset_size - 1,
        (byte >> 4) == (if large_size { 1u8 } else { 0u8 }),
{
    let large: u8 = if large_size { 1 } else { 0 };
    let width: u8 = offset_size - 1;
    assert(large <= 1 && width <= 3 ==> (large << 4) | (width << 2) | 3 == large * 16 + width * 4 + 3) by (bit_vector);
    assert(large <= 1 && width <= 3 ==> {
        let b = (large << 4) | (width << 2) | 3;
        b & 0b11 == 3 && (b >> 2) & 0b11 == width && b >> 4 == large
    }) by (bit_vector);
    (large << (BASIC_TYPE_BITS + 2)) | (width << BASIC_TYPE_BITS) | ARRAY
}

/// Builds the header byte of an object.
pub fn object_header(large_size: bool, id_size: u8, offset_size: u8) -> (byte: u8)
    requires
        1 <= id_size <= 4,
        1 <= offset_size <= 4,
    ensures
        byte == object_header_byte(large_size, id_size as int, offset_size as int),
        byte & 0b11 == OBJECT,
        (byte >> 2) & 0b11 == offset_size - 1,
        (byte >> 4) & 0b11 == id_size - 1,
        (byte >> 6) == (if large_size { 1u8 } else { 0u8 }),
{
    let large: u8 = if large_size { 1 } else { 0 };
    let ids: u8 = id_size - 1;
    let offsets: u8 = offset_size - 1;
    assert(large <= 1 && ids <= 3 && offsets <= 3 ==> (large << 6) | (ids << 4) | (offsets << 2) | 2
        == large * 64 + ids * 16 + offsets * 4 + 2) by (bit_vector);
    assert(large <= 1 && ids <= 3 && offsets <= 3 ==> {
        let b = (large << 6) | (ids << 4) | (offsets << 2) | 2;
        b & 0b11 == 2 && (b >> 2) & 0b11 == offsets && (b >> 4) & 0b11 == ids && b >> 6 == large
    }) by (bit_vector);
    (large << (BASIC_TYPE_BITS + 4)) | (ids << (BASIC_TYPE_BITS + 2)) | (offsets << BASIC_TYPE_BITS)
        | OBJECT
}

/// Builds the header byte of the metadata.
pub fn metadata_header(offset_size: u8) -> (byte: u8)
    requires
        1 <= offset_size <= 4,
    ensures
        byte == metadata_header_byte(offset_size as int),
        byte & 0b11 == VERSION,
        byte >> 6 == offset_size - 1,
{
    let width: u8 = offset_size - 1;
    assert(width <= 3 ==> (width << 6) | 1 == width * 64 + 1) by (bit_vector);
    assert(width <= 3 ==> (((width << 6) | 1) & 0b11 == 1 && ((width << 6) | 1) >> 6 == width)) by (bit_vector);
    (width << 6) | VERSION
}

} // verus!
