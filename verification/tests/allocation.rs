use variant::error::VariantError;
use variant::json::{encode, json_to_variant_with_limit};
use variant::memory_allocator::MemoryAllocator;
use variant::value::JsonValue;

/// Buffers that cannot grow.
struct FixedBuffers {
    value: Vec<u8>,
    metadata: Vec<u8>,
}

impl MemoryAllocator for FixedBuffers {
    fn borrow_value_buffer(&mut self) -> &mut [u8] {
        &mut self.value
    }

    fn ensure_value_buffer_size(&mut self, size: usize) -> Result<(), VariantError> {
        if size > self.value.len() {
            Err(VariantError::InternalInvariant)
        } else {
            Ok(())
        }
    }

    fn borrow_metadata_buffer(&mut self) -> &mut [u8] {
        &mut self.metadata
    }

    fn ensure_metadata_buffer_size(&mut self, size: usize) -> Result<(), VariantError> {
        if size > self.metadata.len() {
            Err(VariantError::InternalInvariant)
        } else {
            Ok(())
        }
    }
}

#[test]
fn value_buffer_that_cannot_grow_is_an_allocation_failure() {
    let mut buffers = FixedBuffers {
        value: vec![0u8; 4],
        metadata: vec![0u8; 16],
    };
    let json = JsonValue::String("harsh".to_string());
    assert_eq!(
        encode(&json, &mut buffers, 1024),
        Err(VariantError::AllocationFailed)
    );
}

#[test]
fn metadata_buffer_that_cannot_grow_is_an_allocation_failure() {
    let mut buffers = FixedBuffers {
        value: vec![0u8; 64],
        metadata: vec![0u8; 2],
    };
    let mut value_size = 7usize;
    let mut metadata_size = 9usize;
    assert_eq!(
        json_to_variant_with_limit(
            "{\"a\": 1}",
            &mut buffers,
            1024,
            &mut value_size,
            &mut metadata_size
        ),
        Err(VariantError::AllocationFailed)
    );
    assert_eq!((value_size, metadata_size), (7, 9));
}

#[test]
fn buffers_that_are_large_enough_are_never_grown() {
    let mut buffers = FixedBuffers {
        value: vec![0xAAu8; 16],
        metadata: vec![0xAAu8; 16],
    };
    let json = JsonValue::Array(vec![JsonValue::Null, JsonValue::Bool(false)]);
    assert_eq!(encode(&json, &mut buffers, 16), Ok((7, 3)));
    assert_eq!(&buffers.value[..7], &[0x03, 0x02, 0x00, 0x01, 0x02, 0x00, 0x08]);
    assert_eq!(&buffers.value[7..], &[0xAA; 9]);
    assert_eq!(&buffers.metadata[..3], &[0x01, 0x00, 0x00]);
}
