use smallvec::SmallVec;
use vulkano::buffer::{
    AllocateBufferError, BufferCreateFlags, BufferMemory, BufferUsage, ExternalBufferInfo,
    ExternalMemoryHandleType, IndexBuffer, IndexType,
};
use vulkano::sync::{AccessConflict, HostAccessError, Sharing, SharingMode};

#[test]
fn sharing_variant_queries() {
    let exclusive: Sharing<SmallVec<[u32; 4]>> = Sharing::Exclusive;
    assert!(exclusive.is_exclusive());
    assert!(!exclusive.is_concurrent());

    let mut families: SmallVec<[u32; 4]> = SmallVec::new();
    families.push(0);
    families.push(2);
    let concurrent: Sharing<SmallVec<[u32; 4]>> = Sharing::Concurrent(families);
    assert!(!concurrent.is_exclusive());
    assert!(concurrent.is_concurrent());
}

#[test]
fn sharing_mode_variants() {
    let exclusive = SharingMode::Exclusive;
    let concurrent = SharingMode::Concurrent(vec![0, 1]);
    assert_ne!(exclusive, concurrent);
    assert_eq!(concurrent, SharingMode::Concurrent(vec![0, 1]));
}

#[test]
fn index_type_sizes() {
    assert_eq!(IndexType::U8.size(), 1);
    assert_eq!(IndexType::U16.size(), 2);
    assert_eq!(IndexType::U32.size(), 4);
}

#[test]
fn index_buffer_type_and_len() {
    let b8 = IndexBuffer::from(vec![1u8, 2, 3]);
    let b16 = IndexBuffer::from(vec![1u16, 2]);
    let b32 = IndexBuffer::from(vec![7u32]);
    assert_eq!(b8.index_type(), IndexType::U8);
    assert_eq!(b16.index_type(), IndexType::U16);
    assert_eq!(b32.index_type(), IndexType::U32);
    assert_eq!(b8.len(), 3);
    assert_eq!(b16.len(), 2);
    assert_eq!(b32.len(), 1);
}

#[test]
fn index_buffer_as_bytes_little_endian() {
    let b8 = IndexBuffer::U8(vec![0xAA, 0xBB]);
    assert_eq!(b8.as_bytes(), vec![0xAA, 0xBB]);

    let b16 = IndexBuffer::U16(vec![0x1234, 0xABCD]);
    assert_eq!(b16.as_bytes(), vec![0x34, 0x12, 0xCD, 0xAB]);

    let b32 = IndexBuffer::U32(vec![0x0102_0304]);
    assert_eq!(b32.as_bytes(), vec![0x04, 0x03, 0x02, 0x01]);

    let empty = IndexBuffer::U32(vec![]);
    assert_eq!(empty.as_bytes(), Vec::<u8>::new());
}

#[test]
fn external_buffer_info_defaults() {
    let info = ExternalBufferInfo::new(ExternalMemoryHandleType::OpaqueFd);
    assert_eq!(info.flags, BufferCreateFlags::empty());
    assert_eq!(info.usage, BufferUsage::empty());
    assert_eq!(info.handle_type, ExternalMemoryHandleType::OpaqueFd);
    assert!(info.flags.is_empty());
    assert!(info.usage.is_empty());

    let aliased = ExternalBufferInfo::handle_type(ExternalMemoryHandleType::DmaBuf);
    assert_eq!(aliased.handle_type, ExternalMemoryHandleType::DmaBuf);
}

#[test]
fn buffer_memory_variants() {
    assert!(matches!(BufferMemory::Normal, BufferMemory::Normal));
    assert!(matches!(BufferMemory::Sparse, BufferMemory::Sparse));
    assert!(matches!(BufferMemory::External, BufferMemory::External));
}

#[test]
fn error_messages() {
    assert_eq!(
        AccessConflict::HostRead.message(),
        "the resource is already locked for reading by the host (CPU)"
    );
    assert_eq!(
        AccessConflict::DeviceWrite.message(),
        "the resource is already locked for writing by the device (GPU)"
    );
    assert_eq!(
        HostAccessError::AccessConflict(AccessConflict::HostWrite).message(),
        "the resource is already in use in a conflicting way"
    );
    assert_eq!(
        HostAccessError::Unmanaged.message(),
        "the resource is not managed by vulkano"
    );
    assert_eq!(
        AllocateBufferError::CreateBuffer.message(),
        "creating the buffer failed"
    );
    assert_eq!(
        AllocateBufferError::BindMemory.message(),
        "binding memory to the buffer failed"
    );
}
