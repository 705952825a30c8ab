use game_render::block_buffer::BufferWrite;
use game_render::slab_buffer::{SlabBuffer, SlabIndex};
use game_render::suballocated::{Placement, SubAllocatedGrowableBuffer};

#[test]
fn suballocated_new_is_one_byte() {
    let buf = SubAllocatedGrowableBuffer::new(4, 0x10);
    assert_eq!(buf.size(), 1);
    assert_eq!(buf.usage(), 0x13);
}

#[test]
fn suballocated_empty_array_takes_no_room() {
    let mut buf = SubAllocatedGrowableBuffer::new(4, 0);
    assert_eq!(
        buf.allocate(0),
        Some(Placement { index: 0, start: 0, end: 0, grown: None })
    );
    assert_eq!(buf.size(), 1);
}

#[test]
fn suballocated_grows_and_packs_arrays() {
    let mut buf = SubAllocatedGrowableBuffer::new(4, 0);
    // 3 elements of 4 bytes: 12 bytes, rounded to 16; the buffer grows from 1 byte to
    // next_pow2(max(2, 1 + 16)) = 32 bytes.
    let first = buf.allocate(3).unwrap();
    assert_eq!(first, Placement { index: 0, start: 0, end: 12, grown: Some((1, 32)) });
    assert_eq!(buf.size(), 32);

    // Two more elements fit into the free upper half without growing.
    let second = buf.allocate(2).unwrap();
    assert_eq!(second, Placement { index: 4, start: 16, end: 24, grown: None });

    // Removing and allocating again reuses the room.
    buf.remove(first.index);
    let third = buf.allocate(4).unwrap();
    assert_eq!(third, Placement { index: 0, start: 0, end: 16, grown: None });
    assert_eq!(buf.size(), 32);
}

#[test]
fn suballocated_doubles_at_least() {
    let mut buf = SubAllocatedGrowableBuffer::new(1, 0);
    let a = buf.allocate(1).unwrap();
    // The one-byte buffer has room for one byte.
    assert_eq!(a.grown, None);
    assert_eq!(a.start, 0);
    let b = buf.allocate(1).unwrap();
    assert_eq!(b.grown, Some((1, 2)));
    assert_eq!(b.start, 1);
    assert_eq!(buf.size(), 2);
    // Removing an unknown index does nothing.
    buf.remove(99);
    assert_eq!(buf.size(), 2);
}

#[test]
fn slab_buffer_insert_remove_compact() {
    let mut slab = SlabBuffer::new(4, 0);
    let a = slab.insert(&[1, 2, 3, 4]);
    let b = slab.insert(&[5, 6, 7, 8]);
    let c = slab.insert(&[9, 9, 9, 9]);
    assert_eq!((a, b, c), (SlabIndex(0), SlabIndex(1), SlabIndex(2)));
    slab.remove(a);
    let moves = slab.compact();
    assert_eq!(moves, [(SlabIndex(2), SlabIndex(0))]);
    let writes = slab.blocks_mut().take_writes();
    assert_eq!(writes.len(), 4);
    assert!(matches!(writes[0], BufferWrite::Data(0, _)));
    assert!(matches!(writes.last(), Some(BufferWrite::BufferCopy { src: 2, dst: 0 })));
}
