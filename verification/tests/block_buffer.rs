use game_render::block_buffer::{BlockBuffer, BufferWrite};

#[test]
fn block_buffer_compact() {
    let mut buffer = BlockBuffer::new(4, 0);
    let i0 = buffer.insert(&[1, 2, 3, 4]);
    let i1 = buffer.insert(&[1, 2, 3, 4]);
    let i2 = buffer.insert(&[1, 2, 3, 4]);
    buffer.remove(i1);

    buffer.take_writes();
    let moves = buffer.compact();
    for (src, dst) in moves {
        assert_eq!(src, i2);
        assert_eq!(dst, i1);
    }

    assert_eq!(
        buffer.take_writes(),
        [BufferWrite::BufferCopy { src: i2, dst: i1 }]
    );

    buffer.remove(i0);

    buffer.take_writes();
    let moves = buffer.compact();
    for (src, dst) in moves {
        assert_eq!(src, i1);
        assert_eq!(dst, i0);
    }

    assert_eq!(
        buffer.take_writes(),
        [BufferWrite::BufferCopy { src: i1, dst: i0 }]
    );
}

#[test]
fn block_buffer_insert_grows_and_queues_data() {
    let mut buffer = BlockBuffer::new(2, 0);
    assert_eq!(buffer.buffer_size(), 0);
    assert_eq!(buffer.insert(&[9]), 0);
    assert_eq!(buffer.buffer_size(), 2);
    assert_eq!(buffer.insert(&[8, 7]), 1);
    assert_eq!(buffer.insert(&[]), 2);
    assert_eq!(buffer.buffer_size(), 4);
    assert_eq!(
        buffer.take_writes(),
        [
            BufferWrite::Data(0, vec![9]),
            BufferWrite::Data(1, vec![8, 7]),
            BufferWrite::Data(2, vec![]),
        ]
    );
}

#[test]
fn block_buffer_expand_queued_once_when_created() {
    let mut buffer = BlockBuffer::new(1, 0);
    buffer.insert(&[1]);
    buffer.set_buffer_created();
    buffer.insert(&[2]);
    buffer.insert(&[3]);
    buffer.insert(&[4]);
    buffer.insert(&[5]);
    let writes = buffer.take_writes();
    assert_eq!(writes[0], BufferWrite::BufferExpand);
    assert_eq!(
        writes.iter().filter(|w| **w == BufferWrite::BufferExpand).count(),
        1
    );
}

#[test]
fn block_buffer_compact_moves_all_to_front() {
    let mut buffer = BlockBuffer::new(1, 0);
    for i in 0..8u8 {
        buffer.insert(&[i]);
    }
    buffer.remove(0);
    buffer.remove(2);
    buffer.remove(3);
    let moves = buffer.compact();
    assert_eq!(moves, vec![(7, 0), (6, 2), (5, 3)]);
    // After compaction the lowest free block is the occupied count.
    assert_eq!(buffer.insert(&[0]), 5);
}

#[test]
fn block_buffer_reuses_lowest_free_block() {
    let mut buffer = BlockBuffer::new(1, 0);
    for i in 0..4u8 {
        buffer.insert(&[i]);
    }
    buffer.remove(3);
    buffer.remove(1);
    assert_eq!(buffer.insert(&[0]), 1);
    assert_eq!(buffer.insert(&[0]), 3);
}
