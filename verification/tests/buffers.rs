use game_render::dynamic_buffer::DynamicBuffer;
use game_render::stable_buffer::StableBuffer;

fn test_struct_bytes() -> [u8; 16] {
    // a: [1, 2, 3], b: 4, c: [5, 6, 7], d: 8, e: 9, f: 10, g: [11, 12], h: [13, 14, 15, 16]
    [1, 2, 3, 4, 5, 6, 7, 8, 9, 10, 11, 12, 13, 14, 15, 16]
}

#[test]
fn dynamic_buffer_push_once() {
    let mut buffer = DynamicBuffer::new(16, 16);
    buffer.push(&test_struct_bytes());

    assert_eq!(
        buffer.as_bytes(),
        [
            1, 0, 0, 0, // count
            0, 0, 0, 0, // align
            0, 0, 0, 0, // align
            0, 0, 0, 0, // align
            1, 2, 3, 4, // a + b
            5, 6, 7, 8, // c + d
            9, 10, 11, 12, // e + f + g
            13, 14, 15, 16, // h
        ]
    );
}

#[test]
fn dynamic_buffer_push_many() {
    let mut buffer = DynamicBuffer::new(16, 16);

    for _ in 0..3 {
        buffer.push(&test_struct_bytes());
    }

    assert_eq!(
        buffer.as_bytes(),
        [
            3, 0, 0, 0, // count
            0, 0, 0, 0, // align
            0, 0, 0, 0, // align
            0, 0, 0, 0, // align
            1, 2, 3, 4, // a + b
            5, 6, 7, 8, // c + d
            9, 10, 11, 12, // e + f + g
            13, 14, 15, 16, // h
            1, 2, 3, 4, // a + b
            5, 6, 7, 8, // c + d
            9, 10, 11, 12, // e + f + g
            13, 14, 15, 16, // h
            1, 2, 3, 4, // a + b
            5, 6, 7, 8, // c + d
            9, 10, 11, 12, // e + f + g
            13, 14, 15, 16, // h
        ]
    );
}

#[test]
fn dynamic_buffer_len_and_small_alignment() {
    let mut buffer = DynamicBuffer::new(4, 4);
    assert!(buffer.is_empty());
    assert_eq!(buffer.as_bytes().len(), 8);
    buffer.push(&[9, 8, 7, 6]);
    assert_eq!(buffer.len(), 1);
    buffer.push(&[1, 1, 1, 1]);
    assert_eq!(buffer.len(), 2);
    assert!(!buffer.is_empty());
    assert_eq!(buffer.as_bytes(), [2, 0, 0, 0, 9, 8, 7, 6, 1, 1, 1, 1]);
}

#[test]
fn dynamic_buffer_count_is_little_endian() {
    let mut buffer = DynamicBuffer::new(4, 4);
    for _ in 0..300 {
        buffer.push(&[0, 0, 0, 0]);
    }
    assert_eq!(buffer.len(), 300);
    assert_eq!(&buffer.as_bytes()[0..4], &[44, 1, 0, 0]);
}

#[test]
fn stable_buffer_insert_appends() {
    let mut buffer = StableBuffer::new(4, 4);
    assert_eq!(buffer.insert(&[1, 2, 3, 4]), 0);
    assert_eq!(buffer.insert(&[5, 6, 7, 8]), 1);
    assert_eq!(buffer.as_bytes(), [1, 2, 3, 4, 5, 6, 7, 8]);
}

#[test]
fn stable_buffer_remove_links_free_slot() {
    let mut buffer = StableBuffer::new(4, 4);
    buffer.insert(&[1, 2, 3, 4]);
    buffer.insert(&[5, 6, 7, 8]);
    buffer.remove(1);
    // The slot now holds the link to the next free slot: none.
    assert_eq!(buffer.as_bytes(), [1, 2, 3, 4, 0, 0, 0, 0]);
    // The freed slot is reused.
    assert_eq!(buffer.insert(&[9, 9, 9, 9]), 1);
    assert_eq!(buffer.as_bytes(), [1, 2, 3, 4, 9, 9, 9, 9]);
}

#[test]
fn stable_buffer_pads_by_alignment_remainder() {
    let mut buffer = StableBuffer::new(4, 6);
    buffer.insert(&[1, 1, 1, 1]);
    // 6 % 4 == 2 zero bytes follow the element.
    assert_eq!(buffer.as_bytes(), [1, 1, 1, 1, 0, 0]);
}

#[test]
fn dynamic_buffer_pushes_keep_order() {
    let mut buffer = DynamicBuffer::new(4, 4);
    for k in 0..5u8 {
        buffer.push(&[k, k + 10, k + 20, k + 30]);
    }
    let bytes = buffer.as_bytes();
    assert_eq!(&bytes[0..4], &[5, 0, 0, 0]);
    for k in 0..5u8 {
        let start = 4 + 4 * k as usize;
        assert_eq!(&bytes[start..start + 4], &[k, k + 10, k + 20, k + 30]);
    }
}

#[test]
fn stable_buffer_inserts_lay_values_back_to_back() {
    let mut buffer = StableBuffer::new(4, 4);
    assert_eq!(buffer.insert(&[1, 2, 3, 4]), 0);
    assert_eq!(buffer.insert(&[5, 6, 7, 8]), 1);
    assert_eq!(buffer.insert(&[9, 10, 11, 12]), 2);
    assert_eq!(buffer.as_bytes(), &[1, 2, 3, 4, 5, 6, 7, 8, 9, 10, 11, 12]);
}

#[test]
fn buffer_counts_use_the_machine_byte_order() {
    assert_eq!(game_render::word_bytes::native_little(), 1u32.to_ne_bytes()[0] == 1);
    let mut buffer = DynamicBuffer::new(4, 4);
    for _ in 0..258u32 {
        buffer.push(&[0, 0, 0, 0]);
    }
    let count = buffer.as_bytes();
    assert_eq!(u32::from_ne_bytes([count[0], count[1], count[2], count[3]]), 258);
    assert_eq!(buffer.len(), 258);
}
