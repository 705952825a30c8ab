use game_render::commands::DrawCall;
use game_render::resources::RefCount;
use game_render::queue_checks::{
    check_copy_buffer_to_texture, check_create_texture, check_write_texture, copy_buffer_to_buffer,
    draw_indirect,
    plan_copy_buffer_to_buffer, plan_copy_texture_to_texture, plan_draw_indirect,
    plan_write_buffer, slice, view_mips, whole, BufferInfo, BufferSlice, QueueError, SliceBound,
    TextureInfo, WritePath,
};

fn buffer(id: usize, usage: u32, flags: u32) -> BufferInfo {
    BufferInfo { id, size: 64, usage, flags }
}

fn texture(id: usize, usage: u32) -> TextureInfo {
    TextureInfo { id, width: 16, height: 16, usage, mip_levels: 3 }
}

#[test]
fn buffer_slices_resolve_bounds() {
    let b = buffer(1, 3, 0);
    let s = slice(b, SliceBound::Included(4), SliceBound::Excluded(8)).unwrap();
    assert_eq!((s.start, s.end), (4, 8));
    let s = slice(b, SliceBound::Excluded(4), SliceBound::Included(8)).unwrap();
    assert_eq!((s.start, s.end), (5, 9));
    let s = slice(b, SliceBound::Unbounded, SliceBound::Unbounded).unwrap();
    assert_eq!((s.start, s.end), (0, 64));
    assert_eq!(s, whole(b));
    assert_eq!(
        slice(b, SliceBound::Included(10), SliceBound::Excluded(65)),
        Err(QueueError::SliceOutOfBounds)
    );
    assert_eq!(
        slice(b, SliceBound::Included(10), SliceBound::Excluded(5)),
        Err(QueueError::SliceOutOfBounds)
    );
    assert_eq!(
        slice(b, SliceBound::Excluded(u64::MAX), SliceBound::Unbounded),
        Err(QueueError::SliceOutOfBounds)
    );
}

#[test]
fn buffer_copies_are_checked() {
    let src = buffer(1, 1, 0);
    let dst = buffer(2, 2, 0);
    let c = plan_copy_buffer_to_buffer(
        slice(src, SliceBound::Included(0), SliceBound::Excluded(16)).unwrap(),
        slice(dst, SliceBound::Included(16), SliceBound::Excluded(32)).unwrap(),
    )
    .unwrap()
    .unwrap();
    assert_eq!((c.src, c.src_offset, c.dst, c.dst_offset, c.count), (1, 0, 2, 16, 16));

    assert_eq!(plan_copy_buffer_to_buffer(whole(dst), whole(dst)).unwrap_err(), QueueError::BufferNotReadable);
    assert_eq!(plan_copy_buffer_to_buffer(whole(src), whole(src)).unwrap_err(), QueueError::BufferNotWritable);
    let both = buffer(3, 3, 0);
    assert_eq!(
        plan_copy_buffer_to_buffer(
            slice(both, SliceBound::Included(0), SliceBound::Excluded(8)).unwrap(),
            slice(both, SliceBound::Included(4), SliceBound::Excluded(12)).unwrap()
        )
        .unwrap_err(),
        QueueError::Overlap
    );
    assert_eq!(
        plan_copy_buffer_to_buffer(
            slice(both, SliceBound::Included(0), SliceBound::Excluded(8)).unwrap(),
            slice(both, SliceBound::Included(8), SliceBound::Excluded(12)).unwrap()
        )
        .unwrap_err(),
        QueueError::LengthMismatch { src_len: 8, dst_len: 4 }
    );
    assert!(plan_copy_buffer_to_buffer(
        slice(both, SliceBound::Included(8), SliceBound::Excluded(8)).unwrap(),
        slice(both, SliceBound::Included(9), SliceBound::Excluded(9)).unwrap()
    )
    .unwrap()
    .is_none());
}

#[test]
fn buffer_writes_take_the_right_path() {
    let mapped = buffer(4, 2, 1);
    match plan_write_buffer(whole(mapped), 10, 100).unwrap() {
        WritePath::Direct(w) => {
            assert_eq!((w.buffer, w.offset, w.staging_memory_offset, w.count), (4, 0, 100, 10))
        }
        WritePath::Staged { .. } => panic!("a host-visible buffer is written directly"),
    }
    let device = buffer(5, 2, 0);
    assert!(matches!(
        plan_write_buffer(whole(device), 10, 0).unwrap(),
        WritePath::Staged { size: 10, staging_memory_offset: 0, dst: 5, dst_offset: 0 }
    ));
    let tail = slice(device, SliceBound::Included(16), SliceBound::Unbounded).unwrap();
    assert!(matches!(
        plan_write_buffer(tail, 10, 7).unwrap(),
        WritePath::Staged { size: 10, staging_memory_offset: 7, dst: 5, dst_offset: 16 }
    ));
    assert_eq!(plan_write_buffer(whole(buffer(6, 1, 1)), 1, 0).unwrap_err(), QueueError::BufferNotWritable);
    let short = slice(mapped, SliceBound::Included(0), SliceBound::Excluded(4)).unwrap();
    assert_eq!(plan_write_buffer(short, 5, 0).unwrap_err(), QueueError::SliceTooSmall { len: 4, data: 5 });
}

#[test]
fn texture_operations_are_checked() {
    let readable = texture(1, 1);
    let writable = texture(2, 2);
    assert_eq!(check_copy_buffer_to_texture(buffer(1, 1, 0), writable, 2), Ok(()));
    assert_eq!(
        check_copy_buffer_to_texture(buffer(1, 1, 0), writable, 3),
        Err(QueueError::MipOutOfBounds { mip_level: 3, mip_levels: 3 })
    );
    assert_eq!(check_copy_buffer_to_texture(buffer(1, 2, 0), writable, 0), Err(QueueError::BufferNotReadable));
    assert_eq!(check_copy_buffer_to_texture(buffer(1, 1, 0), readable, 0), Err(QueueError::TextureNotWritable));

    let c = plan_copy_texture_to_texture(readable, 1, writable, 2).unwrap();
    assert_eq!((c.src, c.src_mip_level, c.dst, c.dst_mip_level), (1, 1, 2, 2));
    assert_eq!(plan_copy_texture_to_texture(writable, 0, writable, 0).unwrap_err(), QueueError::TextureNotReadable);
    assert_eq!(plan_copy_texture_to_texture(readable, 0, readable, 0).unwrap_err(), QueueError::TextureNotWritable);

    assert_eq!(check_write_texture(writable, 0), Ok(()));
    assert_eq!(check_write_texture(readable, 0), Err(QueueError::TextureNotWritable));
}

#[test]
fn texture_creation_and_views_are_checked() {
    assert_eq!(check_create_texture(4, 4, 3, 15), Ok(()));
    assert_eq!(check_create_texture(4, 4, 0, 15), Err(QueueError::EmptyUsage));
    assert_eq!(check_create_texture(4, 4, 16, 15), Err(QueueError::UnsupportedUsage { usage: 16, supported: 15 }));
    assert_eq!(check_create_texture(0, 4, 1, 15), Err(QueueError::ZeroSize));

    assert_eq!(view_mips(5, 2, None), Ok((2, 3)));
    assert_eq!(view_mips(5, 2, Some(3)), Ok((2, 3)));
    assert_eq!(view_mips(5, 2, Some(4)), Err(QueueError::InvalidView));
    assert_eq!(view_mips(5, 2, Some(0)), Err(QueueError::InvalidView));
    assert_eq!(view_mips(5, 5, None), Err(QueueError::InvalidView));
    assert_eq!(view_mips(5, 6, None), Err(QueueError::InvalidView));
}

#[test]
fn indirect_draws_are_checked() {
    let b = BufferInfo { id: 7, size: 100, usage: 64, flags: 0 };
    let args = BufferSlice { buffer: b, start: 20, end: 100 };
    match plan_draw_indirect(true, args, true) {
        Ok(DrawCall::DrawIndexedIndirect(d)) => assert_eq!((d.buffer, d.offset, d.count), (7, 20, 4)),
        other => panic!("unexpected {:?}", other),
    }
    let args = BufferSlice { buffer: b, start: 4, end: 52 };
    match plan_draw_indirect(true, args, false) {
        Ok(DrawCall::DrawIndirect(d)) => assert_eq!((d.buffer, d.offset, d.count), (7, 4, 3)),
        other => panic!("unexpected {:?}", other),
    }
    assert!(matches!(
        plan_draw_indirect(true, args, true),
        Err(QueueError::MisalignedIndirect { len: 48, stride: 20 })
    ));
    assert!(matches!(plan_draw_indirect(false, args, false), Err(QueueError::NoPipeline)));
    let plain = BufferSlice { buffer: BufferInfo { usage: 3, ..b }, start: 0, end: 16 };
    assert!(matches!(plan_draw_indirect(true, plain, false), Err(QueueError::BufferNotIndirect)));
}

#[test]
fn recorded_copies_and_draws_take_references() {
    let b = BufferInfo { id: 0, size: 64, usage: 3 | 64, flags: 0 };
    let mut buffers = vec![Some(RefCount::new())];
    let src = BufferSlice { buffer: b, start: 0, end: 16 };
    let dst = BufferSlice { buffer: b, start: 32, end: 48 };
    assert!(matches!(copy_buffer_to_buffer(src, dst, &mut buffers), Ok(Some(_))));
    // Copying nothing and a refused copy take no reference.
    let empty = BufferSlice { buffer: b, start: 8, end: 8 };
    assert!(matches!(copy_buffer_to_buffer(empty, empty, &mut buffers), Ok(None)));
    assert!(copy_buffer_to_buffer(src, src, &mut buffers).is_err());
    assert!(draw_indirect(true, src, false, &mut buffers).is_ok());
    assert!(draw_indirect(false, src, false, &mut buffers).is_err());
    // One reference at creation, two for the copy and one for the draw.
    let rc = buffers[0].as_mut().unwrap();
    assert!(!rc.decrement_many(3));
    assert!(rc.decrement());
}
