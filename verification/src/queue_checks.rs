use vstd::prelude::*;

use crate::accesses::{BufferId, TextureId};
use crate::cleanup::counts;
use crate::resources::{can_take_refs, take_ref, with_ref, RefCount};
use crate::commands::{
    CopyBufferToBuffer, CopyTextureToTexture, DrawCall, DrawIndexedIndirect, DrawIndirect, WriteBuffer,
};

verus! {

/// The buffer usage bit for copies out of a buffer.
pub const BUFFER_TRANSFER_SRC: u32 = 1;

/// The buffer usage bit for copies and writes into a buffer.
pub const BUFFER_TRANSFER_DST: u32 = 2;

/// The buffer usage bit for buffers that hold draw arguments.
pub const BUFFER_INDIRECT: u32 = 64;

/// The size in bytes of the arguments of one indirect draw.
pub const DRAW_INDIRECT_COMMAND_SIZE: u64 = 16;

/// The size in bytes of the arguments of one indexed indirect draw.
pub const DRAW_INDEXED_INDIRECT_COMMAND_SIZE: u64 = 20;

/// The memory flag of a buffer the host can map.
pub const HOST_VISIBLE: u32 = 1;

/// The texture usage bit for copies out of a texture.
pub const TEXTURE_TRANSFER_SRC: u32 = 1;

/// The texture usage bit for copies and writes into a texture.
pub const TEXTURE_TRANSFER_DST: u32 = 2;

/// What the command queue knows of a buffer.
#[derive(Copy, Clone, Debug, PartialEq, Eq, Structural)]
pub struct BufferInfo {
    pub id: BufferId,
    pub size: u64,
    pub usage: u32,
    pub flags: u32,
}

/// A byte range of a buffer, within the buffer.
#[derive(Copy, Clone, Debug, PartialEq, Eq, Structural)]
pub struct BufferSlice {
    pub buffer: BufferInfo,
    pub start: u64,
    pub end: u64,
}

/// What the command queue knows of a texture.
#[derive(Copy, Clone, Debug, PartialEq, Eq, Structural)]
pub struct TextureInfo {
    pub id: TextureId,
    pub width: u32,
    pub height: u32,
    pub usage: u32,
    pub mip_levels: u32,
}

/// Where a range of buffer bytes begins or ends.
#[derive(Copy, Clone, Debug, PartialEq, Eq, Structural)]
pub enum SliceBound {
    Included(u64),
    Excluded(u64),
    Unbounded,
}

/// A misuse of the command queue; each stops the caller.
#[derive(Copy, Clone, Debug, PartialEq, Eq, Structural)]
pub enum QueueError {
    /// The byte range does not lie within the buffer.
    SliceOutOfBounds,
    /// A copy reads a buffer without the transfer-source usage.
    BufferNotReadable,
    /// A copy or write targets a buffer without the transfer-destination usage.
    BufferNotWritable,
    /// The two ranges of a copy differ in length.
    LengthMismatch { src_len: u64, dst_len: u64 },
    /// A copy within one buffer reads and writes overlapping bytes.
    Overlap,
    /// The range written is shorter than the data.
    SliceTooSmall { len: u64, data: usize },
    /// A copy reads a texture without the transfer-source usage.
    TextureNotReadable,
    /// A copy or write targets a texture without the transfer-destination usage.
    TextureNotWritable,
    /// The mip level does not exist.
    MipOutOfBounds { mip_level: u32, mip_levels: u32 },
    /// A texture is created without any usage.
    EmptyUsage,
    /// The format does not support the usage.
    UnsupportedUsage { usage: u32, supported: u32 },
    /// A texture is created with a zero width or height.
    ZeroSize,
    /// A view covers no mip level, or more levels than the texture has.
    InvalidView,
    /// A draw is recorded before any pipeline is set.
    NoPipeline,
    /// An indirect draw reads a buffer without the indirect usage.
    BufferNotIndirect,
    /// The range of an indirect draw is not a whole number of argument records.
    MisalignedIndirect { len: u64, stride: u64 },
}

/// The flags contain the bit.
pub open spec fn has_bit(flags: u32, bit: u32) -> bool {
    flags & bit == bit
}

/// The first byte of a range starting at `b`, if it can be named.
pub open spec fn start_of(b: SliceBound) -> Option<int> {
    match b {
        SliceBound::Included(i) => Some(i as int),
        SliceBound::Excluded(i) => if i < u64::MAX {
            Some(i + 1)
        } else {
            None
        },
        SliceBound::Unbounded => Some(0),
    }
}

/// The byte after a range ending at `b`, if it can be named.
pub open spec fn end_of(b: SliceBound, size: u64) -> Option<int> {
    match b {
        SliceBound::Included(i) => if i < u64::MAX {
            Some(i + 1)
        } else {
            None
        },
        SliceBound::Excluded(i) => Some(i as int),
        SliceBound::Unbounded => Some(size as int),
    }
}

/// The bytes of `buffer` from `start` to `end`; an unbounded start is the first byte and an
/// unbounded end the end of the buffer. The range must lie within the buffer.
pub fn slice(buffer: BufferInfo, start: SliceBound, end: SliceBound) -> (r: Result<BufferSlice, QueueError>)
    ensures
        match (start_of(start), end_of(end, buffer.size)) {
            (Some(s), Some(e)) => if s <= buffer.size && e <= buffer.size && s <= e {
                r == Ok::<BufferSlice, QueueError>(BufferSlice { buffer, start: s as u64, end: e as u64 })
            } else {
                r == Err::<BufferSlice, QueueError>(QueueError::SliceOutOfBounds)
            },
            _ => r == Err::<BufferSlice, QueueError>(QueueError::SliceOutOfBounds),
        },
{
    let s = match start {
        SliceBound::Included(i) => i,
        SliceBound::Excluded(i) => {
            if i == u64::MAX {
                return Err(QueueError::SliceOutOfBounds);
            }
            i + 1
        },
        SliceBound::Unbounded => 0,
    };
    let e = match end {
        SliceBound::Included(i) => {
            if i == u64::MAX {
                return Err(QueueError::SliceOutOfBounds);
            }
            i + 1
        },
        SliceBound::Excluded(i) => i,
        SliceBound::Unbounded => buffer.size,
    };
    if s <= buffer.size && e <= buffer.size && s <= e {
        Ok(BufferSlice { buffer, start: s, end: e })
    } else {
        Err(QueueError::SliceOutOfBounds)
    }
}

/// The whole buffer.
pub fn whole(buffer: BufferInfo) -> (r: BufferSlice)
    ensures
        r == (BufferSlice { buffer, start: 0, end: buffer.size }),
{
    BufferSlice { buffer, start: 0, end: buffer.size }
}

/// The outcome of a copy between buffer ranges: the source must be readable, the
/// destination writable, the lengths equal, and ranges within one buffer must not overlap.
/// Copying nothing needs no command.
pub open spec fn plan_copy_spec(src: BufferSlice, dst: BufferSlice) -> Result<Option<CopyBufferToBuffer>, QueueError> {
    let src_len = (src.end - src.start) as u64;
    let dst_len = (dst.end - dst.start) as u64;
    if !has_bit(src.buffer.usage, BUFFER_TRANSFER_SRC) {
        Err(QueueError::BufferNotReadable)
    } else if !has_bit(dst.buffer.usage, BUFFER_TRANSFER_DST) {
        Err(QueueError::BufferNotWritable)
    } else if src_len != dst_len {
        Err(QueueError::LengthMismatch { src_len, dst_len })
    } else if src.buffer.id == dst.buffer.id && !(src.start >= dst.end || dst.start >= src.end) {
        Err(QueueError::Overlap)
    } else if dst_len == 0 {
        Ok(None)
    } else {
        Ok(
            Some(
                CopyBufferToBuffer {
                    src: src.buffer.id,
                    src_offset: src.start,
                    dst: dst.buffer.id,
                    dst_offset: dst.start,
                    count: dst_len,
                },
            ),
        )
    }
}

/// The check and command of a copy between buffer ranges (see `plan_copy_spec`).
pub fn plan_copy_buffer_to_buffer(src: BufferSlice, dst: BufferSlice) -> (r: Result<Option<CopyBufferToBuffer>, QueueError>)
    requires
        src.start <= src.end,
        dst.start <= dst.end,
    ensures
        r == plan_copy_spec(src, dst),
{
    if src.buffer.usage & BUFFER_TRANSFER_SRC != BUFFER_TRANSFER_SRC {
        return Err(QueueError::BufferNotReadable);
    }
    if dst.buffer.usage & BUFFER_TRANSFER_DST != BUFFER_TRANSFER_DST {
        return Err(QueueError::BufferNotWritable);
    }
    let src_len = src.end - src.start;
    let dst_len = dst.end - dst.start;
    if src_len != dst_len {
        return Err(QueueError::LengthMismatch { src_len, dst_len });
    }
    if src.buffer.id == dst.buffer.id && !(src.start >= dst.end || dst.start >= src.end) {
        return Err(QueueError::Overlap);
    }
    if dst_len == 0 {
        return Ok(None);
    }
    Ok(Some(CopyBufferToBuffer { src: src.buffer.id, src_offset: src.start, dst: dst.buffer.id, dst_offset: dst.start, count: dst_len }))
}

/// How a write of bytes reaches a buffer.
#[derive(Copy, Clone, Debug)]
pub enum WritePath {
    /// The buffer is mapped and written directly.
    Direct(WriteBuffer),
    /// The bytes go to a new host-visible staging buffer of `size` bytes, written at its
    /// start from `staging_memory_offset`, and the staging buffer is then copied into bytes
    /// `dst_offset .. dst_offset + size` of buffer `dst`.
    Staged { size: u64, staging_memory_offset: usize, dst: BufferId, dst_offset: u64 },
}

/// The check and path of a write of `data_len` bytes, stored at `staging_offset` in the
/// staging memory, into a buffer range: the buffer must be writable and the range long
/// enough. A host-visible buffer is written directly; any other through a staging buffer.
pub fn plan_write_buffer(dst: BufferSlice, data_len: usize, staging_offset: usize) -> (r: Result<WritePath, QueueError>)
    requires
        dst.start <= dst.end,
    ensures
        ({
            let len = (dst.end - dst.start) as u64;
            if !has_bit(dst.buffer.usage, BUFFER_TRANSFER_DST) {
                r matches Err(e) && e == QueueError::BufferNotWritable
            } else if (len as int) < data_len {
                r matches Err(e) && e == (QueueError::SliceTooSmall { len, data: data_len })
            } else if has_bit(dst.buffer.flags, HOST_VISIBLE) {
                r matches Ok(WritePath::Direct(w)) && w.buffer == dst.buffer.id && w.offset == dst.start
                    && w.staging_memory_offset == staging_offset && w.count == data_len
            } else {
                r matches Ok(WritePath::Staged { size, staging_memory_offset, dst: d, dst_offset })
                    && size == data_len && staging_memory_offset == staging_offset && d == dst.buffer.id
                    && dst_offset == dst.start
            }
        }),
{
    if dst.buffer.usage & BUFFER_TRANSFER_DST != BUFFER_TRANSFER_DST {
        return Err(QueueError::BufferNotWritable);
    }
    let len = dst.end - dst.start;
    if (len as u128) < (data_len as u128) {
        return Err(QueueError::SliceTooSmall { len, data: data_len });
    }
    if dst.buffer.flags & HOST_VISIBLE == HOST_VISIBLE {
        Ok(WritePath::Direct(WriteBuffer { buffer: dst.buffer.id, offset: dst.start, staging_memory_offset: staging_offset, count: data_len }))
    } else {
        Ok(WritePath::Staged { size: data_len as u64, staging_memory_offset: staging_offset, dst: dst.buffer.id, dst_offset: dst.start })
    }
}

/// The check of a copy from a buffer into a texture mip level: the buffer must be readable,
/// the texture writable, and the mip level must exist.
pub fn check_copy_buffer_to_texture(src: BufferInfo, dst: TextureInfo, mip_level: u32) -> (r: Result<(), QueueError>)
    ensures
        if !has_bit(src.usage, BUFFER_TRANSFER_SRC) {
            r == Err::<(), QueueError>(QueueError::BufferNotReadable)
        } else if !has_bit(dst.usage, TEXTURE_TRANSFER_DST) {
            r == Err::<(), QueueError>(QueueError::TextureNotWritable)
        } else if mip_level >= dst.mip_levels {
            r == Err::<(), QueueError>(QueueError::MipOutOfBounds { mip_level, mip_levels: dst.mip_levels })
        } else {
            r is Ok
        },
{
    if src.usage & BUFFER_TRANSFER_SRC != BUFFER_TRANSFER_SRC {
        return Err(QueueError::BufferNotReadable);
    }
    if dst.usage & TEXTURE_TRANSFER_DST != TEXTURE_TRANSFER_DST {
        return Err(QueueError::TextureNotWritable);
    }
    if mip_level >= dst.mip_levels {
        return Err(QueueError::MipOutOfBounds { mip_level, mip_levels: dst.mip_levels });
    }
    Ok(())
}

/// The check and command of a copy between texture mip levels: the source must be
/// readable, the destination writable, and both mip levels must exist.
pub fn plan_copy_texture_to_texture(src: TextureInfo, src_mip: u32, dst: TextureInfo, dst_mip: u32) -> (r: Result<
    CopyTextureToTexture,
    QueueError,
>)
    ensures
        if !has_bit(src.usage, TEXTURE_TRANSFER_SRC) {
            r matches Err(e) && e == QueueError::TextureNotReadable
        } else if !has_bit(dst.usage, TEXTURE_TRANSFER_DST) {
            r matches Err(e) && e == QueueError::TextureNotWritable
        } else if src_mip >= src.mip_levels {
            r matches Err(e) && e == (QueueError::MipOutOfBounds { mip_level: src_mip, mip_levels: src.mip_levels })
        } else if dst_mip >= dst.mip_levels {
            r matches Err(e) && e == (QueueError::MipOutOfBounds { mip_level: dst_mip, mip_levels: dst.mip_levels })
        } else {
            r matches Ok(c) && c.src == src.id && c.src_mip_level == src_mip && c.dst == dst.id && c.dst_mip_level
                == dst_mip
        },
{
    if src.usage & TEXTURE_TRANSFER_SRC != TEXTURE_TRANSFER_SRC {
        return Err(QueueError::TextureNotReadable);
    }
    if dst.usage & TEXTURE_TRANSFER_DST != TEXTURE_TRANSFER_DST {
        return Err(QueueError::TextureNotWritable);
    }
    if src_mip >= src.mip_levels {
        return Err(QueueError::MipOutOfBounds { mip_level: src_mip, mip_levels: src.mip_levels });
    }
    if dst_mip >= dst.mip_levels {
        return Err(QueueError::MipOutOfBounds { mip_level: dst_mip, mip_levels: dst.mip_levels });
    }
    Ok(CopyTextureToTexture { src: src.id, src_mip_level: src_mip, dst: dst.id, dst_mip_level: dst_mip })
}

/// The check of a write into a texture mip level: the texture must be writable and the mip
/// level must exist.
pub fn check_write_texture(texture: TextureInfo, mip_level: u32) -> (r: Result<(), QueueError>)
    ensures
        if !has_bit(texture.usage, TEXTURE_TRANSFER_DST) {
            r == Err::<(), QueueError>(QueueError::TextureNotWritable)
        } else if mip_level >= texture.mip_levels {
            r == Err::<(), QueueError>(QueueError::MipOutOfBounds { mip_level, mip_levels: texture.mip_levels })
        } else {
            r is Ok
        },
{
    if texture.usage & TEXTURE_TRANSFER_DST != TEXTURE_TRANSFER_DST {
        return Err(QueueError::TextureNotWritable);
    }
    if mip_level >= texture.mip_levels {
        return Err(QueueError::MipOutOfBounds { mip_level, mip_levels: texture.mip_levels });
    }
    Ok(())
}

/// The check of a new texture: it needs some usage, all supported by its format
/// (`supported`), and a nonzero width and height.
pub fn check_create_texture(width: u32, height: u32, usage: u32, supported: u32) -> (r: Result<(), QueueError>)
    ensures
        if usage == 0 {
            r == Err::<(), QueueError>(QueueError::EmptyUsage)
        } else if !has_bit(supported, usage) {
            r == Err::<(), QueueError>(QueueError::UnsupportedUsage { usage, supported })
        } else if width == 0 || height == 0 {
            r == Err::<(), QueueError>(QueueError::ZeroSize)
        } else {
            r is Ok
        },
{
    if usage == 0 {
        return Err(QueueError::EmptyUsage);
    }
    if supported & usage != usage {
        return Err(QueueError::UnsupportedUsage { usage, supported });
    }
    if width == 0 || height == 0 {
        return Err(QueueError::ZeroSize);
    }
    Ok(())
}

/// The mip levels of a view of a texture with `texture_mips` levels, from `base`: the given
/// number, or all the rest. The view must cover at least one level and stay within the
/// texture. Returns the base level and the number of levels.
pub fn view_mips(texture_mips: u32, base: u32, mip_levels: Option<u32>) -> (r: Result<(u32, u32), QueueError>)
    ensures
        match mip_levels {
            Some(n) => if n == 0 || base + n > texture_mips {
                r == Err::<(u32, u32), QueueError>(QueueError::InvalidView)
            } else {
                r == Ok::<(u32, u32), QueueError>((base, n))
            },
            None => if base >= texture_mips {
                r == Err::<(u32, u32), QueueError>(QueueError::InvalidView)
            } else {
                r == Ok::<(u32, u32), QueueError>((base, (texture_mips - base) as u32))
            },
        },
{
    let n = match mip_levels {
        Some(n) => n,
        None => {
            if base > texture_mips {
                return Err(QueueError::InvalidView);
            }
            texture_mips - base
        },
    };
    if n == 0 || base as u64 + n as u64 > texture_mips as u64 {
        return Err(QueueError::InvalidView);
    }
    Ok((base, n))
}

/// The size of one argument record of an indirect draw, indexed or not.
pub open spec fn indirect_stride(indexed: bool) -> u64 {
    if indexed {
        DRAW_INDEXED_INDIRECT_COMMAND_SIZE
    } else {
        DRAW_INDIRECT_COMMAND_SIZE
    }
}

/// The outcome of an indirect draw, indexed or not, whose argument records fill the buffer
/// range `args`: a pipeline must be set, the buffer must have the indirect usage, and the
/// range must hold a whole number of records. The draw reads the records from the start of
/// the range, one per draw; the count is taken modulo 2^32.
pub open spec fn plan_draw_indirect_spec(pipeline_set: bool, args: BufferSlice, indexed: bool) -> Result<DrawCall, QueueError> {
    let len = (args.end - args.start) as u64;
    let stride = indirect_stride(indexed);
    let count = (len / stride) as u32;
    if !pipeline_set {
        Err(QueueError::NoPipeline)
    } else if !has_bit(args.buffer.usage, BUFFER_INDIRECT) {
        Err(QueueError::BufferNotIndirect)
    } else if len % stride != 0 {
        Err(QueueError::MisalignedIndirect { len, stride })
    } else if indexed {
        Ok(DrawCall::DrawIndexedIndirect(DrawIndexedIndirect { buffer: args.buffer.id, offset: args.start, count }))
    } else {
        Ok(DrawCall::DrawIndirect(DrawIndirect { buffer: args.buffer.id, offset: args.start, count }))
    }
}

/// The check and call of an indirect draw (see `plan_draw_indirect_spec`).
pub fn plan_draw_indirect(pipeline_set: bool, args: BufferSlice, indexed: bool) -> (r: Result<DrawCall, QueueError>)
    requires
        args.start <= args.end,
    ensures
        r == plan_draw_indirect_spec(pipeline_set, args, indexed),
{
    if !pipeline_set {
        return Err(QueueError::NoPipeline);
    }
    if args.buffer.usage & BUFFER_INDIRECT != BUFFER_INDIRECT {
        return Err(QueueError::BufferNotIndirect);
    }
    let len = args.end - args.start;
    let stride = if indexed {
        DRAW_INDEXED_INDIRECT_COMMAND_SIZE
    } else {
        DRAW_INDIRECT_COMMAND_SIZE
    };
    if len % stride != 0 {
        return Err(QueueError::MisalignedIndirect { len, stride });
    }
    let count = (len / stride) as u32;
    if indexed {
        Ok(DrawCall::DrawIndexedIndirect(DrawIndexedIndirect { buffer: args.buffer.id, offset: args.start, count }))
    } else {
        Ok(DrawCall::DrawIndirect(DrawIndirect { buffer: args.buffer.id, offset: args.start, count }))
    }
}

/// A copy between buffer ranges as the command queue records it: checked and planned as by
/// `plan_copy_buffer_to_buffer`, and when a copy is recorded the source and destination
/// buffers (counts in `buffers`) each take one reference, which keeps them alive for it.
pub fn copy_buffer_to_buffer(src: BufferSlice, dst: BufferSlice, buffers: &mut Vec<Option<RefCount>>) -> (r: Result<
    Option<CopyBufferToBuffer>,
    QueueError,
>)
    requires
        src.start <= src.end,
        dst.start <= dst.end,
        can_take_refs(counts(old(buffers)@), src.buffer.id, 2),
        can_take_refs(counts(old(buffers)@), dst.buffer.id, 2),
    ensures
        r == plan_copy_spec(src, dst),
        counts(final(buffers)@) == if r matches Ok(Some(_)) {
            with_ref(with_ref(counts(old(buffers)@), src.buffer.id), dst.buffer.id)
        } else {
            counts(old(buffers)@)
        },
{
    let r = plan_copy_buffer_to_buffer(src, dst);
    if let Ok(Some(_)) = r {
        take_ref(buffers, src.buffer.id);
        take_ref(buffers, dst.buffer.id);
    }
    r
}

/// An indirect draw as a render pass records it: checked and planned as by
/// `plan_draw_indirect`, and when the draw is recorded the argument buffer (counts in
/// `buffers`) takes one reference.
pub fn draw_indirect(pipeline_set: bool, args: BufferSlice, indexed: bool, buffers: &mut Vec<Option<RefCount>>) -> (r:
    Result<DrawCall, QueueError>)
    requires
        args.start <= args.end,
        can_take_refs(counts(old(buffers)@), args.buffer.id, 1),
    ensures
        r == plan_draw_indirect_spec(pipeline_set, args, indexed),
        counts(final(buffers)@) == if r is Ok {
            with_ref(counts(old(buffers)@), args.buffer.id)
        } else {
            counts(old(buffers)@)
        },
{
    let r = plan_draw_indirect(pipeline_set, args, indexed);
    if r.is_ok() {
        take_ref(buffers, args.buffer.id);
    }
    r
}

} // verus!
