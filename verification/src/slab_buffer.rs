use vstd::prelude::*;

use crate::block_buffer::{copies, moves_spec, move_ok, sources, dests, BlockBuffer, BufferWrite};

verus! {

/// The index of a value in a [`SlabBuffer`].
#[derive(Copy, Clone, Debug, PartialEq, Eq, Structural, Hash)]
pub struct SlabIndex(pub u32);

/// A GPU array of fixed-size values whose indices stay stable until the value is removed.
#[derive(Debug)]
pub struct SlabBuffer {
    buffer: BlockBuffer,
}

/// The moves with their indices as slab indices.
pub open spec fn slab_moves(moves: Seq<(u32, u32)>) -> Seq<(SlabIndex, SlabIndex)> {
    moves.map_values(|m: (u32, u32)| (SlabIndex(m.0), SlabIndex(m.1)))
}

impl SlabBuffer {
    /// The blocks that hold the values.
    pub closed spec fn blocks(&self) -> BlockBuffer {
        self.buffer
    }

    /// Creates an empty buffer for values of `value_size` bytes, padded to their alignment.
    pub fn new(value_size: usize, usage: u32) -> (r: Self)
        ensures
            r.blocks().wf(),
            r.blocks().capacity() == 0,
            r.blocks().block_size_spec() == value_size,
            r.blocks().occupied().len() == 0,
            r.blocks().free().len() == 0,
            r.blocks().writes().len() == 0,
            !r.blocks().buffer_created(),
            r.blocks().usage_spec() == usage | 3,
    {
        Self { buffer: BlockBuffer::new(value_size, usage) }
    }

    /// Stores the bytes of a value in the lowest free slot, growing the buffer if none is
    /// free, and returns the slot's index.
    pub fn insert(&mut self, value: &[u8]) -> (r: SlabIndex)
        requires
            old(self).blocks().wf(),
            value@.len() <= old(self).blocks().block_size_spec(),
            old(self).blocks().free().len() == 0 ==> (if old(self).blocks().capacity() == 0 {
                1
            } else {
                old(self).blocks().capacity()
            }) * 2 <= u32::MAX,
        ensures
            final(self).blocks().wf(),
            r.0 == if old(self).blocks().free().len() == 0 {
                old(self).blocks().capacity() as u32
            } else {
                old(self).blocks().free()[0]
            },
            !old(self).blocks().occupied().contains(r.0),
            final(self).blocks().occupied().to_set() == old(self).blocks().occupied().to_set().insert(r.0),
            final(self).blocks().writes().last() matches BufferWrite::Data(i, v) && i == r.0 && v@ == value@,
            final(self).blocks().block_size_spec() == old(self).blocks().block_size_spec(),
    {
        SlabIndex(self.buffer.insert(value))
    }

    /// Removes the value at `index`, which must be stored.
    pub fn remove(&mut self, index: SlabIndex)
        requires
            old(self).blocks().wf(),
            old(self).blocks().occupied().contains(index.0),
        ensures
            final(self).blocks().wf(),
            final(self).blocks().occupied().to_set() == old(self).blocks().occupied().to_set().remove(index.0),
            final(self).blocks().free().to_set() == old(self).blocks().free().to_set().insert(index.0),
            final(self).blocks().capacity() == old(self).blocks().capacity(),
            final(self).blocks().writes() == old(self).blocks().writes(),
            final(self).blocks().block_size_spec() == old(self).blocks().block_size_spec(),
    {
        self.buffer.remove(index.0)
    }

    /// Moves the highest values into the lowest free slots, as far as possible, and returns
    /// the moves as `(old index, new index)` pairs in the order they were made.
    pub fn compact(&mut self) -> (moves: Vec<(SlabIndex, SlabIndex)>)
        requires
            old(self).blocks().wf(),
        ensures
            final(self).blocks().wf(),
            exists|m: Seq<(u32, u32)>|
                {
                    &&& #[trigger] slab_moves(m) == moves@
                    &&& m == moves_spec(old(self).blocks().occupied(), old(self).blocks().free(), m.len() as int)
                    &&& !move_ok(old(self).blocks().occupied(), old(self).blocks().free(), m.len() as int)
                    &&& final(self).blocks().occupied().to_set() == old(self).blocks().occupied().to_set().difference(
                        sources(m),
                    ).union(dests(m))
                    &&& final(self).blocks().writes() == old(self).blocks().writes() + copies(m)
                },
            forall|a: u32, b: u32|
                #![trigger final(self).blocks().occupied().contains(a), final(self).blocks().free().contains(b)]
                final(self).blocks().occupied().contains(a) && final(self).blocks().free().contains(b) ==> a < b,
    {
        let raw = self.buffer.compact();
        let mut moves: Vec<(SlabIndex, SlabIndex)> = Vec::new();
        let mut k: usize = 0;
        while k < raw.len()
            invariant
                k <= raw@.len(),
                moves@ == slab_moves(raw@.take(k as int)),
            decreases raw@.len() - k,
        {
            let (src, dst) = raw[k];
            moves.push((SlabIndex(src), SlabIndex(dst)));
            proof {
                assert(raw@.take(k + 1) =~= raw@.take(k as int).push(raw@[k as int]));
                assert(moves@ =~= slab_moves(raw@.take(k + 1)));
            }
            k = k + 1;
        }
        proof {
            assert(raw@.take(k as int) =~= raw@);
        }
        moves
    }

    /// The blocks that hold the values: their GPU writes are taken from there.
    pub fn blocks_mut(&mut self) -> (r: &mut BlockBuffer)
        ensures
            *r == old(self).blocks(),
            final(self).blocks() == *final(r),
    {
        &mut self.buffer
    }
}

} // verus!
