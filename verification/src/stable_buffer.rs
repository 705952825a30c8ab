use vstd::prelude::*;

use crate::word_bytes::{native_little, read_u32, u32_at, write_u32};

verus! {

/// `after` is `before` with `value` stored under `key`: into the first free slot when there
/// is one (its link becomes the head), or else appended with `elem_align % elem_size` zero
/// bytes after it under the next counter value.
pub open spec fn inserted(before: StableBuffer, after: StableBuffer, value: Seq<u8>, key: u32) -> bool {
    &&& after.little() == before.little()
    &&& after.elem_size() == before.elem_size()
    &&& after.elem_align() == before.elem_align()
    &&& before.free_head() matches Some(index) ==> {
        let offset = before.elem_size() * index;
        let next = u32_at(before.bytes(), offset, before.little());
        &&& key == index
        &&& after.len_spec() == before.len_spec()
        &&& after.free_head() == if next == 0 {
            None
        } else {
            Some(next as u32)
        }
        &&& after.bytes().len() == before.bytes().len()
        &&& forall|i: int|
            0 <= i < before.bytes().len() ==> #[trigger] after.bytes()[i] == if offset
                <= i < offset + before.elem_size() {
                value[i - offset]
            } else {
                before.bytes()[i]
            }
    }
    &&& before.free_head() is None ==> {
        &&& key == before.len_spec()
        &&& after.len_spec() == before.len_spec() + 1
        &&& after.free_head() is None
        &&& after.bytes() == before.bytes() + value + Seq::new(
            (before.elem_align() % before.elem_size()) as nat,
            |i: int| 0u8,
        )
    }
}

/// `after` is `before` with slot `key` freed: the counter is one less, the slot is the new
/// head of the free list and its first four bytes link to the previous head (0 if there was
/// none), in the buffer's byte order; every other byte is kept.
pub open spec fn removed(before: StableBuffer, after: StableBuffer, key: u32) -> bool {
    &&& after.len_spec() == before.len_spec() - 1
    &&& after.free_head() == Some(key)
    &&& after.elem_size() == before.elem_size()
    &&& after.elem_align() == before.elem_align()
    &&& after.little() == before.little()
    &&& after.bytes().len() == before.bytes().len()
    &&& u32_at(after.bytes(), before.elem_size() * key, before.little()) == match before.free_head() {
        Some(next) => next,
        None => 0,
    }
    &&& forall|i: int|
        0 <= i < before.bytes().len() && !(before.elem_size() * key <= i < before.elem_size() * key + 4)
            ==> #[trigger] after.bytes()[i] == before.bytes()[i]
}

/// A CPU-side array of fixed size elements whose removed slots are kept in a free list
/// threaded through the slots themselves: the first four bytes of a free slot hold the index
/// of the next free slot, in the machine's byte order, with 0 ending the list.
#[derive(Debug)]
pub struct StableBuffer {
    buffer: Vec<u8>,
    elem_size: usize,
    elem_align: usize,
    len: u32,
    free_head: Option<u32>,
    little: bool,
}

impl StableBuffer {
    /// The bytes of the buffer.
    pub closed spec fn bytes(&self) -> Seq<u8> {
        self.buffer@
    }

    /// The size of one element in bytes.
    pub closed spec fn elem_size(&self) -> usize {
        self.elem_size
    }

    /// The alignment of one element in bytes.
    pub closed spec fn elem_align(&self) -> usize {
        self.elem_align
    }

    /// The element counter.
    pub closed spec fn len_spec(&self) -> u32 {
        self.len
    }

    /// Whether free list links are stored least significant byte first (the machine's
    /// order).
    pub closed spec fn little(&self) -> bool {
        self.little
    }

    /// The first free slot, if any.
    pub closed spec fn free_head(&self) -> Option<u32> {
        self.free_head
    }

    /// Creates an empty buffer for elements of `elem_size` bytes aligned to `elem_align`.
    /// An element must be large enough to hold a free list link.
    pub fn new(elem_size: usize, elem_align: usize) -> (r: Self)
        requires
            elem_size >= 4,
        ensures
            r.bytes().len() == 0,
            r.elem_size() == elem_size,
            r.elem_align() == elem_align,
            r.len_spec() == 0,
            r.free_head() is None,
    {
        Self { buffer: Vec::new(), elem_size, elem_align, free_head: None, len: 0, little: native_little() }
    }

    /// The bytes to upload to the GPU.
    pub fn as_bytes(&self) -> (r: &[u8])
        ensures
            r@ == self.bytes(),
    {
        self.buffer.as_slice()
    }

    /// Stores an element given by its bytes and returns its key.
    ///
    /// With a free slot the element goes into the first free slot, whose link becomes the
    /// new head, and that slot's index is returned. Otherwise the bytes are appended,
    /// followed by `elem_align % elem_size` zero bytes, and the counter is returned and then
    /// incremented.
    pub fn insert(&mut self, value: &[u8]) -> (key: u32)
        requires
            value@.len() == old(self).elem_size(),
            old(self).elem_size() >= 4,
            old(self).free_head() matches Some(index) ==> old(self).elem_size() * index
                + old(self).elem_size() <= old(self).bytes().len(),
            old(self).free_head() is None ==> {
                &&& old(self).len_spec() < u32::MAX
                &&& old(self).bytes().len() + old(self).elem_size() + old(self).elem_align()
                    % old(self).elem_size() <= usize::MAX
            },
        ensures
            inserted(*old(self), *final(self), value@, key),
    {
        match self.free_head {
            Some(index) => {
                let n = self.buffer.len();
                let offset = self.elem_size * index as usize;
                let next_free = read_u32(self.buffer.as_slice(), offset, self.little);
                self.free_head = if next_free == 0 {
                    None
                } else {
                    Some(next_free)
                };
                let ghost old_buf = self.buffer@;
                let mut k: usize = 0;
                while k < value.len()
                    invariant
                        k <= value@.len(),
                        value@.len() == self.elem_size,
                        offset + self.elem_size <= old_buf.len(),
                        old_buf.len() == n,
                        self.buffer@.len() == old_buf.len(),
                        self.elem_size == old(self).elem_size,
                        self.elem_align == old(self).elem_align,
                        self.len == old(self).len,
                        self.little == old(self).little,
                        self.free_head == (if next_free == 0 {
                            None
                        } else {
                            Some(next_free)
                        }),
                        forall|i: int|
                            0 <= i < old_buf.len() ==> #[trigger] self.buffer@[i] == if offset <= i
                                < offset + k {
                                value@[i - offset]
                            } else {
                                old_buf[i]
                            },
                    decreases value@.len() - k,
                {
                    self.buffer.set(offset + k, value[k]);
                    k = k + 1;
                }
                index
            },
            None => {
                let ghost old_buf = self.buffer@;
                self.buffer.extend_from_slice(value);
                let ghost mid = self.buffer@;
                proof {
                    assert(mid =~= old_buf + value@);
                }
                let align_bytes = self.elem_align % self.elem_size;
                let mut k: usize = 0;
                while k < align_bytes
                    invariant
                        k <= align_bytes,
                        mid.len() + align_bytes <= usize::MAX,
                        self.elem_size == old(self).elem_size,
                        self.elem_align == old(self).elem_align,
                        self.len == old(self).len,
                        self.little == old(self).little,
                        self.free_head == old(self).free_head,
                        self.buffer@ == mid + Seq::new(k as nat, |i: int| 0u8),
                    decreases align_bytes - k,
                {
                    let ghost before = self.buffer@;
                    self.buffer.push(0);
                    k = k + 1;
                    proof {
                        assert(self.buffer@ =~= mid + Seq::new(k as nat, |i: int| 0u8));
                    }
                }
                let key = self.len;
                self.len = self.len + 1;
                key
            },
        }
    }

    /// Frees the slot `key`: its first four bytes take the current free list head (0 if
    /// there is none), it becomes the new head, and the counter is decremented.
    pub fn remove(&mut self, key: u32)
        requires
            old(self).len_spec() >= 1,
            old(self).elem_size() >= 4,
            old(self).elem_size() * key + old(self).elem_size() <= old(self).bytes().len(),
        ensures
            removed(*old(self), *final(self), key),
    {
        self.len = self.len - 1;
        let n = self.buffer.len();
        let offset = self.elem_size * key as usize;
        let next_free = match self.free_head {
            Some(next) => next,
            None => 0,
        };
        write_u32(&mut self.buffer, offset, next_free, self.little);
        self.free_head = Some(key);
    }
}

/// The byte sequences one after another.
pub open spec fn concat(vs: Seq<Seq<u8>>) -> Seq<u8>
    decreases vs.len(),
{
    if vs.len() == 0 {
        Seq::empty()
    } else {
        concat(vs.drop_last()) + vs.last()
    }
}

/// In a concatenation of sequences of `size` bytes each, byte `t` of sequence `k` sits at
/// `k * size + t`.
proof fn lemma_concat_index(vs: Seq<Seq<u8>>, size: int)
    requires
        size >= 0,
        forall|i: int| 0 <= i < vs.len() ==> #[trigger] vs[i].len() == size,
    ensures
        concat(vs).len() == vs.len() * size,
        forall|k: int, t: int|
            0 <= k < vs.len() && 0 <= t < size ==> concat(vs)[k * size + t] == #[trigger] vs[k][t],
    decreases vs.len(),
{
    let n = vs.len() as int;
    if n > 0 {
        let p = vs.drop_last();
        lemma_concat_index(p, size);
        assert(vs.last().len() == size);
        assert((n - 1) * size + size == n * size) by (nonlinear_arith);
        assert forall|k: int, t: int| 0 <= k < n && 0 <= t < size implies concat(vs)[k * size + t]
            == #[trigger] vs[k][t] by {
            if k < n - 1 {
                assert(p[k] == vs[k]);
                assert(k * size + t < (n - 1) * size) by (nonlinear_arith)
                    requires
                        k + 1 <= n - 1,
                        0 <= t < size,
                ;
                assert(0 <= k * size) by (nonlinear_arith)
                    requires
                        0 <= k,
                        0 <= size,
                ;
            } else {
                assert(k * size == (n - 1) * size);
            }
        }
    }
}

/// Inserting values one after another into a buffer fresh from `new`, whose alignment is a
/// multiple of the element size, lays the values out back to back: the bytes are the values
/// in order, the keys are 0, 1, 2, ..., and the value under key `k` occupies bytes
/// `k * elem_size .. (k + 1) * elem_size`.
pub proof fn law_inserts_concatenate(states: Seq<StableBuffer>, values: Seq<Seq<u8>>, keys: Seq<u32>)
    requires
        states.len() == values.len() + 1,
        keys.len() == values.len(),
        states[0].bytes().len() == 0,
        states[0].len_spec() == 0,
        states[0].free_head() is None,
        states[0].elem_size() > 0,
        states[0].elem_align() % states[0].elem_size() == 0,
        forall|i: int| 0 <= i < values.len() ==> #[trigger] values[i].len() == states[0].elem_size(),
        forall|i: int|
            0 <= i < values.len() ==> #[trigger] inserted(states[i], states[i + 1], values[i], keys[i]),
    ensures
        states.last().bytes() == concat(values),
        states.last().len_spec() == values.len(),
        states.last().free_head() is None,
        forall|i: int| 0 <= i < keys.len() ==> #[trigger] keys[i] == i,
        forall|k: int, t: int|
            0 <= k < values.len() && 0 <= t < states[0].elem_size() ==> states.last().bytes()[k
                * states[0].elem_size() + t] == #[trigger] values[k][t],
{
    lemma_inserts_chain(states, values, keys);
    lemma_concat_index(values, states[0].elem_size() as int);
}

proof fn lemma_inserts_chain(states: Seq<StableBuffer>, values: Seq<Seq<u8>>, keys: Seq<u32>)
    requires
        states.len() == values.len() + 1,
        keys.len() == values.len(),
        states[0].bytes().len() == 0,
        states[0].len_spec() == 0,
        states[0].free_head() is None,
        states[0].elem_size() > 0,
        states[0].elem_align() % states[0].elem_size() == 0,
        forall|i: int|
            0 <= i < values.len() ==> #[trigger] inserted(states[i], states[i + 1], values[i], keys[i]),
    ensures
        states.last().bytes() == concat(values),
        states.last().len_spec() == values.len(),
        states.last().free_head() is None,
        states.last().elem_size() == states[0].elem_size(),
        states.last().elem_align() == states[0].elem_align(),
        forall|i: int| 0 <= i < keys.len() ==> #[trigger] keys[i] == i,
    decreases values.len(),
{
    let n = values.len() as int;
    if n == 0 {
        assert(concat(values) =~= states[0].bytes());
    } else {
        let ps = states.drop_last();
        let pv = values.drop_last();
        let pk = keys.drop_last();
        assert forall|i: int| 0 <= i < pv.len() implies #[trigger] inserted(ps[i], ps[i + 1], pv[i], pk[i]) by {
            assert(inserted(states[i], states[i + 1], values[i], keys[i]));
        }
        lemma_inserts_chain(ps, pv, pk);
        let l = n - 1;
        assert(inserted(states[l], states[l + 1], values[l], keys[l]));
        let m = states[l];
        assert(ps.last() == m);
        assert(m.elem_align() % m.elem_size() == 0);
        assert(states.last().bytes() =~= concat(values));
        assert forall|i: int| 0 <= i < keys.len() implies #[trigger] keys[i] == i by {
            if i < l {
                assert(pk[i] == keys[i]);
            }
        }
    }
}

/// A freed slot is the next one reused: the insert that follows a removal stores the value
/// in the freed slot and returns its key, the free list is back to what it was before the
/// removal, and every byte outside the slot is as it was before the removal. (A free list
/// whose head is slot 0 is excluded: a link of 0 ends the list.)
pub proof fn law_insert_reuses_removed_slot(
    s0: StableBuffer,
    s1: StableBuffer,
    s2: StableBuffer,
    key: u32,
    value: Seq<u8>,
    k2: u32,
)
    requires
        s0.elem_size() * key + s0.elem_size() <= s0.bytes().len(),
        s0.elem_size() >= 4,
        value.len() == s0.elem_size(),
        s0.free_head() != Some(0u32),
        removed(s0, s1, key),
        inserted(s1, s2, value, k2),
    ensures
        k2 == key,
        s2.free_head() == s0.free_head(),
        s2.bytes().len() == s0.bytes().len(),
        forall|t: int| 0 <= t < s0.elem_size() ==> s2.bytes()[s0.elem_size() * key + t] == #[trigger] value[t],
        forall|i: int|
            0 <= i < s0.bytes().len() && !(s0.elem_size() * key <= i < s0.elem_size() * key + s0.elem_size())
                ==> #[trigger] s2.bytes()[i] == s0.bytes()[i],
{
    let off = s0.elem_size() * key;
    assert forall|t: int| 0 <= t < s0.elem_size() implies s2.bytes()[off + t] == #[trigger] value[t] by {
        assert(off <= off + t < off + s1.elem_size());
    }
    assert forall|i: int|
        0 <= i < s0.bytes().len() && !(off <= i < off + s0.elem_size()) implies #[trigger] s2.bytes()[i]
            == s0.bytes()[i] by {
        assert(s2.bytes()[i] == s1.bytes()[i]);
    }
}

} // verus!
