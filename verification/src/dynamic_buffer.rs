use vstd::prelude::*;

use crate::word_bytes::{native_little, read_u32, u32_at, write_u32};
use crate::pow2::{is_pow2, lemma_pow2_pos};

verus! {

/// The number of bytes needed after `size` to reach the next multiple of `align`.
pub open spec fn padding_of(size: int, align: int) -> int {
    if size % align == 0 {
        0
    } else {
        align - size % align
    }
}

/// Where the elements start: after the `u32` element count, aligned to the element.
pub open spec fn counter_offset_of(align: int) -> int {
    if align >= 4 {
        align
    } else {
        4
    }
}

/// Element `index` of a buffer with room for `cap` elements lies inside it.
proof fn lemma_slot_in_bounds(c: int, cap: int, stride: int, index: int)
    requires
        0 <= c,
        0 <= stride,
        0 <= index < cap,
    ensures
        c + index * stride + stride <= c + cap * stride,
        stride <= c + cap * stride,
        index * stride == stride * index,
        0 <= index * stride,
{
    assert(index * stride + stride <= cap * stride) by (nonlinear_arith)
        requires
            0 <= stride,
            0 <= index < cap,
    ;
    assert(index * stride == stride * index) by (nonlinear_arith);
    assert(0 <= index * stride) by (nonlinear_arith)
        requires
            0 <= stride,
            0 <= index,
    ;
}


/// `after` is `before` with `item` appended: the count is one more, the buffer grew by one
/// element's room if it was full, the item's bytes fill the slot after the last element,
/// and every other byte past the count is kept (new room reads as zero).
pub open spec fn pushed(before: DynamicBuffer, after: DynamicBuffer, item: Seq<u8>) -> bool {
    &&& after.wf()
    &&& after.little() == before.little()
    &&& after.elem_size() == before.elem_size()
    &&& after.elem_align() == before.elem_align()
    &&& after.len_spec() == before.len_spec() + 1
    &&& after.capacity() == if before.len_spec() == before.capacity() {
        before.capacity() + 1
    } else {
        before.capacity() as int
    }
    &&& after.bytes().len() == after.elements_offset() + after.capacity() * after.stride()
    &&& forall|i: int|
        4 <= i < after.bytes().len() ==> #[trigger] after.bytes()[i] == {
            let start = before.elements_offset() + before.len_spec() * before.stride();
            if start <= i < start + before.elem_size() {
                item[i - start]
            } else if i < before.bytes().len() {
                before.bytes()[i]
            } else {
                0u8
            }
        }
}

/// The bytes of element `k` of the buffer.
pub open spec fn element(b: DynamicBuffer, k: int) -> Seq<u8> {
    let start = b.elements_offset() + k * b.stride();
    b.bytes().subrange(start, start + b.elem_size())
}

/// A CPU-side copy of a GPU storage buffer laid out as
///
/// ```text
/// struct B {
///     // Aligned to the element.
///     count: u32,
///     // Contains at least one element.
///     elems: array<T>,
/// }
/// ```
///
/// holding elements of a fixed size and alignment. The count is stored in the machine's byte
/// order.
#[derive(Debug)]
pub struct DynamicBuffer {
    buf: Vec<u8>,
    elem_size: usize,
    elem_align: usize,
    cap: u32,
    little: bool,
}

impl DynamicBuffer {
    /// The bytes of the buffer.
    pub closed spec fn bytes(&self) -> Seq<u8> {
        self.buf@
    }

    /// The size of one element in bytes.
    pub closed spec fn elem_size(&self) -> usize {
        self.elem_size
    }

    /// The alignment of one element in bytes.
    pub closed spec fn elem_align(&self) -> usize {
        self.elem_align
    }

    /// The number of elements there is room for.
    pub closed spec fn capacity(&self) -> u32 {
        self.cap
    }

    /// Whether the count is stored least significant byte first (the machine's order).
    pub closed spec fn little(&self) -> bool {
        self.little
    }

    /// The distance in bytes between consecutive elements.
    pub open spec fn stride(&self) -> int {
        self.elem_size() + padding_of(self.elem_size() as int, self.elem_align() as int)
    }

    /// The byte offset of the first element.
    pub open spec fn elements_offset(&self) -> int {
        counter_offset_of(self.elem_align() as int)
    }

    /// The element count stored at the start of the buffer.
    pub open spec fn len_spec(&self) -> int {
        u32_at(self.bytes(), 0, self.little())
    }

    /// The buffer's internal invariant.
    pub closed spec fn wf(&self) -> bool {
        &&& is_pow2(self.elem_align as int)
        &&& self.cap >= 1
        &&& self.buf@.len() == counter_offset_of(self.elem_align as int) + self.cap * (
        self.elem_size + padding_of(self.elem_size as int, self.elem_align as int))
        &&& u32_at(self.buf@, 0, self.little) <= self.cap
    }

    /// Creates an empty buffer with room for one element of `elem_size` bytes aligned to
    /// `elem_align`; every byte is zero.
    pub fn new(elem_size: usize, elem_align: usize) -> (r: Self)
        requires
            is_pow2(elem_align as int),
            counter_offset_of(elem_align as int) + elem_size + padding_of(
                elem_size as int,
                elem_align as int,
            ) <= usize::MAX,
        ensures
            r.wf(),
            r.elem_size() == elem_size,
            r.elem_align() == elem_align,
            r.capacity() == 1,
            r.bytes().len() == r.elements_offset() + r.stride(),
            forall|i: int| 0 <= i < r.bytes().len() ==> #[trigger] r.bytes()[i] == 0,
            r.len_spec() == 0,
    {
        proof {
            lemma_pow2_pos(elem_align as int);
        }
        let pad = Self::padding_needed(elem_size, elem_align);
        let total = Self::counter_offset(elem_align) + elem_size + pad;
        let mut buf: Vec<u8> = Vec::new();
        buf.resize(total, 0);
        let little = native_little();
        let r = Self { buf, elem_size, elem_align, cap: 1, little };
        proof {
            assert(r.buf@[0] == 0 && r.buf@[1] == 0 && r.buf@[2] == 0 && r.buf@[3] == 0);
        }
        r
    }

    /// Returns the number of elements in this buffer.
    pub fn len(&self) -> (r: u32)
        requires
            self.wf(),
        ensures
            r == self.len_spec(),
    {
        read_u32(self.buf.as_slice(), 0, self.little)
    }

    /// Returns `true` if the buffer holds no element.
    pub fn is_empty(&self) -> (r: bool)
        requires
            self.wf(),
        ensures
            r == (self.len_spec() == 0),
    {
        self.len() == 0
    }

    /// The bytes to upload to the GPU.
    pub fn as_bytes(&self) -> (r: &[u8])
        ensures
            r@ == self.bytes(),
    {
        self.buf.as_slice()
    }

    /// Appends an element given by its bytes, growing the buffer by one element's room if
    /// it is full.
    pub fn push(&mut self, item: &[u8])
        requires
            old(self).wf(),
            item@.len() == old(self).elem_size(),
            padding_of(old(self).elem_size() as int, old(self).elem_align() as int) == 0,
            old(self).len_spec() < u32::MAX,
            old(self).bytes().len() + old(self).stride() <= usize::MAX,
        ensures
            final(self).wf(),
            pushed(*old(self), *final(self), item@),
    {
        proof {
            lemma_pow2_pos(self.elem_align as int);
        }
        let index = self.len();
        if self.cap <= index {
            self.reserve(1);
        }
        self.write_elem(index, item);
        self.set_len(index + 1);
    }

    /// Stores the element count.
    fn set_len(&mut self, len: u32)
        requires
            old(self).wf(),
            len <= old(self).cap,
        ensures
            final(self).wf(),
            u32_at(final(self).buf@, 0, final(self).little) == len,
            final(self).buf@.len() == old(self).buf@.len(),
            forall|i: int|
                4 <= i < old(self).buf@.len() ==> #[trigger] final(self).buf@[i] == old(
                    self,
                ).buf@[i],
            final(self).cap == old(self).cap,
            final(self).elem_size == old(self).elem_size,
            final(self).elem_align == old(self).elem_align,
            final(self).little == old(self).little,
    {
        proof {
            lemma_pow2_pos(self.elem_align as int);
        }
        write_u32(&mut self.buf, 0, len, self.little);
    }

    /// Makes room for `additional` more elements; the new bytes are zero.
    fn reserve(&mut self, additional: usize)
        requires
            old(self).wf(),
            old(self).cap + additional <= u32::MAX,
            old(self).buf@.len() + additional * (old(self).elem_size + padding_of(
                old(self).elem_size as int,
                old(self).elem_align as int,
            )) <= usize::MAX,
        ensures
            final(self).wf(),
            final(self).cap == old(self).cap + additional,
            final(self).buf@.len() == old(self).buf@.len() + additional * (old(self).elem_size
                + padding_of(old(self).elem_size as int, old(self).elem_align as int)),
            forall|i: int|
                0 <= i < final(self).buf@.len() ==> #[trigger] final(self).buf@[i] == if i < old(
                    self,
                ).buf@.len() {
                    old(self).buf@[i]
                } else {
                    0u8
                },
            final(self).elem_size == old(self).elem_size,
            final(self).elem_align == old(self).elem_align,
            final(self).little == old(self).little,
    {
        proof {
            lemma_pow2_pos(self.elem_align as int);
        }
        let pad = Self::padding_needed(self.elem_size, self.elem_align);
        proof {
            lemma_slot_in_bounds(
                counter_offset_of(self.elem_align as int),
                self.cap as int,
                self.elem_size + pad,
                0,
            );
        }
        let size = self.elem_size + pad;
        let ghost old_buf = self.buf@;
        assert(old_buf.len() + size * additional <= usize::MAX) by (nonlinear_arith)
            requires
                old_buf.len() + additional * size <= usize::MAX,
        ;
        let new_len = self.buf.len() + size * additional;
        self.buf.resize(new_len, 0);
        self.cap = self.cap + additional as u32;
        proof {
            assert(self.buf@.len() == old_buf.len() + additional * size) by (nonlinear_arith)
                requires
                    self.buf@.len() == old_buf.len() + size * additional,
            ;
            assert forall|i: int| 0 <= i < self.buf@.len() implies #[trigger] self.buf@[i] == if i
                < old_buf.len() {
                old_buf[i]
            } else {
                0u8
            } by {
                if i < old_buf.len() {
                    assert(self.buf@.subrange(0, old_buf.len() as int)[i] == old_buf[i]);
                }
            }
            assert(self.buf@[0] == old_buf[0] && self.buf@[1] == old_buf[1] && self.buf@[2]
                == old_buf[2] && self.buf@[3] == old_buf[3]);
            let c = counter_offset_of(self.elem_align as int);
            let old_cap = old(self).cap;
            assert(c + old_cap * size + additional * size == c + self.cap * size)
                by (nonlinear_arith)
                requires
                    self.cap == old_cap + additional,
            ;
        }
    }

    /// The number of bytes needed after an element to align the next one.
    fn padding_needed(elem_size: usize, elem_align: usize) -> (r: usize)
        requires
            elem_align > 0,
        ensures
            r == padding_of(elem_size as int, elem_align as int),
    {
        if elem_size % elem_align == 0 {
            0
        } else {
            elem_align - elem_size % elem_align
        }
    }

    /// Writes the bytes of element `index`.
    fn write_elem(&mut self, index: u32, item: &[u8])
        requires
            old(self).wf(),
            index < old(self).cap,
            item@.len() == old(self).elem_size,
        ensures
            final(self).cap == old(self).cap,
            final(self).elem_size == old(self).elem_size,
            final(self).elem_align == old(self).elem_align,
            final(self).little == old(self).little,
            final(self).buf@.len() == old(self).buf@.len(),
            forall|i: int|
                0 <= i < old(self).buf@.len() ==> #[trigger] final(self).buf@[i] == {
                    let start = counter_offset_of(old(self).elem_align as int) + index * (old(
                        self,
                    ).elem_size + padding_of(
                        old(self).elem_size as int,
                        old(self).elem_align as int,
                    ));
                    if start <= i < start + old(self).elem_size {
                        item@[i - start]
                    } else {
                        old(self).buf@[i]
                    }
                },
    {
        proof {
            lemma_pow2_pos(self.elem_align as int);
        }
        let pad = Self::padding_needed(self.elem_size, self.elem_align);
        let n = self.buf.len();
        let ghost c = counter_offset_of(self.elem_align as int);
        proof {
            lemma_slot_in_bounds(c, self.cap as int, self.elem_size + pad, index as int);
        }
        let size = self.elem_size + pad;
        let start = Self::counter_offset(self.elem_align) + size * index as usize;
        let ghost old_buf = self.buf@;
        let mut k: usize = 0;
        while k < item.len()
            invariant
                k <= item@.len(),
                item@.len() == self.elem_size,
                start == c + index * size,
                start + item@.len() <= old_buf.len(),
                old_buf.len() == n,
                self.buf@.len() == old_buf.len(),
                self.cap == old(self).cap,
                self.elem_size == old(self).elem_size,
                self.elem_align == old(self).elem_align,
                self.little == old(self).little,
                forall|i: int|
                    0 <= i < old_buf.len() ==> #[trigger] self.buf@[i] == if start <= i < start
                        + k {
                        item@[i - start]
                    } else {
                        old_buf[i]
                    },
            decreases item@.len() - k,
        {
            self.buf.set(start + k, item[k]);
            k = k + 1;
        }
    }

    /// Where the elements start.
    fn counter_offset(elem_align: usize) -> (r: usize)
        ensures
            r == counter_offset_of(elem_align as int),
    {
        if elem_align >= 4 {
            elem_align
        } else {
            4
        }
    }
}

/// One push keeps every earlier element and puts the item in the slot after them.
proof fn lemma_push_elements(before: DynamicBuffer, after: DynamicBuffer, item: Seq<u8>)
    requires
        before.wf(),
        pushed(before, after, item),
        item.len() == before.elem_size(),
    ensures
        element(after, before.len_spec()) == item,
        forall|k: int| 0 <= k < before.len_spec() ==> #[trigger] element(after, k) == element(before, k),
{
    lemma_pow2_pos(before.elem_align as int);
    let off = before.elements_offset();
    let stride = before.stride();
    let size = before.elem_size() as int;
    let n = before.len_spec();
    let cap = before.capacity() as int;
    let cap2 = after.capacity() as int;
    assert(size <= stride);
    assert(n <= cap);
    assert(n + 1 <= cap2);
    assert(off >= 4);
    assert(before.bytes().len() == off + cap * stride);
    assert((n + 1) * stride <= cap2 * stride) by (nonlinear_arith)
        requires
            n + 1 <= cap2,
            0 <= stride,
    ;
    assert(0 <= n * stride) by (nonlinear_arith)
        requires
            0 <= n,
            0 <= stride,
    ;
    assert((n + 1) * stride == n * stride + stride) by (nonlinear_arith);
    let start = off + n * stride;
    assert(element(after, n) =~= item) by {
        assert forall|t: int| 0 <= t < size implies #[trigger] after.bytes()[start + t] == item[t] by {
            let i = start + t;
            assert(4 <= i < after.bytes().len());
        }
    }
    assert forall|k: int| 0 <= k < n implies #[trigger] element(after, k) == element(before, k) by {
        assert((k + 1) * stride <= n * stride) by (nonlinear_arith)
            requires
                k + 1 <= n,
                0 <= stride,
        ;
        assert((k + 1) * stride == k * stride + stride) by (nonlinear_arith);
        assert(0 <= k * stride) by (nonlinear_arith)
            requires
                0 <= k,
                0 <= stride,
        ;
        assert(n * stride <= cap * stride) by (nonlinear_arith)
            requires
                n <= cap,
                0 <= stride,
        ;
        let ks = off + k * stride;
        assert forall|t: int| 0 <= t < size implies #[trigger] after.bytes()[ks + t] == before.bytes()[ks + t] by {
            let i = ks + t;
            assert(4 <= i < before.bytes().len());
            assert(i < start);
        }
        assert(element(after, k) =~= element(before, k));
    }
}

/// Pushing items one after another appends them in order: the count grows by their number,
/// item `j` fills the slot after the `n + j` elements before it (`n` being the count at the
/// start), and the elements that were there stay as they were.
pub proof fn law_pushes_append(states: Seq<DynamicBuffer>, items: Seq<Seq<u8>>)
    requires
        states.len() == items.len() + 1,
        states[0].wf(),
        forall|i: int| 0 <= i < items.len() ==> #[trigger] pushed(states[i], states[i + 1], items[i]),
        forall|i: int| 0 <= i < items.len() ==> #[trigger] items[i].len() == states[0].elem_size(),
    ensures
        states.last().len_spec() == states[0].len_spec() + items.len(),
        forall|j: int|
            0 <= j < items.len() ==> #[trigger] element(states.last(), states[0].len_spec() + j)
                == items[j],
        forall|k: int|
            0 <= k < states[0].len_spec() ==> #[trigger] element(states.last(), k) == element(
                states[0],
                k,
            ),
    decreases items.len(),
{
    let n = items.len() as int;
    if n > 0 {
        let ps = states.drop_last();
        let pi = items.drop_last();
        assert forall|i: int| 0 <= i < pi.len() implies #[trigger] pushed(ps[i], ps[i + 1], pi[i]) by {
            assert(pushed(states[i], states[i + 1], items[i]));
        }
        assert forall|i: int| 0 <= i < pi.len() implies #[trigger] pi[i].len() == ps[0].elem_size() by {
            assert(items[i].len() == states[0].elem_size());
        }
        law_pushes_append(ps, pi);
        let m = states[n - 1];
        assert(ps.last() == m);
        assert(m.wf() && m.elem_size() == states[0].elem_size()) by {
            lemma_elem_size_kept(ps, pi);
        }
        let l = n - 1;
        assert(pushed(states[l], states[l + 1], items[l]));
        assert(items[l].len() == states[0].elem_size());
        lemma_push_elements(m, states[n], items[n - 1]);
        let base = states[0].len_spec();
        assert forall|j: int| 0 <= j < n implies #[trigger] element(states.last(), base + j) == items[j] by {
            if j < n - 1 {
                assert(element(ps.last(), base + j) == pi[j]);
            }
        }
        assert forall|k: int| 0 <= k < base implies #[trigger] element(states.last(), k) == element(states[0], k) by {
            assert(element(ps.last(), k) == element(ps[0], k));
        }
    }
}

/// Along a chain of pushes the element size never changes and every state is well-formed.
proof fn lemma_elem_size_kept(states: Seq<DynamicBuffer>, items: Seq<Seq<u8>>)
    requires
        states.len() == items.len() + 1,
        states[0].wf(),
        forall|i: int| 0 <= i < items.len() ==> #[trigger] pushed(states[i], states[i + 1], items[i]),
    ensures
        states.last().wf(),
        states.last().elem_size() == states[0].elem_size(),
    decreases items.len(),
{
    let n = items.len() as int;
    if n > 0 {
        let ps = states.drop_last();
        let pi = items.drop_last();
        assert forall|i: int| 0 <= i < pi.len() implies #[trigger] pushed(ps[i], ps[i + 1], pi[i]) by {
            assert(pushed(states[i], states[i + 1], items[i]));
        }
        lemma_elem_size_kept(ps, pi);
        let l = n - 1;
        assert(pushed(states[l], states[l + 1], items[l]));
    }
}

/// Where element `k` of the buffer starts.
pub open spec fn slot_start(b: DynamicBuffer, k: int) -> int {
    b.elements_offset() + k * b.stride()
}

/// Byte `i` belongs to one of the first `n` elements.
pub open spec fn in_element(b: DynamicBuffer, i: int, n: int) -> bool {
    exists|k: int| 0 <= k < n && #[trigger] slot_start(b, k) <= i < slot_start(b, k) + b.elem_size()
}

/// Along pushes onto a buffer fresh from `new`: the count is the number of pushes, the room
/// is for that many elements but at least one, and every byte past the count that no
/// element occupies is zero.
proof fn lemma_fresh_chain(states: Seq<DynamicBuffer>, items: Seq<Seq<u8>>)
    requires
        states.len() == items.len() + 1,
        states[0].wf(),
        states[0].len_spec() == 0,
        states[0].capacity() == 1,
        forall|i: int| 0 <= i < states[0].bytes().len() ==> #[trigger] states[0].bytes()[i] == 0,
        forall|i: int| 0 <= i < items.len() ==> #[trigger] pushed(states[i], states[i + 1], items[i]),
    ensures
        states.last().wf(),
        states.last().elem_size() == states[0].elem_size(),
        states.last().elem_align() == states[0].elem_align(),
        states.last().len_spec() == items.len(),
        states.last().capacity() == if items.len() == 0 {
            1
        } else {
            items.len() as int
        },
        forall|i: int|
            4 <= i < states.last().bytes().len() && !in_element(states.last(), i, items.len() as int)
                ==> #[trigger] states.last().bytes()[i] == 0,
    decreases items.len(),
{
    let n = items.len() as int;
    if n > 0 {
        let ps = states.drop_last();
        let pi = items.drop_last();
        assert forall|i: int| 0 <= i < pi.len() implies #[trigger] pushed(ps[i], ps[i + 1], pi[i]) by {
            assert(pushed(states[i], states[i + 1], items[i]));
        }
        lemma_fresh_chain(ps, pi);
        let m = states[n - 1];
        assert(ps.last() == m);
        let l = n - 1;
        assert(pushed(states[l], states[l + 1], items[l]));
        let last = states[n];
        assert(states.last() == last);
        assert forall|i: int| 4 <= i < last.bytes().len() && !in_element(last, i, n) implies #[trigger] last.bytes()[i]
            == 0 by {
            assert(slot_start(last, n - 1) == slot_start(m, n - 1));
            if slot_start(m, n - 1) <= i < slot_start(m, n - 1) + m.elem_size() {
                assert(in_element(last, i, n));
            } else if i < m.bytes().len() {
                if in_element(m, i, n - 1) {
                    let k = choose|k: int|
                        0 <= k < n - 1 && #[trigger] slot_start(m, k) <= i < slot_start(m, k) + m.elem_size();
                    assert(slot_start(last, k) == slot_start(m, k));
                    assert(in_element(last, i, n));
                }
            }
        }
    }
}

/// A buffer made by `new` and then given `items` by `push`, one after another, holds the
/// number of items as its count, room for that many elements but at least one, item `j` in
/// slot `j`, and zero in every other byte past the count (the padding after the count and
/// after each element, and the unused room).
pub proof fn law_pushes_from_new(states: Seq<DynamicBuffer>, items: Seq<Seq<u8>>)
    requires
        states.len() == items.len() + 1,
        states[0].wf(),
        states[0].len_spec() == 0,
        states[0].capacity() == 1,
        forall|i: int| 0 <= i < states[0].bytes().len() ==> #[trigger] states[0].bytes()[i] == 0,
        forall|i: int| 0 <= i < items.len() ==> #[trigger] pushed(states[i], states[i + 1], items[i]),
        forall|i: int| 0 <= i < items.len() ==> #[trigger] items[i].len() == states[0].elem_size(),
    ensures
        states.last().len_spec() == items.len(),
        states.last().capacity() == if items.len() == 0 {
            1
        } else {
            items.len() as int
        },
        states.last().bytes().len() == states.last().elements_offset() + states.last().capacity()
            * states.last().stride(),
        forall|j: int| 0 <= j < items.len() ==> #[trigger] element(states.last(), j) == items[j],
        forall|i: int|
            4 <= i < states.last().bytes().len() && !in_element(states.last(), i, items.len() as int)
                ==> #[trigger] states.last().bytes()[i] == 0,
{
    lemma_fresh_chain(states, items);
    law_pushes_append(states, items);
    assert forall|j: int| 0 <= j < items.len() implies #[trigger] element(states.last(), j) == items[j] by {
        assert(element(states.last(), states[0].len_spec() + j) == items[j]);
    }
}

/// A multiple of `a` stays one when a multiple of `a` is added `k` times over.
proof fn lemma_multiple_steps(off: int, stride: int, k: int, a: int)
    requires
        a > 0,
        k >= 0,
        off % a == 0,
        stride % a == 0,
    ensures
        (off + k * stride) % a == 0,
{
    vstd::arithmetic::div_mod::lemma_fundamental_div_mod(off, a);
    vstd::arithmetic::div_mod::lemma_fundamental_div_mod(stride, a);
    let qo = off / a;
    let qs = stride / a;
    assert(off + k * stride == (qo + k * qs) * a) by (nonlinear_arith)
        requires
            off == a * qo,
            stride == a * qs,
    ;
    vstd::arithmetic::div_mod::lemma_mod_multiples_basic(qo + k * qs, a);
}

/// Elements are laid out aligned for the GPU: they start after the count at the smallest
/// multiple of the element alignment that is at least 4, their stride is a multiple of the
/// alignment, so every element starts at a multiple of the alignment, and the stride is the
/// element size rounded up to the alignment: room for the element and less than one
/// alignment of padding.
pub proof fn law_elements_aligned(b: DynamicBuffer, k: int)
    requires
        b.wf(),
        0 <= k,
    ensures
        b.elements_offset() >= 4,
        b.elements_offset() % (b.elem_align() as int) == 0,
        b.elements_offset() < 4 + b.elem_align(),
        b.stride() % (b.elem_align() as int) == 0,
        b.elem_size() <= b.stride() < b.elem_size() + b.elem_align(),
        slot_start(b, k) % (b.elem_align() as int) == 0,
{
    let a = b.elem_align() as int;
    let size = b.elem_size() as int;
    lemma_pow2_pos(a);
    if a < 4 {
        assert(a == 1 || a == 2) by {
            if a == 3 {
                assert(!is_pow2(3));
            }
        }
    }
    if a >= 4 {
        vstd::arithmetic::div_mod::lemma_mod_self_0(a);
    }
    assert(b.elements_offset() % a == 0);
    if size % a != 0 {
        assert((size + (a - size % a)) % a == 0) by {
            vstd::arithmetic::div_mod::lemma_fundamental_div_mod(size, a);
            vstd::arithmetic::div_mod::lemma_mod_multiples_basic(size / a + 1, a);
            assert(size + (a - size % a) == (size / a + 1) * a) by (nonlinear_arith)
                requires
                    size == a * (size / a) + size % a,
            ;
        }
    }
    lemma_multiple_steps(b.elements_offset(), b.stride(), k, a);
}

} // verus!
