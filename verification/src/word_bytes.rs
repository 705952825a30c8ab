use vstd::prelude::*;

verus! {

/// The value of the four bytes `s[at..at + 4]` read as a `u32`, least significant byte
/// first when `little`, most significant byte first otherwise.
pub open spec fn u32_at(s: Seq<u8>, at: int, little: bool) -> int {
    if little {
        s[at] + s[at + 1] * 256 + s[at + 2] * 65536 + s[at + 3] * 16777216
    } else {
        s[at + 3] + s[at + 2] * 256 + s[at + 1] * 65536 + s[at] * 16777216
    }
}

/// `u32::to_ne_bytes`: the four bytes of `x` in the machine's byte order, which is either
/// little-endian or big-endian. Which of the two is not stated: it depends on the machine.
#[verifier::external_body]
fn ne_bytes(x: u32) -> (r: [u8; 4])
    ensures
        u32_at(r@, 0, true) == x || u32_at(r@, 0, false) == x,
{
    x.to_ne_bytes()
}

/// Whether the machine stores integers least significant byte first: whether the first of
/// the machine's bytes of 1 is 1.
pub fn native_little() -> (little: bool) {
    let one = ne_bytes(1);
    one[0] == 1
}

/// Reads the `u32` stored at `buf[at..at + 4]` in the given byte order.
pub fn read_u32(buf: &[u8], at: usize, little: bool) -> (r: u32)
    requires
        at + 4 <= buf@.len(),
    ensures
        r == u32_at(buf@, at as int, little),
{
    let b0 = buf[at] as u32;
    let b1 = buf[at + 1] as u32;
    let b2 = buf[at + 2] as u32;
    let b3 = buf[at + 3] as u32;
    if little {
        b0 + b1 * 256 + b2 * 65536 + b3 * 16777216
    } else {
        b3 + b2 * 256 + b1 * 65536 + b0 * 16777216
    }
}

/// Stores `x` as four bytes at `buf[at..at + 4]` in the given byte order, leaving every
/// other byte as it was.
pub fn write_u32(buf: &mut Vec<u8>, at: usize, x: u32, little: bool)
    requires
        at + 4 <= old(buf)@.len(),
    ensures
        final(buf)@.len() == old(buf)@.len(),
        u32_at(final(buf)@, at as int, little) == x,
        forall|i: int|
            0 <= i < old(buf)@.len() && !(at <= i < at + 4) ==> #[trigger] final(buf)@[i] == old(
                buf,
            )@[i],
{
    proof {
        assert(buf.len() == old(buf)@.len());
    }
    let lo = (x % 256) as u8;
    let b1 = (x / 256 % 256) as u8;
    let b2 = (x / 65536 % 256) as u8;
    let hi = (x / 16777216) as u8;
    assert(lo + b1 * 256 + b2 * 65536 + hi * 16777216 == x) by (bit_vector)
        requires
            lo == x % 256,
            b1 == x / 256 % 256,
            b2 == x / 65536 % 256,
            hi == x / 16777216,
    ;
    if little {
        buf.set(at, lo);
        buf.set(at + 1, b1);
        buf.set(at + 2, b2);
        buf.set(at + 3, hi);
    } else {
        buf.set(at, hi);
        buf.set(at + 1, b2);
        buf.set(at + 2, b1);
        buf.set(at + 3, lo);
    }
}

} // verus!
