use vstd::prelude::*;

verus! {

/// The color of the debug border: opaque red.
pub open spec fn border_color(c: int) -> u8 {
    if c == 1 || c == 2 {
        0
    } else {
        255
    }
}

/// Byte `i` of an RGBA image `width` pixels wide belongs to a pixel on the border of an
/// image of `height` rows.
pub open spec fn on_border(width: int, height: int, i: int) -> bool {
    let p = i / 4;
    let x = p % width;
    let y = p / width;
    x == 0 || y == 0 || x == width - 1 || y == height - 1
}

/// Byte `i` belongs to pixel `(x, y)` of an image `width` pixels wide.
pub open spec fn in_pixel(width: int, x: int, y: int, i: int) -> bool {
    i / 4 == y * width + x
}

/// Every byte of `new` is the border color where `painted` holds of its pixel, and as in
/// `old` elsewhere.
pub open spec fn painted(old: Seq<u8>, new: Seq<u8>, width: int, painted: spec_fn(int, int) -> bool) -> bool {
    &&& new.len() == old.len()
    &&& forall|i: int|
        0 <= i < new.len() ==> #[trigger] new[i] == if painted((i / 4) % width, (i / 4) / width) {
            border_color(i % 4)
        } else {
            old[i]
        }
}

proof fn lemma_pixel_coords(width: int, x: int, y: int, i: int)
    requires
        width > 0,
        0 <= x < width,
        0 <= y,
        i >= 0,
    ensures
        in_pixel(width, x, y, i) <==> ((i / 4) % width == x && (i / 4) / width == y),
{
    let p = i / 4;
    if p == y * width + x {
        vstd::arithmetic::div_mod::lemma_fundamental_div_mod_converse(p, width, y, x);
    }
    if p % width == x && p / width == y {
        vstd::arithmetic::div_mod::lemma_fundamental_div_mod(p, width);
        assert(p == width * y + x);
        assert(width * y == y * width) by (nonlinear_arith);
    }
}

proof fn lemma_byte_coords(w: int, h: int, i: int)
    requires
        w > 0,
        h > 0,
        0 <= i < w * h * 4,
    ensures
        0 <= (i / 4) % w < w,
        0 <= (i / 4) / w < h,
{
    vstd::arithmetic::div_mod::lemma_div_is_ordered(i, w * h * 4 - 1, 4);
    assert((w * h * 4 - 1) / 4 < w * h) by (nonlinear_arith)
        requires
            w > 0,
            h > 0,
    ;
    vstd::arithmetic::div_mod::lemma_div_is_ordered(i / 4, w * h - 1, w);
    assert((w * h - 1) / w < h) by (nonlinear_arith)
        requires
            w > 0,
            h > 0,
    ;
    vstd::arithmetic::div_mod::lemma_mod_bound(i / 4, w);
    vstd::arithmetic::div_mod::lemma_div_pos_is_pos(i / 4, w);
}

/// Paints pixel `(x, y)` of an RGBA image `width` pixels wide and `height` rows high.
fn put_border_pixel(pixels: &mut Vec<u8>, width: u32, height: u32, x: u32, y: u32)
    requires
        old(pixels)@.len() == width as int * height as int * 4,
        x < width,
        y < height,
    ensures
        final(pixels)@.len() == old(pixels)@.len(),
        forall|i: int|
            0 <= i < old(pixels)@.len() ==> #[trigger] final(pixels)@[i] == if in_pixel(width as int, x as int, y as int, i) {
                border_color(i % 4)
            } else {
                old(pixels)@[i]
            },
{
    let w = width as usize;
    proof {
        assert(old(pixels)@.len() == pixels.len());
        assert((y as int) * (w as int) + (x as int) < (w as int) * (height as int)) by (nonlinear_arith)
            requires
                x < w,
                y < height,
        ;
        assert(((y as int) * (w as int) + (x as int)) * 4 + 4 <= (w as int) * (height as int) * 4) by (nonlinear_arith)
            requires
                (y as int) * (w as int) + (x as int) < (w as int) * (height as int),
        ;
    }
    let base = (y as usize * w + x as usize) * 4;
    let ghost before = pixels@;
    pixels.set(base, 255);
    pixels.set(base + 1, 0);
    pixels.set(base + 2, 0);
    pixels.set(base + 3, 255);
    proof {
        assert forall|i: int| 0 <= i < before.len() implies #[trigger] pixels@[i] == if in_pixel(width as int, x as int, y as int, i) {
            border_color(i % 4)
        } else {
            before[i]
        } by {
            let b = base as int;
            if i / 4 == b / 4 {
                assert(b <= i < b + 4);
            } else {
                assert(i < b || i >= b + 4);
            }
        }
    }
}

/// Paints a one pixel wide red border around an RGBA image of `width` by `height` pixels,
/// stored row after row, four bytes per pixel. An empty image is left alone.
pub fn debug_border(pixels: &mut Vec<u8>, width: u32, height: u32)
    requires
        old(pixels)@.len() == width as int * height as int * 4,
    ensures
        width == 0 || height == 0 ==> final(pixels)@ == old(pixels)@,
        width > 0 && height > 0 ==> painted(
            old(pixels)@,
            final(pixels)@,
            width as int,
            |x: int, y: int| x == 0 || y == 0 || x == width - 1 || y == height - 1,
        ),
{
    if width == 0 || height == 0 {
        return;
    }
    let ghost start = pixels@;
    let ghost w = width as int;
    let ghost h = height as int;
    // Top row.
    let mut k: u32 = 0;
    proof {
        assert(painted(start, pixels@, w, |x: int, y: int| y == 0 && x < 0));
    }
    while k < width
        invariant
            k <= width,
            w == width,
            h == height,
            width > 0,
            height > 0,
            start.len() == w * h * 4,
            pixels@.len() == start.len(),
            painted(start, pixels@, w, |x: int, y: int| y == 0 && x < k),
        decreases width - k,
    {
        let ghost before = pixels@;
        put_border_pixel(pixels, width, height, k, 0);
        proof {
            assert forall|i: int| 0 <= i < pixels@.len() implies #[trigger] pixels@[i] == if ((i / 4) / w == 0 && (i / 4) % w < k + 1) {
                border_color(i % 4)
            } else {
                start[i]
            } by {
                lemma_pixel_coords(w, k as int, 0, i);
                assert(before[i] == if ((i / 4) / w == 0 && (i / 4) % w < k) { border_color(i % 4) } else { start[i] });
            }
        }
        k = k + 1;
    }
    proof {
        assert forall|i: int| 0 <= i < pixels@.len() implies #[trigger] pixels@[i] == if ((i / 4) / w == 0 || ((i / 4) % w == 0 && (i / 4) / w < 0)) {
            border_color(i % 4)
        } else {
            start[i]
        } by {
            lemma_byte_coords(w, h, i);
        }
    }
    // Left column.
    let mut k: u32 = 0;
    while k < height
        invariant
            k <= height,
            w == width,
            h == height,
            width > 0,
            height > 0,
            start.len() == w * h * 4,
            pixels@.len() == start.len(),
            painted(start, pixels@, w, |x: int, y: int| y == 0 || (x == 0 && y < k)),
        decreases height - k,
    {
        let ghost before = pixels@;
        put_border_pixel(pixels, width, height, 0, k);
        proof {
            assert forall|i: int| 0 <= i < pixels@.len() implies #[trigger] pixels@[i] == if ((i / 4) / w == 0 || ((i / 4) % w == 0 && (i / 4) / w < k + 1)) {
                border_color(i % 4)
            } else {
                start[i]
            } by {
                lemma_pixel_coords(w, 0, k as int, i);
                assert(before[i] == if ((i / 4) / w == 0 || ((i / 4) % w == 0 && (i / 4) / w < k)) { border_color(i % 4) } else { start[i] });
            }
        }
        k = k + 1;
    }
    proof {
        assert forall|i: int| 0 <= i < pixels@.len() implies #[trigger] pixels@[i] == if ((i / 4) / w == 0 || (i / 4) % w == 0 || ((i / 4) / w == h - 1 && (i / 4) % w < 0)) {
            border_color(i % 4)
        } else {
            start[i]
        } by {
            lemma_byte_coords(w, h, i);
        }
    }
    // Bottom row.
    let mut k: u32 = 0;
    while k < width
        invariant
            k <= width,
            w == width,
            h == height,
            width > 0,
            height > 0,
            start.len() == w * h * 4,
            pixels@.len() == start.len(),
            painted(start, pixels@, w, |x: int, y: int| y == 0 || x == 0 || (y == h - 1 && x < k)),
        decreases width - k,
    {
        let ghost before = pixels@;
        put_border_pixel(pixels, width, height, k, height - 1);
        proof {
            assert forall|i: int| 0 <= i < pixels@.len() implies #[trigger] pixels@[i] == if ((i / 4) / w == 0 || (i / 4) % w == 0 || ((i / 4) / w == h - 1 && (i / 4) % w < k + 1)) {
                border_color(i % 4)
            } else {
                start[i]
            } by {
                lemma_pixel_coords(w, k as int, h - 1, i);
                assert(before[i] == if ((i / 4) / w == 0 || (i / 4) % w == 0 || ((i / 4) / w == h - 1 && (i / 4) % w < k)) { border_color(i % 4) } else { start[i] });
            }
        }
        k = k + 1;
    }
    proof {
        assert forall|i: int| 0 <= i < pixels@.len() implies #[trigger] pixels@[i] == if ((i / 4) / w == 0 || (i / 4) % w == 0 || (i / 4) / w == h - 1 || ((i / 4) % w == w - 1 && (i / 4) / w < 0)) {
            border_color(i % 4)
        } else {
            start[i]
        } by {
            lemma_byte_coords(w, h, i);
        }
    }
    // Right column.
    let mut k: u32 = 0;
    while k < height
        invariant
            k <= height,
            w == width,
            h == height,
            width > 0,
            height > 0,
            start.len() == w * h * 4,
            pixels@.len() == start.len(),
            painted(start, pixels@, w, |x: int, y: int| y == 0 || x == 0 || y == h - 1 || (x == w - 1 && y < k)),
        decreases height - k,
    {
        let ghost before = pixels@;
        put_border_pixel(pixels, width, height, width - 1, k);
        proof {
            assert forall|i: int| 0 <= i < pixels@.len() implies #[trigger] pixels@[i] == if ((i / 4) / w == 0 || (i / 4) % w == 0 || (i / 4) / w == h - 1 || ((i / 4) % w == w - 1 && (i / 4) / w < k + 1)) {
                border_color(i % 4)
            } else {
                start[i]
            } by {
                lemma_pixel_coords(w, w - 1, k as int, i);
                assert(before[i] == if ((i / 4) / w == 0 || (i / 4) % w == 0 || (i / 4) / w == h - 1 || ((i / 4) % w == w - 1 && (i / 4) / w < k)) { border_color(i % 4) } else { start[i] });
            }
        }
        k = k + 1;
    }
    proof {
        assert forall|i: int| 0 <= i < pixels@.len() implies #[trigger] pixels@[i] == if ((i / 4) % w == 0 || (i / 4) / w == 0 || (i / 4) % w == w - 1 || (i / 4) / w == h - 1) {
            border_color(i % 4)
        } else {
            start[i]
        } by {
            lemma_byte_coords(w, h, i);
        }
    }
}

} // verus!
