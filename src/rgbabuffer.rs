//! The RGBA pixel buffer that text and widgets are drawn into.
use vstd::prelude::*;

use crate::layout::TheDim;

verus! {

/// Pixels of a canvas, four bytes each, row after row, with the canvas's rectangle.
#[derive(Debug)]
pub struct TheRGBABuffer {
    dim: TheDim,
    buffer: Vec<u8>,
}

/// Bytes of a `width` by `height` canvas.
pub open spec fn area_bytes(width: int, height: int) -> int {
    width * height * 4
}

/// `n` zero bytes.
fn zeros(n: usize) -> (r: Vec<u8>)
    ensures
        r@.len() == n,
        forall|i: int| 0 <= i < n ==> r@[i] == 0,
{
    let mut r: Vec<u8> = Vec::new();
    let mut i: usize = 0;
    while i < n
        invariant
            i <= n,
            r@.len() == i,
            forall|k: int| 0 <= k < i ==> r@[k] == 0,
        decreases n - i,
    {
        r.push(0);
        i += 1;
    }
    r
}

impl TheRGBABuffer {
    pub closed spec fn spec_dim(&self) -> TheDim {
        self.dim
    }

    pub closed spec fn spec_pixels(&self) -> Seq<u8> {
        self.buffer@
    }

    /// An empty buffer with a zero rectangle.
    pub fn empty() -> (r: Self)
        ensures
            r.spec_dim() == TheDim::spec_zero(),
            r.spec_pixels().len() == 0,
    {
        Self { dim: TheDim::zero(), buffer: Vec::new() }
    }

    /// A buffer of the given rectangle, all bytes zero.
    pub fn new(dim: TheDim) -> (r: Self)
        requires
            dim.width >= 0,
            dim.height >= 0,
            area_bytes(dim.width as int, dim.height as int) <= usize::MAX,
        ensures
            r.spec_dim() == dim,
            r.spec_pixels().len() == area_bytes(dim.width as int, dim.height as int),
            forall|i: int| 0 <= i < r.spec_pixels().len() ==> r.spec_pixels()[i] == 0,
    {
        proof {
            assert(0 <= dim.width * dim.height) by (nonlinear_arith)
                requires
                    dim.width >= 0,
                    dim.height >= 0,
            ;
        }
        let n = dim.width as usize * dim.height as usize * 4;
        Self { dim, buffer: zeros(n) }
    }

    /// A buffer over existing bytes, at the origin.
    pub fn from(buffer: Vec<u8>, width: u32, height: u32) -> (r: Self)
        requires
            width <= i32::MAX,
            height <= i32::MAX,
        ensures
            r.spec_dim() == (TheDim { x: 0, y: 0, width: width as i32, height: height as i32 }),
            r.spec_pixels() == buffer@,
    {
        Self { dim: TheDim::new(0, 0, width as i32, height as i32), buffer }
    }

    /// Whether the rectangle has an area.
    pub fn is_valid(&self) -> (r: bool)
        ensures
            r == (self.spec_dim().width > 0 && self.spec_dim().height > 0),
    {
        self.dim.is_valid()
    }

    pub fn dim(&self) -> (r: &TheDim)
        ensures
            *r == self.spec_dim(),
    {
        &self.dim
    }

    /// Pixels per row.
    pub fn stride(&self) -> (r: usize)
        requires
            self.spec_dim().width >= 0,
        ensures
            r == self.spec_dim().width,
    {
        self.dim.width as usize
    }

    pub fn pixels(&self) -> (r: &[u8])
        ensures
            r@ == self.spec_pixels(),
    {
        self.buffer.as_slice()
    }

    pub fn pixels_mut(&mut self) -> (r: &mut [u8])
        ensures
            r@ == old(self).spec_pixels(),
            final(r)@ == final(self).spec_pixels(),
            final(self).spec_dim() == old(self).spec_dim(),
    {
        self.buffer.as_mut_slice()
    }

    /// Sets the rectangle; a new rectangle gets freshly zeroed pixels.
    pub fn set_dim(&mut self, dim: TheDim)
        requires
            dim.width > 0 && dim.height > 0 ==> area_bytes(dim.width as int, dim.height as int)
                <= usize::MAX,
        ensures
            final(self).spec_dim() == dim,
            dim == old(self).spec_dim() ==> final(self).spec_pixels() == old(self).spec_pixels(),
            dim != old(self).spec_dim() && dim.width > 0 && dim.height > 0 ==> final(self).spec_pixels().len() == area_bytes(dim.width as int, dim.height as int) && forall|
                i: int,
            |
                0 <= i < final(self).spec_pixels().len() ==> final(self).spec_pixels()[i] == 0,
            dim != old(self).spec_dim() && !(dim.width > 0 && dim.height > 0) ==> final(self).spec_pixels().len() == 0,
    {
        if dim != self.dim {
            self.dim = dim;
            self.allocate();
        }
    }

    /// Zeroed pixels for the rectangle; none when it has no area.
    pub fn allocate(&mut self)
        requires
            old(self).spec_dim().width > 0 && old(self).spec_dim().height > 0 ==> area_bytes(
                old(self).spec_dim().width as int,
                old(self).spec_dim().height as int,
            ) <= usize::MAX,
        ensures
            final(self).spec_dim() == old(self).spec_dim(),
            old(self).spec_dim().width > 0 && old(self).spec_dim().height > 0 ==> final(self).spec_pixels().len() == area_bytes(
                old(self).spec_dim().width as int,
                old(self).spec_dim().height as int,
            ) && forall|i: int|
                0 <= i < final(self).spec_pixels().len() ==> final(self).spec_pixels()[i] == 0,
            !(old(self).spec_dim().width > 0 && old(self).spec_dim().height > 0) ==> final(self).spec_pixels().len() == 0,
    {
        if self.dim.is_valid() {
            proof {
                assert(0 <= self.dim.width * self.dim.height) by (nonlinear_arith)
                    requires
                        self.dim.width > 0,
                        self.dim.height > 0,
                ;
            }
            let n = self.dim.width as usize * self.dim.height as usize * 4;
            self.buffer = zeros(n);
        } else {
            self.buffer = Vec::new();
        }
    }

    /// Copies `other` into this buffer with its top left corner at `(x, y)`.
    pub fn copy_into(&mut self, x: i32, y: i32, other: &TheRGBABuffer)
        requires
            x >= 0,
            y >= 0,
            other.spec_dim().width >= 0,
            other.spec_dim().height >= 0,
            x + other.spec_dim().width <= old(self).spec_dim().width,
            y + other.spec_dim().height <= old(self).spec_dim().height,
            old(self).spec_pixels().len() == area_bytes(
                old(self).spec_dim().width as int,
                old(self).spec_dim().height as int,
            ),
            other.spec_pixels().len() == area_bytes(
                other.spec_dim().width as int,
                other.spec_dim().height as int,
            ),
        ensures
            final(self).spec_dim() == old(self).spec_dim(),
            final(self).spec_pixels().len() == old(self).spec_pixels().len(),
            forall|i: int|
                0 <= i < old(self).spec_pixels().len() ==> #[trigger] final(self).spec_pixels()[i]
                    == copied_byte(
                    old(self).spec_pixels(),
                    old(self).spec_dim().width as int,
                    other.spec_pixels(),
                    other.spec_dim().width as int,
                    other.spec_dim().height as int,
                    x as int,
                    y as int,
                    i,
                ),
    {
        let ghost orig = self.buffer@;
        let sw = self.dim.width as usize;
        let ow = other.dim.width as usize;
        let oh = other.dim.height as usize;
        let xs = x as usize;
        let ys = y as usize;
        let total = self.buffer.len();
        let olen = other.buffer.len();
        proof {
            lemma_area_bounds(sw as int, self.dim.height as int, ow as int, oh as int, xs as int, ys as int, total as int);
        }
        let mut h: usize = 0;
        while h < oh
            invariant
                sw == self.dim.width,
                ow == other.dim.width,
                oh == other.dim.height,
                xs == x,
                ys == y,
                xs + ow <= sw,
                ys + oh <= self.dim.height,
                self.dim == old(self).dim,
                orig == old(self).buffer@,
                self.buffer@.len() == orig.len(),
                total == orig.len(),
                olen == other.buffer@.len(),
                orig.len() == area_bytes(sw as int, self.dim.height as int),
                other.buffer@.len() == area_bytes(ow as int, oh as int),
                h <= oh,
                forall|i: int|
                    0 <= i < orig.len() ==> #[trigger] self.buffer@[i] == copied_byte(
                        orig,
                        sw as int,
                        other.buffer@,
                        ow as int,
                        h as int,
                        xs as int,
                        ys as int,
                        i,
                    ),
            decreases oh - h,
        {
            let mut c: usize = 0;
            proof {
                lemma_area_row(sw as int, self.dim.height as int, ow as int, oh as int, xs as int, ys as int, h as int);
            }
            let s = h * ow * 4;
            let d = (h + ys) * sw * 4 + xs * 4;
            while c < ow * 4
                invariant
                    sw == self.dim.width,
                    ow == other.dim.width,
                    oh == other.dim.height,
                    xs + ow <= sw,
                    ys + oh <= self.dim.height,
                    h < oh,
                    self.dim == old(self).dim,
                    orig == old(self).buffer@,
                    s == h * ow * 4,
                    d == (h + ys) * sw * 4 + xs * 4,
                    s + ow * 4 <= other.buffer@.len(),
                    d + ow * 4 <= orig.len(),
                    self.buffer@.len() == orig.len(),
                    total == orig.len(),
                    olen == other.buffer@.len(),
                    orig.len() == area_bytes(sw as int, self.dim.height as int),
                    other.buffer@.len() == area_bytes(ow as int, oh as int),
                    c <= ow * 4,
                    forall|i: int|
                        0 <= i < orig.len() ==> #[trigger] self.buffer@[i] == if d <= i < d + c {
                            other.buffer@[s + (i - d)]
                        } else {
                            copied_byte(orig, sw as int, other.buffer@, ow as int, h as int, xs as int, ys as int, i)
                        },
                decreases ow * 4 - c,
            {
                let v = other.buffer[s + c];
                self.buffer.set(d + c, v);
                c += 1;
            }
            proof {
                assert forall|i: int| 0 <= i < orig.len() implies #[trigger] self.buffer@[i] == copied_byte(
                    orig,
                    sw as int,
                    other.buffer@,
                    ow as int,
                    h + 1,
                    xs as int,
                    ys as int,
                    i,
                ) by {
                    lemma_copied_step(orig, sw as int, other.buffer@, ow as int, h as int, xs as int, ys as int, i);
                }
            }
            h += 1;
        }
    }
}

/// Byte `i` of a `width`-pixel-wide canvas after copying the first `rows`
/// rows of a `ow`-pixel-wide canvas to `(x, y)`.
pub open spec fn copied_byte(
    dest: Seq<u8>,
    width: int,
    src: Seq<u8>,
    ow: int,
    rows: int,
    x: int,
    y: int,
    i: int,
) -> u8 {
    let row = i / (width * 4);
    let col = i % (width * 4);
    if width > 0 && y <= row < y + rows && x * 4 <= col < (x + ow) * 4 {
        src[(row - y) * ow * 4 + (col - x * 4)]
    } else {
        dest[i]
    }
}

proof fn lemma_area_bounds(sw: int, sh: int, ow: int, oh: int, x: int, y: int, len: int)
    requires
        0 <= x,
        0 <= y,
        0 <= ow,
        0 <= oh,
        x + ow <= sw,
        y + oh <= sh,
        len == area_bytes(sw, sh),
        len <= usize::MAX,
    ensures
        (y + oh) * sw * 4 <= len,
        oh * ow * 4 <= len,
{
    assert((y + oh) * sw * 4 <= sh * sw * 4) by (nonlinear_arith)
        requires
            y + oh <= sh,
            0 <= sw,
            0 <= y,
            0 <= oh,
    ;
    assert(oh * ow * 4 <= sh * sw * 4) by (nonlinear_arith)
        requires
            oh <= sh,
            ow <= sw,
            0 <= ow,
            0 <= oh,
    ;
    assert(sh * sw == sw * sh) by (nonlinear_arith);
}

proof fn lemma_area_row(sw: int, sh: int, ow: int, oh: int, x: int, y: int, h: int)
    requires
        0 <= x,
        0 <= y,
        0 <= ow,
        0 <= h < oh,
        x + ow <= sw,
        y + oh <= sh,
        area_bytes(sw, sh) <= usize::MAX,
    ensures
        h * ow * 4 + ow * 4 <= area_bytes(ow, oh),
        (h + y) * sw * 4 + x * 4 + ow * 4 <= area_bytes(sw, sh),
        0 <= h * ow * 4,
        0 <= (h + y) * sw * 4,
{
    assert(h * ow * 4 + ow * 4 <= ow * oh * 4) by (nonlinear_arith)
        requires
            h + 1 <= oh,
            0 <= ow,
    ;
    assert((h + y) * sw * 4 + x * 4 + ow * 4 <= sw * sh * 4) by (nonlinear_arith)
        requires
            h + y + 1 <= sh,
            x + ow <= sw,
            0 <= x,
            0 <= ow,
    ;
    assert(0 <= h * ow * 4) by (nonlinear_arith)
        requires
            0 <= h,
            0 <= ow,
    ;
    assert(0 <= (h + y) * sw * 4) by (nonlinear_arith)
        requires
            0 <= h + y,
            0 <= sw,
    ;
}

proof fn lemma_copied_step(dest: Seq<u8>, sw: int, src: Seq<u8>, ow: int, h: int, x: int, y: int, i: int)
    requires
        0 <= x,
        0 <= y,
        0 <= ow,
        0 <= h,
        x + ow <= sw,
        0 <= i,
    ensures
        ({
            let d = (h + y) * sw * 4 + x * 4;
            let s = h * ow * 4;
            copied_byte(dest, sw, src, ow, h + 1, x, y, i) == if d <= i < d + ow * 4 {
                src[s + (i - d)]
            } else {
                copied_byte(dest, sw, src, ow, h, x, y, i)
            }
        }),
{
    let d = (h + y) * sw * 4 + x * 4;
    if sw > 0 {
        let row = i / (sw * 4);
        let col = i % (sw * 4);
        assert(i == row * (sw * 4) + col && 0 <= col < sw * 4) by (nonlinear_arith)
            requires
                sw > 0,
                0 <= i,
                row == i / (sw * 4),
                col == i % (sw * 4),
        ;
        if d <= i < d + ow * 4 {
            assert(row == h + y && col == i - (h + y) * sw * 4) by (nonlinear_arith)
                requires
                    i == row * (sw * 4) + col,
                    0 <= col < sw * 4,
                    d == (h + y) * sw * 4 + x * 4,
                    d <= i < d + ow * 4,
                    x + ow <= sw,
                    0 <= x,
            ;
            assert((row - y) * ow * 4 + (col - x * 4) == h * ow * 4 + (i - d)) by (nonlinear_arith)
                requires
                    row == h + y,
                    col == i - (h + y) * sw * 4,
                    d == (h + y) * sw * 4 + x * 4,
            ;
        } else {
            if row == h + y && x * 4 <= col < (x + ow) * 4 {
                assert(d <= i < d + ow * 4) by (nonlinear_arith)
                    requires
                        i == row * (sw * 4) + col,
                        row == h + y,
                        x * 4 <= col < (x + ow) * 4,
                        d == (h + y) * sw * 4 + x * 4,
                ;
            }
        }
    } else {
        assert(ow == 0);
    }
}

} // verus!
