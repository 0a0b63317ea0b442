//! An owned raster of 8-bit samples, with the two pixel moves the re-tiling
//! needs: cutting out a rectangle and writing one raster into another.

use vstd::prelude::*;

verus! {

/// How the samples of one pixel are laid out.
#[derive(Debug, Clone, Copy, PartialEq, Eq, Structural)]
pub enum PixelFormat {
    /// One grey sample.
    Luma,
    /// A grey sample and an alpha sample.
    LumaAlpha,
    /// Red, green and blue samples.
    Rgb,
    /// Red, green, blue and alpha samples.
    Rgba,
}

impl PixelFormat {
    pub open spec fn channel_count(self) -> nat {
        match self {
            PixelFormat::Luma => 1,
            PixelFormat::LumaAlpha => 2,
            PixelFormat::Rgb => 3,
            PixelFormat::Rgba => 4,
        }
    }

    /// Number of samples, and so of bytes, in one pixel.
    pub fn channels(&self) -> (r: usize)
        ensures
            r == self.channel_count(),
    {
        match self {
            PixelFormat::Luma => 1,
            PixelFormat::LumaAlpha => 2,
            PixelFormat::Rgb => 3,
            PixelFormat::Rgba => 4,
        }
    }
}

/// A `width` by `height` raster whose pixels are stored row after row, each
/// pixel as `format.channels()` consecutive bytes.
#[derive(Debug, Clone)]
pub struct Raster {
    pub width: u32,
    pub height: u32,
    pub format: PixelFormat,
    pub data: Vec<u8>,
}

/// Byte `k` of row `r` of a buffer whose rows are `row_len` bytes long.
pub open spec fn at(s: Seq<u8>, row_len: nat, r: int, k: int) -> u8 {
    s[r * row_len + k]
}

/// Whether the byte at row `r`, offset `k` lies in the rectangle of rows
/// `[top, top + rows)` and byte offsets `[left, left + len)`.
pub open spec fn in_rect(r: int, k: int, top: int, rows: int, left: int, len: int) -> bool {
    top <= r < top + rows && left <= k < left + len
}

impl Raster {
    /// Length in bytes of one row.
    pub open spec fn row_len(self) -> nat {
        self.width as nat * self.format.channel_count()
    }

    /// The buffer holds exactly the raster's pixels.
    pub open spec fn wf(self) -> bool {
        self.data@.len() == self.height as nat * self.row_len()
    }

    /// Byte `k` of row `r`.
    pub open spec fn byte(self, r: int, k: int) -> u8 {
        at(self.data@, self.row_len(), r, k)
    }

    /// Builds a raster from its pixel bytes, if `data` holds exactly
    /// `width * height` pixels of `format`.
    pub fn from_raw(width: u32, height: u32, format: PixelFormat, data: Vec<u8>) -> (r: Option<Raster>)
        ensures
            r is Some <==> data@.len() == width as nat * height as nat * format.channel_count(),
            r is Some ==> (r->0 == Raster { width, height, format, data }),
            r matches Some(img) ==> img.wf(),
    {
        proof {
            lemma_product_fits(width as nat, height as nat);
        }
        let pixels = width as u128 * height as u128;
        let expected = pixels * format.channels() as u128;
        if data.len() as u128 == expected {
            let r = Raster { width, height, format, data };
            assert(r.wf()) by (nonlinear_arith)
                requires
                    r.data@.len() == width as nat * height as nat * format.channel_count(),
                    r.row_len() == width as nat * format.channel_count(),
                    r.height == height,
            ;
            Some(r)
        } else {
            proof {
                assert(width as nat * height as nat * format.channel_count() == expected)
                    by (nonlinear_arith)
                    requires
                        expected == width as nat * height as nat * format.channel_count(),
                ;
            }
            None
        }
    }
}

/// `c` is the `w` by `h` rectangle of `img` whose top left pixel is `(x, y)`.
pub open spec fn is_crop_of(c: Raster, img: Raster, x: int, y: int, w: int, h: int) -> bool {
    &&& c.wf()
    &&& c.width == w
    &&& c.height == h
    &&& c.format == img.format
    &&& forall|r: int, k: int|
        0 <= r < h && 0 <= k < c.row_len() ==> #[trigger] c.byte(r, k) == img.byte(
            y + r,
            x * img.format.channel_count() + k,
        )
}

/// `after` is `before` with `src` written over it, top left pixel at `(x, y)`;
/// every byte outside that rectangle is kept.
pub open spec fn placed(before: Raster, src: Raster, x: int, y: int, after: Raster) -> bool {
    let left = x * before.format.channel_count();
    &&& after.wf()
    &&& after.width == before.width
    &&& after.height == before.height
    &&& after.format == before.format
    &&& forall|r: int, k: int|
        0 <= r < before.height && 0 <= k < before.row_len() ==> #[trigger] after.byte(r, k) == if in_rect(
            r,
            k,
            y,
            src.height as int,
            left,
            src.row_len() as int,
        ) {
            src.byte(r - y, k - left)
        } else {
            before.byte(r, k)
        }
}

/// Why a raster could not be written into another.
#[derive(Debug, Clone, Copy, PartialEq, Eq, Structural)]
pub enum PlacementError {
    /// Part of the source would fall outside the destination.
    OutOfBounds,
}

impl Raster {
    /// A raster of the given size whose bytes are all zero, or `None` where its
    /// buffer could not be addressed.
    pub fn new_blank(width: u32, height: u32, format: PixelFormat) -> (r: Option<Raster>)
        ensures
            r is Some <==> width as nat * height as nat * format.channel_count() <= usize::MAX,
            r matches Some(img) ==> {
                &&& img.wf()
                &&& img.width == width
                &&& img.height == height
                &&& img.format == format
                &&& forall|i: int| 0 <= i < img.data@.len() ==> #[trigger] img.data@[i] == 0
            },
    {
        proof {
            lemma_product_fits(width as nat, height as nat);
        }
        let size = width as u128 * height as u128 * format.channels() as u128;
        if size > usize::MAX as u128 {
            return None;
        }
        let n = size as usize;
        let mut data: Vec<u8> = Vec::new();
        while data.len() < n
            invariant
                data@.len() <= n,
                forall|i: int| 0 <= i < data@.len() ==> #[trigger] data@[i] == 0,
            decreases n - data@.len(),
        {
            data.push(0);
        }
        let img = Raster { width, height, format, data };
        assert(img.wf()) by (nonlinear_arith)
            requires
                img.data@.len() == width as nat * height as nat * format.channel_count(),
                img.row_len() == width as nat * format.channel_count(),
                img.height == height,
        ;
        Some(img)
    }

    /// The `width` by `height` rectangle of this raster whose top left pixel
    /// is `(x, y)`, as a raster of its own.
    #[verifier::loop_isolation(false)]
    pub fn crop(&self, x: u32, y: u32, width: u32, height: u32) -> (r: Raster)
        requires
            self.wf(),
            x + width <= self.width,
            y + height <= self.height,
        ensures
            is_crop_of(r, *self, x as int, y as int, width as int, height as int),
    {
        let ch = self.format.channels();
        let ghost c = self.format.channel_count() as int;
        let ghost src_len = self.row_len() as int;
        let ghost out_len = width as int * c;
        assert(x * c + width * c <= self.width * c) by (nonlinear_arith)
            requires
                x + width <= self.width,
                c >= 1,
        ;
        let total = self.data.len();
        let mut data: Vec<u8> = Vec::new();
        let mut r: u32 = 0;
        while r < height
            invariant
                r <= height,
                data@.len() == r * out_len,
                forall|rr: int, kk: int|
                    0 <= rr < r && 0 <= kk < out_len ==> #[trigger] at(data@, out_len as nat, rr, kk)
                        == self.byte(y + rr, x * c + kk),
            decreases height - r,
        {
            proof {
                lemma_row_within((y + r) as int, src_len, self.height as int);
                assert(src_len <= total);
                assert(self.width as int * ch as int == src_len);
                assert(x * c <= src_len);
            }
            let src_row: usize = self.width as usize * ch;
            let out_row: usize = width as usize * ch;
            let base: usize = (y + r) as usize * src_row + x as usize * ch;
            let mut k: usize = 0;
            while k < out_row
                invariant
                    k <= out_row,
                    out_row == out_len,
                    base == (y + r) * src_len + x * c,
                    base + out_row <= self.data@.len(),
                    data@.len() == r * out_len + k,
                    forall|rr: int, kk: int|
                        0 <= rr < r && 0 <= kk < out_len ==> #[trigger] at(data@, out_len as nat, rr, kk)
                            == self.byte(y + rr, x * c + kk),
                    forall|kk: int|
                        0 <= kk < k ==> #[trigger] at(data@, out_len as nat, r as int, kk)
                            == self.byte(y + r, x * c + kk),
                decreases out_row - k,
            {
                let ghost before = data@;
                data.push(self.data[base + k]);
                proof {
                    assert forall|rr: int, kk: int|
                        0 <= rr < r && 0 <= kk < out_len implies #[trigger] at(data@, out_len as nat, rr, kk)
                            == self.byte(y + rr, x * c + kk) by {
                        lemma_index_below(rr, kk, out_len, r as int);
                        assert(at(data@, out_len as nat, rr, kk) == at(before, out_len as nat, rr, kk));
                    }
                    assert forall|kk: int|
                        0 <= kk < k + 1 implies #[trigger] at(data@, out_len as nat, r as int, kk)
                            == self.byte(y + r, x * c + kk) by {
                        if kk < k {
                            assert(at(data@, out_len as nat, r as int, kk) == at(before, out_len as nat, r as int, kk));
                        }
                    }
                }
                k = k + 1;
            }
            proof {
                assert forall|rr: int, kk: int|
                    0 <= rr < r + 1 && 0 <= kk < out_len implies #[trigger] at(data@, out_len as nat, rr, kk)
                        == self.byte(y + rr, x * c + kk) by {
                    if rr == r {
                        assert(at(data@, out_len as nat, r as int, kk) == self.byte(y + r, x * c + kk));
                    }
                }
                assert((r + 1) * out_len == r * out_len + out_len) by (nonlinear_arith);
            }
            r = r + 1;
        }
        Raster { width, height, format: self.format, data }
    }

    /// Writes `src` over this raster with its top left pixel at `(x, y)`.
    /// Fails, changing nothing, where `src` would not fit.
    #[verifier::loop_isolation(false)]
    pub fn copy_from(&mut self, src: &Raster, x: u32, y: u32) -> (r: Result<(), PlacementError>)
        requires
            old(self).wf(),
            src.wf(),
            src.format == old(self).format,
        ensures
            r is Ok <==> (x + src.width <= old(self).width && y + src.height <= old(self).height),
            r is Ok ==> placed(*old(self), *src, x as int, y as int, *final(self)),
            r is Err ==> *final(self) == *old(self),
    {
        if x as u64 + src.width as u64 > self.width as u64 || y as u64 + src.height as u64
            > self.height as u64 {
            return Err(PlacementError::OutOfBounds);
        }
        let ghost start = *self;
        let ch = self.format.channels();
        let ghost c = self.format.channel_count() as int;
        let ghost dst_len = self.row_len() as int;
        let ghost src_len = src.row_len() as int;
        let ghost left = x * c;
        assert(x * c + src.width * c <= self.width * c) by (nonlinear_arith)
            requires
                x + src.width <= self.width,
                c >= 1,
        ;
        let total = self.data.len();
        let src_total = src.data.len();
        let mut r: u32 = 0;
        while r < src.height
            invariant
                r <= src.height,
                total == self.data@.len(),
                self.wf(),
                self.width == start.width,
                self.height == start.height,
                self.format == start.format,
                forall|rr: int, kk: int|
                    0 <= rr < start.height && 0 <= kk < dst_len ==> #[trigger] self.byte(rr, kk)
                        == if in_rect(rr, kk, y as int, r as int, left, src_len) {
                        src.byte(rr - y, kk - left)
                    } else {
                        start.byte(rr, kk)
                    },
            decreases src.height - r,
        {
            proof {
                lemma_row_within((y + r) as int, dst_len, self.height as int);
                lemma_row_within(r as int, src_len, src.height as int);
                assert(dst_len <= total);
                assert(src_len <= src_total);
                assert(self.width as int * ch as int == dst_len);
                assert(src.width as int * ch as int == src_len);
                assert(x * c <= dst_len);
            }
            let dst_row: usize = self.width as usize * ch;
            let src_row: usize = src.width as usize * ch;
            let base: usize = (y + r) as usize * dst_row + x as usize * ch;
            let src_base: usize = r as usize * src_row;
            let mut k: usize = 0;
            while k < src_row
                invariant
                    k <= src_row,
                    src_row == src_len,
                    dst_row == dst_len,
                    base == (y + r) * dst_len + left,
                    src_base == r * src_len,
                    base + src_row <= self.data@.len(),
                    src_base + src_row <= src.data@.len(),
                    total == self.data@.len(),
                    self.wf(),
                    self.width == start.width,
                    self.height == start.height,
                    self.format == start.format,
                    forall|rr: int, kk: int|
                        0 <= rr < start.height && 0 <= kk < dst_len ==> #[trigger] self.byte(rr, kk)
                            == if in_rect(rr, kk, y as int, r as int, left, src_len) || (rr == y + r
                            && left <= kk < left + k) {
                            src.byte(rr - y, kk - left)
                        } else {
                            start.byte(rr, kk)
                        },
                decreases src_row - k,
            {
                let ghost before = *self;
                self.data[base + k] = src.data[src_base + k];
                proof {
                    assert forall|rr: int, kk: int|
                        0 <= rr < start.height && 0 <= kk < dst_len implies #[trigger] self.byte(rr, kk)
                            == if in_rect(rr, kk, y as int, r as int, left, src_len) || (rr == y + r
                            && left <= kk < left + k + 1) {
                            src.byte(rr - y, kk - left)
                        } else {
                            start.byte(rr, kk)
                        } by {
                        lemma_index_below(rr, kk, dst_len, start.height as int);
                        if rr * dst_len + kk == base + k {
                            lemma_index_unique(rr, kk, (y + r) as int, left + k, dst_len);
                        } else {
                            assert(self.byte(rr, kk) == before.byte(rr, kk));
                        }
                    }
                }
                k = k + 1;
            }
            r = r + 1;
        }
        Ok(())
    }
}

/// The product of two 32-bit values fits in 64 bits.
pub proof fn lemma_product_fits(a: nat, b: nat)
    by (nonlinear_arith)
    requires
        a <= u32::MAX,
        b <= u32::MAX,
    ensures
        a * b <= u64::MAX,
{
}

/// Row `r` of a buffer of `rows` rows, each `row_len` long, ends within it.
pub proof fn lemma_row_within(r: int, row_len: int, rows: int)
    requires
        0 <= r < rows,
        0 <= row_len,
    ensures
        0 <= r * row_len,
        r * row_len + row_len <= rows * row_len,
{
    assert((r + 1) * row_len <= rows * row_len) by (nonlinear_arith)
        requires
            r + 1 <= rows,
            row_len >= 0,
    ;
    assert((r + 1) * row_len == r * row_len + row_len) by (nonlinear_arith);
    assert(r * row_len >= 0) by (nonlinear_arith)
        requires
            r >= 0,
            row_len >= 0,
    ;
}

/// Byte `k` of row `r` lies within a buffer of `rows` rows of `row_len`.
pub proof fn lemma_index_below(r: int, k: int, row_len: int, rows: int)
    requires
        0 <= r < rows,
        0 <= k < row_len,
    ensures
        0 <= r * row_len + k < rows * row_len,
{
    lemma_row_within(r, row_len, rows);
}

/// Distinct positions in rows of `row_len` bytes have distinct offsets.
pub proof fn lemma_index_unique(r1: int, k1: int, r2: int, k2: int, row_len: int)
    by (nonlinear_arith)
    requires
        0 <= k1 < row_len,
        0 <= k2 < row_len,
        r1 * row_len + k1 == r2 * row_len + k2,
    ensures
        r1 == r2,
        k1 == k2,
{
}

} // verus!
