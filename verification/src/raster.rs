//! A width x height RGBA8 pixel buffer in row-major order.
use vstd::prelude::*;
use vstd::arithmetic::div_mod::lemma_fundamental_div_mod_converse;

verus! {

/// Byte offset of pixel `(x, y)` in a row-major RGBA buffer of the given width.
pub open spec fn pixel_offset(width: int, x: int, y: int) -> int {
    (y * width + x) * 4
}

/// Every pixel of a `width x height` buffer lies inside its `width * height * 4` bytes.
pub proof fn lemma_pixel_offset_bounds(width: int, height: int, x: int, y: int)
    requires
        0 <= x < width,
        0 <= y < height,
    ensures
        0 <= pixel_offset(width, x, y),
        pixel_offset(width, x, y) + 4 <= width * height * 4,
{
    assert(0 <= y * width) by (nonlinear_arith)
        requires 0 <= y, 0 <= width;
    assert(y * width + x + 1 <= height * width) by (nonlinear_arith)
        requires 0 <= x < width, 0 <= y < height;
    assert(height * width == width * height) by (nonlinear_arith);
}

/// Two pixels of the same row-major buffer have disjoint byte ranges unless
/// they are the same pixel.
pub proof fn lemma_pixel_offsets_disjoint(width: int, x1: int, y1: int, c1: int, x2: int, y2: int, c2: int)
    requires
        0 <= x1 < width,
        0 <= x2 < width,
        0 <= y1,
        0 <= y2,
        0 <= c1 < 4,
        0 <= c2 < 4,
        pixel_offset(width, x1, y1) + c1 == pixel_offset(width, x2, y2) + c2,
    ensures
        x1 == x2,
        y1 == y2,
        c1 == c2,
{
    let i = pixel_offset(width, x1, y1) + c1;
    lemma_fundamental_div_mod_converse(i, 4, y1 * width + x1, c1);
    lemma_fundamental_div_mod_converse(i, 4, y2 * width + x2, c2);
    lemma_fundamental_div_mod_converse(y1 * width + x1, width, y1, x1);
    lemma_fundamental_div_mod_converse(y2 * width + x2, width, y2, x2);
}

/// An RGBA8 image: `data` holds `width * height` pixels of four bytes each,
/// row by row.
pub struct RgbaBuffer {
    pub width: u32,
    pub height: u32,
    pub data: Vec<u8>,
}

impl RgbaBuffer {
    /// The buffer holds exactly four bytes per pixel.
    pub open spec fn wf(&self) -> bool {
        self.data@.len() == self.width as int * self.height as int * 4
    }

    /// Channel `c` of pixel `(x, y)`.
    pub open spec fn byte_at(&self, x: int, y: int, c: int) -> u8 {
        self.data@[pixel_offset(self.width as int, x, y) + c]
    }

    /// The four channels of pixel `(x, y)`.
    pub open spec fn pixel(&self, x: int, y: int) -> Seq<u8> {
        self.data@.subrange(
            pixel_offset(self.width as int, x, y),
            pixel_offset(self.width as int, x, y) + 4,
        )
    }

    /// A buffer of the given size with every pixel set to `px`.
    pub fn from_pixel(width: u32, height: u32, px: [u8; 4]) -> (img: RgbaBuffer)
        requires
            width as int * height as int * 4 <= usize::MAX,
        ensures
            img.wf(),
            img.width == width,
            img.height == height,
            forall|x: int, y: int| 0 <= x < width && 0 <= y < height ==> #[trigger] img.pixel(x, y) == px@,
    {
        let n: usize = (width as usize) * (height as usize);
        let mut data: Vec<u8> = Vec::with_capacity(n * 4);
        let mut i: usize = 0;
        while i < n
            invariant
                n == width as int * height as int,
                n * 4 <= usize::MAX,
                i <= n,
                data@.len() == i * 4,
                forall|j: int| 0 <= j < data@.len() ==> #[trigger] data@[j] == px@[j % 4],
            decreases n - i,
        {
            data.push(px[0]);
            data.push(px[1]);
            data.push(px[2]);
            data.push(px[3]);
            i = i + 1;
        }
        let img = RgbaBuffer { width, height, data };
        assert forall|x: int, y: int| 0 <= x < width && 0 <= y < height implies #[trigger] img.pixel(x, y) == px@ by {
            lemma_pixel_offset_bounds(width as int, height as int, x, y);
            let o = pixel_offset(width as int, x, y);
            let q = y * width + x;
            assert(o == q * 4);
            assert((q * 4) % 4 == 0 && (q * 4 + 1) % 4 == 1 && (q * 4 + 2) % 4 == 2 && (q * 4 + 3) % 4 == 3) by (nonlinear_arith)
                requires q >= 0;
            assert(img.data@[o] == px@[0]);
            assert(img.data@[o + 1] == px@[1]);
            assert(img.data@[o + 2] == px@[2]);
            assert(img.data@[o + 3] == px@[3]);
            assert(img.pixel(x, y) =~= px@);
        }
        img
    }

    /// A buffer of the given size with every byte zero (transparent black).
    pub fn new(width: u32, height: u32) -> (img: RgbaBuffer)
        requires
            width as int * height as int * 4 <= usize::MAX,
        ensures
            img.wf(),
            img.width == width,
            img.height == height,
            forall|j: int| 0 <= j < img.data@.len() ==> #[trigger] img.data@[j] == 0,
    {
        let n: usize = (width as usize) * (height as usize) * 4;
        let mut data: Vec<u8> = Vec::with_capacity(n);
        let mut i: usize = 0;
        while i < n
            invariant
                i <= n,
                data@.len() == i,
                forall|j: int| 0 <= j < data@.len() ==> #[trigger] data@[j] == 0,
            decreases n - i,
        {
            data.push(0);
            i = i + 1;
        }
        RgbaBuffer { width, height, data }
    }

    /// Wraps raw bytes; `None` when their number is not `width * height * 4`.
    pub fn from_raw(width: u32, height: u32, data: Vec<u8>) -> (r: Option<RgbaBuffer>)
        ensures
            r is Some <==> data@.len() == width as int * height as int * 4,
            r matches Some(img) ==> img.wf() && img.width == width && img.height == height && img.data@ == data@,
    {
        let w: u64 = width as u64;
        let h: u64 = height as u64;
        assert(w * h <= u32::MAX as int * u32::MAX as int) by (nonlinear_arith)
            requires w <= u32::MAX, h <= u32::MAX;
        let wh: u64 = w * h;
        let len: usize = data.len();
        if wh > (usize::MAX / 4) as u64 {
            return None;
        }
        if len as u64 == wh * 4 {
            Some(RgbaBuffer { width, height, data })
        } else {
            None
        }
    }

    /// Byte offset of pixel `(x, y)` in `data`.
    pub fn offset_of(&self, x: u32, y: u32) -> (o: usize)
        requires
            self.wf(),
            x < self.width,
            y < self.height,
        ensures
            o == pixel_offset(self.width as int, x as int, y as int),
            o + 4 <= self.data@.len(),
    {
        let _len: usize = self.data.len();
        proof {
            lemma_pixel_offset_bounds(self.width as int, self.height as int, x as int, y as int);
            assert((y as int) * (self.width as int) <= (y as int) * (self.width as int) + x) by (nonlinear_arith)
                requires x >= 0;
        }
        ((y as usize) * (self.width as usize) + (x as usize)) * 4
    }

    /// Channel bytes of pixel `(x, y)`.
    pub fn get_pixel(&self, x: u32, y: u32) -> (px: [u8; 4])
        requires
            self.wf(),
            x < self.width,
            y < self.height,
        ensures
            px@ == self.pixel(x as int, y as int),
    {
        let o = self.offset_of(x, y);
        let px = [self.data[o], self.data[o + 1], self.data[o + 2], self.data[o + 3]];
        assert(px@ =~= self.pixel(x as int, y as int));
        px
    }

    /// Sets pixel `(x, y)` to `px`, leaving every other byte as it was.
    pub fn put_pixel(&mut self, x: u32, y: u32, px: [u8; 4])
        requires
            old(self).wf(),
            x < old(self).width,
            y < old(self).height,
        ensures
            final(self).wf(),
            final(self).width == old(self).width,
            final(self).height == old(self).height,
            final(self).data@ == old(self).data@
                .update(pixel_offset(old(self).width as int, x as int, y as int), px[0])
                .update(pixel_offset(old(self).width as int, x as int, y as int) + 1, px[1])
                .update(pixel_offset(old(self).width as int, x as int, y as int) + 2, px[2])
                .update(pixel_offset(old(self).width as int, x as int, y as int) + 3, px[3]),
            forall|xx: int, yy: int, c: int|
                0 <= xx < old(self).width && 0 <= yy < old(self).height && 0 <= c < 4 ==>
                #[trigger] final(self).byte_at(xx, yy, c)
                    == if xx == x && yy == y { px@[c] } else { old(self).byte_at(xx, yy, c) },
    {
        let o = self.offset_of(x, y);
        self.data.set(o, px[0]);
        self.data.set(o + 1, px[1]);
        self.data.set(o + 2, px[2]);
        self.data.set(o + 3, px[3]);
        proof {
            let w = self.width as int;
            assert forall|xx: int, yy: int, c: int|
                0 <= xx < w && 0 <= yy < self.height && 0 <= c < 4 implies
                #[trigger] self.byte_at(xx, yy, c)
                    == if xx == x && yy == y { px@[c] } else { old(self).byte_at(xx, yy, c) } by {
                lemma_pixel_offset_bounds(w, self.height as int, xx, yy);
                let j = pixel_offset(w, xx, yy) + c;
                if !(xx == x && yy == y) {
                    if o <= j < o + 4 {
                        lemma_pixel_offsets_disjoint(w, xx, yy, c, x as int, y as int, j - o);
                    }
                }
            }
        }
    }

    /// Copies every pixel of `tile` into this buffer with the tile's top-left
    /// pixel at `(x0, y0)`; pixels outside that rectangle keep their value.
    pub fn blit(&mut self, x0: u32, y0: u32, tile: &RgbaBuffer)
        requires
            old(self).wf(),
            tile.wf(),
            x0 + tile.width <= old(self).width,
            y0 + tile.height <= old(self).height,
        ensures
            final(self).wf(),
            final(self).width == old(self).width,
            final(self).height == old(self).height,
            forall|xx: int, yy: int, c: int|
                0 <= xx < old(self).width && 0 <= yy < old(self).height && 0 <= c < 4 ==>
                #[trigger] final(self).byte_at(xx, yy, c) == if x0 <= xx < x0 + tile.width && y0 <= yy < y0 + tile.height {
                    tile.byte_at(xx - x0, yy - y0, c)
                } else {
                    old(self).byte_at(xx, yy, c)
                },
    {
        let ghost start = *self;
        let tw = tile.width;
        let th = tile.height;
        let mut ty: u32 = 0;
        while ty < th
            invariant
                self.wf(),
                tile.wf(),
                tw == tile.width,
                th == tile.height,
                self.width == start.width,
                self.height == start.height,
                x0 + tw <= self.width,
                y0 + th <= self.height,
                ty <= th,
                forall|xx: int, yy: int, c: int|
                    0 <= xx < start.width && 0 <= yy < start.height && 0 <= c < 4 ==>
                    #[trigger] self.byte_at(xx, yy, c) == if x0 <= xx < x0 + tw && y0 <= yy < y0 + ty {
                        tile.byte_at(xx - x0, yy - y0, c)
                    } else {
                        start.byte_at(xx, yy, c)
                    },
            decreases th - ty,
        {
            let mut tx: u32 = 0;
            while tx < tw
                invariant
                    self.wf(),
                    tile.wf(),
                    tw == tile.width,
                    th == tile.height,
                    self.width == start.width,
                    self.height == start.height,
                    x0 + tw <= self.width,
                    y0 + th <= self.height,
                    ty < th,
                    tx <= tw,
                    forall|xx: int, yy: int, c: int|
                        0 <= xx < start.width && 0 <= yy < start.height && 0 <= c < 4 ==>
                        #[trigger] self.byte_at(xx, yy, c) == if x0 <= xx < x0 + tw && (y0 <= yy < y0 + ty
                            || (yy == y0 + ty && xx < x0 + tx)) {
                            tile.byte_at(xx - x0, yy - y0, c)
                        } else {
                            start.byte_at(xx, yy, c)
                        },
                decreases tw - tx,
            {
                let px = tile.get_pixel(tx, ty);
                proof {
                    lemma_pixel_offset_bounds(tw as int, th as int, tx as int, ty as int);
                    assert(forall|c: int| 0 <= c < 4 ==> px@[c] == #[trigger] tile.byte_at(tx as int, ty as int, c));
                }
                self.put_pixel(x0 + tx, y0 + ty, px);
                tx = tx + 1;
            }
            ty = ty + 1;
        }
    }

    /// An independent copy of this buffer.
    pub fn clone_buffer(&self) -> (out: RgbaBuffer)
        ensures
            out.width == self.width,
            out.height == self.height,
            out.data@ == self.data@,
    {
        let n = self.data.len();
        let mut data: Vec<u8> = Vec::with_capacity(n);
        let mut i: usize = 0;
        while i < n
            invariant
                n == self.data@.len(),
                i <= n,
                data@ == self.data@.take(i as int),
            decreases n - i,
        {
            data.push(self.data[i]);
            i = i + 1;
            assert(data@ =~= self.data@.take(i as int));
        }
        assert(self.data@.take(n as int) =~= self.data@);
        RgbaBuffer { width: self.width, height: self.height, data }
    }
}

} // verus!
