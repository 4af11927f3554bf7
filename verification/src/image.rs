//! RGBA byte-matrix image model. The codecs work on this type; turning an
//! encoded picture file into such a matrix is a collaborator's job.

use vstd::prelude::*;

verus! {

/// One pixel: red, green, blue, alpha.
#[derive(Clone, Copy, Debug, PartialEq, Eq, Structural)]
pub struct Rgba {
    pub r: u8,
    pub g: u8,
    pub b: u8,
    pub a: u8,
}

/// The derived ARGB value `(a<<24)|(r<<16)|(g<<8)|b` of a pixel.
pub open spec fn rgba_argb(p: Rgba) -> int {
    p.a * 0x1000000 + p.r * 0x10000 + p.g * 0x100 + p.b
}

/// Packs a pixel into its ARGB value.
pub fn to_argb_hex(p: &Rgba) -> (r: u32)
    ensures
        r == rgba_argb(*p),
{
    let a: u8 = p.a;
    let rr: u8 = p.r;
    let g: u8 = p.g;
    let b: u8 = p.b;
    proof {
        assert(((a as u32) << 24u32) | ((rr as u32) << 16u32) | ((g as u32) << 8u32) | (b as u32)
            == (a as u32) * 0x1000000 + (rr as u32) * 0x10000 + (g as u32) * 0x100 + (
        b as u32)) by (bit_vector);
    }
    ((a as u32) << 24u32) | ((rr as u32) << 16u32) | ((g as u32) << 8u32) | (b as u32)
}

/// Unpacks an ARGB value into a pixel.
pub fn from_argb_hex(v: u32) -> (p: Rgba)
    ensures
        p.a == v / 0x1000000,
        p.r == (v / 0x10000) % 0x100,
        p.g == (v / 0x100) % 0x100,
        p.b == v % 0x100,
        rgba_argb(p) == v,
{
    proof {
        assert((v >> 24u32) == v / 0x1000000 && (v >> 24u32) < 0x100 && ((v >> 16u32) & 0xFF) == (v
            / 0x10000) % 0x100 && ((v >> 8u32) & 0xFF) == (v / 0x100) % 0x100 && (v & 0xFF) == v
            % 0x100) by (bit_vector);
        assert((v / 0x1000000) * 0x1000000 + ((v / 0x10000) % 0x100) * 0x10000 + ((v / 0x100)
            % 0x100) * 0x100 + v % 0x100 == v) by (bit_vector);
    }
    Rgba {
        r: ((v >> 16u32) & 0xFF) as u8,
        g: ((v >> 8u32) & 0xFF) as u8,
        b: (v & 0xFF) as u8,
        a: (v >> 24u32) as u8,
    }
}

/// An RGBA image stored row-major, four bytes per pixel.
pub struct EarsImage {
    width: u32,
    height: u32,
    data: Vec<u8>,
}

impl EarsImage {
    pub closed spec fn width_spec(self) -> int {
        self.width as int
    }

    pub closed spec fn height_spec(self) -> int {
        self.height as int
    }

    pub closed spec fn wf(self) -> bool {
        self.data@.len() == self.width * self.height * 4
    }

    pub open spec fn in_bounds(self, x: int, y: int) -> bool {
        0 <= x < self.width_spec() && 0 <= y < self.height_spec()
    }

    /// The pixel at `(x, y)`; meaningful only in bounds.
    pub closed spec fn px(self, x: int, y: int) -> Rgba {
        let i = (y * self.width + x) * 4;
        Rgba { r: self.data@[i], g: self.data@[i + 1], b: self.data@[i + 2], a: self.data@[i + 3] }
    }

    /// The ARGB value of the pixel at `(x, y)`.
    pub open spec fn argb(self, x: int, y: int) -> int {
        rgba_argb(self.px(x, y))
    }

    pub fn width(&self) -> (r: u32)
        ensures
            r == self.width_spec(),
    {
        self.width
    }

    pub fn height(&self) -> (r: u32)
        ensures
            r == self.height_spec(),
    {
        self.height
    }

    /// A fresh image of the given size with every pixel transparent black.
    pub fn new(width: u32, height: u32) -> (r: EarsImage)
        requires
            width * height * 4 <= usize::MAX,
        ensures
            r.wf(),
            r.width_spec() == width,
            r.height_spec() == height,
            forall|x: int, y: int|
                r.in_bounds(x, y) ==> r.px(x, y) == (Rgba { r: 0u8, g: 0u8, b: 0u8, a: 0u8 }),
    {
        let size: usize = (width as usize) * (height as usize) * 4;
        let mut data: Vec<u8> = Vec::new();
        let mut i: usize = 0;
        while i < size
            invariant
                data@.len() == i,
                i <= size,
                forall|j: int| 0 <= j < i ==> data@[j] == 0u8,
            decreases size - i,
        {
            data.push(0u8);
            i = i + 1;
        }
        let im = EarsImage { width, height, data };
        proof {
            assert forall|x: int, y: int| im.in_bounds(x, y) implies im.px(x, y) == (Rgba {
                r: 0u8,
                g: 0u8,
                b: 0u8,
                a: 0u8,
            }) by {
                lemma_pixel_index(width as int, height as int, x, y);
            }
        }
        im
    }

    /// Builds an image from raw row-major RGBA bytes; the length must be
    /// exactly `width * height * 4`.
    pub fn from_raw(width: u32, height: u32, data: Vec<u8>) -> (r: Option<EarsImage>)
        ensures
            data@.len() == width * height * 4 ==> {
                &&& r matches Some(im)
                &&& im.wf()
                &&& im.width_spec() == width
                &&& im.height_spec() == height
                &&& im.raw() == data@
            },
            data@.len() != width * height * 4 ==> r is None,
    {
        proof {
            vstd::arithmetic::mul::lemma_mul_upper_bound(
                width as int,
                0xFFFF_FFFF,
                height as int,
                0xFFFF_FFFF,
            );
        }
        let need: u128 = (width as u128) * (height as u128) * 4;
        let dl: usize = data.len();
        if need <= usize::MAX as u128 && dl as u128 == need {
            Some(EarsImage { width, height, data })
        } else {
            None
        }
    }

    /// The raw row-major RGBA bytes.
    pub closed spec fn raw(self) -> Seq<u8> {
        self.data@
    }

    /// The byte offset of pixel `(x, y)` in `raw()`.
    pub open spec fn raw_index(self, x: int, y: int) -> int {
        (y * self.width_spec() + x) * 4
    }

    /// Relates `raw()` to `px`: the four bytes at the pixel's offset.
    pub proof fn lemma_raw_px(self, x: int, y: int)
        requires
            self.wf(),
            self.in_bounds(x, y),
        ensures
            0 <= self.raw_index(x, y),
            self.raw_index(x, y) + 4 <= self.raw().len(),
            self.px(x, y) == (Rgba {
                r: self.raw()[self.raw_index(x, y)],
                g: self.raw()[self.raw_index(x, y) + 1],
                b: self.raw()[self.raw_index(x, y) + 2],
                a: self.raw()[self.raw_index(x, y) + 3],
            }),
    {
        lemma_pixel_index(self.width as int, self.height as int, x, y);
    }

    /// The raw buffer length in bytes.
    pub fn byte_len(&self) -> (r: usize)
        requires
            self.wf(),
        ensures
            r == self.width_spec() * self.height_spec() * 4,
    {
        self.data.len()
    }

    /// Copies the raw bytes out.
    pub fn clone_raw(&self) -> (r: Vec<u8>)
        ensures
            r@ == self.raw(),
    {
        vstd::slice::slice_to_vec(self.data.as_slice())
    }

    /// Hands the raw bytes back.
    pub fn into_raw(self) -> (r: Vec<u8>)
        ensures
            r@ == self.raw(),
    {
        self.data
    }

    pub fn get_pixel(&self, x: u32, y: u32) -> (r: Option<Rgba>)
        requires
            self.wf(),
        ensures
            self.in_bounds(x as int, y as int) ==> {
                &&& r matches Some(p)
                &&& p == self.px(x as int, y as int)
            },
            !self.in_bounds(x as int, y as int) ==> r is None,
    {
        if x < self.width && y < self.height {
            let n: usize = self.data.len();
            proof {
                lemma_pixel_index(self.width as int, self.height as int, x as int, y as int);
            }
            let i: usize = ((y as usize) * (self.width as usize) + (x as usize)) * 4;
            Some(
                Rgba {
                    r: self.data[i],
                    g: self.data[i + 1],
                    b: self.data[i + 2],
                    a: self.data[i + 3],
                },
            )
        } else {
            None
        }
    }

    /// Overwrites the pixel at `(x, y)`; returns false when out of bounds.
    pub fn set_pixel(&mut self, x: u32, y: u32, p: Rgba) -> (r: bool)
        requires
            old(self).wf(),
        ensures
            final(self).wf(),
            final(self).width_spec() == old(self).width_spec(),
            final(self).height_spec() == old(self).height_spec(),
            old(self).in_bounds(x as int, y as int) ==> {
                &&& r == true
                &&& final(self).px(x as int, y as int) == p
                &&& forall|x2: int, y2: int|
                    old(self).in_bounds(x2, y2) && !(x2 == x as int && y2 == y as int)
                        ==> final(self).px(x2, y2) == old(self).px(x2, y2)
            },
            !old(self).in_bounds(x as int, y as int) ==> r == false && *final(self) == *old(self),
    {
        if x < self.width && y < self.height {
            let n: usize = self.data.len();
            proof {
                lemma_pixel_index(self.width as int, self.height as int, x as int, y as int);
            }
            let i: usize = ((y as usize) * (self.width as usize) + (x as usize)) * 4;
            self.data.set(i, p.r);
            self.data.set(i + 1, p.g);
            self.data.set(i + 2, p.b);
            self.data.set(i + 3, p.a);
            proof {
                assert forall|x2: int, y2: int|
                    old(self).in_bounds(x2, y2) && !(x2 == x as int && y2 == y as int) implies self.px(
                    x2,
                    y2,
                ) == old(self).px(x2, y2) by {
                    lemma_pixel_index(self.width as int, self.height as int, x2, y2);
                    lemma_pixel_index_distinct(
                        self.width as int,
                        self.height as int,
                        x as int,
                        y as int,
                        x2,
                        y2,
                    );
                }
            }
            true
        } else {
            false
        }
    }
}

/// Two well-formed images of the same size with equal pixels have equal
/// raw bytes.
pub proof fn lemma_px_ext(im1: EarsImage, im2: EarsImage)
    requires
        im1.wf(),
        im2.wf(),
        im1.width_spec() == im2.width_spec(),
        im1.height_spec() == im2.height_spec(),
        forall|x: int, y: int| im1.in_bounds(x, y) ==> #[trigger] im1.px(x, y) == im2.px(x, y),
    ensures
        im1.raw() == im2.raw(),
{
    let w = im1.width_spec();
    let h = im1.height_spec();
    assert forall|i: int| 0 <= i < im1.raw().len() implies #[trigger] im1.raw()[i]
        == im2.raw()[i] by {
        assert(w * h * 4 > 0);
        assert(w > 0 && h > 0) by {
            vstd::arithmetic::mul::lemma_mul_nonnegative(w, h);
            if w <= 0 || h <= 0 {
                assert(w * h * 4 <= 0) by (nonlinear_arith)
                    requires
                        0 <= w,
                        0 <= h,
                        w <= 0 || h <= 0,
                ;
            }
        }
        let pi = i / 4;
        let k = i % 4;
        vstd::arithmetic::div_mod::lemma_fundamental_div_mod(i, 4);
        let y = pi / w;
        let x = pi % w;
        vstd::arithmetic::div_mod::lemma_fundamental_div_mod(pi, w);
        vstd::arithmetic::div_mod::lemma_mod_bound(pi, w);
        vstd::arithmetic::mul::lemma_mul_is_commutative(w, y);
        assert(pi < w * h) by {
            assert(i < w * h * 4);
            assert(4 * pi <= i);
        }
        assert(y < h) by {
            if y >= h {
                vstd::arithmetic::mul::lemma_mul_inequality(h, y, w);
                assert(h * w <= y * w);
                vstd::arithmetic::mul::lemma_mul_is_commutative(y, w);
                vstd::arithmetic::mul::lemma_mul_is_commutative(h, w);
            }
        }
        assert(y >= 0) by {
            if y < 0 {
                vstd::arithmetic::mul::lemma_mul_inequality(y, -1, w);
            }
        }
        assert(im1.in_bounds(x, y));
        im1.lemma_raw_px(x, y);
        im2.lemma_raw_px(x, y);
        assert(im1.raw_index(x, y) == (y * w + x) * 4);
        assert(y * w + x == pi);
        assert(im1.raw_index(x, y) == 4 * pi);
        assert(i == 4 * pi + k && 0 <= k < 4);
        assert(im1.px(x, y) == im2.px(x, y));
    }
    assert(im1.raw() =~= im2.raw());
}

/// Pixel `(x, y)` of a `w` by `h` grid sits at a four-byte block inside the
/// raw buffer.
proof fn lemma_pixel_index(w: int, h: int, x: int, y: int)
    requires
        0 <= x < w,
        0 <= y < h,
    ensures
        0 <= (y * w + x) * 4,
        (y * w + x) * 4 + 4 <= w * h * 4,
{
    assert(0 <= y * w + x && y * w + x < w * h) by (nonlinear_arith)
        requires
            0 <= x < w,
            0 <= y < h,
    ;
}

/// Distinct pixels occupy disjoint four-byte blocks.
proof fn lemma_pixel_index_distinct(w: int, h: int, x1: int, y1: int, x2: int, y2: int)
    requires
        0 <= x1 < w,
        0 <= y1 < h,
        0 <= x2 < w,
        0 <= y2 < h,
        !(x1 == x2 && y1 == y2),
    ensures
        (y2 * w + x2) * 4 + 4 <= (y1 * w + x1) * 4 || (y1 * w + x1) * 4 + 4 <= (y2 * w + x2) * 4,
{
    assert(y1 * w + x1 != y2 * w + x2) by (nonlinear_arith)
        requires
            0 <= x1 < w,
            0 <= y1 < h,
            0 <= x2 < w,
            0 <= y2 < h,
            !(x1 == x2 && y1 == y2),
    ;
}

} // verus!
