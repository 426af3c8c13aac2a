//! Rectangular rasters of 8-bit RGBA pixels.

use vstd::prelude::*;

verus! {

/// One pixel: red, green, blue and alpha, each from 0 to 255.
#[derive(Clone, Copy, Debug, PartialEq, Eq, Structural)]
pub struct Rgba {
    pub r: u8,
    pub g: u8,
    pub b: u8,
    pub a: u8,
}

/// Channel `c` of a pixel, counting red, green, blue, alpha from 0.
pub open spec fn channel_of(p: Rgba, c: int) -> u8 {
    if c == 0 {
        p.r
    } else if c == 1 {
        p.g
    } else if c == 2 {
        p.b
    } else {
        p.a
    }
}

/// The pixels as bytes, four for each pixel: red, green, blue, alpha.
pub open spec fn rgba_bytes_of(pixels: Seq<Rgba>) -> Seq<u8> {
    Seq::new(4 * pixels.len(), |k: int| channel_of(pixels[k / 4], k % 4))
}

/// The pixels as bytes, three for each pixel: red, green, blue. Alpha is dropped.
pub open spec fn rgb_bytes_of(pixels: Seq<Rgba>) -> Seq<u8> {
    Seq::new(3 * pixels.len(), |k: int| channel_of(pixels[k / 3], k % 3))
}

/// A raster of `width * height` pixels, row after row.
///
/// A map that carries no alpha (an occlusion or an emissive map) is held in
/// the same form; the compositor does not read its alpha.
#[derive(Debug, PartialEq, Eq)]
pub struct Raster {
    width: u32,
    height: u32,
    pixels: Vec<Rgba>,
}

impl View for Raster {
    type V = Seq<Rgba>;

    /// The pixels in row-major order.
    closed spec fn view(&self) -> Seq<Rgba> {
        self.pixels@
    }
}

impl Clone for Raster {
    fn clone(&self) -> (res: Self)
        ensures
            res@ == self@,
            res.dims() == self.dims(),
    {
        proof {
            use_type_invariant(self);
        }
        let mut pixels: Vec<Rgba> = Vec::new();
        let mut i: usize = 0;
        while i < self.pixels.len()
            invariant
                i <= self.pixels@.len(),
                pixels@ == self.pixels@.take(i as int),
            decreases self.pixels@.len() - i,
        {
            pixels.push(self.pixels[i]);
            i = i + 1;
            assert(pixels@ =~= self.pixels@.take(i as int));
        }
        assert(pixels@ =~= self.pixels@);
        Raster { width: self.width, height: self.height, pixels }
    }
}

impl Raster {
    /// Width and height, in this order.
    pub closed spec fn dims(&self) -> (u32, u32) {
        (self.width, self.height)
    }

    #[verifier::type_invariant]
    closed spec fn well_formed(&self) -> bool {
        self.pixels@.len() == self.width * self.height
    }

    /// A raster over the given pixels, if there are exactly `width * height` of them.
    pub fn new(width: u32, height: u32, pixels: Vec<Rgba>) -> (res: Option<Raster>)
        ensures
            res is Some <==> pixels@.len() == width * height,
            res matches Some(img) ==> img@ == pixels@ && img.dims() == (width, height),
    {
        assert(width * height <= 0xFFFF_FFFF * 0xFFFF_FFFF) by (nonlinear_arith)
            requires
                width <= 0xFFFF_FFFF,
                height <= 0xFFFF_FFFF,
        ;
        let count: u64 = (width as u64) * (height as u64);
        if pixels.len() as u64 == count {
            Some(Raster { width, height, pixels })
        } else {
            None
        }
    }

    /// A raster whose pixels all equal `pixel`.
    pub fn from_pixel(width: u32, height: u32, pixel: Rgba) -> (img: Raster)
        ensures
            img.dims() == (width, height),
            img@ == Seq::new((width * height) as nat, |i: int| pixel),
    {
        assert(width * height <= 0xFFFF_FFFF * 0xFFFF_FFFF) by (nonlinear_arith)
            requires
                width <= 0xFFFF_FFFF,
                height <= 0xFFFF_FFFF,
        ;
        let count: u64 = (width as u64) * (height as u64);
        let mut pixels: Vec<Rgba> = Vec::new();
        let mut i: u64 = 0;
        while i < count
            invariant
                i <= count,
                pixels@.len() == i,
                forall|j: int| 0 <= j < i ==> #[trigger] pixels@[j] == pixel,
            decreases count - i,
        {
            pixels.push(pixel);
            i = i + 1;
        }
        assert(pixels@ =~= Seq::new((width * height) as nat, |i: int| pixel));
        Raster { width, height, pixels }
    }

    /// A raster over bytes that hold red, green, blue and alpha of each
    /// pixel in turn, if there are exactly `4 * width * height` of them.
    pub fn from_rgba_bytes(width: u32, height: u32, bytes: &[u8]) -> (res: Option<Raster>)
        ensures
            res is Some <==> bytes@.len() == 4 * (width * height),
            res matches Some(img) ==> img.dims() == (width, height) && rgba_bytes_of(img@)
                == bytes@,
    {
        assert(width * height <= 0xFFFF_FFFF * 0xFFFF_FFFF) by (nonlinear_arith)
            requires
                width <= 0xFFFF_FFFF,
                height <= 0xFFFF_FFFF,
        ;
        let count: u64 = (width as u64) * (height as u64);
        let given: usize = bytes.len();
        if given as u128 != 4 * (count as u128) {
            return None;
        }
        let mut pixels: Vec<Rgba> = Vec::new();
        let mut i: usize = 0;
        while (i as u64) < count
            invariant
                i <= count,
                bytes@.len() == 4 * count,
                bytes@.len() <= usize::MAX,
                pixels@.len() == i,
                forall|j: int|
                    0 <= j < i ==> #[trigger] pixels@[j] == (Rgba {
                        r: bytes@[4 * j],
                        g: bytes@[4 * j + 1],
                        b: bytes@[4 * j + 2],
                        a: bytes@[4 * j + 3],
                    }),
            decreases count - i,
        {
            pixels.push(
                Rgba {
                    r: bytes[4 * i],
                    g: bytes[4 * i + 1],
                    b: bytes[4 * i + 2],
                    a: bytes[4 * i + 3],
                },
            );
            i = i + 1;
        }
        assert(rgba_bytes_of(pixels@) =~= bytes@);
        Some(Raster { width, height, pixels })
    }

    /// A raster over bytes that hold red, green and blue of each pixel in
    /// turn, if there are exactly `3 * width * height` of them. Every pixel
    /// gets full alpha.
    pub fn from_rgb_bytes(width: u32, height: u32, bytes: &[u8]) -> (res: Option<Raster>)
        ensures
            res is Some <==> bytes@.len() == 3 * (width * height),
            res matches Some(img) ==> img.dims() == (width, height) && rgb_bytes_of(img@)
                == bytes@ && forall|j: int| 0 <= j < img@.len() ==> (#[trigger] img@[j]).a == 255,
    {
        assert(width * height <= 0xFFFF_FFFF * 0xFFFF_FFFF) by (nonlinear_arith)
            requires
                width <= 0xFFFF_FFFF,
                height <= 0xFFFF_FFFF,
        ;
        let count: u64 = (width as u64) * (height as u64);
        let given: usize = bytes.len();
        if given as u128 != 3 * (count as u128) {
            return None;
        }
        let mut pixels: Vec<Rgba> = Vec::new();
        let mut i: usize = 0;
        while (i as u64) < count
            invariant
                i <= count,
                bytes@.len() == 3 * count,
                bytes@.len() <= usize::MAX,
                pixels@.len() == i,
                forall|j: int|
                    0 <= j < i ==> #[trigger] pixels@[j] == (Rgba {
                        r: bytes@[3 * j],
                        g: bytes@[3 * j + 1],
                        b: bytes@[3 * j + 2],
                        a: 255,
                    }),
            decreases count - i,
        {
            pixels.push(
                Rgba { r: bytes[3 * i], g: bytes[3 * i + 1], b: bytes[3 * i + 2], a: 255 },
            );
            i = i + 1;
        }
        assert(rgb_bytes_of(pixels@) =~= bytes@);
        Some(Raster { width, height, pixels })
    }

    /// The pixels as bytes, four for each pixel: red, green, blue, alpha.
    pub fn rgba_bytes(&self) -> (bytes: Vec<u8>)
        ensures
            bytes@ == rgba_bytes_of(self@),
    {
        let mut bytes: Vec<u8> = Vec::new();
        let mut i: usize = 0;
        while i < self.pixels.len()
            invariant
                i <= self.pixels@.len(),
                bytes@ == rgba_bytes_of(self.pixels@.take(i as int)),
            decreases self.pixels@.len() - i,
        {
            let p = self.pixels[i];
            bytes.push(p.r);
            bytes.push(p.g);
            bytes.push(p.b);
            bytes.push(p.a);
            i = i + 1;
            assert(bytes@ =~= rgba_bytes_of(self.pixels@.take(i as int)));
        }
        assert(self.pixels@.take(i as int) =~= self.pixels@);
        bytes
    }

    /// The pixels as bytes, three for each pixel: red, green, blue. Alpha is dropped.
    pub fn rgb_bytes(&self) -> (bytes: Vec<u8>)
        ensures
            bytes@ == rgb_bytes_of(self@),
    {
        let mut bytes: Vec<u8> = Vec::new();
        let mut i: usize = 0;
        while i < self.pixels.len()
            invariant
                i <= self.pixels@.len(),
                bytes@ == rgb_bytes_of(self.pixels@.take(i as int)),
            decreases self.pixels@.len() - i,
        {
            let p = self.pixels[i];
            bytes.push(p.r);
            bytes.push(p.g);
            bytes.push(p.b);
            i = i + 1;
            assert(bytes@ =~= rgb_bytes_of(self.pixels@.take(i as int)));
        }
        assert(self.pixels@.take(i as int) =~= self.pixels@);
        bytes
    }

    pub fn width(&self) -> (w: u32)
        ensures
            w == self.dims().0,
    {
        self.width
    }

    pub fn height(&self) -> (h: u32)
        ensures
            h == self.dims().1,
    {
        self.height
    }

    pub fn dimensions(&self) -> (d: (u32, u32))
        ensures
            d == self.dims(),
    {
        (self.width, self.height)
    }

    /// The number of pixels, which is `width * height`.
    pub fn len(&self) -> (n: usize)
        ensures
            n == self@.len(),
            n == self.dims().0 * self.dims().1,
    {
        proof {
            use_type_invariant(self);
        }
        self.pixels.len()
    }

    /// The pixels in row-major order.
    pub fn pixels(&self) -> (p: &Vec<Rgba>)
        ensures
            p@ == self@,
    {
        &self.pixels
    }

    /// The pixel at position `i` in row-major order, if there is one.
    pub fn get(&self, i: usize) -> (p: Option<Rgba>)
        ensures
            p == if i < self@.len() {
                Some(self@[i as int])
            } else {
                None::<Rgba>
            },
    {
        if i < self.pixels.len() {
            Some(self.pixels[i])
        } else {
            None
        }
    }

    /// Replaces the pixel at position `i`; a position past the end changes nothing.
    pub fn set(&mut self, i: usize, pixel: Rgba)
        ensures
            final(self).dims() == old(self).dims(),
            final(self)@ == if i < old(self)@.len() {
                old(self)@.update(i as int, pixel)
            } else {
                old(self)@
            },
    {
        proof {
            use_type_invariant(&*self);
        }
        if i < self.pixels.len() {
            self.pixels[i] = pixel;
        }
    }
}

} // verus!
