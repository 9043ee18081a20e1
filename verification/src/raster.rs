//! An 8-bit RGBA raster stored row by row, four channels per pixel.
use vstd::prelude::*;

use crate::arith::{lemma_index_in_bounds, lemma_product_bounds};

verus! {

/// What a raster holds: its size and its channel bytes, row by row,
/// four bytes (red, green, blue, alpha) per pixel.
pub struct RasterModel {
    pub width: u32,
    pub height: u32,
    pub data: Seq<u8>,
}

impl RasterModel {
    /// The channel bytes are exactly four per pixel.
    pub open spec fn wf(self) -> bool {
        self.data.len() == self.width as int * self.height as int * 4
    }

    pub open spec fn pixel_count(self) -> int {
        self.width as int * self.height as int
    }

    /// Channel `c` of pixel `(x, y)`.
    pub open spec fn channel(self, x: int, y: int, c: int) -> u8 {
        pixel_byte(self.data, self.width as int, x, y, c)
    }
}

/// Channel `c` of pixel `(x, y)` in the bytes of a `width`-wide image.
pub open spec fn pixel_byte(data: Seq<u8>, width: int, x: int, y: int, c: int) -> u8 {
    data[(y * width + x) * 4 + c]
}

/// An RGBA image with 8 bits per channel.
pub struct Raster {
    width: u32,
    height: u32,
    data: Vec<u8>,
}

impl View for Raster {
    type V = RasterModel;

    closed spec fn view(&self) -> RasterModel {
        RasterModel { width: self.width, height: self.height, data: self.data@ }
    }
}

impl Raster {
    /// The channel bytes are exactly four per pixel.
    #[verifier::type_invariant]
    spec fn four_bytes_per_pixel(self) -> bool {
        self.data@.len() == self.width as int * self.height as int * 4
    }

    /// A fully transparent black image of the given size.
    pub fn new(width: u32, height: u32) -> (r: Raster)
        requires
            width as int * height as int * 4 <= usize::MAX,
        ensures
            r@.wf(),
            r@.width == width,
            r@.height == height,
            forall|i: int| 0 <= i < r@.data.len() ==> r@.data[i] == 0u8,
    {
        proof {
            lemma_product_bounds(width as int, height as int);
        }
        let n: usize = (width as usize) * (height as usize) * 4;
        let mut data: Vec<u8> = Vec::new();
        let mut i: usize = 0;
        while i < n
            invariant
                i <= n,
                data@.len() == i,
                forall|j: int| 0 <= j < i ==> data@[j] == 0u8,
            decreases n - i,
        {
            data.push(0u8);
            i = i + 1;
        }
        Raster { width, height, data }
    }

    /// An image over the given channel bytes, when there are exactly four per pixel.
    pub fn from_raw(width: u32, height: u32, data: Vec<u8>) -> (r: Option<Raster>)
        ensures
            r is Some <==> data@.len() == width as int * height as int * 4,
            r matches Some(img) ==> img@ == (RasterModel { width, height, data: data@ }),
    {
        proof {
            lemma_product_bounds(width as int, height as int);
        }
        let len: usize = data.len();
        let wh: Option<usize> = (width as usize).checked_mul(height as usize);
        match wh {
            Some(p) => {
                let n: Option<usize> = p.checked_mul(4);
                match n {
                    Some(n) => {
                        if n == len {
                            Some(Raster { width, height, data })
                        } else {
                            None
                        }
                    },
                    None => None,
                }
            },
            None => None,
        }
    }

    /// An image over channel bytes already known to hold four bytes per pixel.
    pub(crate) fn from_parts(width: u32, height: u32, data: Vec<u8>) -> (r: Raster)
        requires
            data@.len() == width as int * height as int * 4,
        ensures
            r@ == (RasterModel { width, height, data: data@ }),
            r@.wf(),
    {
        Raster { width, height, data }
    }

    pub fn width(&self) -> (w: u32)
        ensures
            w == self@.width,
            self@.wf(),
    {
        proof {
            use_type_invariant(self);
        }
        self.width
    }

    pub fn height(&self) -> (h: u32)
        ensures
            h == self@.height,
            self@.wf(),
    {
        proof {
            use_type_invariant(self);
        }
        self.height
    }

    pub fn dimensions(&self) -> (d: (u32, u32))
        ensures
            d == (self@.width, self@.height),
            self@.wf(),
    {
        proof {
            use_type_invariant(self);
        }
        (self.width, self.height)
    }

    /// The number of pixels, `width * height`.
    pub fn pixel_count(&self) -> (n: usize)
        ensures
            n == self@.pixel_count(),
            self@.wf(),
    {
        proof {
            use_type_invariant(self);
        }
        let len: usize = self.data.len();
        proof {
            lemma_product_bounds(self.width as int, self.height as int);
        }
        (self.width as usize) * (self.height as usize)
    }

    /// The channel bytes, row by row.
    pub fn as_raw(&self) -> (d: &Vec<u8>)
        ensures
            d@ == self@.data,
            self@.wf(),
    {
        proof {
            use_type_invariant(self);
        }
        &self.data
    }

    /// Gives up the image for its channel bytes.
    pub fn into_raw(self) -> (d: Vec<u8>)
        ensures
            d@ == self@.data,
            self@.wf(),
    {
        proof {
            use_type_invariant(&self);
        }
        self.data
    }

    /// The byte at position `i` of the channel bytes.
    pub fn byte_at(&self, i: usize) -> (b: u8)
        requires
            i < self@.data.len(),
        ensures
            b == self@.data[i as int],
    {
        self.data[i]
    }

    /// Replaces the byte at position `i` of the channel bytes.
    pub fn set_byte(&mut self, i: usize, b: u8)
        requires
            i < old(self)@.data.len(),
        ensures
            final(self)@ == (RasterModel { data: old(self)@.data.update(i as int, b), ..old(self)@ }),
            final(self)@.wf(),
        no_unwind
    {
        proof {
            use_type_invariant(&*self);
        }
        self.data[i] = b;
    }

    /// The four channels of pixel `(x, y)`.
    pub fn get_pixel(&self, x: u32, y: u32) -> (p: [u8; 4])
        requires
            x < self@.width,
            y < self@.height,
        ensures
            forall|c: int| 0 <= c < 4 ==> p@[c] == self@.channel(x as int, y as int, c),
            self@.wf(),
    {
        proof {
            use_type_invariant(self);
        }
        let len: usize = self.data.len();
        proof {
            lemma_index_in_bounds(x as int, y as int, self.width as int, self.height as int);
        }
        let base: usize = ((y as usize) * (self.width as usize) + (x as usize)) * 4;
        [self.data[base], self.data[base + 1], self.data[base + 2], self.data[base + 3]]
    }

    /// Writes the four channels of pixel `(x, y)`.
    pub fn put_pixel(&mut self, x: u32, y: u32, p: [u8; 4])
        requires
            x < old(self)@.width,
            y < old(self)@.height,
        ensures
            final(self)@.wf(),
            final(self)@.width == old(self)@.width,
            final(self)@.height == old(self)@.height,
            forall|c: int|
                0 <= c < 4 ==> #[trigger] final(self)@.channel(x as int, y as int, c) == p@[c],
            forall|i: int|
                0 <= i < old(self)@.data.len() && (i < (y * old(self)@.width + x) * 4 || i >= (
                y * old(self)@.width + x) * 4 + 4) ==> final(self)@.data[i] == old(self)@.data[i],
        no_unwind
    {
        proof {
            use_type_invariant(&*self);
        }
        let len: usize = self.data.len();
        proof {
            lemma_index_in_bounds(x as int, y as int, self.width as int, self.height as int);
        }
        let base: usize = ((y as usize) * (self.width as usize) + (x as usize)) * 4;
        self.data[base] = p[0];
        self.data[base + 1] = p[1];
        self.data[base + 2] = p[2];
        self.data[base + 3] = p[3];
    }
}

} // verus!
