use vstd::prelude::*;

verus! {

/// RGBA pixel representation, with A being the Alpha channel.
/// Each item has a color value between 0 and 255.
pub type Pixel = [u8; 4];

/// Linearly-stored container of pixels. Positions are in row-major order.
pub trait PixelBuffer {
    /// The pixels held, in row-major order.
    spec fn pixels(&self) -> Seq<Pixel>;

    /// The pixel at position `at`.
    fn pixel(&self, at: usize) -> (p: Pixel)
        requires
            at < self.pixels().len(),
        ensures
            p == self.pixels()[at as int],
    ;

    /// Replaces the pixel at position `at`.
    fn set_pixel(&mut self, at: usize, p: Pixel)
        requires
            at < old(self).pixels().len(),
        ensures
            final(self).pixels() == old(self).pixels().update(at as int, p),
    ;
}

impl PixelBuffer for Vec<Pixel> {
    open spec fn pixels(&self) -> Seq<Pixel> {
        self@
    }

    fn pixel(&self, at: usize) -> (p: Pixel) {
        self[at]
    }

    fn set_pixel(&mut self, at: usize, p: Pixel) {
        self.set(at, p);
    }
}

/// Store of pixels of a `w` by `h` image in row-major order, each
/// initialized to black.
pub struct Film {
    pub w: u32,
    pub h: u32,
    pub output: Vec<Pixel>,
}

/// The position in a row-major buffer of width `w` of the pixel at `x`, `y`.
pub open spec fn pixel_offset(w: int, x: int, y: int) -> int {
    w * y + x
}

impl Film {
    /// The buffer has room for every pixel of the image.
    pub open spec fn wf(&self) -> bool {
        self.output@.len() >= self.w as int * self.h as int
    }

    /// Number of pixels of the image.
    pub open spec fn area(&self) -> int {
        self.w as int * self.h as int
    }

    /// Initializes a new film with the given dimensions, with each pixel
    /// transparent black.
    pub fn new(width: u32, height: u32) -> (film: Film)
        requires
            width as int * height as int <= usize::MAX,
        ensures
            film.wf(),
            film.w == width,
            film.h == height,
            film.pixels() == Seq::new(width as nat * height as nat, |i: int| [0u8, 0u8, 0u8, 0u8]),
    {
        let area = (width as usize) * (height as usize);
        let mut output: Vec<Pixel> = Vec::with_capacity(area);
        let mut i: usize = 0;
        while i < area
            invariant
                0 <= i <= area,
                output@ =~= Seq::new(i as nat, |k: int| [0u8, 0u8, 0u8, 0u8]),
            decreases area - i,
        {
            output.push([0u8, 0u8, 0u8, 0u8]);
            i = i + 1;
        }
        Film { w: width, h: height, output }
    }

    /// A film over a buffer allocated elsewhere, which has room for at least
    /// `width * height` pixels; its pixels are left as they are.
    pub fn new_with_output(width: u32, height: u32, output: Vec<Pixel>) -> (film: Film)
        requires
            output@.len() >= width as int * height as int,
        ensures
            film.wf(),
            film.w == width,
            film.h == height,
            film.pixels() == output@,
    {
        Film { w: width, h: height, output }
    }

    /// Width of the image, in pixels.
    pub fn w(&self) -> (r: u32)
        ensures
            r == self.w,
    {
        self.w
    }

    /// Height of the image, in pixels.
    pub fn h(&self) -> (r: u32)
        ensures
            r == self.h,
    {
        self.h
    }

    /// Number of pixels held.
    pub fn size(&self) -> (r: usize)
        ensures
            r == self.pixels().len(),
    {
        self.output.len()
    }

    /// Offset into the pixel buffer of the pixel at `x`, `y` (row-major).
    pub fn offset(&self, x: u32, y: u32) -> (r: usize)
        requires
            self.wf(),
            x < self.w,
            y < self.h,
        ensures
            r == pixel_offset(self.w as int, x as int, y as int),
            r < self.pixels().len(),
    {
        proof {
            assert((self.w as int) * (y as int) + (x as int) < (self.w as int) * (y as int + 1)) by (nonlinear_arith)
                requires
                    x < self.w,
            ;
            assert((self.w as int) * (y as int + 1) <= (self.w as int) * (self.h as int)) by (nonlinear_arith)
                requires
                    y < self.h,
            ;
            assert((self.w as int) * (y as int) + (x as int) < self.output@.len());
        }
        // the buffer's length bounds the offset within usize
        let _len = self.output.len();
        let wy = (self.w as usize) * (y as usize);
        wy + (x as usize)
    }

    /// Image coordinates of the pixel at buffer position `index`.
    pub fn position(&self, index: usize) -> (r: (u32, u32))
        requires
            self.wf(),
            index < self.area(),
        ensures
            r.0 < self.w,
            r.1 < self.h,
            r.0 == index as int % self.w as int,
            r.1 == index as int / self.w as int,
            pixel_offset(self.w as int, r.0 as int, r.1 as int) == index,
    {
        let w = self.w as usize;
        proof {
            assert(w > 0) by (nonlinear_arith)
                requires
                    w == self.w,
                    index < (self.w as int) * (self.h as int),
            ;
            assert((index as int) / (w as int) < (self.h as int)) by (nonlinear_arith)
                requires
                    index < (w as int) * (self.h as int),
                    w > 0,
            ;
            assert(w as int * (index as int / w as int) + index as int % w as int == index) by (nonlinear_arith)
                requires
                    w > 0,
            ;
        }
        ((index % w) as u32, (index / w) as u32)
    }

    /// Assigns the pixel at the given x/y position.
    pub fn set(&mut self, x: u32, y: u32, pixel: Pixel)
        requires
            old(self).wf(),
            x < old(self).w,
            y < old(self).h,
        ensures
            final(self).wf(),
            final(self).w == old(self).w,
            final(self).h == old(self).h,
            final(self).pixels() == old(self).pixels().update(pixel_offset(old(self).w as int, x as int, y as int), pixel),
    {
        let offset = self.offset(x, y);
        self.output.set(offset, pixel);
    }
}

impl PixelBuffer for Film {
    open spec fn pixels(&self) -> Seq<Pixel> {
        self.output@
    }

    fn pixel(&self, at: usize) -> (p: Pixel) {
        self.output[at]
    }

    fn set_pixel(&mut self, at: usize, p: Pixel) {
        self.output.set(at, p);
    }
}

/// Buffer position and image coordinates are inverse to each other on a
/// row-major image of width `w`: the pixel at `x`, `y` sits at `w * y + x`,
/// and position `i` holds the pixel at `(i % w, i / w)`.
pub proof fn offset_position_inverse(w: int, h: int, x: int, y: int, i: int)
    requires
        0 < w,
        0 <= x < w,
        0 <= y < h,
        0 <= i < w * h,
    ensures
        pixel_offset(w, x, y) % w == x,
        pixel_offset(w, x, y) / w == y,
        0 <= pixel_offset(w, x, y) < w * h,
        pixel_offset(w, i % w, i / w) == i,
        0 <= i / w < h,
{
    assert(pixel_offset(w, x, y) % w == x && pixel_offset(w, x, y) / w == y) by (nonlinear_arith)
        requires
            0 < w,
            0 <= x < w,
            0 <= y,
    {
        vstd::arithmetic::div_mod::lemma_fundamental_div_mod_converse(w * y + x, w, y, x);
    }
    assert(0 <= w * y + x < w * h) by (nonlinear_arith)
        requires
            0 < w,
            0 <= x < w,
            0 <= y < h,
    ;
    assert(w * (i / w) + i % w == i) by (nonlinear_arith)
        requires
            0 < w,
    ;
    assert(0 <= i / w < h) by (nonlinear_arith)
        requires
            0 < w,
            0 <= i < w * h,
    ;
}

} // verus!
