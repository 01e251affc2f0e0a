use vstd::prelude::*;
use crate::color::Color;

verus! {

/// An RGBA pixel buffer of fixed size, kept in an `image::RgbaImage`.
///
/// The buffer is opaque to the proofs: what it holds is known as
/// `bitmap_pixels` and `bitmap_size` only, and what these are is taken on
/// trust from the four functions that call into the image library.
#[verifier::external_body]
pub struct AtlasBitmap {
    buffer: image::RgbaImage,
}

/// The texels that a bitmap holds, by column and scanline.
pub uninterp spec fn bitmap_pixels(bitmap: AtlasBitmap) -> Map<(int, int), Color>;

/// The width and height that a bitmap was made with.
pub uninterp spec fn bitmap_size(bitmap: AtlasBitmap) -> (u32, u32);

/// The positions of a grid of the given width and height.
pub open spec fn grid(width: int, height: int) -> Set<(int, int)> {
    Set::new(|p: (int, int)| 0 <= p.0 < width && 0 <= p.1 < height)
}

/// The texels of a blank bitmap of the given size.
pub open spec fn blank_pixels(width: int, height: int) -> Map<(int, int), Color> {
    Map::new(|p: (int, int)| grid(width, height).contains(p), |p: (int, int)| Color::blank())
}

/// `image::ImageBuffer::new`: a buffer of the given size that holds zero in
/// every channel of every pixel. The call panics where the byte length does
/// not fit a vector, which `requires` leaves out.
#[verifier::external_body]
fn buffer_new(width: u32, height: u32) -> (bitmap: AtlasBitmap)
    requires
        4 * width * height <= isize::MAX,
    ensures
        bitmap_size(bitmap) == (width, height),
        bitmap_pixels(bitmap) == blank_pixels(width as int, height as int),
{
    AtlasBitmap { buffer: image::ImageBuffer::new(width, height) }
}

/// `image::ImageBuffer::dimensions`: the width and height of the buffer.
#[verifier::external_body]
fn buffer_dimensions(bitmap: &AtlasBitmap) -> (size: (u32, u32))
    ensures
        size == bitmap_size(*bitmap),
{
    bitmap.buffer.dimensions()
}

/// `image::ImageBuffer::put_pixel`: replaces the pixel at `(x, y)` and
/// nothing else. The call panics outside the buffer, which `requires` leaves
/// out.
#[verifier::external_body]
fn buffer_put_pixel(bitmap: &mut AtlasBitmap, x: u32, y: u32, color: Color)
    requires
        x < bitmap_size(*old(bitmap)).0,
        y < bitmap_size(*old(bitmap)).1,
    ensures
        bitmap_size(*final(bitmap)) == bitmap_size(*old(bitmap)),
        bitmap_pixels(*final(bitmap)) == bitmap_pixels(*old(bitmap)).insert(
            (x as int, y as int),
            color,
        ),
{
    bitmap.buffer.put_pixel(x, y, image::Rgba([color.r, color.g, color.b, color.a]));
}

/// `image::ImageBuffer::get_pixel`: the pixel at `(x, y)`. The call panics
/// outside the buffer, which `requires` leaves out.
#[verifier::external_body]
fn buffer_get_pixel(bitmap: &AtlasBitmap, x: u32, y: u32) -> (color: Color)
    requires
        x < bitmap_size(*bitmap).0,
        y < bitmap_size(*bitmap).1,
    ensures
        color == bitmap_pixels(*bitmap)[(x as int, y as int)],
{
    let pixel = bitmap.buffer.get_pixel(x, y);
    Color { r: pixel.0[0], g: pixel.0[1], b: pixel.0[2], a: pixel.0[3] }
}

impl AtlasBitmap {
    /// The width in pixels.
    pub open spec fn spec_width(&self) -> int {
        bitmap_size(*self).0 as int
    }

    /// The height in pixels.
    pub open spec fn spec_height(&self) -> int {
        bitmap_size(*self).1 as int
    }

    /// The texel at column `x` of scanline `y`.
    pub open spec fn texel(&self, x: int, y: int) -> Color {
        bitmap_pixels(*self)[(x, y)]
    }

    /// The bitmap holds a texel at each position of its grid and nowhere else.
    pub open spec fn wf(&self) -> bool {
        bitmap_pixels(*self).dom() == grid(self.spec_width(), self.spec_height())
    }

    /// Whether a bitmap of this size can be allocated at all.
    pub open spec fn fits_memory(width: u32, height: u32) -> bool {
        4 * width * height <= isize::MAX
    }

    /// Tells whether a bitmap of this size can be allocated at all.
    pub fn can_allocate(width: u32, height: u32) -> (ok: bool)
        ensures
            ok == Self::fits_memory(width, height),
    {
        assert(width * height <= 0xFFFF_FFFF * 0xFFFF_FFFF) by (nonlinear_arith)
            requires
                width <= 0xFFFF_FFFF,
                height <= 0xFFFF_FFFF,
        ;
        let area: u64 = (width as u64) * (height as u64);
        assert(4 * width * height == 4 * (width * height)) by (nonlinear_arith);
        area <= (isize::MAX as u64) / 4
    }

    /// A bitmap of the given size with every texel blank, or `None` where
    /// its bytes would not fit in memory.
    pub fn new(width: u32, height: u32) -> (made: Option<AtlasBitmap>)
        ensures
            made.is_some() == Self::fits_memory(width, height),
            made matches Some(bitmap) ==> {
                &&& bitmap.wf()
                &&& bitmap.spec_width() == width
                &&& bitmap.spec_height() == height
                &&& bitmap_pixels(bitmap) == blank_pixels(width as int, height as int)
            },
    {
        if Self::can_allocate(width, height) {
            let bitmap = buffer_new(width, height);
            assert(bitmap_pixels(bitmap).dom() =~= grid(width as int, height as int));
            Some(bitmap)
        } else {
            None
        }
    }

    /// The width in pixels.
    pub fn width(&self) -> (w: u32)
        ensures
            w == self.spec_width(),
    {
        buffer_dimensions(self).0
    }

    /// The height in pixels.
    pub fn height(&self) -> (h: u32)
        ensures
            h == self.spec_height(),
    {
        buffer_dimensions(self).1
    }

    /// The texel at `(x, y)`, or `None` outside the bitmap.
    pub fn pixel(&self, x: u32, y: u32) -> (found: Option<Color>)
        ensures
            found == if x < self.spec_width() && y < self.spec_height() {
                Some(self.texel(x as int, y as int))
            } else {
                None
            },
    {
        let (w, h) = buffer_dimensions(self);
        if x < w && y < h {
            Some(buffer_get_pixel(self, x, y))
        } else {
            None
        }
    }

    /// Writes one texel. The position must lie inside the bitmap.
    pub fn put(&mut self, x: u32, y: u32, color: Color)
        requires
            old(self).wf(),
            x < old(self).spec_width(),
            y < old(self).spec_height(),
        ensures
            final(self).wf(),
            final(self).spec_width() == old(self).spec_width(),
            final(self).spec_height() == old(self).spec_height(),
            bitmap_pixels(*final(self)) == bitmap_pixels(*old(self)).insert(
                (x as int, y as int),
                color,
            ),
    {
        buffer_put_pixel(self, x, y, color);
        assert(bitmap_pixels(*self).dom() =~= grid(self.spec_width(), self.spec_height()));
    }

    /// The bytes of the bitmap as they are uploaded or stored: scanline
    /// after scanline from the top, texel after texel from the left, four
    /// bytes per texel, red first and alpha last.
    pub fn to_rgba_bytes(&self) -> (bytes: Vec<u8>)
        ensures
            bytes.len() == 4 * (self.spec_width() * self.spec_height()),
            forall|x: int, y: int|
                0 <= x < self.spec_width() && 0 <= y < self.spec_height() ==> {
                    let at = 4 * (y * self.spec_width() + x);
                    &&& bytes[at] == (#[trigger] self.texel(x, y)).r
                    &&& bytes[at + 1] == self.texel(x, y).g
                    &&& bytes[at + 2] == self.texel(x, y).b
                    &&& bytes[at + 3] == self.texel(x, y).a
                },
    {
        let (width, height) = buffer_dimensions(self);
        let mut bytes: Vec<u8> = Vec::new();
        let mut y: u32 = 0;
        while y < height
            invariant
                (width, height) == bitmap_size(*self),
                y <= height,
                bytes.len() == 4 * (y * width),
                forall|px: int, py: int|
                    0 <= px < width && 0 <= py < y ==> {
                        let at = 4 * (py * width + px);
                        &&& bytes[at] == (#[trigger] self.texel(px, py)).r
                        &&& bytes[at + 1] == self.texel(px, py).g
                        &&& bytes[at + 2] == self.texel(px, py).b
                        &&& bytes[at + 3] == self.texel(px, py).a
                    },
            decreases height - y,
        {
            let mut x: u32 = 0;
            while x < width
                invariant
                    (width, height) == bitmap_size(*self),
                    y < height,
                    x <= width,
                    bytes.len() == 4 * (y * width + x),
                    forall|px: int, py: int|
                        0 <= px < width && 0 <= py < y + 1 && (py < y || px < x) ==> {
                            let at = 4 * (py * width + px);
                            &&& bytes[at] == (#[trigger] self.texel(px, py)).r
                            &&& bytes[at + 1] == self.texel(px, py).g
                            &&& bytes[at + 2] == self.texel(px, py).b
                            &&& bytes[at + 3] == self.texel(px, py).a
                        },
                decreases width - x,
            {
                let ghost before = bytes@;
                let color = buffer_get_pixel(self, x, y);
                bytes.push(color.r);
                bytes.push(color.g);
                bytes.push(color.b);
                bytes.push(color.a);
                proof {
                    assert forall|px: int, py: int|
                        0 <= px < width && 0 <= py < y + 1 && (py < y || px < x + 1) implies {
                        let at = 4 * (py * width + px);
                        &&& bytes[at] == (#[trigger] self.texel(px, py)).r
                        &&& bytes[at + 1] == self.texel(px, py).g
                        &&& bytes[at + 2] == self.texel(px, py).b
                        &&& bytes[at + 3] == self.texel(px, py).a
                    } by {
                        let at = 4 * (py * width + px);
                        if py == y && px == x {
                        } else {
                            lemma_offset_before(width as int, px, py, x as int, y as int);
                            assert(bytes[at] == before[at]);
                            assert(bytes[at + 3] == before[at + 3]);
                        }
                    }
                }
                x += 1;
            }
            proof {
                assert((y + 1) * width == y * width + width) by (nonlinear_arith);
            }
            y += 1;
        }
        proof {
            assert(height * width == width * height) by (nonlinear_arith);
        }
        bytes
    }
}

/// In a grid of the given width, a texel that comes before `(x, y)` in
/// reading order has the smaller offset.
proof fn lemma_offset_before(width: int, px: int, py: int, x: int, y: int)
    requires
        0 <= px < width,
        0 <= x <= width,
        0 <= py <= y,
        py < y || px < x,
    ensures
        0 <= py * width + px < y * width + x,
{
    assert(py * width + px < y * width + x && 0 <= py * width) by (nonlinear_arith)
        requires
            0 <= px < width,
            0 <= x <= width,
            0 <= py <= y,
            py < y || px < x,
    ;
}

} // verus!
