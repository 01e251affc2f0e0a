use vstd::prelude::*;
use crate::color::Color;

verus! {

/// What a source image is: a name and a grid of texels.
pub ghost struct ImageModel {
    pub name: Seq<char>,
    pub width: int,
    pub height: int,
    /// The texels, scanline after scanline from the top.
    pub texels: Seq<Color>,
}

impl ImageModel {
    /// The grid is not empty and holds one texel per position.
    pub open spec fn wf(self) -> bool {
        &&& 1 <= self.width <= u32::MAX
        &&& 1 <= self.height <= u32::MAX
        &&& self.texels.len() == self.width * self.height
    }

    /// The texel at column `x` of scanline `y`.
    pub open spec fn texel(self, x: int, y: int) -> Color {
        self.texels[y * self.width + x]
    }
}

/// A named RGBA image, immutable once made.
pub struct SourceImage {
    name: String,
    width: u32,
    height: u32,
    pixels: Vec<Color>,
}

impl View for SourceImage {
    type V = ImageModel;

    closed spec fn view(&self) -> ImageModel {
        ImageModel {
            name: self.name@,
            width: self.width as int,
            height: self.height as int,
            texels: self.pixels@,
        }
    }
}

impl DeepView for SourceImage {
    type V = ImageModel;

    open spec fn deep_view(&self) -> ImageModel {
        self@
    }
}

/// The position of texel `(x, y)` in a grid of the given width lies inside
/// the grid's texel sequence.
pub proof fn lemma_texel_offset(width: int, height: int, x: int, y: int)
    requires
        0 <= x < width,
        0 <= y < height,
    ensures
        0 <= y * width + x < width * height,
{
    assert(y * width + x < width * height) by (nonlinear_arith)
        requires
            0 <= x < width,
            0 <= y < height,
    ;
    assert(0 <= y * width) by (nonlinear_arith)
        requires
            0 <= y,
            0 <= width,
    ;
}

impl SourceImage {
    #[verifier::type_invariant]
    spec fn inv(&self) -> bool {
        self@.wf()
    }

    /// An image from its texels, given scanline after scanline from the top.
    /// `None` where a dimension is zero or the count of texels is not
    /// `width * height`.
    pub fn new(name: String, width: u32, height: u32, pixels: Vec<Color>) -> (made: Option<
        SourceImage,
    >)
        ensures
            made.is_some() == (width >= 1 && height >= 1 && pixels.len() == width * height),
            made matches Some(image) ==> image@ == (ImageModel {
                name: name@,
                width: width as int,
                height: height as int,
                texels: pixels@,
            }),
    {
        if width == 0 || height == 0 {
            return None;
        }
        assert(width * height <= 0xFFFF_FFFF * 0xFFFF_FFFF) by (nonlinear_arith)
            requires
                width <= 0xFFFF_FFFF,
                height <= 0xFFFF_FFFF,
        ;
        let area: u64 = (width as u64) * (height as u64);
        if pixels.len() as u64 != area {
            return None;
        }
        Some(SourceImage { name, width, height, pixels })
    }

    /// The name that the image is indexed by.
    pub fn name(&self) -> (name: &String)
        ensures
            name@ == self@.name,
    {
        &self.name
    }

    /// The width in texels, at least one.
    pub fn width(&self) -> (w: u32)
        ensures
            w == self@.width,
            self@.wf(),
    {
        proof {
            use_type_invariant(self);
        }
        self.width
    }

    /// The height in texels, at least one.
    pub fn height(&self) -> (h: u32)
        ensures
            h == self@.height,
            self@.wf(),
    {
        proof {
            use_type_invariant(self);
        }
        self.height
    }

    /// The texel at column `x` of scanline `y`, which lie inside the image.
    pub fn texel(&self, x: u32, y: u32) -> (texel: Color)
        requires
            x < self@.width,
            y < self@.height,
        ensures
            texel == self@.texel(x as int, y as int),
    {
        proof {
            use_type_invariant(self);
        }
        let count = self.pixels.len();
        proof {
            lemma_texel_offset(self.width as int, self.height as int, x as int, y as int);
            assert(count == self.width * self.height);
        }
        let offset = (y as usize) * (self.width as usize) + (x as usize);
        self.pixels[offset]
    }

    /// The texel at column `x` of scanline `y`, or `None` outside the image.
    pub fn pixel(&self, x: u32, y: u32) -> (found: Option<Color>)
        ensures
            found == if x < self@.width && y < self@.height {
                Some(self@.texel(x as int, y as int))
            } else {
                None
            },
    {
        if x < self.width && y < self.height {
            Some(self.texel(x, y))
        } else {
            None
        }
    }
}

/// Every image of the sequence is a well-formed grid.
pub open spec fn models_valid(images: Seq<ImageModel>) -> bool {
    forall|i: int| 0 <= i < images.len() ==> (#[trigger] images[i]).wf()
}

/// Learns, from the invariant that each image carries, that all the images
/// are well formed. Nothing is computed.
pub fn confirm_valid(images: &Vec<SourceImage>)
    ensures
        models_valid(images.deep_view()),
{
    let mut i: usize = 0;
    while i < images.len()
        invariant
            i <= images.len(),
            forall|j: int| 0 <= j < i ==> (#[trigger] images.deep_view()[j]).wf(),
        decreases images.len() - i,
    {
        let image = &images[i];
        proof {
            use_type_invariant(image);
            assert(images.deep_view()[i as int] == image@);
        }
        i += 1;
    }
}

} // verus!
