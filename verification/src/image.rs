use vstd::prelude::*;

verus! {

/// One RGBA8 pixel as `(r, g, b, a)`.
pub type Rgba = (u8, u8, u8, u8);

/// The mathematical content of an image: its dimensions and its bytes, four per
/// pixel in the order red, green, blue, alpha, rows from top to bottom.
pub struct ImageView {
    pub width: nat,
    pub height: nat,
    pub pixels: Seq<u8>,
}

impl ImageView {
    /// The buffer holds exactly `width * height` pixels.
    pub open spec fn wf(self) -> bool {
        self.pixels.len() == 4 * (self.width * self.height)
    }

    /// Where the first byte of the pixel at column `x`, row `y` lies.
    pub open spec fn offset(self, x: int, y: int) -> int {
        4 * (y * self.width + x)
    }

    /// The pixel at column `x`, row `y`.
    pub open spec fn pixel(self, x: int, y: int) -> Rgba
        recommends
            0 <= x < self.width,
            0 <= y < self.height,
    {
        let k = self.offset(x, y);
        (self.pixels[k], self.pixels[k + 1], self.pixels[k + 2], self.pixels[k + 3])
    }
}

/// The number of bytes that an image of the given dimensions occupies.
pub open spec fn byte_len(width: nat, height: nat) -> nat {
    4 * (width * height)
}

/// Every pixel of a `width` by `height` image lies inside its buffer.
pub proof fn lemma_offset_in_bounds(width: nat, height: nat, x: int, y: int)
    requires
        0 <= x < width,
        0 <= y < height,
    ensures
        0 <= y * width,
        y * width + x < width * height,
        4 * (y * width + x) + 4 <= byte_len(width, height),
{
    assert(0 <= y * width && y * width + width <= width * height) by (nonlinear_arith)
        requires
            0 <= y < height,
            0 <= width,
    ;
}

/// Computes [`byte_len`] without overflow.
pub fn byte_len_of(width: u32, height: u32) -> (n: u128)
    ensures
        n == byte_len(width as nat, height as nat),
{
    assert(width * height <= 0xffff_ffff * 0xffff_ffff) by (nonlinear_arith)
        requires
            width <= 0xffff_ffff,
            height <= 0xffff_ffff,
    ;
    4 * ((width as u128) * (height as u128))
}

/// An RGBA8 bitmap held in memory.
///
/// The buffer always holds exactly `width * height * 4` bytes.
#[derive(Debug, PartialEq, Eq)]
pub struct DecodedImage {
    width: u32,
    height: u32,
    pixels: Vec<u8>,
}

impl View for DecodedImage {
    type V = ImageView;

    closed spec fn view(&self) -> ImageView {
        ImageView {
            width: self.width as nat,
            height: self.height as nat,
            pixels: self.pixels@,
        }
    }
}

impl Clone for DecodedImage {
    fn clone(&self) -> (copy: Self)
        ensures
            copy@ == self@,
    {
        proof {
            use_type_invariant(self);
        }
        let pixels = self.pixels.clone();
        assert(pixels@ =~= self.pixels@);
        DecodedImage { width: self.width, height: self.height, pixels }
    }
}

impl DecodedImage {
    #[verifier::type_invariant]
    spec fn filled(self) -> bool {
        self.pixels@.len() == byte_len(self.width as nat, self.height as nat)
    }

    /// Builds an image from its dimensions and its bytes, if the buffer holds
    /// exactly `width * height * 4` bytes.
    pub fn new(width: u32, height: u32, pixels: Vec<u8>) -> (res: Option<DecodedImage>)
        ensures
            res is Some <==> pixels@.len() == byte_len(width as nat, height as nat),
            res matches Some(img) ==> img@ == (ImageView {
                width: width as nat,
                height: height as nat,
                pixels: pixels@,
            }),
    {
        if pixels.len() as u128 == byte_len_of(width, height) {
            Some(DecodedImage { width, height, pixels })
        } else {
            None
        }
    }

    /// The number of pixel columns.
    pub fn width(&self) -> (w: u32)
        ensures
            w == self@.width,
    {
        self.width
    }

    /// The number of pixel rows.
    pub fn height(&self) -> (h: u32)
        ensures
            h == self@.height,
    {
        self.height
    }

    /// The bytes of the image, four per pixel.
    pub fn as_raw(&self) -> (bytes: &Vec<u8>)
        ensures
            bytes@ == self@.pixels,
            self@.wf(),
    {
        proof {
            use_type_invariant(self);
        }
        &self.pixels
    }

    /// Gives up the image for its bytes.
    pub fn into_raw(self) -> (bytes: Vec<u8>)
        ensures
            bytes@ == self@.pixels,
            self@.wf(),
    {
        proof {
            use_type_invariant(&self);
        }
        self.pixels
    }

    /// The pixel at column `x`, row `y`, or `None` outside the image.
    pub fn get_pixel(&self, x: u32, y: u32) -> (res: Option<Rgba>)
        ensures
            res is Some <==> x < self@.width && y < self@.height,
            res matches Some(p) ==> p == self@.pixel(x as int, y as int),
    {
        proof {
            use_type_invariant(self);
        }
        if x < self.width && y < self.height {
            proof {
                lemma_offset_in_bounds(
                    self.width as nat,
                    self.height as nat,
                    x as int,
                    y as int,
                );
                assert(self.pixels@.len() == self.pixels.len());
            }
            let k: usize = 4 * (y as usize * self.width as usize + x as usize);
            Some((self.pixels[k], self.pixels[k + 1], self.pixels[k + 2], self.pixels[k + 3]))
        } else {
            None
        }
    }
}

} // verus!
