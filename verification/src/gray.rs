//! Gray images.

use vstd::prelude::*;

verus! {

/// What `image::imageops::resize` makes of a gray image with the triangle
/// filter: the pixels of `pixels`, `width` by `height`, scaled to `new_width`
/// by `new_height`.
pub uninterp spec fn triangle_scaled(
    pixels: Seq<u8>,
    width: u32,
    height: u32,
    new_width: u32,
    new_height: u32,
) -> Seq<u8>;

/// `image::imageops::resize` with the Lanczos filter can make `scaled` of a gray
/// image: of `pixels`, `width` by `height`, scaled to `new_width` by `new_height`.
/// The filter rests on the machine's sine, so more than one result may be possible.
pub uninterp spec fn lanczos_gives(
    pixels: Seq<u8>,
    width: u32,
    height: u32,
    new_width: u32,
    new_height: u32,
    scaled: Seq<u8>,
) -> bool;

/// The number of pixels of an image.
pub open spec fn area(width: u32, height: u32) -> int {
    width * height
}

/// The most pixels in a row that single precision can keep apart: with no more in
/// the shorter of the old and the new row, each new pixel is placed near enough
/// for its neighbours to have weight.
pub const MAX_SIDE: u32 = 0x20_0000;

/// The most pixels that a row grows to: up to here single precision holds the
/// middle of every pixel.
pub const MAX_GROWN_SIDE: u32 = 0x80_0000;

/// A row of `side` pixels can be sampled at `new_side` places.
pub open spec fn can_sample_side(side: u32, new_side: u32) -> bool {
    if new_side <= side {
        new_side <= MAX_SIDE
    } else {
        side <= MAX_SIDE && new_side <= MAX_GROWN_SIDE
    }
}

/// An image can be sampled at both sides, and the values that sampling works on,
/// sixteen bytes each, fit in memory.
pub open spec fn can_sample(width: u32, height: u32, new_width: u32, new_height: u32) -> bool {
    &&& can_sample_side(width, new_width)
    &&& can_sample_side(height, new_height)
    &&& area(width, new_height) * 16 <= isize::MAX
}

fn is_sampled(side: u32, new_side: u32) -> (yes: bool)
    ensures
        yes == can_sample_side(side, new_side),
{
    if new_side <= side {
        new_side <= MAX_SIDE
    } else {
        side <= MAX_SIDE && new_side <= MAX_GROWN_SIDE
    }
}

/// An image `width` by `height` can be scaled to `new_width` by `new_height`: the
/// result fits in memory, and the image can be sampled if it has to be. An empty
/// image is not, and one that has its size already is copied.
pub open spec fn can_scale(width: u32, height: u32, new_width: u32, new_height: u32) -> bool {
    &&& area(new_width, new_height) <= isize::MAX
    &&& {
        ||| width == 0 || height == 0
        ||| width == new_width && height == new_height
        ||| can_sample(width, height, new_width, new_height)
    }
}

/// `image::ImageBuffer::from_pixel` for gray images: all pixels have the given
/// value.
#[verifier::external_body]
fn filled_pixels(width: u32, height: u32, value: u8) -> (pixels: Vec<u8>)
    requires
        area(width, height) <= isize::MAX,
    ensures
        pixels@ == Seq::new(area(width, height) as nat, |i: int| value),
{
    image::GrayImage::from_pixel(width, height, image::Luma([value])).into_raw()
}

/// `image::imageops::crop_imm` and `to_image` for gray images: the pixels of
/// the given part.
#[verifier::external_body]
fn cropped_pixels(width: u32, height: u32, pixels: &Vec<u8>, x: u32, y: u32, w: u32, h: u32) -> (part: Vec<u8>)
    requires
        pixels@.len() == area(width, height),
        x + w <= width,
        y + h <= height,
    ensures
        part@ == crop(pixels@, width as int, x as int, y as int, w as int, h as int),
{
    let whole = image::GrayImage::from_raw(width, height, pixels.clone()).unwrap();
    image::imageops::crop_imm(&whole, x, y, w, h).to_image().into_raw()
}

/// `image::imageops::overlay` for gray images that lies inside: the pixels of
/// the upper image take the place of those below.
#[verifier::external_body]
fn overlaid_pixels(
    width: u32,
    height: u32,
    pixels: Vec<u8>,
    top_width: u32,
    top_height: u32,
    top: &Vec<u8>,
    x: u32,
    y: u32,
) -> (both: Vec<u8>)
    requires
        pixels@.len() == area(width, height),
        top@.len() == area(top_width, top_height),
        x + top_width <= width,
        y + top_height <= height,
    ensures
        both@ == overlay(
            pixels@,
            width as int,
            top@,
            top_width as int,
            top_height as int,
            x as int,
            y as int,
        ),
{
    let mut bottom = image::GrayImage::from_raw(width, height, pixels).unwrap();
    let upper = image::GrayImage::from_raw(top_width, top_height, top.clone()).unwrap();
    image::imageops::overlay(&mut bottom, &upper, x as i64, y as i64);
    bottom.into_raw()
}

/// `image::imageops::resize` for gray images with the triangle filter: the
/// result is fixed by the image and the new size; it has a pixel for each place
/// and is a copy where the size stays.
#[verifier::external_body]
fn triangle_resized_pixels(width: u32, height: u32, pixels: &Vec<u8>, new_width: u32, new_height: u32) -> (scaled: Vec<u8>)
    requires
        pixels@.len() == area(width, height),
        can_scale(width, height, new_width, new_height),
    ensures
        scaled@ == triangle_scaled(pixels@, width, height, new_width, new_height),
        scaled@.len() == area(new_width, new_height),
        new_width == width && new_height == height ==> scaled@ == pixels@,
{
    let whole = image::GrayImage::from_raw(width, height, pixels.clone()).unwrap();
    let filter = image::imageops::FilterType::Triangle;
    image::imageops::resize(&whole, new_width, new_height, filter).into_raw()
}

/// `image::imageops::resize` for gray images with the Lanczos filter: the result
/// is one that the filter can give of this image at this size; it has a pixel for
/// each place and is a copy where the size stays. Which of the possible results it
/// is is left unsaid, as the filter rests on the machine's sine.
#[verifier::external_body]
fn lanczos_resized_pixels(width: u32, height: u32, pixels: &Vec<u8>, new_width: u32, new_height: u32) -> (scaled: Vec<u8>)
    requires
        pixels@.len() == area(width, height),
        can_scale(width, height, new_width, new_height),
    ensures
        lanczos_gives(pixels@, width, height, new_width, new_height, scaled@),
        scaled@.len() == area(new_width, new_height),
        new_width == width && new_height == height ==> scaled@ == pixels@,
{
    let whole = image::GrayImage::from_raw(width, height, pixels.clone()).unwrap();
    let filter = image::imageops::FilterType::Lanczos3;
    image::imageops::resize(&whole, new_width, new_height, filter).into_raw()
}

/// The part of an image that is `w` by `h` at `(x, y)`.
pub open spec fn crop(pixels: Seq<u8>, width: int, x: int, y: int, w: int, h: int) -> Seq<u8> {
    Seq::new((w * h) as nat, |i: int| pixels[(y + i / w) * width + x + i % w])
}

/// The image with another laid over it at `(x, y)`.
pub open spec fn overlay(
    pixels: Seq<u8>,
    width: int,
    top: Seq<u8>,
    top_width: int,
    top_height: int,
    x: int,
    y: int,
) -> Seq<u8> {
    Seq::new(
        pixels.len(),
        |i: int|
            {
                let column = i % width - x;
                let row = i / width - y;
                if 0 <= column < top_width && 0 <= row < top_height {
                    top[row * top_width + column]
                } else {
                    pixels[i]
                }
            },
    )
}

/// A gray image: one byte for each pixel, row by row.
pub struct Gray {
    width: u32,
    height: u32,
    pixels: Vec<u8>,
}

impl Gray {
    pub closed spec fn width(&self) -> u32 {
        self.width
    }

    pub closed spec fn height(&self) -> u32 {
        self.height
    }

    pub closed spec fn pixels(&self) -> Seq<u8> {
        self.pixels@
    }

    /// There is a pixel for each place.
    pub open spec fn wf(&self) -> bool {
        self.pixels().len() == area(self.width(), self.height())
    }

    /// The pixel in a column and a row.
    pub open spec fn at(&self, x: int, y: int) -> u8 {
        self.pixels()[y * self.width() + x]
    }

    /// An image from its pixels, if there is one for each place.
    pub fn from_raw(width: u32, height: u32, pixels: Vec<u8>) -> (img: Option<Gray>)
        ensures
            match img {
                Some(g) => g.wf() && g.width() == width && g.height() == height && g.pixels() == pixels@,
                None => pixels.len() != area(width, height),
            },
    {
        proof {
            lemma_area(width, height);
        }
        let wanted: u64 = width as u64 * height as u64;
        if pixels.len() as u64 == wanted {
            Some(Gray { width, height, pixels })
        } else {
            None
        }
    }

    /// An image of one value.
    pub fn filled(width: u32, height: u32, value: u8) -> (img: Gray)
        requires
            area(width, height) <= isize::MAX,
        ensures
            img.wf(),
            img.width() == width,
            img.height() == height,
            img.pixels() == Seq::new(area(width, height) as nat, |i: int| value),
    {
        proof {
            lemma_area(width, height);
        }
        Gray { width, height, pixels: filled_pixels(width, height, value) }
    }

    /// The number of columns.
    pub fn columns(&self) -> (w: u32)
        ensures
            w == self.width(),
    {
        self.width
    }

    /// The number of rows.
    pub fn rows(&self) -> (h: u32)
        ensures
            h == self.height(),
    {
        self.height
    }

    /// The pixels, row by row.
    pub fn as_raw(&self) -> (pixels: &Vec<u8>)
        ensures
            pixels@ == self.pixels(),
    {
        &self.pixels
    }

    /// The pixel in a column and a row.
    pub fn pixel(&self, x: u32, y: u32) -> (value: u8)
        requires
            self.wf(),
            x < self.width(),
            y < self.height(),
        ensures
            value == self.at(x as int, y as int),
    {
        proof {
            lemma_index(self.width, self.height, x as int, y as int);
        }
        let at: u64 = y as u64 * self.width as u64 + x as u64;
        let count: usize = self.pixels.len();
        assert(at < count);
        self.pixels[at as usize]
    }

    /// A copy.
    pub fn copy(&self) -> (img: Gray)
        requires
            self.wf(),
        ensures
            img.wf(),
            img.width() == self.width(),
            img.height() == self.height(),
            img.pixels() == self.pixels(),
    {
        let mut pixels: Vec<u8> = Vec::new();
        let mut k: usize = 0;
        while k < self.pixels.len()
            invariant
                k <= self.pixels.len(),
                pixels@ == self.pixels@.take(k as int),
            decreases self.pixels.len() - k,
        {
            pixels.push(self.pixels[k]);
            k = k + 1;
            assert(self.pixels@.take(k as int) =~= self.pixels@.take(k - 1).push(self.pixels@[k - 1]));
        }
        assert(self.pixels@.take(self.pixels.len() as int) =~= self.pixels@);
        Gray { width: self.width, height: self.height, pixels }
    }

    /// The part that is `w` by `h` at `(x, y)`.
    pub fn part(&self, x: u32, y: u32, w: u32, h: u32) -> (img: Gray)
        requires
            self.wf(),
            x + w <= self.width(),
            y + h <= self.height(),
        ensures
            img.wf(),
            img.width() == w,
            img.height() == h,
            img.pixels() == crop(self.pixels(), self.width() as int, x as int, y as int, w as int, h as int),
    {
        proof {
            lemma_area(w, h);
        }
        Gray { width: w, height: h, pixels: cropped_pixels(self.width, self.height, &self.pixels, x, y, w, h) }
    }

    /// The image with another laid over it at `(x, y)`.
    pub fn with_overlay(self, top: &Gray, x: u32, y: u32) -> (img: Gray)
        requires
            self.wf(),
            top.wf(),
            x + top.width() <= self.width(),
            y + top.height() <= self.height(),
        ensures
            img.wf(),
            img.width() == self.width(),
            img.height() == self.height(),
            img.pixels() == overlay(
                self.pixels(),
                self.width() as int,
                top.pixels(),
                top.width() as int,
                top.height() as int,
                x as int,
                y as int,
            ),
    {
        let width = self.width;
        let height = self.height;
        let pixels = overlaid_pixels(width, height, self.pixels, top.width, top.height, &top.pixels, x, y);
        Gray { width, height, pixels }
    }

    /// Tells whether the image can be scaled to the given size.
    pub fn can_be_scaled(&self, new_width: u32, new_height: u32) -> (yes: bool)
        ensures
            yes == can_scale(self.width(), self.height(), new_width, new_height),
    {
        let most: u64 = isize::MAX as u64;
        proof {
            lemma_area(new_width, new_height);
        }
        if new_width as u64 * new_height as u64 > most {
            return false;
        }
        if self.width == 0 || self.height == 0 || (self.width == new_width && self.height == new_height) {
            return true;
        }
        if !is_sampled(self.width, new_width) || !is_sampled(self.height, new_height) {
            return false;
        }
        proof {
            lemma_sampled_rows(self.width, new_height);
        }
        self.width as u64 * new_height as u64 * 16 <= most
    }

    /// The image scaled with the triangle filter.
    pub fn scaled(&self, new_width: u32, new_height: u32) -> (img: Gray)
        requires
            self.wf(),
            can_scale(self.width(), self.height(), new_width, new_height),
        ensures
            img.wf(),
            img.width() == new_width,
            img.height() == new_height,
            img.pixels() == triangle_scaled(self.pixels(), self.width(), self.height(), new_width, new_height),
            new_width == self.width() && new_height == self.height() ==> img.pixels() == self.pixels(),
    {
        let pixels = triangle_resized_pixels(self.width, self.height, &self.pixels, new_width, new_height);
        Gray { width: new_width, height: new_height, pixels }
    }

    /// The image scaled with the Lanczos filter.
    pub fn scaled_sharply(&self, new_width: u32, new_height: u32) -> (img: Gray)
        requires
            self.wf(),
            can_scale(self.width(), self.height(), new_width, new_height),
        ensures
            img.wf(),
            img.width() == new_width,
            img.height() == new_height,
            lanczos_gives(self.pixels(), self.width(), self.height(), new_width, new_height, img.pixels()),
            new_width == self.width() && new_height == self.height() ==> img.pixels() == self.pixels(),
    {
        let pixels = lanczos_resized_pixels(self.width, self.height, &self.pixels, new_width, new_height);
        Gray { width: new_width, height: new_height, pixels }
    }
}

/// The area of an image fits in 64 bits.
pub proof fn lemma_area(width: u32, height: u32)
    ensures
        0 <= area(width, height) <= 0xffff_fffe_0000_0001,
{
    assert(0 <= width * height <= 0xffff_fffe_0000_0001) by (nonlinear_arith)
        requires
            0 <= width <= 0xffff_ffff,
            0 <= height <= 0xffff_ffff,
    ;
}

/// The area of an image of few rows.
proof fn lemma_sampled_rows(width: u32, height: u32)
    requires
        height <= MAX_GROWN_SIDE,
    ensures
        0 <= width * height <= 0x80_0000_0000_0000,
{
    assert(0 <= width * height <= 0x80_0000_0000_0000) by (nonlinear_arith)
        requires
            0 <= width <= 0x1_0000_0000,
            0 <= height <= 0x80_0000,
    ;
}

/// The place of a pixel lies within the area.
pub proof fn lemma_index(width: u32, height: u32, x: int, y: int)
    requires
        0 <= x < width,
        0 <= y < height,
    ensures
        0 <= y * width,
        0 <= y * width + x < area(width, height) <= 0xffff_fffe_0000_0001,
        (y * width + x) / (width as int) == y,
        (y * width + x) % (width as int) == x,
{
    lemma_area(width, height);
    assert(0 <= y * width && y * width + x < width * height) by (nonlinear_arith)
        requires
            0 <= x < width,
            0 <= y < height,
    ;
    vstd::arithmetic::div_mod::lemma_fundamental_div_mod_converse(y * width + x, width as int, y, x);
}

/// Each pixel of a part is the pixel of the image at its place.
pub proof fn law_crop_takes_pixels(pixels: Seq<u8>, width: u32, x: int, y: int, w: u32, h: u32, i: int, j: int)
    requires
        0 <= i < w,
        0 <= j < h,
    ensures
        crop(pixels, width as int, x, y, w as int, h as int)[j * w + i] == pixels[(y + j) * width + x + i],
{
    lemma_index(w, h, i, j);
}

/// Under an overlay the image shows the overlay; elsewhere it stays.
pub proof fn law_overlay_covers_its_place(
    pixels: Seq<u8>,
    width: u32,
    height: u32,
    top: Seq<u8>,
    top_width: int,
    top_height: int,
    x: int,
    y: int,
    i: int,
    j: int,
)
    requires
        pixels.len() == area(width, height),
        0 <= i < width,
        0 <= j < height,
    ensures
        ({
            let both = overlay(pixels, width as int, top, top_width, top_height, x, y);
            both[j * width + i] == if x <= i < x + top_width && y <= j < y + top_height {
                top[(j - y) * top_width + (i - x)]
            } else {
                pixels[j * width + i]
            }
        }),
{
    lemma_index(width, height, i, j);
}

/// Cropping what was laid over an image gives the overlay back.
pub proof fn law_crop_undoes_overlay(
    pixels: Seq<u8>,
    width: u32,
    height: u32,
    top: Seq<u8>,
    top_width: u32,
    top_height: u32,
    x: int,
    y: int,
)
    requires
        pixels.len() == area(width, height),
        top.len() == area(top_width, top_height),
        0 <= x,
        0 <= y,
        x + top_width <= width,
        y + top_height <= height,
    ensures
        crop(
            overlay(pixels, width as int, top, top_width as int, top_height as int, x, y),
            width as int,
            x,
            y,
            top_width as int,
            top_height as int,
        ) == top,
{
    let both = overlay(pixels, width as int, top, top_width as int, top_height as int, x, y);
    let back = crop(both, width as int, x, y, top_width as int, top_height as int);
    lemma_area(top_width, top_height);
    assert forall|k: int| 0 <= k < top.len() implies back[k] == top[k] by {
        let w = top_width as int;
        assert(w > 0) by (nonlinear_arith)
            requires
                0 <= k < w * top_height,
                0 <= w,
                0 <= top_height,
        ;
        let j = k / w;
        let i = k % w;
        vstd::arithmetic::div_mod::lemma_fundamental_div_mod(k, w);
        assert(0 <= i < w) by {
            vstd::arithmetic::div_mod::lemma_mod_bound(k, w);
        }
        assert(k == w * j + i);
        assert(0 <= j < top_height) by (nonlinear_arith)
            requires
                k == w * j + i,
                0 <= i < w,
                0 <= k < w * top_height,
                w > 0,
        ;
        lemma_index(width, height, x + i, y + j);
        assert(w * j == j * w) by (nonlinear_arith);
        assert(both[(y + j) * width + (x + i)] == top[j * w + i]);
    }
    assert(back =~= top);
}

} // verus!
