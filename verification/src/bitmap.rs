//! Bitmaps of RGBA pixels, their scaling, and the counting of their colors.
use vstd::prelude::*;
use image::imageops::FilterType;
use image::{DynamicImage, ImageBuffer, Rgba};
use crate::color::{argb_to_u32, packed, Argb};
use crate::population::{
    counts_colors, entry_keys, lemma_added_counts, lemma_first_occurrences, lemma_population_is,
    population, total_count, ColorPopulation,
};
use crate::sizing::{calculate_optimal_size, optimal_size, MAX_WALLPAPER_EXTRACTION_AREA};

verus! {

/// A bitmap: `width * height` pixels row by row, each as four bytes red,
/// green, blue, alpha.
pub struct Bitmap {
    width: u32,
    height: u32,
    pixels: Vec<u8>,
}

/// The color of pixel `i` of an RGBA byte sequence.
pub open spec fn rgba_pixel(pixels: Seq<u8>, i: int) -> Argb {
    Argb {
        alpha: pixels[4 * i + 3],
        red: pixels[4 * i],
        green: pixels[4 * i + 1],
        blue: pixels[4 * i + 2],
    }
}

/// Each counted color packs the pixel's four bytes as they are: alpha in the
/// top byte, then red, green and blue.
pub proof fn lemma_rgba_colors_packed(pixels: Seq<u8>, i: int)
    requires
        0 <= i < pixels.len() / 4,
    ensures
        rgba_colors(pixels).len() == pixels.len() / 4,
        rgba_colors(pixels)[i] == pixels[4 * i + 3] * 0x100_0000 + pixels[4 * i] * 0x1_0000
            + pixels[4 * i + 1] * 0x100 + pixels[4 * i + 2],
{
    crate::color::lemma_unpack_packed(rgba_pixel(pixels, i));
}

/// The packed colors of the pixels of an RGBA byte sequence, in order.
pub open spec fn rgba_colors(pixels: Seq<u8>) -> Seq<u32> {
    Seq::new(pixels.len() / 4, |i: int| packed(rgba_pixel(pixels, i)) as u32)
}

/// The bitmap a resize of the RGBA bitmap `pixels` (of `width` by `height`)
/// to fit within `nwidth` by `nheight`, nearest-neighbour sampled, gives:
/// its width, height and pixels.
pub uninterp spec fn resized_rgba(
    pixels: Seq<u8>,
    width: u32,
    height: u32,
    nwidth: u32,
    nheight: u32,
) -> (u32, u32, Seq<u8>);

/// Resizes an RGBA bitmap with `DynamicImage::resize` and the nearest
/// neighbour filter. The image crate keeps the aspect ratio, fitting the
/// result within `nwidth` by `nheight` (as its documentation says) and making
/// neither side zero (`resize_dimensions` takes the maximum with 1); the
/// result has four bytes per pixel (`to_rgba8`). Which pixels it samples is
/// left to the name `resized_rgba`.
#[verifier::external_body]
fn resize_rgba(pixels: &Vec<u8>, width: u32, height: u32, nwidth: u32, nheight: u32) -> (r: (
    u32,
    u32,
    Vec<u8>,
))
    requires
        pixels.len() == width * height * 4,
        width >= 1,
        height >= 1,
        nwidth >= 1,
        nheight >= 1,
    ensures
        (r.0, r.1, r.2@) == resized_rgba(pixels@, width, height, nwidth, nheight),
        1 <= r.0 <= nwidth,
        1 <= r.1 <= nheight,
        r.2.len() == r.0 * r.1 * 4,
{
    let buffer = ImageBuffer::<Rgba<u8>, Vec<u8>>::from_raw(width, height, pixels.clone()).unwrap();
    let resized = DynamicImage::ImageRgba8(buffer).resize(nwidth, nheight, FilterType::Nearest);
    let rgba = resized.to_rgba8();
    (rgba.width(), rgba.height(), rgba.into_raw())
}

impl View for Bitmap {
    /// Width, height and pixel bytes.
    type V = (u32, u32, Seq<u8>);

    closed spec fn view(&self) -> (u32, u32, Seq<u8>) {
        (self.width, self.height, self.pixels@)
    }
}

/// A well-formed bitmap: four bytes per pixel, and a pixel count that fits
/// in 32 bits.
pub open spec fn is_bitmap(width: u32, height: u32, pixels: Seq<u8>) -> bool {
    &&& width * height <= u32::MAX
    &&& pixels.len() == width * height * 4
}

impl Bitmap {
    #[verifier::type_invariant]
    spec fn well_formed(self) -> bool {
        is_bitmap(self.width, self.height, self.pixels@)
    }

    /// The bitmap of `width` by `height` pixels with the given RGBA bytes, or
    /// `None` when there are not four bytes per pixel or when the pixel
    /// count does not fit in 32 bits.
    pub fn new(width: u32, height: u32, pixels: Vec<u8>) -> (r: Option<Bitmap>)
        ensures
            r is Some <==> is_bitmap(width, height, pixels@),
            r matches Some(b) ==> b@ == (width, height, pixels@),
    {
        assert(width as u64 * height as u64 <= u64::MAX) by (nonlinear_arith)
            requires
                width <= u32::MAX,
                height <= u32::MAX,
        ;
        let count = width as u64 * height as u64;
        if count > u32::MAX as u64 {
            return None;
        }
        if pixels.len() as u64 / 4 != count || pixels.len() % 4 != 0 {
            return None;
        }
        Some(Bitmap { width, height, pixels })
    }

    /// The width in pixels.
    pub fn width(&self) -> (r: u32)
        ensures
            r == self@.0,
    {
        self.width
    }

    /// The height in pixels.
    pub fn height(&self) -> (r: u32)
        ensures
            r == self@.1,
    {
        self.height
    }

    /// The RGBA bytes, row by row.
    pub fn pixels(&self) -> (r: &Vec<u8>)
        ensures
            r@ == self@.2,
            is_bitmap(self@.0, self@.1, self@.2),
    {
        proof {
            use_type_invariant(self);
        }
        &self.pixels
    }

    /// The color of the pixel in column `x` of row `y`.
    pub fn get_pixel(&self, x: u32, y: u32) -> (c: Argb)
        requires
            x < self@.0,
            y < self@.1,
        ensures
            c == rgba_pixel(self@.2, y * self@.0 + x),
            c == (Argb {
                alpha: self@.2[4 * (y * self@.0 + x) + 3],
                red: self@.2[4 * (y * self@.0 + x)],
                green: self@.2[4 * (y * self@.0 + x) + 1],
                blue: self@.2[4 * (y * self@.0 + x) + 2],
            }),
    {
        let len = self.pixels.len();
        proof {
            use_type_invariant(self);
            assert((y * self.width + x) * 4 + 3 < self.width * self.height * 4) by (nonlinear_arith)
                requires
                    x < self.width,
                    y < self.height,
            ;
        }
        let i = (y as usize * self.width as usize + x as usize) * 4;
        Argb::new(self.pixels[i + 3], self.pixels[i], self.pixels[i + 1], self.pixels[i + 2])
    }
}

/// Whether a bitmap of `width` by `height` pixels is scaled before its colors
/// are counted: its area exceeds `MAX_WALLPAPER_EXTRACTION_AREA` as a signed
/// 32-bit number (an area above `i32::MAX` wraps to a negative one).
pub open spec fn needs_scaling(width: u32, height: u32) -> bool {
    MAX_WALLPAPER_EXTRACTION_AREA < width * height <= i32::MAX
}

/// The bitmap whose colors are counted: the bitmap `b` itself, or, when it
/// `needs_scaling`, the bitmap resized to fit within `optimal_size` of its
/// sides.
pub open spec fn scaled_view(b: (u32, u32, Seq<u8>)) -> (u32, u32, Seq<u8>) {
    if needs_scaling(b.0, b.1) {
        let size = optimal_size(b.0 as int, b.1 as int);
        resized_rgba(b.2, b.0, b.1, size.0 as u32, size.1 as u32)
    } else {
        b
    }
}

/// Scales a bitmap for counting its colors (see `scaled_view`); scaling
/// never makes a side longer, and leaves at most
/// `MAX_WALLPAPER_EXTRACTION_AREA` pixels unless a side comes out as one
/// pixel.
pub fn scale_bitmap(bitmap: Bitmap) -> (r: Bitmap)
    ensures
        r@ == scaled_view(bitmap@),
        r@.0 <= bitmap@.0,
        r@.1 <= bitmap@.1,
        needs_scaling(bitmap@.0, bitmap@.1) ==> r@.0 * r@.1 <= MAX_WALLPAPER_EXTRACTION_AREA
            || r@.0 == 1 || r@.1 == 1,
        12544 < bitmap@.0 * bitmap@.1 <= i32::MAX ==> r@ == resized_rgba(
            bitmap@.2,
            bitmap@.0,
            bitmap@.1,
            optimal_size(bitmap@.0 as int, bitmap@.1 as int).0 as u32,
            optimal_size(bitmap@.0 as int, bitmap@.1 as int).1 as u32,
        ),
        12544 < bitmap@.0 * bitmap@.1 <= i32::MAX ==> r@.0 * r@.1 <= 12544 || r@.0 == 1 || r@.1
            == 1,
        bitmap@.0 * bitmap@.1 <= 12544 || bitmap@.0 * bitmap@.1 > i32::MAX ==> r@ == bitmap@,
{
    proof {
        use_type_invariant(&bitmap);
    }
    let width = bitmap.width;
    let height = bitmap.height;
    let area = width * height;
    if area <= MAX_WALLPAPER_EXTRACTION_AREA as u32 || area > i32::MAX as u32 {
        return bitmap;
    }
    proof {
        assert(width <= area && height <= area) by (nonlinear_arith)
            requires
                area == width * height,
                area > 0,
        ;
    }
    let (new_width, new_height) = calculate_optimal_size(width as i32, height as i32);
    let (w, h, pixels) = resize_rgba(
        &bitmap.pixels,
        width,
        height,
        new_width as u32,
        new_height as u32,
    );
    proof {
        assert(w * h <= width * height) by (nonlinear_arith)
            requires
                1 <= w <= width,
                1 <= h <= height,
        ;
        assert(w * h <= new_width * new_height) by (nonlinear_arith)
            requires
                1 <= w <= new_width,
                1 <= h <= new_height,
        ;
    }
    Bitmap { width: w, height: h, pixels }
}

/// Counts the colors of a bitmap's pixels, row by row.
pub fn count_colors(bitmap: &Bitmap) -> (p: ColorPopulation)
    ensures
        counts_colors(p.entries(), rgba_colors(bitmap@.2)),
        p.entries() == population(rgba_colors(bitmap@.2)),
        entry_keys(p.entries()).no_duplicates(),
        total_count(p.entries()) == bitmap@.0 * bitmap@.1,
        bitmap@.0 * bitmap@.1 <= u32::MAX,
        p.entries().len() > 0 ==> total_count(p.entries()) > 0,
{
    proof {
        use_type_invariant(bitmap);
    }
    let len = bitmap.pixels.len();
    let count = bitmap.width as usize * bitmap.height as usize;
    let ghost colors = rgba_colors(bitmap.pixels@);
    let mut population = ColorPopulation::new();
    let mut i: usize = 0;
    proof {
        assert(colors.take(0) =~= Seq::<u32>::empty());
        assert(entry_keys(population.entries()) =~= Seq::<u32>::empty());
    }
    while i < count
        invariant
            count == bitmap@.0 * bitmap@.1,
            count <= u32::MAX,
            bitmap.pixels@.len() == count * 4,
            len == count * 4,
            colors == rgba_colors(bitmap.pixels@),
            colors.len() == count,
            0 <= i <= count,
            counts_colors(population.entries(), colors.take(i as int)),
            total_count(population.entries()) == i,
        decreases count - i,
    {
        proof {
            assert(4 * i + 3 < count * 4);
        }
        let c = argb_to_u32(
            Argb::new(
                bitmap.pixels[4 * i + 3],
                bitmap.pixels[4 * i],
                bitmap.pixels[4 * i + 1],
                bitmap.pixels[4 * i + 2],
            ),
        );
        proof {
            let seen = colors.take(i as int);
            assert(c == colors[i as int]);
            lemma_first_occurrences(seen, c);
            let e = population.entries();
            if entry_keys(e).contains(c) {
                let j = entry_keys(e).index_of(c);
                assert(e[j].1 == crate::population::count_in(seen, c));
            }
            lemma_added_counts(e, seen, c);
            assert(colors.take(i + 1) =~= seen.push(c));
        }
        population.add(c);
        i = i + 1;
    }
    proof {
        assert(colors.take(count as int) =~= colors);
        lemma_population_is(population.entries(), colors);
        lemma_first_occurrences(colors, 0);
        assert(entry_keys(population.entries()).len() == population.entries().len());
        if count == 0 {
            assert(colors =~= Seq::<u32>::empty());
        }
    }
    population
}

} // verus!
