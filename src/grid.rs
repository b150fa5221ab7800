//! Decoded RGB pixel grids, and the two operations the `image` crate performs on
//! them: decoding encoded bytes and triangle-filter resampling.
use vstd::prelude::*;

verus! {

/// An RGB image: `height` rows of `width` pixels, three 8-bit samples per
/// pixel, row-major.
pub struct RgbGrid {
    pub width: u32,
    pub height: u32,
    pub samples: Vec<u8>,
}

/// Largest width or height the resampler handles. It computes pixel positions
/// in `f32`, which stops being exact above `2^24`; past that every weight of an
/// output pixel can be zero, and the resampler panics.
pub const MAX_RESAMPLE_DIMENSION: u32 = 0x100_0000;

/// Number of samples in a `width` x `height` RGB image.
pub open spec fn sample_count(width: u32, height: u32) -> int {
    width as int * height as int * 3
}

impl RgbGrid {
    /// The sample buffer holds exactly three samples per pixel.
    pub open spec fn wf(&self) -> bool {
        self.samples@.len() == sample_count(self.width, self.height)
    }

    /// The grid has at least one pixel.
    pub open spec fn non_empty(&self) -> bool {
        self.width > 0 && self.height > 0
    }

    /// Builds a grid from its dimensions and samples, if the sample count fits.
    pub fn from_samples(width: u32, height: u32, samples: Vec<u8>) -> (r: Option<RgbGrid>)
        ensures
            r is Some <==> samples@.len() == sample_count(width, height),
            r matches Some(g) ==> g.width == width && g.height == height && g.samples@ == samples@,
    {
        let n = samples.len() as u128;
        assert(width as int * height as int * 3 <= 0xffff_ffff * 0xffff_ffff * 3) by (nonlinear_arith);
        if n == width as u128 * height as u128 * 3 {
            Some(RgbGrid { width, height, samples })
        } else {
            None
        }
    }
}

#[verifier::external_type_specification]
#[verifier::external_body]
pub struct ExImageError(image::ImageError);

/// The samples that `image::imageops::resize` with `FilterType::Triangle`
/// produces from a `width` x `height` RGB image for a new size of
/// `new_width` x `new_height`.
pub uninterp spec fn triangle_resized(
    width: u32,
    height: u32,
    samples: Seq<u8>,
    new_width: u32,
    new_height: u32,
) -> Seq<u8>;

/// Relies on `image::load_from_memory` (format guessed from the bytes) and on
/// `DynamicImage::to_rgb8`, whose buffer `ImageBuffer::new` allocates with
/// exactly three samples per pixel. Which pixels come out is left open: the
/// JPEG decoder picks its colour conversion by the CPU it runs on, so the same
/// bytes may decode differently on different machines.
#[verifier::external_body]
pub(crate) fn decode_rgb(bytes: &Vec<u8>) -> (r: Result<RgbGrid, image::ImageError>)
    ensures
        r matches Ok(g) ==> g.wf(),
{
    match image::load_from_memory(bytes) {
        Ok(img) => {
            let rgb = img.to_rgb8();
            let (width, height) = rgb.dimensions();
            Ok(RgbGrid { width, height, samples: rgb.into_raw() })
        },
        Err(e) => Err(e),
    }
}

/// Relies on `image::imageops::resize` with `FilterType::Triangle`. It returns
/// a buffer made by `ImageBuffer::new(new_width, new_height)`, and a plain copy
/// of the pixels when the size does not change. It indexes pixels out of range
/// for an empty source, and its buffers (the intermediate one holds four `f32`
/// per pixel) panic when their size overflows. Its pixel positions are `f32`,
/// exact only up to `2^24`. Hence the requirements.
#[verifier::external_body]
pub(crate) fn resize_triangle(g: &RgbGrid, new_width: u32, new_height: u32) -> (r: RgbGrid)
    requires
        g.wf(),
        g.non_empty(),
        new_width > 0,
        new_height > 0,
        g.width <= MAX_RESAMPLE_DIMENSION,
        g.height <= MAX_RESAMPLE_DIMENSION,
        new_width <= MAX_RESAMPLE_DIMENSION,
        new_height <= MAX_RESAMPLE_DIMENSION,
        g.width as int * new_height as int * 16 <= isize::MAX,
        new_width as int * new_height as int * 16 <= isize::MAX,
    ensures
        r.wf(),
        r.width == new_width,
        r.height == new_height,
        r.samples@ == triangle_resized(g.width, g.height, g.samples@, new_width, new_height),
        new_width == g.width && new_height == g.height ==> r.samples@ == g.samples@,
{
    let src = image::RgbImage::from_raw(g.width, g.height, g.samples.clone()).unwrap();
    let out = image::imageops::resize(&src, new_width, new_height, image::imageops::FilterType::Triangle);
    RgbGrid { width: new_width, height: new_height, samples: out.into_raw() }
}

} // verus!
