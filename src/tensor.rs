//! Conversion of an RGB grid into the model's input tensor: per-sample
//! normalization into encoded `float32` values, channel-interleaved, followed by
//! the transpose into channel-planar order.
use vstd::prelude::*;
use vstd::arithmetic::div_mod::lemma_fundamental_div_mod_converse;
use crate::error::PipelineError;
use crate::grid::{
    decode_rgb, resize_triangle, sample_count, triangle_resized, RgbGrid, MAX_RESAMPLE_DIMENSION,
};

verus! {

/// Channels per pixel (red, green, blue).
pub const CHANNELS: usize = 3;
/// Distinct values of an 8-bit sample.
pub const SAMPLE_LEVELS: usize = 256;
/// Bytes of one encoded `float32` tensor element.
pub const ELEMENT_BYTES: usize = 4;
/// Width in pixels of the model's input.
pub const MODEL_INPUT_WIDTH: u32 = 224;
/// Height in pixels of the model's input.
pub const MODEL_INPUT_HEIGHT: u32 = 224;
/// Bytes of the model's input tensor: `3 * 224 * 224` elements of four bytes.
pub const MODEL_INPUT_BYTES: usize = 602112;
/// Bytes of a complete sample table: one element per channel and sample value.
pub const SAMPLE_TABLE_LEN: usize = 3072;

/// The normalized value of every 8-bit sample, per channel, already encoded as
/// the four tensor bytes (native-endian `float32`). The caller supplies the
/// values: for the model they are `(v / 255 - mean_c) / std_c` for channel `c`
/// and sample value `v`. The library checks only that there is one entry per
/// channel and value, and places the entries as they are.
pub struct SampleTable {
    pub encodings: Vec<u8>,
}

/// Byte `j` of the encoded element for sample value `value` in channel `channel`.
pub open spec fn encoded_byte(encodings: Seq<u8>, channel: int, value: int, j: int) -> u8 {
    encodings[(channel * 256 + value) * 4 + j]
}

/// The normalized samples in channel-interleaved order: element `k` encodes
/// sample `k`, whose channel is `k % 3`.
pub open spec fn interleaved_of(samples: Seq<u8>, encodings: Seq<u8>) -> Seq<u8> {
    Seq::new(
        samples.len() * 4,
        |p: int| encoded_byte(encodings, (p / 4) % 3, samples[p / 4] as int, p % 4),
    )
}

/// Channel-planar order of an interleaved buffer of `n` pixels (`12 * n` bytes):
/// element `c * n + i` of the result is element `i * 3 + c` of the input.
pub open spec fn planar_of(interleaved: Seq<u8>) -> Seq<u8> {
    let n = (interleaved.len() / 12) as int;
    Seq::new(
        interleaved.len(),
        |p: int| interleaved[(((p / 4) % n) * 3 + (p / 4) / n) * 4 + p % 4],
    )
}

impl SampleTable {
    /// One encoded element for each channel and sample value.
    pub open spec fn wf(&self) -> bool {
        self.encodings@.len() == SAMPLE_TABLE_LEN
    }

    /// Builds a table from its encoded elements, ordered by channel, then
    /// sample value; `None` unless there are exactly `3 * 256` of them.
    pub fn from_encodings(encodings: Vec<u8>) -> (r: Option<SampleTable>)
        ensures
            r is Some <==> encodings@.len() == SAMPLE_TABLE_LEN,
            r matches Some(t) ==> t.wf() && t.encodings@ == encodings@,
    {
        if encodings.len() == SAMPLE_TABLE_LEN {
            Some(SampleTable { encodings })
        } else {
            None
        }
    }
}

proof fn lemma_element_index(k: int, j: int)
    requires
        0 <= k,
        0 <= j < 4,
    ensures
        (k * 4 + j) / 4 == k,
        (k * 4 + j) % 4 == j,
{
    lemma_fundamental_div_mod_converse(k * 4 + j, 4, k, j);
}

/// Normalizes each sample through the table, in channel-interleaved order:
/// bytes `4 * k .. 4 * k + 4` of the result encode sample `k` of channel `k % 3`.
pub fn normalize_interleaved(samples: &Vec<u8>, table: &SampleTable) -> (r: Vec<u8>)
    requires
        table.wf(),
        samples@.len() * 4 <= usize::MAX,
    ensures
        r@ == interleaved_of(samples@, table.encodings@),
        r@.len() == samples@.len() * 4,
        forall|k: int, j: int|
            0 <= k < samples@.len() && 0 <= j < 4 ==> #[trigger] r@[k * 4 + j] == encoded_byte(
                table.encodings@,
                k % 3,
                samples@[k] as int,
                j,
            ),
{
    let ghost spec_r = interleaved_of(samples@, table.encodings@);
    let mut r: Vec<u8> = Vec::new();
    let mut k: usize = 0;
    while k < samples.len()
        invariant
            table.wf(),
            spec_r == interleaved_of(samples@, table.encodings@),
            samples@.len() * 4 <= usize::MAX,
            k <= samples@.len(),
            r@.len() == k * 4,
            forall|p: int| 0 <= p < k * 4 ==> r@[p] == spec_r[p],
        decreases samples@.len() - k,
    {
        let c: usize = k % CHANNELS;
        let v: usize = samples[k] as usize;
        let base: usize = (c * SAMPLE_LEVELS + v) * ELEMENT_BYTES;
        proof {
            lemma_element_index(k as int, 0);
            lemma_element_index(k as int, 1);
            lemma_element_index(k as int, 2);
            lemma_element_index(k as int, 3);
        }
        r.push(table.encodings[base]);
        r.push(table.encodings[base + 1]);
        r.push(table.encodings[base + 2]);
        r.push(table.encodings[base + 3]);
        k = k + 1;
    }
    assert(r@ =~= spec_r);
    assert forall|k: int, j: int| 0 <= k < samples@.len() && 0 <= j < 4 implies #[trigger] r@[k
        * 4 + j] == encoded_byte(table.encodings@, k % 3, samples@[k] as int, j) by {
        lemma_element_index(k, j);
    }
    r
}

proof fn lemma_planar_index(n: int, c: int, i: int)
    requires
        n > 0,
        0 <= c,
        0 <= i < n,
    ensures
        (c * n + i) / n == c,
        (c * n + i) % n == i,
{
    lemma_fundamental_div_mod_converse(c * n + i, n, c, i);
}

/// Element `c * n + i` of the planar order is element `i * 3 + c` of the
/// interleaved order, byte for byte.
proof fn lemma_planar_of_index(interleaved: Seq<u8>, c: int, i: int, j: int)
    requires
        interleaved.len() % 12 == 0,
        0 <= c < 3,
        0 <= i < interleaved.len() / 12,
        0 <= j < 4,
    ensures
        planar_of(interleaved)[(c * (interleaved.len() / 12) + i) * 4 + j] == interleaved[(i * 3
            + c) * 4 + j],
{
    let n = (interleaved.len() / 12) as int;
    let q = c * n + i;
    lemma_element_index(q, j);
    lemma_planar_index(n, c, i);
    assert(q * 4 + j < interleaved.len()) by (nonlinear_arith)
        requires
            0 <= c < 3,
            0 <= i < n,
            0 <= j < 4,
            q == c * n + i,
            interleaved.len() == n * 12,
    ;
}

/// Transposes channel-interleaved elements (pixel by pixel: red, green, blue)
/// into channel-planar order (all red, then all green, then all blue), moving
/// each four-byte element whole.
pub fn planar_from_interleaved(interleaved: &Vec<u8>) -> (r: Vec<u8>)
    requires
        interleaved@.len() % 12 == 0,
    ensures
        r@ == planar_of(interleaved@),
        r@.len() == interleaved@.len(),
        forall|c: int, i: int, j: int|
            0 <= c < 3 && 0 <= i < interleaved@.len() / 12 && 0 <= j < 4 ==> #[trigger] r@[(c * (
            interleaved@.len() / 12) + i) * 4 + j] == interleaved@[(i * 3 + c) * 4 + j],
{
    let ghost spec_r = planar_of(interleaved@);
    let len = interleaved.len();
    let n: usize = len / 12;
    let mut r: Vec<u8> = Vec::new();
    let mut p: usize = 0;
    while p < len
        invariant
            len == interleaved@.len(),
            len % 12 == 0,
            n == len / 12,
            spec_r == planar_of(interleaved@),
            p <= len,
            r@.len() == p,
            forall|k: int| 0 <= k < p ==> r@[k] == spec_r[k],
        decreases len - p,
    {
        let q: usize = p / ELEMENT_BYTES;
        let c: usize = q / n;
        let i: usize = q % n;
        let j: usize = p % ELEMENT_BYTES;
        assert(c < 3 && (i * 3 + c) * 4 + j < len) by (nonlinear_arith)
            requires
                p < len,
                len == n * 12,
                q == p / 4,
                c == q / n,
                i == q % n,
                j == p % 4,
        ;
        r.push(interleaved[(i * CHANNELS + c) * ELEMENT_BYTES + j]);
        p = p + 1;
    }
    assert(r@ =~= spec_r);
    assert forall|c: int, i: int, j: int|
        0 <= c < 3 && 0 <= i < interleaved@.len() / 12 && 0 <= j < 4 implies #[trigger] r@[(c * (
        interleaved@.len() / 12) + i) * 4 + j] == interleaved@[(i * 3 + c) * 4 + j] by {
        lemma_planar_of_index(interleaved@, c, i, j);
    }
    r
}

/// Whether a source image `source_width` pixels wide can be resampled to
/// `height` rows on this machine: the resampler's intermediate buffer holds
/// sixteen bytes per pixel.
pub open spec fn fits_resampling(source_width: u32, height: u32) -> bool {
    source_width as int * height as int * 16 <= isize::MAX
}

/// The tensor for a `source_width` x `source_height` RGB grid: resampled with
/// the triangle filter to `width` x `height`, normalized through the table and
/// laid out channel-planar. A grid without pixels is refused as undecodable;
/// one the resampler cannot handle, as too large.
pub open spec fn grid_tensor_of(
    source_width: u32,
    source_height: u32,
    samples: Seq<u8>,
    height: u32,
    width: u32,
    encodings: Seq<u8>,
) -> Result<Seq<u8>, PipelineError> {
    if source_width == 0 || source_height == 0 {
        Err(PipelineError::Decode)
    } else if source_width > MAX_RESAMPLE_DIMENSION || source_height > MAX_RESAMPLE_DIMENSION
        || !fits_resampling(source_width, height) {
        Err(PipelineError::TooLarge)
    } else {
        Ok(
            planar_of(
                interleaved_of(
                    triangle_resized(source_width, source_height, samples, width, height),
                    encodings,
                ),
            ),
        )
    }
}

/// Turns a decoded RGB grid into a `width` x `height` input tensor: resample
/// with the triangle filter, normalize every sample through the table,
/// transpose to channel-planar order. The result has `3 * width * height`
/// elements of four bytes.
pub fn grid_to_tensor(grid: &RgbGrid, height: u32, width: u32, table: &SampleTable) -> (r: Result<
    Vec<u8>,
    PipelineError,
>)
    requires
        grid.wf(),
        table.wf(),
        0 < width <= MAX_RESAMPLE_DIMENSION,
        0 < height <= MAX_RESAMPLE_DIMENSION,
        width as int * height as int * 16 <= isize::MAX,
    ensures
        match r {
            Ok(t) => grid_tensor_of(grid.width, grid.height, grid.samples@, height, width, table.encodings@)
                == Ok::<Seq<u8>, PipelineError>(t@),
            Err(e) => grid_tensor_of(grid.width, grid.height, grid.samples@, height, width, table.encodings@)
                == Err::<Seq<u8>, PipelineError>(e),
        },
        r matches Ok(t) ==> t@.len() == 3 * width * height * 4,
{
    if grid.width == 0 || grid.height == 0 {
        return Err(PipelineError::Decode);
    }
    if grid.width > MAX_RESAMPLE_DIMENSION || grid.height > MAX_RESAMPLE_DIMENSION {
        return Err(PipelineError::TooLarge);
    }
    assert(grid.width as int * height as int * 16 <= 0xffff_ffff * 0xffff_ffff * 16)
        by (nonlinear_arith);
    if grid.width as u128 * height as u128 * 16 > isize::MAX as u128 {
        return Err(PipelineError::TooLarge);
    }
    let resized = resize_triangle(grid, width, height);
    assert(width as int * height as int * 3 * 4 == 3 * width * height * 4) by (nonlinear_arith);
    let interleaved = normalize_interleaved(&resized.samples, table);
    let planar = planar_from_interleaved(&interleaved);
    Ok(planar)
}

/// Some grid of the given size and samples, with at least one pixel, gives
/// `result` as its tensor.
pub open spec fn from_some_grid(
    height: u32,
    width: u32,
    encodings: Seq<u8>,
    result: Result<Seq<u8>, PipelineError>,
) -> bool {
    exists|source_width: u32, source_height: u32, samples: Seq<u8>|
        source_width > 0 && source_height > 0 && samples.len() == sample_count(
            source_width,
            source_height,
        ) && #[trigger] grid_tensor_of(source_width, source_height, samples, height, width, encodings)
            == result
}

/// Turns encoded image bytes into a `width` x `height` input tensor: decode to
/// RGB with the `image` crate, then `grid_to_tensor`. Bytes that do not decode,
/// or decode to an image without pixels, give `Decode`; a tensor or another
/// error comes from the decoded grid.
pub fn image_to_tensor(image_bytes: &Vec<u8>, height: u32, width: u32, table: &SampleTable) -> (r:
    Result<Vec<u8>, PipelineError>)
    requires
        table.wf(),
        0 < width <= MAX_RESAMPLE_DIMENSION,
        0 < height <= MAX_RESAMPLE_DIMENSION,
        width as int * height as int * 16 <= isize::MAX,
    ensures
        match r {
            Ok(t) => from_some_grid(height, width, table.encodings@, Ok::<Seq<u8>, PipelineError>(t@)),
            Err(e) => e == PipelineError::Decode || from_some_grid(
                height,
                width,
                table.encodings@,
                Err::<Seq<u8>, PipelineError>(e),
            ),
        },
        r matches Ok(t) ==> t@.len() == 3 * width * height * 4,
{
    let decoded = match decode_rgb(image_bytes) {
        Ok(g) => g,
        Err(_) => {
            return Err(PipelineError::Decode);
        },
    };
    if decoded.width == 0 || decoded.height == 0 {
        return Err(PipelineError::Decode);
    }
    let r = grid_to_tensor(&decoded, height, width, table);
    proof {
        let witness = grid_tensor_of(
            decoded.width,
            decoded.height,
            decoded.samples@,
            height,
            width,
            table.encodings@,
        );
        assert(r matches Ok(t) ==> witness == Ok::<Seq<u8>, PipelineError>(t@));
        assert(r matches Err(e) ==> witness == Err::<Seq<u8>, PipelineError>(e));
    }
    r
}

/// The input tensor of the model, `[1, 3, 224, 224]` `float32` elements, for
/// encoded image bytes.
pub fn model_input_tensor(image_bytes: &Vec<u8>, table: &SampleTable) -> (r: Result<
    Vec<u8>,
    PipelineError,
>)
    requires
        table.wf(),
    ensures
        match r {
            Ok(t) => from_some_grid(
                MODEL_INPUT_HEIGHT,
                MODEL_INPUT_WIDTH,
                table.encodings@,
                Ok::<Seq<u8>, PipelineError>(t@),
            ),
            Err(e) => e == PipelineError::Decode || from_some_grid(
                MODEL_INPUT_HEIGHT,
                MODEL_INPUT_WIDTH,
                table.encodings@,
                Err::<Seq<u8>, PipelineError>(e),
            ),
        },
        r matches Ok(t) ==> t@.len() == MODEL_INPUT_BYTES,
{
    image_to_tensor(image_bytes, MODEL_INPUT_HEIGHT, MODEL_INPUT_WIDTH, table)
}

/// The input tensor of the model for a decoded grid. Every grid with at least
/// one pixel, no side over `MAX_RESAMPLE_DIMENSION` and a resampling buffer
/// that fits in memory gives a tensor, and every tensor is `3 * 224 * 224 * 4`
/// bytes long, whatever the grid's size and aspect ratio.
pub fn model_grid_tensor(grid: &RgbGrid, table: &SampleTable) -> (r: Result<Vec<u8>, PipelineError>)
    requires
        grid.wf(),
        table.wf(),
    ensures
        match r {
            Ok(t) => grid_tensor_of(
                grid.width,
                grid.height,
                grid.samples@,
                MODEL_INPUT_HEIGHT,
                MODEL_INPUT_WIDTH,
                table.encodings@,
            ) == Ok::<Seq<u8>, PipelineError>(t@),
            Err(e) => grid_tensor_of(
                grid.width,
                grid.height,
                grid.samples@,
                MODEL_INPUT_HEIGHT,
                MODEL_INPUT_WIDTH,
                table.encodings@,
            ) == Err::<Seq<u8>, PipelineError>(e),
        },
        r is Ok <==> grid.non_empty() && grid.width <= MAX_RESAMPLE_DIMENSION && grid.height
            <= MAX_RESAMPLE_DIMENSION && fits_resampling(grid.width, MODEL_INPUT_HEIGHT),
        r matches Ok(t) ==> t@.len() == MODEL_INPUT_BYTES,
{
    grid_to_tensor(grid, MODEL_INPUT_HEIGHT, MODEL_INPUT_WIDTH, table)
}

/// Byte layout of a tensor: for a grid of `n` pixels, element `c * n + i` is
/// the normalized sample of channel `c` of pixel `i`, encoded through the table.
pub proof fn lemma_tensor_layout(samples: Seq<u8>, encodings: Seq<u8>, c: int, i: int, j: int)
    requires
        samples.len() % 3 == 0,
        0 <= c < 3,
        0 <= i < samples.len() / 3,
        0 <= j < 4,
    ensures
        planar_of(interleaved_of(samples, encodings))[(c * (samples.len() / 3) + i) * 4 + j]
            == encoded_byte(encodings, c, samples[i * 3 + c] as int, j),
{
    let n = samples.len() / 3;
    let interleaved = interleaved_of(samples, encodings);
    assert(interleaved.len() == n * 12);
    lemma_fundamental_div_mod_converse(interleaved.len() as int, 12, n as int, 0);
    lemma_planar_of_index(interleaved, c, i, j);
    let k = i * 3 + c;
    lemma_element_index(k, j);
    lemma_fundamental_div_mod_converse(k, 3, i, c);
    assert(k * 4 + j < interleaved.len()) by (nonlinear_arith)
        requires
            0 <= c < 3,
            0 <= i < n,
            0 <= j < 4,
            k == i * 3 + c,
            interleaved.len() == n * 12,
    ;
}

} // verus!
