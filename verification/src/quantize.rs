//! Reduction of an image to a small palette with the NeuQuant neural-net
//! quantizer of the `color_quant` crate.
use vstd::prelude::*;
use color_quant::NeuQuant;
use crate::raster::RgbaBuffer;

verus! {

/// The network type `color_quant::NeuQuant`, carried as an opaque value:
/// nothing is claimed of what it holds.
#[verifier::external_type_specification]
#[verifier::external_body]
pub struct ExNeuQuant(NeuQuant);

/// The RGBA palette (four bytes per entry) that NeuQuant learns with
/// sampling factor `samplefac` and `colors` entries from the RGBA bytes `samples`.
pub uninterp spec fn neuquant_palette(samplefac: i32, colors: usize, samples: Seq<u8>) -> Seq<u8>;

/// The palette entry that the NeuQuant network learnt from `samples`
/// (with `samplefac` and `colors`) picks for the RGBA pixel `pixel`.
pub uninterp spec fn neuquant_index(samplefac: i32, colors: usize, samples: Seq<u8>, pixel: Seq<u8>) -> usize;

/// A NeuQuant network together with the parameters and samples it was
/// trained on. Its fields are private and `train` is the only place that
/// makes one, so the network always matches the parameters kept beside it.
pub struct Quantizer<'a> {
    net: NeuQuant,
    samplefac: i32,
    colors: usize,
    samples: &'a [u8],
}

impl<'a> Quantizer<'a> {
    pub closed spec fn spec_samplefac(&self) -> i32 {
        self.samplefac
    }

    pub closed spec fn spec_colors(&self) -> usize {
        self.colors
    }

    pub closed spec fn spec_samples(&self) -> Seq<u8> {
        self.samples@
    }
}

/// Trains a network with `NeuQuant::new(samplefac, colors, samples)`.
/// Nothing is claimed of the network itself; the parameters and samples are
/// kept beside it so that `palette_of` and `palette_index` can name their results.
/// `NeuQuant::new` divides by `samplefac` and indexes the last of `colors`
/// entries, so both must be positive; its documentation asks for a
/// sampling factor of at most 30. Its learning step computes the starting
/// radius `colors / 8 * 64` in `i32`, which overflows for very large nets,
/// so `colors` is kept to at most 256 (the net sizes its learning is tuned for).
#[verifier::external_body]
fn train<'a>(samplefac: i32, colors: usize, samples: &'a [u8]) -> (q: Quantizer<'a>)
    requires
        1 <= samplefac <= 30,
        1 <= colors <= 256,
    ensures
        q.spec_samplefac() == samplefac,
        q.spec_colors() == colors,
        q.spec_samples() == samples@,
{
    Quantizer { net: NeuQuant::new(samplefac, colors, samples), samplefac, colors, samples }
}

/// `NeuQuant::color_map_rgba`: the learnt palette, four bytes for each of
/// the `colors` entries (the colour map holds one entry per network neuron).
#[verifier::external_body]
fn palette_of(q: &Quantizer) -> (p: Vec<u8>)
    ensures
        p@ == neuquant_palette(q.spec_samplefac(), q.spec_colors(), q.spec_samples()),
        p@.len() == q.spec_colors() * 4,
{
    q.net.color_map_rgba()
}

/// `NeuQuant::index_of`: the palette entry chosen for one RGBA pixel; the
/// search only visits entries below `colors`, so the index is below it.
#[verifier::external_body]
fn palette_index(q: &Quantizer, pixel: &[u8; 4]) -> (i: usize)
    ensures
        i == neuquant_index(q.spec_samplefac(), q.spec_colors(), q.spec_samples(), pixel@),
        i < q.spec_colors(),
{
    q.net.index_of(&pixel[..])
}

/// Sampling factor used for training: one pixel in ten.
pub const SAMPLE_FACTOR: i32 = 10;

/// Palette size used for a requested number of colours: the number asked
/// for, at most 256.
pub open spec fn palette_size(n_colors: u32) -> usize {
    if n_colors > 256 { 256 } else { n_colors as usize }
}

/// The fewest pixels an image needs to be quantized: the requested number
/// of colours, between 2 and 256.
pub open spec fn training_floor(n_colors: u32) -> usize {
    if n_colors < 2 { 2 } else if n_colors > 256 { 256 } else { n_colors as usize }
}

/// The image is quantized at all: a palette was asked for and the image has
/// enough pixels to learn it from.
pub open spec fn quantization_applies(img: RgbaBuffer, n_colors: u32) -> bool {
    n_colors != 0 && img.data@.len() >= training_floor(n_colors) * 4
}

/// Byte `j` of the quantized image: the palette colour that the network
/// trained on all of `samples` picks for the pixel holding byte `j`.
pub open spec fn quantized_byte(colors: usize, samples: Seq<u8>, j: int) -> u8 {
    let p = j / 4;
    let idx = neuquant_index(SAMPLE_FACTOR, colors, samples, samples.subrange(p * 4, p * 4 + 4));
    neuquant_palette(SAMPLE_FACTOR, colors, samples)[idx * 4 + j % 4]
}

/// The bytes of `img` once reduced to `n_colors` colours.
pub open spec fn working_bytes(img: RgbaBuffer, n_colors: u32) -> Seq<u8> {
    if quantization_applies(img, n_colors) {
        Seq::new(img.data@.len(), |j: int| quantized_byte(palette_size(n_colors), img.data@, j))
    } else {
        img.data@
    }
}

/// The palette entry that quantization picks for pixel `p` of `img`.
pub open spec fn palette_entry_of(img: RgbaBuffer, n_colors: u32, p: int) -> usize {
    neuquant_index(SAMPLE_FACTOR, palette_size(n_colors), img.data@, img.data@.subrange(p * 4, p * 4 + 4))
}

/// Entry `k` of the palette learnt from `img`, as four RGBA bytes.
pub open spec fn palette_colour(img: RgbaBuffer, n_colors: u32, k: usize) -> Seq<u8> {
    neuquant_palette(SAMPLE_FACTOR, palette_size(n_colors), img.data@).subrange(k * 4, k * 4 + 4)
}

/// Reduces `img` to a palette of at most `n_colors` colours (and at most
/// 256): each pixel becomes the palette colour NeuQuant picks for it. The
/// image comes back unchanged when `n_colors` is zero or the image has fewer
/// pixels than `n_colors` (counting at least 2 and at most 256).
pub fn quantize_image(img: &RgbaBuffer, n_colors: u32) -> (out: RgbaBuffer)
    requires
        img.wf(),
    ensures
        out.wf(),
        out.width == img.width,
        out.height == img.height,
        out.data@ == working_bytes(*img, n_colors),
        quantization_applies(*img, n_colors) ==> forall|p: int| 0 <= p < img.data@.len() / 4 ==>
            #[trigger] palette_entry_of(*img, n_colors, p) < palette_size(n_colors),
        palette_size(n_colors) <= n_colors,
        quantization_applies(*img, n_colors) ==> forall|p: int| 0 <= p < img.data@.len() / 4 ==>
            #[trigger] out.data@.subrange(p * 4, p * 4 + 4) == palette_colour(*img, n_colors, palette_entry_of(*img, n_colors, p)),
        quantization_applies(*img, n_colors) ==> forall|p: int| 0 <= p < img.data@.len() / 4 ==>
            #[trigger] out.data@.subrange(p * 4, p * 4 + 4) == neuquant_palette(SAMPLE_FACTOR, palette_size(n_colors), img.data@).subrange(
                neuquant_index(SAMPLE_FACTOR, palette_size(n_colors), img.data@, img.data@.subrange(p * 4, p * 4 + 4)) * 4,
                neuquant_index(SAMPLE_FACTOR, palette_size(n_colors), img.data@, img.data@.subrange(p * 4, p * 4 + 4)) * 4 + 4,
            ),
{
    if n_colors == 0 {
        return img.clone_buffer();
    }
    let floor: usize = if n_colors < 2 { 2 } else if n_colors > 256 { 256 } else { n_colors as usize };
    let colors: usize = if n_colors > 256 { 256 } else { n_colors as usize };
    let n = img.data.len();
    if n < floor * 4 {
        return img.clone_buffer();
    }
    let q = train(SAMPLE_FACTOR, colors, img.data.as_slice());
    let palette = palette_of(&q);
    let ghost samples = img.data@;
    let ghost target = Seq::new(n as nat, |j: int| quantized_byte(colors, samples, j));
    let mut out: Vec<u8> = Vec::with_capacity(n);
    let mut p: usize = 0;
    let n_px = n / 4;
    assert(n == n_px * 4);
    while p < n_px
        invariant
            n == samples.len(),
            n == n_px * 4,
            samples == img.data@,
            q.spec_samplefac() == SAMPLE_FACTOR,
            q.spec_colors() == colors,
            q.spec_samples() == samples,
            palette@ == neuquant_palette(SAMPLE_FACTOR, colors, samples),
            palette@.len() == colors * 4,
            colors <= 256,
            target == Seq::new(n as nat, |j: int| quantized_byte(colors, samples, j)),
            p <= n_px,
            out@.len() == p * 4,
            forall|j: int| 0 <= j < out@.len() ==> #[trigger] out@[j] == target[j],
            forall|r: int| 0 <= r < p ==>
                #[trigger] neuquant_index(SAMPLE_FACTOR, colors, samples, samples.subrange(r * 4, r * 4 + 4)) < colors,
        decreases n_px - p,
    {
        let o = p * 4;
        let px: [u8; 4] = [img.data[o], img.data[o + 1], img.data[o + 2], img.data[o + 3]];
        assert(px@ =~= samples.subrange(o as int, o + 4));
        let idx = palette_index(&q, &px);
        let ghost before = out@;
        out.push(palette[idx * 4]);
        out.push(palette[idx * 4 + 1]);
        out.push(palette[idx * 4 + 2]);
        out.push(palette[idx * 4 + 3]);
        proof {
            vstd::arithmetic::div_mod::lemma_fundamental_div_mod_converse(o as int, 4, p as int, 0);
            vstd::arithmetic::div_mod::lemma_fundamental_div_mod_converse(o + 1, 4, p as int, 1);
            vstd::arithmetic::div_mod::lemma_fundamental_div_mod_converse(o + 2, 4, p as int, 2);
            vstd::arithmetic::div_mod::lemma_fundamental_div_mod_converse(o + 3, 4, p as int, 3);
            assert forall|j: int| 0 <= j < out@.len() implies #[trigger] out@[j] == target[j] by {
                if j >= before.len() {
                    let c = j - o;
                    assert(0 <= c < 4);
                    assert(j / 4 == p && j % 4 == c);
                    assert(j < n);
                    assert(samples.subrange((j / 4) * 4, (j / 4) * 4 + 4) == px@);
                    assert(out@[j] == palette@[idx * 4 + c]);
                }
            }
        }
        p = p + 1;
    }
    assert(out@ =~= target);
    proof {
        assert(colors == palette_size(n_colors));
        assert forall|p: int| 0 <= p < n_px implies
            #[trigger] out@.subrange(p * 4, p * 4 + 4) == palette_colour(*img, n_colors, palette_entry_of(*img, n_colors, p)) by {
            let k = palette_entry_of(*img, n_colors, p);
            assert(k < colors);
            vstd::arithmetic::div_mod::lemma_fundamental_div_mod_converse(p * 4, 4, p, 0);
            vstd::arithmetic::div_mod::lemma_fundamental_div_mod_converse(p * 4 + 1, 4, p, 1);
            vstd::arithmetic::div_mod::lemma_fundamental_div_mod_converse(p * 4 + 2, 4, p, 2);
            vstd::arithmetic::div_mod::lemma_fundamental_div_mod_converse(p * 4 + 3, 4, p, 3);
            assert(out@.subrange(p * 4, p * 4 + 4) =~= palette_colour(*img, n_colors, k));
        }
    }
    RgbaBuffer { width: img.width, height: img.height, data: out }
}

/// What quantization does to pixel `p`: when an image is quantized at all,
/// its four RGBA bytes become the palette entry that the network, trained
/// on the whole image with as many entries as colours asked for (at most
/// 256), picks for that pixel's own four bytes in RGBA order; an image for
/// which no colours are asked keeps its bytes.
pub proof fn lemma_quantized_pixel(img: RgbaBuffer, n_colors: u32, p: int)
    requires
        img.wf(),
        0 <= p < img.data@.len() / 4,
    ensures
        n_colors == 0 ==> working_bytes(img, n_colors) == img.data@,
        n_colors != 0 && img.data@.len() >= 4 * (if n_colors < 2 { 2 } else if n_colors > 256 { 256 } else { n_colors as int }) ==> ({
            let k = if n_colors > 256 { 256usize } else { n_colors as usize };
            let idx = neuquant_index(10, k, img.data@, img.data@.subrange(p * 4, p * 4 + 4));
            let pal = neuquant_palette(10, k, img.data@);
            let w = working_bytes(img, n_colors);
            &&& w[p * 4] == pal[idx * 4]
            &&& w[p * 4 + 1] == pal[idx * 4 + 1]
            &&& w[p * 4 + 2] == pal[idx * 4 + 2]
            &&& w[p * 4 + 3] == pal[idx * 4 + 3]
        }),
{
    vstd::arithmetic::div_mod::lemma_fundamental_div_mod_converse(p * 4, 4, p, 0);
    vstd::arithmetic::div_mod::lemma_fundamental_div_mod_converse(p * 4 + 1, 4, p, 1);
    vstd::arithmetic::div_mod::lemma_fundamental_div_mod_converse(p * 4 + 2, 4, p, 2);
    vstd::arithmetic::div_mod::lemma_fundamental_div_mod_converse(p * 4 + 3, 4, p, 3);
}

} // verus!
