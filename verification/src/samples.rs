//! Pixels as they lie in a flat buffer of samples.

use vstd::prelude::*;
use crate::Pixel;

verus! {

/// How many samples a pixel takes in a buffer.
pub open spec fn samples_per_pixel(alpha: bool) -> int {
    if alpha {
        4
    } else {
        3
    }
}

/// The pixel that starts at sample `at`.  Without an alpha sample the pixel
/// is opaque.
pub open spec fn pixel_at(samples: Seq<u8>, at: int, alpha: bool) -> Pixel {
    Pixel {
        r: samples[at],
        g: samples[at + 1],
        b: samples[at + 2],
        a: if alpha {
            samples[at + 3]
        } else {
            255
        },
    }
}

/// The pixels of a buffer of samples, as many as are whole.
pub open spec fn pixels_of(samples: Seq<u8>, alpha: bool) -> Seq<Pixel> {
    Seq::new(
        (samples.len() / samples_per_pixel(alpha) as nat) as nat,
        |i: int| pixel_at(samples, i * samples_per_pixel(alpha), alpha),
    )
}

/// The sample of `p` at place `channel`: red, green, blue, alpha.
pub open spec fn sample(p: Pixel, channel: int) -> u8 {
    if channel == 0 {
        p.r
    } else if channel == 1 {
        p.g
    } else if channel == 2 {
        p.b
    } else {
        p.a
    }
}

/// The samples of one pixel.
pub open spec fn pixel_samples(p: Pixel, alpha: bool) -> Seq<u8> {
    if alpha {
        seq![p.r, p.g, p.b, p.a]
    } else {
        seq![p.r, p.g, p.b]
    }
}

/// The buffer of samples that holds `pixels`, with or without their alpha.
pub open spec fn samples_of(pixels: Seq<Pixel>, alpha: bool) -> Seq<u8> {
    Seq::new(
        (pixels.len() * samples_per_pixel(alpha)) as nat,
        |j: int| sample(pixels[j / samples_per_pixel(alpha)], j % samples_per_pixel(alpha)),
    )
}

/// The samples of a sequence followed by one more pixel.
pub proof fn lemma_samples_push(pixels: Seq<Pixel>, p: Pixel, alpha: bool)
    ensures
        samples_of(pixels.push(p), alpha) == samples_of(pixels, alpha) + pixel_samples(p, alpha),
{
    assert(samples_of(pixels.push(p), alpha) =~= samples_of(pixels, alpha) + pixel_samples(
        p,
        alpha,
    ));
}

/// The samples of a single pixel.
pub proof fn lemma_samples_one(p: Pixel, alpha: bool)
    ensures
        samples_of(seq![p], alpha) == pixel_samples(p, alpha),
{
    assert(samples_of(seq![p], alpha) =~= pixel_samples(p, alpha));
}

/// A buffer holds three or four samples for each pixel.
pub proof fn lemma_samples_len(pixels: Seq<Pixel>, alpha: bool)
    ensures
        samples_of(pixels, alpha).len() == pixels.len() * samples_per_pixel(alpha),
        samples_of(pixels, alpha).len() >= pixels.len(),
{
    if alpha {
        assert(samples_per_pixel(alpha) == 4);
    } else {
        assert(samples_per_pixel(alpha) == 3);
    }
}

/// The samples of two sequences, one after the other.
pub proof fn lemma_samples_concat(a: Seq<Pixel>, b: Seq<Pixel>, alpha: bool)
    ensures
        samples_of(a + b, alpha) == samples_of(a, alpha) + samples_of(b, alpha),
{
    assert(samples_of(a + b, alpha) =~= samples_of(a, alpha) + samples_of(b, alpha));
}

/// A buffer that holds whole pixels is the samples of its pixels.
pub proof fn lemma_samples_of_pixels(samples: Seq<u8>, alpha: bool)
    requires
        samples.len() % samples_per_pixel(alpha) as nat == 0,
    ensures
        samples_of(pixels_of(samples, alpha), alpha) == samples,
{
    let pixels = pixels_of(samples, alpha);
    let back = samples_of(pixels, alpha);
    if alpha {
        assert(samples_per_pixel(alpha) == 4);
        assert(pixels.len() == samples.len() / 4);
        assert forall|j: int| 0 <= j < samples.len() implies back[j] == samples[j] by {
            assert(pixels[j / 4] == pixel_at(samples, (j / 4) * 4, alpha));
        }
    } else {
        assert(samples_per_pixel(alpha) == 3);
        assert(pixels.len() == samples.len() / 3);
        assert forall|j: int| 0 <= j < samples.len() implies back[j] == samples[j] by {
            assert(pixels[j / 3] == pixel_at(samples, (j / 3) * 3, alpha));
        }
    }
    assert(back =~= samples);
}

} // verus!
