//! A lossless encoder and decoder for the QOI ("Quite OK Image") format.
//!
//! A stream is a 14-byte header, a body of variable-length chunks and an
//! 8-byte end marker.  The encoder turns each pixel into the cheapest chunk
//! that the previous pixel and a 64-slot running index of recent pixels allow;
//! the decoder replays the chunks against the same state.
//!
//! The `stream` module describes the format over sequences of bytes and
//! pixels, and `samples` how pixels lie in a flat buffer.  `encoder` and
//! `decoder` hold the executable code, each function with a contract that
//! says exactly what it computes.  `laws` proves what holds of every stream
//! that the encoder writes, and `roundtrip` that decoding gives back what was
//! encoded.

use vstd::prelude::*;

pub mod stream;
pub mod samples;
pub mod encoder;
pub mod decoder;
pub mod laws;
pub mod roundtrip;

verus! {

/// How many samples each pixel of an image carries.
#[derive(Clone, Copy, Debug, PartialEq, Eq, Structural)]
pub enum Channels {
    RGB,
    RGBA,
}

/// The colour space that an image declares; it never changes a byte of the body.
#[derive(Clone, Copy, Debug, PartialEq, Eq, Structural)]
pub enum Colorspace {
    SrgbLinearAlpha,
    AllLinearAlpha,
}

/// What the header of a stream records about its image.
#[derive(Clone, Copy, Debug, PartialEq, Eq, Structural)]
pub struct ImgMetadata {
    pub width: u32,
    pub height: u32,
    pub channels: Channels,
    pub colorspace: Colorspace,
}

/// The six kinds of chunk.
#[derive(Clone, Copy, Debug, PartialEq, Eq, Structural)]
pub enum Operation {
    QoiOpRgb,
    QoiOpRgba,
    QoiOpIndex,
    QoiOpDiff,
    QoiOpLuma,
    QoiOpRun,
}

/// Why a buffer was refused.
#[derive(Clone, Copy, Debug, PartialEq, Eq, Structural)]
pub enum QoiError {
    /// The sample buffer does not hold a whole number of pixels.
    Length,
    /// The first 14 bytes are not a header.
    Header,
    /// The body or the end marker is malformed, or the body does not hold
    /// as many pixels as the header announces.
    Stream,
}

/// The whole tag byte of an RGB chunk.
pub const QOI_OP_RGB: u8 = 0b11111110;

/// The whole tag byte of an RGBA chunk.
pub const QOI_OP_RGBA: u8 = 0b11111111;

/// The two leading bits of an INDEX chunk.
pub const QOI_OP_INDEX: u8 = 0b00;

/// The two leading bits of a DIFF chunk.
pub const QOI_OP_DIFF: u8 = 0b01;

/// The two leading bits of a LUMA chunk.
pub const QOI_OP_LUMA: u8 = 0b10;

/// The two leading bits of a RUN chunk.
pub const QOI_OP_RUN: u8 = 0b11;

/// One pixel: red, green, blue and alpha, eight bits each.
#[derive(Clone, Copy, Debug, PartialEq, Eq, Structural)]
pub struct Pixel {
    pub r: u8,
    pub g: u8,
    pub b: u8,
    pub a: u8,
}

impl Channels {
    /// Whether pixels carry an alpha sample.
    pub open spec fn has_alpha(self) -> bool {
        self == Channels::RGBA
    }
}

/// The whole stream for an image: header, body and end marker.
pub open spec fn encoded_image(samples: Seq<u8>, metadata: ImgMetadata) -> Seq<u8> {
    stream::header_bytes(metadata) + encoder::encoded_body(samples, metadata.channels.has_alpha())
        + stream::end_marker()
}

/// Encodes the samples in `rgb_pixels`, three to a pixel or four as
/// `metadata` says, into a whole stream.  Width and height go into the
/// header as they are given.  A buffer that does not hold whole pixels is
/// refused.
pub fn encode(rgb_pixels: &Vec<u8>, metadata: &ImgMetadata) -> (result: Result<Vec<u8>, QoiError>)
    ensures
        match result {
            Ok(raw_bytes) => {
                &&& rgb_pixels@.len() % samples::samples_per_pixel(
                    metadata.channels.has_alpha(),
                ) as nat == 0
                &&& raw_bytes@ == encoded_image(rgb_pixels@, *metadata)
            },
            Err(e) => {
                &&& e == QoiError::Length
                &&& rgb_pixels@.len() % samples::samples_per_pixel(
                    metadata.channels.has_alpha(),
                ) as nat != 0
            },
        },
{
    let mut raw_bytes: Vec<u8> = Vec::new();

    encoder::add_header(&mut raw_bytes, metadata);

    let alpha_included = match metadata.channels {
        Channels::RGB => false,
        Channels::RGBA => true,
    };
    match encoder::add_chunks(&mut raw_bytes, rgb_pixels, alpha_included) {
        Ok(_) => {},
        Err(e) => { return Err(e); },
    }

    encoder::add_end_marker(&mut raw_bytes);

    Ok(raw_bytes)
}

/// Decodes a whole stream into the metadata of its header and the samples of
/// its pixels, or says why the stream is refused.
pub fn decode(raw_file_bytes: &Vec<u8>) -> (result: Result<(ImgMetadata, Vec<u8>), QoiError>)
    ensures
        match result {
            Ok((metadata, samples)) => decoder::decoded_image(raw_file_bytes@) == Ok::<
                (ImgMetadata, Seq<u8>),
                QoiError,
            >((metadata, samples@)),
            Err(e) => decoder::decoded_image(raw_file_bytes@) == Err::<
                (ImgMetadata, Seq<u8>),
                QoiError,
            >(e),
        },
{
    decoder::decode(raw_file_bytes)
}

} // verus!
