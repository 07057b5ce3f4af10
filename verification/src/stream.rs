//! The format, stated over sequences of bytes and pixels.

use vstd::prelude::*;
use crate::{Channels, Colorspace, ImgMetadata, Operation, Pixel};

verus! {

/// The value that eight-bit wrapping arithmetic leaves of `x`.
pub open spec fn wrap8(x: int) -> u8 {
    (x % 256) as u8
}

/// The number in `-128 ..= 127` that differs from `x` by a multiple of 256.
pub open spec fn signed8(x: int) -> int {
    (x + 128) % 256 - 128
}

/// The wrapped difference between a sample and the sample before it, read as
/// a signed eight-bit number: going from 255 to 0 is a step of 1.
pub open spec fn channel_delta(current: u8, previous: u8) -> int {
    signed8(current - previous)
}

/// The slot of the running index that a pixel belongs to.
pub open spec fn index_position(p: Pixel) -> int {
    (p.r * 3 + p.g * 5 + p.b * 7 + p.a * 11) % 64
}

/// The pixel that both sides assume before the first pixel of an image.
pub open spec fn start_pixel() -> Pixel {
    Pixel { r: 0, g: 0, b: 0, a: 255 }
}

/// The second pixel that a decoder knows before it has read anything.
pub open spec fn zero_pixel() -> Pixel {
    Pixel { r: 0, g: 0, b: 0, a: 0 }
}

/// A running index with nothing in it.
pub open spec fn empty_index() -> Seq<Option<Pixel>> {
    Seq::new(64, |i: int| None)
}

/// The running index that a decoder starts from.
pub open spec fn seeded_index() -> Seq<Option<Pixel>> {
    empty_index().update(index_position(start_pixel()), Some(start_pixel())).update(
        index_position(zero_pixel()),
        Some(zero_pixel()),
    )
}

/// What a pixel depends on besides its own chunk: the pixel before it and
/// the running index.
pub struct CodecState {
    pub previous: Pixel,
    pub index: Seq<Option<Pixel>>,
}

impl CodecState {
    /// The index has its 64 slots.
    pub open spec fn well_formed(self) -> bool {
        self.index.len() == 64
    }

    /// The state after `p` has been written or read.
    pub open spec fn record(self, p: Pixel) -> CodecState {
        CodecState { previous: p, index: self.index.update(index_position(p), Some(p)) }
    }
}

/// The state in which a decoder starts.
pub open spec fn decoder_start() -> CodecState {
    CodecState { previous: start_pixel(), index: seeded_index() }
}

/// One chunk of a body, with what it carries.  The differences of DIFF and
/// LUMA are the signed values, before any bias is added.
pub enum Chunk {
    Rgb { r: u8, g: u8, b: u8 },
    Rgba { r: u8, g: u8, b: u8, a: u8 },
    Index { slot: int },
    Diff { dr: int, dg: int, db: int },
    Luma { dg: int, dr_dg: int, db_dg: int },
    Run { length: int },
}

impl Chunk {
    /// Every field fits the bits that the format gives it.
    pub open spec fn well_formed(self) -> bool {
        match self {
            Chunk::Rgb { .. } => true,
            Chunk::Rgba { .. } => true,
            Chunk::Index { slot } => 0 <= slot < 64,
            Chunk::Diff { dr, dg, db } => -2 <= dr <= 1 && -2 <= dg <= 1 && -2 <= db <= 1,
            Chunk::Luma { dg, dr_dg, db_dg } => -32 <= dg <= 31 && -8 <= dr_dg <= 7 && -8 <= db_dg
                <= 7,
            Chunk::Run { length } => 1 <= length <= 62,
        }
    }

    /// The kind of the chunk.
    pub open spec fn operation(self) -> Operation {
        match self {
            Chunk::Rgb { .. } => Operation::QoiOpRgb,
            Chunk::Rgba { .. } => Operation::QoiOpRgba,
            Chunk::Index { .. } => Operation::QoiOpIndex,
            Chunk::Diff { .. } => Operation::QoiOpDiff,
            Chunk::Luma { .. } => Operation::QoiOpLuma,
            Chunk::Run { .. } => Operation::QoiOpRun,
        }
    }

    /// The bytes that stand for the chunk in a body.
    pub open spec fn bytes(self) -> Seq<u8> {
        match self {
            Chunk::Rgb { r, g, b } => seq![0xFEu8, r, g, b],
            Chunk::Rgba { r, g, b, a } => seq![0xFFu8, r, g, b, a],
            Chunk::Index { slot } => seq![slot as u8],
            Chunk::Diff { dr, dg, db } => seq![(64 + (dr + 2) * 16 + (dg + 2) * 4 + (db + 2)) as u8],
            Chunk::Luma { dg, dr_dg, db_dg } => seq![
                (128 + (dg + 32)) as u8,
                ((dr_dg + 8) * 16 + (db_dg + 8)) as u8,
            ],
            Chunk::Run { length } => seq![(192 + (length - 1)) as u8],
        }
    }

    /// How many bytes the chunk takes.
    pub open spec fn size(self) -> nat {
        match self {
            Chunk::Rgb { .. } => 4,
            Chunk::Rgba { .. } => 5,
            Chunk::Luma { .. } => 2,
            _ => 1,
        }
    }

    /// How many pixels the chunk stands for.
    pub open spec fn count(self) -> nat {
        match self {
            Chunk::Run { length } => length as nat,
            _ => 1,
        }
    }

    /// The pixel that the chunk stands for in state `st`; none where an INDEX
    /// chunk names a slot that nothing was stored in.
    pub open spec fn pixel(self, st: CodecState) -> Option<Pixel> {
        let prev = st.previous;
        match self {
            Chunk::Rgb { r, g, b } => Some(Pixel { r, g, b, a: prev.a }),
            Chunk::Rgba { r, g, b, a } => Some(Pixel { r, g, b, a }),
            Chunk::Index { slot } => st.index[slot],
            Chunk::Diff { dr, dg, db } => Some(
                Pixel {
                    r: wrap8(prev.r + dr),
                    g: wrap8(prev.g + dg),
                    b: wrap8(prev.b + db),
                    a: prev.a,
                },
            ),
            Chunk::Luma { dg, dr_dg, db_dg } => Some(
                Pixel {
                    r: wrap8(prev.r + dr_dg + dg),
                    g: wrap8(prev.g + dg),
                    b: wrap8(prev.b + db_dg + dg),
                    a: prev.a,
                },
            ),
            Chunk::Run { .. } => Some(prev),
        }
    }
}

/// The kind of chunk that a tag byte opens.  The two whole-byte tags are
/// looked for first: read by their leading bits they would be runs.
pub open spec fn operation_of_tag(tag: u8) -> Operation {
    if tag == 0xFE {
        Operation::QoiOpRgb
    } else if tag == 0xFF {
        Operation::QoiOpRgba
    } else if tag / 64 == 0 {
        Operation::QoiOpIndex
    } else if tag / 64 == 1 {
        Operation::QoiOpDiff
    } else if tag / 64 == 2 {
        Operation::QoiOpLuma
    } else {
        Operation::QoiOpRun
    }
}

/// The chunk that `bytes` begins with; none where `bytes` is empty or ends
/// before the chunk does.
pub open spec fn first_chunk(bytes: Seq<u8>) -> Option<Chunk> {
    if bytes.len() == 0 {
        None
    } else {
        let tag = bytes[0];
        match operation_of_tag(tag) {
            Operation::QoiOpRgb => if bytes.len() >= 4 {
                Some(Chunk::Rgb { r: bytes[1], g: bytes[2], b: bytes[3] })
            } else {
                None
            },
            Operation::QoiOpRgba => if bytes.len() >= 5 {
                Some(Chunk::Rgba { r: bytes[1], g: bytes[2], b: bytes[3], a: bytes[4] })
            } else {
                None
            },
            Operation::QoiOpIndex => Some(Chunk::Index { slot: (tag % 64) as int }),
            Operation::QoiOpDiff => Some(
                Chunk::Diff { dr: (tag / 16) % 4 - 2, dg: (tag / 4) % 4 - 2, db: tag % 4 - 2 },
            ),
            Operation::QoiOpLuma => if bytes.len() >= 2 {
                Some(
                    Chunk::Luma {
                        dg: tag % 64 - 32,
                        dr_dg: bytes[1] / 16 - 8,
                        db_dg: bytes[1] % 16 - 8,
                    },
                )
            } else {
                None
            },
            Operation::QoiOpRun => Some(Chunk::Run { length: tag % 64 + 1 }),
        }
    }
}

/// The bytes of a sequence of chunks, one after the other.
pub open spec fn serialize(chunks: Seq<Chunk>) -> Seq<u8>
    decreases chunks.len(),
{
    if chunks.len() == 0 {
        Seq::empty()
    } else {
        serialize(chunks.drop_last()) + chunks.last().bytes()
    }
}

/// `n` times the pixel `p`.
pub open spec fn repeated(p: Pixel, n: nat) -> Seq<Pixel> {
    Seq::new(n, |i: int| p)
}

/// What reading a body gives.
pub struct Decoded {
    /// The pixels of the chunks that could be read, in order.
    pub pixels: Seq<Pixel>,
    /// How many bytes those chunks take.
    pub consumed: nat,
    /// Whether every byte belonged to a chunk that could be read.
    pub complete: bool,
}

/// Reads `bytes` chunk by chunk from state `st`, up to the end or to the
/// first chunk that is cut short or names an empty slot of the index.
#[verifier::opaque]
pub open spec fn decode_stream(st: CodecState, bytes: Seq<u8>) -> Decoded
    decreases bytes.len(),
{
    if bytes.len() == 0 {
        Decoded { pixels: Seq::empty(), consumed: 0, complete: true }
    } else {
        match first_chunk(bytes) {
            None => Decoded { pixels: Seq::empty(), consumed: 0, complete: false },
            Some(chunk) => match chunk.pixel(st) {
                None => Decoded { pixels: Seq::empty(), consumed: 0, complete: false },
                Some(p) => {
                    let rest = decode_stream(st.record(p), bytes.skip(chunk.size() as int));
                    Decoded {
                        pixels: repeated(p, chunk.count()) + rest.pixels,
                        consumed: chunk.size() + rest.consumed,
                        complete: rest.complete,
                    }
                },
            },
        }
    }
}

/// Reading goes on behind a chunk that could be read.
pub proof fn lemma_decode_step(state: CodecState, bytes: Seq<u8>, chunk: Chunk, p: Pixel)
    requires
        first_chunk(bytes) == Some(chunk),
        chunk.pixel(state) == Some(p),
    ensures
        ({
            let whole = decode_stream(state, bytes);
            let rest = decode_stream(state.record(p), bytes.skip(chunk.size() as int));
            &&& whole.pixels == repeated(p, chunk.count()) + rest.pixels
            &&& whole.consumed == chunk.size() + rest.consumed
            &&& whole.complete == rest.complete
        }),
{
    reveal(decode_stream);
}

/// Nothing is read from nothing.
pub proof fn lemma_decode_nothing(state: CodecState, bytes: Seq<u8>)
    requires
        bytes.len() == 0,
    ensures
        decode_stream(state, bytes) == (Decoded {
            pixels: Seq::empty(),
            consumed: 0,
            complete: true,
        }),
{
    reveal(decode_stream);
}

/// Reading stops at a chunk that is cut short or names an empty slot.
pub proof fn lemma_decode_stop(state: CodecState, bytes: Seq<u8>)
    requires
        bytes.len() > 0,
        first_chunk(bytes) matches Some(chunk) ==> chunk.pixel(state) is None,
    ensures
        decode_stream(state, bytes) == (Decoded {
            pixels: Seq::empty(),
            consumed: 0,
            complete: false,
        }),
{
    reveal(decode_stream);
}

/// The four bytes of `value`, most significant first.
pub open spec fn be32(value: u32) -> Seq<u8> {
    seq![
        (value / 0x100_0000) as u8,
        (value / 0x1_0000 % 256) as u8,
        (value / 0x100 % 256) as u8,
        (value % 256) as u8,
    ]
}

/// The number that the first four bytes of `bytes` spell, most significant first.
pub open spec fn be32_value(bytes: Seq<u8>) -> int {
    bytes[0] * 0x100_0000 + bytes[1] * 0x1_0000 + bytes[2] * 0x100 + bytes[3]
}

/// The four bytes that every stream begins with: `qoif` in ASCII.
pub open spec fn magic() -> Seq<u8> {
    seq![0x71u8, 0x6Fu8, 0x69u8, 0x66u8]
}

/// The eight bytes that every stream ends with.
pub open spec fn end_marker() -> Seq<u8> {
    seq![0u8, 0u8, 0u8, 0u8, 0u8, 0u8, 0u8, 1u8]
}

/// The header byte for a channel count.
pub open spec fn channels_byte(channels: Channels) -> u8 {
    match channels {
        Channels::RGB => 3,
        Channels::RGBA => 4,
    }
}

/// The header byte for a colour space.
pub open spec fn colorspace_byte(colorspace: Colorspace) -> u8 {
    match colorspace {
        Colorspace::SrgbLinearAlpha => 0,
        Colorspace::AllLinearAlpha => 1,
    }
}

/// The 14 bytes of the header that records `metadata`.
pub open spec fn header_bytes(metadata: ImgMetadata) -> Seq<u8> {
    magic() + be32(metadata.width) + be32(metadata.height) + seq![
        channels_byte(metadata.channels),
        colorspace_byte(metadata.colorspace),
    ]
}

/// What the header at the start of `bytes` records; none where `bytes` does
/// not begin with a header.
pub open spec fn parsed_header(bytes: Seq<u8>) -> Option<ImgMetadata> {
    if bytes.len() < 14 || bytes.take(4) != magic() || !(bytes[12] == 3 || bytes[12] == 4) || !(
    bytes[13] == 0 || bytes[13] == 1) {
        None
    } else {
        Some(
            ImgMetadata {
                width: be32_value(bytes.skip(4)) as u32,
                height: be32_value(bytes.skip(8)) as u32,
                channels: if bytes[12] == 3 {
                    Channels::RGB
                } else {
                    Channels::RGBA
                },
                colorspace: if bytes[13] == 0 {
                    Colorspace::SrgbLinearAlpha
                } else {
                    Colorspace::AllLinearAlpha
                },
            },
        )
    }
}

/// `bytes` ends with the end marker.
pub open spec fn has_end_marker(bytes: Seq<u8>) -> bool {
    bytes.len() >= 8 && bytes.skip(bytes.len() - 8) == end_marker()
}

} // verus!
