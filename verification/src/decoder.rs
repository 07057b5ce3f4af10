//! From a stream back to pixels: the code that reads chunks, and what a whole
//! file decodes to.

use vstd::prelude::*;
use crate::{
    Channels, Colorspace, ImgMetadata, Operation, Pixel, QoiError, QOI_OP_RGB, QOI_OP_RGBA,
};
use crate::encoder::calculate_index;
use crate::samples::{
    lemma_samples_concat, lemma_samples_len, lemma_samples_one, lemma_samples_push, pixel_samples,
    samples_of,
};
use crate::stream::{
    be32_value, decode_stream, decoder_start, end_marker, first_chunk, has_end_marker,
    lemma_decode_nothing, lemma_decode_step, lemma_decode_stop, magic, operation_of_tag,
    parsed_header, repeated, seeded_index, wrap8, Chunk, CodecState,
};

verus! {

/// A place in a buffer of bytes, from which bytes are taken one after the
/// other.  Its view is what has not been taken yet.
pub struct ByteCursor<'a> {
    bytes: &'a [u8],
    position: usize,
}

impl<'a> View for ByteCursor<'a> {
    type V = Seq<u8>;

    closed spec fn view(&self) -> Seq<u8> {
        self.bytes@.skip(self.position as int)
    }
}

impl<'a> ByteCursor<'a> {
    #[verifier::type_invariant]
    spec fn in_bounds(self) -> bool {
        self.position <= self.bytes@.len()
    }

    /// A cursor at the start of `bytes`.
    pub fn new(bytes: &'a [u8]) -> (cursor: Self)
        ensures
            cursor@ == bytes@,
    {
        ByteCursor { bytes, position: 0 }
    }

    /// How many bytes are left.
    pub fn len(&self) -> (left: usize)
        ensures
            left == self@.len(),
    {
        proof {
            use_type_invariant(self);
        }
        self.bytes.len() - self.position
    }

    /// Takes the next byte, if one is left.
    pub fn next(&mut self) -> (byte: Option<u8>)
        ensures
            match byte {
                Some(b) => {
                    &&& old(self)@.len() > 0
                    &&& b == old(self)@[0]
                    &&& final(self)@ == old(self)@.skip(1)
                },
                None => old(self)@.len() == 0 && final(self)@ == old(self)@,
            },
    {
        proof {
            use_type_invariant(&*self);
        }
        if self.position < self.bytes.len() {
            let byte = self.bytes[self.position];
            self.position = self.position + 1;
            assert(self.bytes@.skip(self.position as int) =~= self.bytes@.skip(
                self.position - 1,
            ).skip(1));
            Some(byte)
        } else {
            None
        }
    }
}

/// What a whole file decodes to: the metadata of its header and the samples
/// of its pixels, or the reason why it is refused.  The end marker is looked
/// for first, then the header, then the body, which must hold exactly as
/// many pixels as the header announces.
pub open spec fn decoded_image(file: Seq<u8>) -> Result<(ImgMetadata, Seq<u8>), QoiError> {
    if !has_end_marker(file) {
        Err(QoiError::Stream)
    } else {
        let framed = file.take(file.len() - 8);
        match parsed_header(framed) {
            None => Err(QoiError::Header),
            Some(metadata) => {
                let body = decode_stream(decoder_start(), framed.skip(14));
                if body.complete && body.pixels.len() == metadata.width * metadata.height {
                    Ok((metadata, samples_of(body.pixels, metadata.channels.has_alpha())))
                } else {
                    Err(QoiError::Stream)
                }
            },
        }
    }
}

/// The pixel that a LUMA chunk with tag `tag` and second byte `byte2` leads
/// to from `previous`.
pub open spec fn luma_pixel(previous: Pixel, tag: u8, byte2: u8) -> Pixel {
    let dg = tag % 64 - 32;
    Pixel {
        r: wrap8(previous.r + (byte2 / 16 - 8) + dg),
        g: wrap8(previous.g + dg),
        b: wrap8(previous.b + (byte2 % 16 - 8) + dg),
        a: previous.a,
    }
}

/// Tells the kind of chunk that the tag byte `tag` opens.
pub fn parse_operation(tag: &u8) -> (operation: Operation)
    ensures
        operation == operation_of_tag(*tag),
{
    let tag_2 = *tag >> 6;
    assert(tag_2 == *tag / 64) by (bit_vector)
        requires
            tag_2 == *tag >> 6,
    ;
    if *tag == QOI_OP_RGB {
        Operation::QoiOpRgb
    } else if *tag == QOI_OP_RGBA {
        Operation::QoiOpRgba
    } else if tag_2 == 0 {
        Operation::QoiOpIndex
    } else if tag_2 == 1 {
        Operation::QoiOpDiff
    } else if tag_2 == 2 {
        Operation::QoiOpLuma
    } else {
        Operation::QoiOpRun
    }
}

/// Checks that `vec` ends with the end marker.
pub fn verify_ending(vec: &Vec<u8>) -> (result: Result<(), QoiError>)
    ensures
        result is Ok <==> has_end_marker(vec@),
        result is Err ==> result == Err::<(), QoiError>(QoiError::Stream),
{
    let len = vec.len();
    if len < 8 {
        return Err(QoiError::Stream);
    }
    let ghost tail = vec@.skip(len - 8);
    for i in 0..7usize
        invariant
            len == vec.len(),
            len >= 8,
            tail == vec@.skip(len - 8),
            forall|k: int| 0 <= k < i ==> tail[k] == 0,
    {
        if vec[len - 8 + i] != 0 {
            assert(tail[i as int] != 0);
            return Err(QoiError::Stream);
        }
    }
    if vec[len - 1] != 1 {
        assert(tail[7] != 1);
        return Err(QoiError::Stream);
    }
    assert(tail =~= end_marker());
    Ok(())
}

/// Takes a byte that is known to be there.
fn take(iter: &mut ByteCursor) -> (byte: u8)
    requires
        old(iter)@.len() > 0,
    ensures
        byte == old(iter)@[0],
        final(iter)@ == old(iter)@.skip(1),
{
    match iter.next() {
        Some(byte) => byte,
        None => 0,
    }
}

/// Appends the samples of `pixel` to `bytes`, the alpha only if asked for.
fn push_pixel(bytes: &mut Vec<u8>, pixel: &Pixel, include_alpha: bool)
    ensures
        final(bytes)@ == old(bytes)@ + pixel_samples(*pixel, include_alpha),
{
    bytes.push(pixel.r);
    bytes.push(pixel.g);
    bytes.push(pixel.b);
    if include_alpha {
        bytes.push(pixel.a);
    }
    assert(bytes@ =~= old(bytes)@ + pixel_samples(*pixel, include_alpha));
}

/// Reads the three samples of an RGB chunk from `iter`, which stands behind
/// the tag, and appends the pixel to `bytes`; the pixel keeps `alpha`.
/// Where fewer than three bytes are left, nothing is read or written.
pub fn write_op_rgb(
    bytes: &mut Vec<u8>,
    iter: &mut ByteCursor,
    alpha: &u8,
    include_alpha: bool,
) -> (result: Result<Pixel, QoiError>)
    ensures
        match result {
            Ok(pixel) => {
                &&& old(iter)@.len() >= 3
                &&& pixel == (Pixel {
                    r: old(iter)@[0],
                    g: old(iter)@[1],
                    b: old(iter)@[2],
                    a: *alpha,
                })
                &&& final(iter)@ == old(iter)@.skip(3)
                &&& final(bytes)@ == old(bytes)@ + pixel_samples(pixel, include_alpha)
            },
            Err(e) => {
                &&& e == QoiError::Stream
                &&& old(iter)@.len() < 3
                &&& final(iter)@ == old(iter)@
                &&& final(bytes)@ == old(bytes)@
            },
        },
{
    if iter.len() < 3 {
        return Err(QoiError::Stream);
    }
    let r = take(iter);
    let g = take(iter);
    let b = take(iter);
    let pixel = Pixel { r, g, b, a: *alpha };
    push_pixel(bytes, &pixel, include_alpha);
    assert(iter@ =~= old(iter)@.skip(3));
    Ok(pixel)
}

/// Reads the four samples of an RGBA chunk from `iter`, which stands behind
/// the tag, and appends the pixel to `bytes`.  Where fewer than four bytes
/// are left, nothing is read or written.
pub fn write_op_rgba(bytes: &mut Vec<u8>, iter: &mut ByteCursor, include_alpha: bool) -> (result:
    Result<Pixel, QoiError>)
    ensures
        match result {
            Ok(pixel) => {
                &&& old(iter)@.len() >= 4
                &&& pixel == (Pixel {
                    r: old(iter)@[0],
                    g: old(iter)@[1],
                    b: old(iter)@[2],
                    a: old(iter)@[3],
                })
                &&& final(iter)@ == old(iter)@.skip(4)
                &&& final(bytes)@ == old(bytes)@ + pixel_samples(pixel, include_alpha)
            },
            Err(e) => {
                &&& e == QoiError::Stream
                &&& old(iter)@.len() < 4
                &&& final(iter)@ == old(iter)@
                &&& final(bytes)@ == old(bytes)@
            },
        },
{
    if iter.len() < 4 {
        return Err(QoiError::Stream);
    }
    let r = take(iter);
    let g = take(iter);
    let b = take(iter);
    let a = take(iter);
    let pixel = Pixel { r, g, b, a };
    push_pixel(bytes, &pixel, include_alpha);
    assert(iter@ =~= old(iter)@.skip(4));
    Ok(pixel)
}

/// Looks up the pixel in the slot that the six low bits of `tag` name, and
/// appends it to `bytes`.  Where the slot is empty, nothing is written.
pub fn write_op_index(
    bytes: &mut Vec<u8>,
    tag: &u8,
    index: &[Option<Pixel>],
    include_alpha: bool,
) -> (result: Result<Pixel, QoiError>)
    requires
        index@.len() == 64,
    ensures
        match result {
            Ok(pixel) => {
                &&& index@[(*tag % 64) as int] == Some(pixel)
                &&& final(bytes)@ == old(bytes)@ + pixel_samples(pixel, include_alpha)
            },
            Err(e) => {
                &&& e == QoiError::Stream
                &&& index@[(*tag % 64) as int] is None
                &&& final(bytes)@ == old(bytes)@
            },
        },
{
    let slot = *tag & 0b00_111111;
    assert(slot == *tag % 64) by (bit_vector)
        requires
            slot == *tag & 0b00_111111,
    ;
    match index[slot as usize] {
        Some(pixel) => {
            push_pixel(bytes, &pixel, include_alpha);
            Ok(pixel)
        },
        None => Err(QoiError::Stream),
    }
}

/// The three two-bit fields of a DIFF tag.
proof fn lemma_diff_fields(tag: u8)
    ensures
        (0b_00_11_00_00u8 & tag) >> 4 == tag / 16 % 4,
        (0b_00_00_11_00u8 & tag) >> 2 == tag / 4 % 4,
        0b_00_00_00_11u8 & tag == tag % 4,
{
    assert((0b_00_11_00_00u8 & tag) >> 4 == tag / 16 % 4) by (bit_vector);
    assert((0b_00_00_11_00u8 & tag) >> 2 == tag / 4 % 4) by (bit_vector);
    assert(0b_00_00_00_11u8 & tag == tag % 4) by (bit_vector);
}

/// A sample of a DIFF chunk, as the decoder computes it in eight bits.
proof fn lemma_diff_sample(sample: u8, field: u8)
    requires
        field < 4,
    ensures
        u8::wrapping_sub(u8::wrapping_add(sample, field), 2) == wrap8(sample + (field - 2)),
{
}

/// Applies the three differences of the DIFF tag `tag` to `prev_pixel` and
/// appends the pixel to `bytes`.
pub fn write_op_diff(bytes: &mut Vec<u8>, tag: &u8, prev_pixel: &Pixel, include_alpha: bool) -> (pixel:
    Pixel)
    ensures
        pixel == (Pixel {
            r: wrap8(prev_pixel.r + (*tag / 16 % 4 - 2)),
            g: wrap8(prev_pixel.g + (*tag / 4 % 4 - 2)),
            b: wrap8(prev_pixel.b + (*tag % 4 - 2)),
            a: prev_pixel.a,
        }),
        final(bytes)@ == old(bytes)@ + pixel_samples(pixel, include_alpha),
{
    let mut current_pixel = *prev_pixel;

    let dr = (0b_00_11_00_00 & *tag) >> 4;
    let dg = (0b_00_00_11_00 & *tag) >> 2;
    let db = 0b_00_00_00_11 & *tag;
    proof {
        lemma_diff_fields(*tag);
    }

    let r = u8::wrapping_add(prev_pixel.r, dr);
    let g = u8::wrapping_add(prev_pixel.g, dg);
    let b = u8::wrapping_add(prev_pixel.b, db);

    current_pixel.r = u8::wrapping_sub(r, 2);
    current_pixel.g = u8::wrapping_sub(g, 2);
    current_pixel.b = u8::wrapping_sub(b, 2);
    proof {
        lemma_diff_sample(prev_pixel.r, dr);
        lemma_diff_sample(prev_pixel.g, dg);
        lemma_diff_sample(prev_pixel.b, db);
    }

    push_pixel(bytes, &current_pixel, include_alpha);

    current_pixel
}

/// The fields of the two bytes of a LUMA chunk.
proof fn lemma_luma_fields(tag: u8, byte2: u8)
    ensures
        tag & 0b00_111111u8 == tag % 64,
        (byte2 & 0b_1111_0000u8) >> 4 == byte2 / 16,
        byte2 & 0b_0000_1111u8 == byte2 % 16,
{
    assert(tag & 0b00_111111u8 == tag % 64) by (bit_vector);
    assert((byte2 & 0b_1111_0000u8) >> 4 == byte2 / 16) by (bit_vector);
    assert(byte2 & 0b_0000_1111u8 == byte2 % 16) by (bit_vector);
}

/// Green of a LUMA chunk, as the decoder computes it in eight bits.
proof fn lemma_luma_green(sample: u8, green_field: u8)
    ensures
        u8::wrapping_add(sample, u8::wrapping_sub(green_field, 32)) == wrap8(
            sample + (green_field - 32),
        ),
{
}

/// Red or blue of a LUMA chunk, as the decoder computes it in eight bits.
proof fn lemma_luma_sample(sample: u8, field: u8, green_field: u8)
    requires
        field < 16,
        green_field < 64,
    ensures
        u8::wrapping_add(
            sample,
            u8::wrapping_add(u8::wrapping_sub(field, 8), u8::wrapping_sub(green_field, 32)),
        ) == wrap8(sample + (field - 8) + (green_field - 32)),
{
}

/// Reads the second byte of a LUMA chunk from `iter`, which stands behind the
/// tag `tag`, applies the differences to `prev_pixel` and appends the pixel
/// to `bytes`.  Where no byte is left, nothing is read or written.
pub fn write_op_luma(
    bytes: &mut Vec<u8>,
    tag: &u8,
    iter: &mut ByteCursor,
    prev_pixel: &Pixel,
    include_alpha: bool,
) -> (result: Result<Pixel, QoiError>)
    ensures
        match result {
            Ok(pixel) => {
                &&& old(iter)@.len() >= 1
                &&& pixel == luma_pixel(*prev_pixel, *tag, old(iter)@[0])
                &&& final(iter)@ == old(iter)@.skip(1)
                &&& final(bytes)@ == old(bytes)@ + pixel_samples(pixel, include_alpha)
            },
            Err(e) => {
                &&& e == QoiError::Stream
                &&& old(iter)@.len() == 0
                &&& final(iter)@ == old(iter)@
                &&& final(bytes)@ == old(bytes)@
            },
        },
{
    let dg = *tag & 0b00_111111;

    let byte2 = match iter.next() {
        Some(byte) => byte,
        None => { return Err(QoiError::Stream); },
    };
    let dr_dg = (byte2 & 0b_1111_0000) >> 4;
    let db_dg = byte2 & 0b_0000_1111;
    proof {
        lemma_luma_fields(*tag, byte2);
    }

    let dg = u8::wrapping_sub(dg, 32);
    let dr_dg = u8::wrapping_sub(dr_dg, 8);
    let db_dg = u8::wrapping_sub(db_dg, 8);

    let dr = u8::wrapping_add(dr_dg, dg);
    let db = u8::wrapping_add(db_dg, dg);

    let r = u8::wrapping_add(prev_pixel.r, dr);
    let g = u8::wrapping_add(prev_pixel.g, dg);
    let b = u8::wrapping_add(prev_pixel.b, db);
    let a = prev_pixel.a;

    proof {
        lemma_luma_sample(prev_pixel.r, byte2 / 16, *tag % 64);
        lemma_luma_sample(prev_pixel.b, byte2 % 16, *tag % 64);
        lemma_luma_green(prev_pixel.g, *tag % 64);
    }
    let pixel = Pixel { r, g, b, a };
    push_pixel(bytes, &pixel, include_alpha);
    Ok(pixel)
}

/// Appends the run that the six low bits of `tag` give, which is one longer
/// than their value, of `prev_pixel` to `bytes`, and returns its length.
pub fn write_op_run(bytes: &mut Vec<u8>, tag: &u8, prev_pixel: &Pixel, include_alpha: bool) -> (run_len:
    usize)
    ensures
        run_len == *tag % 64 + 1,
        final(bytes)@ == old(bytes)@ + samples_of(
            repeated(*prev_pixel, run_len as nat),
            include_alpha,
        ),
{
    let low = *tag & 0b_00_111111;
    assert(low == *tag % 64) by (bit_vector)
        requires
            low == *tag & 0b_00_111111,
    ;
    let run_len = low + 1;

    assert(samples_of(repeated(*prev_pixel, 0), include_alpha) =~= Seq::<u8>::empty());
    for n in 0..run_len
        invariant
            bytes@ == old(bytes)@ + samples_of(repeated(*prev_pixel, n as nat), include_alpha),
    {
        push_pixel(bytes, prev_pixel, include_alpha);
        proof {
            lemma_samples_push(repeated(*prev_pixel, n as nat), *prev_pixel, include_alpha);
            assert(repeated(*prev_pixel, n as nat).push(*prev_pixel) =~= repeated(
                *prev_pixel,
                (n + 1) as nat,
            ));
        }
    }

    run_len as usize
}

/// Reads four bytes as a number, most significant first.
pub fn parse_u32(iter: &mut ByteCursor) -> (value: u32)
    requires
        old(iter)@.len() >= 4,
    ensures
        value == be32_value(old(iter)@),
        final(iter)@ == old(iter)@.skip(4),
{
    let b0 = take(iter);
    let b1 = take(iter);
    let b2 = take(iter);
    let b3 = take(iter);
    let mut n: u32 = b0 as u32;
    n = n * 256;
    n += b1 as u32;
    n = n * 256;
    n += b2 as u32;
    n = n * 256;
    n += b3 as u32;
    assert(iter@ =~= old(iter)@.skip(4));
    n
}

/// Reads the header that `iter` stands at.  The 14 bytes of a header are
/// taken whenever that many are left, whether they make a header or not.
pub fn parse_metadata(iter: &mut ByteCursor) -> (result: Result<ImgMetadata, QoiError>)
    ensures
        match result {
            Ok(metadata) => parsed_header(old(iter)@) == Some(metadata),
            Err(e) => e == QoiError::Header && parsed_header(old(iter)@) is None,
        },
        final(iter)@ == if old(iter)@.len() >= 14 {
            old(iter)@.skip(14)
        } else {
            old(iter)@
        },
{
    if iter.len() < 14 {
        return Err(QoiError::Header);
    }
    let m0 = take(iter);
    let m1 = take(iter);
    let m2 = take(iter);
    let m3 = take(iter);
    assert(iter@ =~= old(iter)@.skip(4));

    let width: u32 = parse_u32(iter);
    assert(iter@ =~= old(iter)@.skip(8));
    let height: u32 = parse_u32(iter);
    assert(iter@ =~= old(iter)@.skip(12));

    let channels_byte = take(iter);
    let colorspace_byte = take(iter);
    assert(iter@ =~= old(iter)@.skip(14));

    if !(m0 == 0x71 && m1 == 0x6F && m2 == 0x69 && m3 == 0x66) {
        assert(old(iter)@.take(4) != magic()) by {
            let found = old(iter)@.take(4);
            assert(found[0] == m0 && found[1] == m1 && found[2] == m2 && found[3] == m3);
        }
        return Err(QoiError::Header);
    }
    assert(old(iter)@.take(4) =~= magic());

    let channels = if channels_byte == 3 {
        Channels::RGB
    } else if channels_byte == 4 {
        Channels::RGBA
    } else {
        return Err(QoiError::Header);
    };
    let colorspace = if colorspace_byte == 0 {
        Colorspace::SrgbLinearAlpha
    } else if colorspace_byte == 1 {
        Colorspace::AllLinearAlpha
    } else {
        return Err(QoiError::Header);
    };

    Ok(ImgMetadata { width, height, channels, colorspace })
}

/// Reads chunks from `iter` until nothing is left, appends the samples of
/// their pixels to `bytes`, and returns how many pixels there were.  At the
/// first chunk that is cut short or names an empty slot of the index it stops:
/// `bytes` then holds the pixels before that chunk, and `iter` stands behind
/// its tag.
pub fn parse_chunks(iter: &mut ByteCursor, bytes: &mut Vec<u8>, include_alpha: bool) -> (result:
    Result<usize, QoiError>)
    ensures
        final(bytes)@ == old(bytes)@ + samples_of(
            decode_stream(decoder_start(), old(iter)@).pixels,
            include_alpha,
        ),
        match result {
            Ok(pixels_seen) => {
                &&& decode_stream(decoder_start(), old(iter)@).complete
                &&& pixels_seen == decode_stream(decoder_start(), old(iter)@).pixels.len()
                &&& final(iter)@.len() == 0
            },
            Err(e) => {
                &&& e == QoiError::Stream
                &&& !decode_stream(decoder_start(), old(iter)@).complete
                &&& final(iter)@ == old(iter)@.skip(
                    decode_stream(decoder_start(), old(iter)@).consumed as int + 1,
                )
            },
        },
{
    let mut pixels_seen: usize = 0;

    let mut prev_pixel = Pixel { r: 0, g: 0, b: 0, a: 255 };

    let zero_pixel = Pixel { r: 0, g: 0, b: 0, a: 0 };

    let mut index: [Option<Pixel>; 64] = [None; 64];
    index[calculate_index(&prev_pixel)] = Some(prev_pixel);
    index[calculate_index(&zero_pixel)] = Some(zero_pixel);
    assert(index@ =~= seeded_index());

    let ghost input = iter@;
    let ghost whole = decode_stream(decoder_start(), input);
    let ghost mut done: Seq<Pixel> = Seq::empty();
    let ghost mut consumed: nat = 0;
    assert(input.skip(0) =~= input);
    assert(samples_of(done, include_alpha) =~= Seq::<u8>::empty());
    assert(bytes@ =~= old(bytes)@ + samples_of(done, include_alpha));
    assert(whole.pixels =~= done + whole.pixels);

    loop
        invariant
            input == old(iter)@,
            whole == decode_stream(decoder_start(), input),
            index@.len() == 64,
            consumed <= input.len(),
            iter@ == input.skip(consumed as int),
            whole.pixels == done + decode_stream(
                CodecState { previous: prev_pixel, index: index@ },
                iter@,
            ).pixels,
            whole.consumed == consumed + decode_stream(
                CodecState { previous: prev_pixel, index: index@ },
                iter@,
            ).consumed,
            whole.complete == decode_stream(
                CodecState { previous: prev_pixel, index: index@ },
                iter@,
            ).complete,
            bytes@ == old(bytes)@ + samples_of(done, include_alpha),
            pixels_seen == done.len(),
        decreases iter@.len(),
    {
        let ghost state = CodecState { previous: prev_pixel, index: index@ };
        let ghost rest = iter@;
        let ghost written = bytes@;
        let tag = match iter.next() {
            Some(tag) => tag,
            None => {
                proof {
                    lemma_decode_nothing(state, rest);
                    assert(whole.pixels =~= done);
                }
                return Ok(pixels_seen);
            },
        };
        assert(iter@ =~= input.skip(consumed as int + 1));
        let ghost payload = iter@;
        let operation = parse_operation(&tag);

        let current_pixel: Pixel;
        let mut run_len: usize = 1;
        let ghost chunk: Chunk;

        match operation {
            Operation::QoiOpRgb => {
                match write_op_rgb(bytes, iter, &prev_pixel.a, include_alpha) {
                    Ok(pixel) => {
                        current_pixel = pixel;
                        proof {
                            chunk = Chunk::Rgb { r: pixel.r, g: pixel.g, b: pixel.b };
                            assert(iter@ =~= rest.skip(4));
                            assert(first_chunk(rest) == Some(chunk));
                            assert(chunk.pixel(state) == Some(pixel));
                        }
                    },
                    Err(e) => {
                        proof {
                            lemma_decode_stop(state, rest);
                            assert(whole.pixels =~= done);
                        }
                        return Err(e);
                    },
                }
            },
            Operation::QoiOpRgba => {
                match write_op_rgba(bytes, iter, include_alpha) {
                    Ok(pixel) => {
                        current_pixel = pixel;
                        proof {
                            chunk = Chunk::Rgba { r: pixel.r, g: pixel.g, b: pixel.b, a: pixel.a };
                            assert(iter@ =~= rest.skip(5));
                            assert(first_chunk(rest) == Some(chunk));
                            assert(chunk.pixel(state) == Some(pixel));
                        }
                    },
                    Err(e) => {
                        proof {
                            lemma_decode_stop(state, rest);
                            assert(whole.pixels =~= done);
                        }
                        return Err(e);
                    },
                }
            },
            Operation::QoiOpIndex => {
                match write_op_index(bytes, &tag, &index, include_alpha) {
                    Ok(pixel) => {
                        current_pixel = pixel;
                        proof {
                            chunk = Chunk::Index { slot: (tag % 64) as int };
                            assert(first_chunk(rest) == Some(chunk));
                            assert(chunk.pixel(state) == Some(pixel));
                        }
                    },
                    Err(e) => {
                        proof {
                            lemma_decode_stop(state, rest);
                            assert(whole.pixels =~= done);
                        }
                        return Err(e);
                    },
                }
            },
            Operation::QoiOpDiff => {
                current_pixel = write_op_diff(bytes, &tag, &prev_pixel, include_alpha);
                proof {
                    chunk = Chunk::Diff {
                        dr: tag / 16 % 4 - 2,
                        dg: tag / 4 % 4 - 2,
                        db: tag % 4 - 2,
                    };
                    assert(first_chunk(rest) == Some(chunk));
                    assert(chunk.pixel(state) == Some(current_pixel));
                }
            },
            Operation::QoiOpLuma => {
                match write_op_luma(bytes, &tag, iter, &prev_pixel, include_alpha) {
                    Ok(pixel) => {
                        current_pixel = pixel;
                        proof {
                            chunk = Chunk::Luma {
                                dg: tag % 64 - 32,
                                dr_dg: payload[0] / 16 - 8,
                                db_dg: payload[0] % 16 - 8,
                            };
                            assert(iter@ =~= rest.skip(2));
                            assert(first_chunk(rest) == Some(chunk));
                            assert(chunk.pixel(state) == Some(pixel));
                        }
                    },
                    Err(e) => {
                        proof {
                            lemma_decode_stop(state, rest);
                            assert(whole.pixels =~= done);
                        }
                        return Err(e);
                    },
                }
            },
            Operation::QoiOpRun => {
                run_len = write_op_run(bytes, &tag, &prev_pixel, include_alpha);
                current_pixel = prev_pixel;
                proof {
                    chunk = Chunk::Run { length: tag % 64 + 1 };
                    assert(first_chunk(rest) == Some(chunk));
                    assert(chunk.pixel(state) == Some(current_pixel));
                }
            },
        }

        proof {
            let group = repeated(current_pixel, chunk.count());
            assert(bytes@ == written + samples_of(group, include_alpha)) by {
                if run_len == 1 {
                    assert(group =~= seq![current_pixel]);
                    lemma_samples_one(current_pixel, include_alpha);
                }
            }
            lemma_decode_step(state, rest, chunk, current_pixel);
            assert(iter@ =~= input.skip((consumed + chunk.size()) as int));
            let after = decode_stream(state.record(current_pixel), iter@);
            assert(whole.pixels =~= (done + group) + after.pixels);
            lemma_samples_concat(done, group, include_alpha);
            assert(bytes@ =~= old(bytes)@ + (samples_of(done, include_alpha) + samples_of(
                group,
                include_alpha,
            )));
            lemma_samples_len(done + group, include_alpha);
            assert(bytes.len() == bytes@.len());
            done = done + group;
            consumed = consumed + chunk.size();
        }

        index[calculate_index(&current_pixel)] = Some(current_pixel);
        prev_pixel = current_pixel;

        pixels_seen += run_len;
    }
}

/// Decodes a whole file: checks the end marker, reads the header, then the
/// body, and checks that the body holds as many pixels as the header
/// announces.  The samples come with an alpha exactly when the header says so.
pub fn decode(bytes: &Vec<u8>) -> (result: Result<(ImgMetadata, Vec<u8>), QoiError>)
    ensures
        match result {
            Ok((metadata, samples)) => decoded_image(bytes@) == Ok::<
                (ImgMetadata, Seq<u8>),
                QoiError,
            >((metadata, samples@)),
            Err(e) => decoded_image(bytes@) == Err::<(ImgMetadata, Seq<u8>), QoiError>(e),
        },
{
    match verify_ending(bytes) {
        Ok(_) => {},
        Err(e) => { return Err(e); },
    }
    let framed = &bytes[0..bytes.len() - 8];
    assert(framed@ =~= bytes@.take(bytes@.len() - 8));
    let mut iter = ByteCursor::new(framed);
    let metadata = match parse_metadata(&mut iter) {
        Ok(metadata) => metadata,
        Err(e) => { return Err(e); },
    };

    let include_alpha = match metadata.channels {
        Channels::RGB => false,
        Channels::RGBA => true,
    };
    let mut decoded: Vec<u8> = Vec::new();
    let num_pixels_parsed = match parse_chunks(&mut iter, &mut decoded, include_alpha) {
        Ok(count) => count,
        Err(e) => { return Err(e); },
    };
    assert(metadata.width * metadata.height <= 0xFFFF_FFFF * 0xFFFF_FFFF) by (nonlinear_arith)
        requires
            metadata.width <= 0xFFFF_FFFF,
            metadata.height <= 0xFFFF_FFFF,
    ;
    let total_pixels: u64 = (metadata.width as u64) * (metadata.height as u64);
    if num_pixels_parsed as u64 != total_pixels {
        return Err(QoiError::Stream);
    }
    assert(decoded@ =~= samples_of(
        decode_stream(decoder_start(), framed@.skip(14)).pixels,
        include_alpha,
    ));
    Ok((metadata, decoded))
}

} // verus!
