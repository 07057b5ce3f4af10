//! From pixels to a stream: which chunk each pixel becomes, and the code that
//! writes it.

use vstd::prelude::*;
use crate::{
    Channels, Colorspace, ImgMetadata, Operation, Pixel, QoiError, QOI_OP_DIFF, QOI_OP_INDEX,
    QOI_OP_LUMA, QOI_OP_RGB, QOI_OP_RGBA, QOI_OP_RUN,
};
use crate::samples::{pixels_of, samples_per_pixel};
use crate::stream::{
    be32, channel_delta, empty_index, end_marker, header_bytes, index_position, magic, serialize,
    signed8, start_pixel, Chunk, CodecState,
};

verus! {

/// All three colour samples moved by -2 to 1 from the pixel before.
pub open spec fn fits_diff(previous: Pixel, current: Pixel) -> bool {
    &&& -2 <= channel_delta(current.r, previous.r) <= 1
    &&& -2 <= channel_delta(current.g, previous.g) <= 1
    &&& -2 <= channel_delta(current.b, previous.b) <= 1
}

/// How far red moved beyond green, wrapped again to a signed eight-bit number.
pub open spec fn red_beyond_green(previous: Pixel, current: Pixel) -> int {
    signed8(channel_delta(current.r, previous.r) - channel_delta(current.g, previous.g))
}

/// How far blue moved beyond green, wrapped again to a signed eight-bit number.
pub open spec fn blue_beyond_green(previous: Pixel, current: Pixel) -> int {
    signed8(channel_delta(current.b, previous.b) - channel_delta(current.g, previous.g))
}

/// Green moved by -32 to 31, and red and blue by -8 to 7 beyond green.
pub open spec fn fits_luma(previous: Pixel, current: Pixel) -> bool {
    &&& -32 <= channel_delta(current.g, previous.g) <= 31
    &&& -8 <= red_beyond_green(previous, current) <= 7
    &&& -8 <= blue_beyond_green(previous, current) <= 7
}

/// The kind of chunk that the encoder chooses for `current`: the first in
/// this order that applies.
pub open spec fn select_operation(
    previous: Pixel,
    current: Pixel,
    index: Seq<Option<Pixel>>,
) -> Operation {
    if current.a != previous.a {
        Operation::QoiOpRgba
    } else if current == previous {
        Operation::QoiOpRun
    } else if index[index_position(current)] == Some(current) {
        Operation::QoiOpIndex
    } else if fits_diff(previous, current) {
        Operation::QoiOpDiff
    } else if fits_luma(previous, current) {
        Operation::QoiOpLuma
    } else {
        Operation::QoiOpRgb
    }
}

/// The DIFF chunk that leads from `previous` to `current`.
pub open spec fn diff_chunk(previous: Pixel, current: Pixel) -> Chunk {
    Chunk::Diff {
        dr: channel_delta(current.r, previous.r),
        dg: channel_delta(current.g, previous.g),
        db: channel_delta(current.b, previous.b),
    }
}

/// The LUMA chunk that leads from `previous` to `current`.
pub open spec fn luma_chunk(previous: Pixel, current: Pixel) -> Chunk {
    Chunk::Luma {
        dg: channel_delta(current.g, previous.g),
        dr_dg: red_beyond_green(previous, current),
        db_dg: blue_beyond_green(previous, current),
    }
}

/// The chunk of kind `operation` for `current`; for a run, a run of one.
pub open spec fn chunk_for(operation: Operation, previous: Pixel, current: Pixel) -> Chunk {
    match operation {
        Operation::QoiOpRgb => Chunk::Rgb { r: current.r, g: current.g, b: current.b },
        Operation::QoiOpRgba => Chunk::Rgba {
            r: current.r,
            g: current.g,
            b: current.b,
            a: current.a,
        },
        Operation::QoiOpIndex => Chunk::Index { slot: index_position(current) },
        Operation::QoiOpDiff => diff_chunk(previous, current),
        Operation::QoiOpLuma => luma_chunk(previous, current),
        Operation::QoiOpRun => Chunk::Run { length: 1 },
    }
}

/// The longest run that one chunk can hold.
pub open spec fn longest_run() -> nat {
    62
}

/// What the encoder keeps between two pixels.
pub struct EncoderState {
    /// The pixel before and the running index.
    pub codec: CodecState,
    /// How many repetitions of the pixel before are not written yet.
    pub run: nat,
}

impl EncoderState {
    /// The run that is still to be written, if there is one.
    pub open spec fn pending(self) -> Seq<Chunk> {
        if self.run > 0 {
            seq![Chunk::Run { length: self.run as int }]
        } else {
            Seq::empty()
        }
    }

    /// The kind of chunk chosen for the next pixel `p`.
    pub open spec fn operation(self, p: Pixel) -> Operation {
        select_operation(self.codec.previous, p, self.codec.index)
    }

    /// The chunks that are written when the pixel `p` arrives.  A repetition
    /// writes nothing until the run is as long as a chunk can hold; any
    /// other pixel first closes the run that is pending.
    pub open spec fn emitted(self, p: Pixel) -> Seq<Chunk> {
        let operation = self.operation(p);
        if operation == Operation::QoiOpRun {
            if self.run + 1 == longest_run() {
                seq![Chunk::Run { length: longest_run() as int }]
            } else {
                Seq::empty()
            }
        } else {
            self.pending() + seq![chunk_for(operation, self.codec.previous, p)]
        }
    }

    /// The state after the pixel `p`.
    pub open spec fn advance(self, p: Pixel) -> EncoderState {
        EncoderState {
            codec: self.codec.record(p),
            run: if self.operation(p) == Operation::QoiOpRun {
                if self.run + 1 == longest_run() {
                    0
                } else {
                    self.run + 1
                }
            } else {
                0
            },
        }
    }
}

/// The state in which an encoder starts.
pub open spec fn encoder_start() -> EncoderState {
    EncoderState { codec: CodecState { previous: start_pixel(), index: empty_index() }, run: 0 }
}

/// The state of an encoder that has taken `pixels`.
pub open spec fn encoder_after(pixels: Seq<Pixel>) -> EncoderState
    decreases pixels.len(),
{
    if pixels.len() == 0 {
        encoder_start()
    } else {
        encoder_after(pixels.drop_last()).advance(pixels.last())
    }
}

/// The chunks that an encoder has written by the time it has taken `pixels`.
pub open spec fn chunks_written(pixels: Seq<Pixel>) -> Seq<Chunk>
    decreases pixels.len(),
{
    if pixels.len() == 0 {
        Seq::empty()
    } else {
        chunks_written(pixels.drop_last()) + encoder_after(pixels.drop_last()).emitted(
            pixels.last(),
        )
    }
}

/// The chunks of the body for `pixels`: those written on the way, and the run
/// that is pending at the end.
pub open spec fn encoded_chunks(pixels: Seq<Pixel>) -> Seq<Chunk> {
    chunks_written(pixels) + encoder_after(pixels).pending()
}

/// The body for a buffer of samples.
pub open spec fn encoded_body(samples: Seq<u8>, alpha: bool) -> Seq<u8> {
    serialize(encoded_chunks(pixels_of(samples, alpha)))
}

/// The bytes of two sequences of chunks, one after the other.
pub proof fn lemma_serialize_concat(a: Seq<Chunk>, b: Seq<Chunk>)
    ensures
        serialize(a + b) == serialize(a) + serialize(b),
    decreases b.len(),
{
    if b.len() == 0 {
        assert(a + b =~= a);
        assert(serialize(b) =~= Seq::<u8>::empty());
        assert(serialize(a) + serialize(b) =~= serialize(a));
    } else {
        lemma_serialize_concat(a, b.drop_last());
        assert((a + b).drop_last() =~= a + b.drop_last());
        assert((a + b).last() == b.last());
        assert(serialize(a + b) =~= serialize(a) + serialize(b));
    }
}

/// The bytes of a single chunk.
pub proof fn lemma_serialize_one(c: Chunk)
    ensures
        serialize(seq![c]) == c.bytes(),
{
    assert(seq![c].drop_last() =~= Seq::<Chunk>::empty());
    assert(serialize(seq![c].drop_last()) =~= Seq::<u8>::empty());
    assert(serialize(seq![c]) =~= c.bytes());
}

/// Puts a two-bit tag before six bits of payload.
pub fn tag_byte(tag: u8, lower_bits: u8) -> (byte: u8)
    requires
        tag < 4,
        lower_bits < 64,
    ensures
        byte == tag * 64 + lower_bits,
{
    let upper = tag << 6;
    assert(upper == tag * 64) by (bit_vector)
        requires
            upper == tag << 6,
            tag < 4,
    ;
    upper + lower_bits
}

/// The slot of the running index that `pixel` belongs to.
pub fn calculate_index(pixel: &Pixel) -> (slot: usize)
    ensures
        slot == index_position(*pixel),
{
    let index: u32 = (pixel.r as u32) * 3 + (pixel.g as u32) * 5 + (pixel.b as u32) * 7 + (
    pixel.a as u32) * 11;
    (index % 64) as usize
}

/// What eight-bit wrapping arithmetic makes of a difference plus a bias is
/// below twice the bias exactly when the signed difference lies within the
/// bias, and is then the signed difference plus the bias.
proof fn lemma_biased(difference: int, bias: int)
    requires
        0 < bias <= 64,
    ensures
        ((difference % 256 + bias) % 256 < 2 * bias) <==> (-bias <= signed8(difference) < bias),
        -bias <= signed8(difference) < bias ==> (difference % 256 + bias) % 256 == signed8(
            difference,
        ) + bias,
{
}

/// The biased difference of two samples, as the encoder computes it.
proof fn lemma_biased_delta(current: u8, previous: u8, bias: u8)
    requires
        0 < bias <= 64,
    ensures
        ({
            let biased = u8::wrapping_add(u8::wrapping_sub(current, previous), bias);
            let delta = channel_delta(current, previous);
            &&& biased < 2 * bias <==> -bias <= delta < bias
            &&& -bias <= delta < bias ==> biased == delta + bias
        }),
{
    lemma_biased(current - previous, bias as int);
}

/// A signed difference is congruent to the difference it was made from.
proof fn lemma_signed8_congruent(x: int)
    ensures
        signed8(x) % 256 == x % 256,
{
}

/// The difference of two signed differences is congruent to the difference of
/// the two remainders.
proof fn lemma_signed8_difference(x: int, y: int)
    ensures
        (signed8(x) - signed8(y)) % 256 == (x % 256 - y % 256) % 256,
{
    lemma_signed8_congruent(x);
    lemma_signed8_congruent(y);
    vstd::arithmetic::div_mod::lemma_sub_mod_noop(signed8(x), signed8(y), 256);
}

/// The biased difference of two differences, as the encoder computes it.
proof fn lemma_biased_beyond(current: u8, previous: u8, current_green: u8, previous_green: u8)
    ensures
        ({
            let biased = u8::wrapping_add(
                u8::wrapping_sub(
                    u8::wrapping_sub(current, previous),
                    u8::wrapping_sub(current_green, previous_green),
                ),
                8,
            );
            let beyond = signed8(
                channel_delta(current, previous) - channel_delta(current_green, previous_green),
            );
            &&& biased < 16 <==> -8 <= beyond < 8
            &&& -8 <= beyond < 8 ==> biased == beyond + 8
        }),
{
    let x = u8::wrapping_sub(current, previous);
    let y = u8::wrapping_sub(current_green, previous_green);
    let z = u8::wrapping_sub(x, y);
    let both = channel_delta(current, previous) - channel_delta(current_green, previous_green);
    assert(x == (current - previous) % 256);
    assert(y == (current_green - previous_green) % 256);
    assert(z == (x - y) % 256);
    assert(u8::wrapping_add(z, 8) == (z + 8) % 256);
    assert(both % 256 == z) by {
        lemma_signed8_difference(current - previous, current_green - previous_green);
    }
    assert({
        &&& (z + 8) % 256 < 16 <==> -8 <= signed8(both) < 8
        &&& -8 <= signed8(both) < 8 ==> (z + 8) % 256 == signed8(both) + 8
    }) by {
        lemma_biased(both, 8);
    }
}

/// The byte of the DIFF chunk that leads from `prev` to `curr`.
pub fn create_diff(curr: &Pixel, prev: &Pixel) -> (byte: u8)
    requires
        fits_diff(*prev, *curr),
    ensures
        seq![byte] == diff_chunk(*prev, *curr).bytes(),
{
    let dr = u8::wrapping_sub(curr.r, prev.r);
    let dg = u8::wrapping_sub(curr.g, prev.g);
    let db = u8::wrapping_sub(curr.b, prev.b);

    let dr = u8::wrapping_add(dr, 2);
    let dg = u8::wrapping_add(dg, 2);
    let db = u8::wrapping_add(db, 2);

    proof {
        lemma_biased_delta(curr.r, prev.r, 2);
        lemma_biased_delta(curr.g, prev.g, 2);
        lemma_biased_delta(curr.b, prev.b, 2);
    }

    let mut lower_bits: u8 = dr;
    let shifted = lower_bits << 2;
    assert(shifted == lower_bits * 4) by (bit_vector)
        requires
            shifted == lower_bits << 2,
            lower_bits < 4,
    ;
    lower_bits = shifted + dg;
    let shifted = lower_bits << 2;
    assert(shifted == lower_bits * 4) by (bit_vector)
        requires
            shifted == lower_bits << 2,
            lower_bits < 16,
    ;
    lower_bits = shifted + db;

    let byte = tag_byte(QOI_OP_DIFF, lower_bits);
    assert(seq![byte] =~= diff_chunk(*prev, *curr).bytes());
    byte
}

/// The two bytes of the LUMA chunk that leads from `prev` to `curr`.
pub fn create_diff_luma(curr: &Pixel, prev: &Pixel) -> (bytes: Vec<u8>)
    requires
        fits_luma(*prev, *curr),
    ensures
        bytes@ == luma_chunk(*prev, *curr).bytes(),
{
    let dr = u8::wrapping_sub(curr.r, prev.r);
    let dg = u8::wrapping_sub(curr.g, prev.g);
    let db = u8::wrapping_sub(curr.b, prev.b);

    let dr_dg = u8::wrapping_sub(dr, dg);
    let db_dg = u8::wrapping_sub(db, dg);

    let dg = u8::wrapping_add(dg, 32);
    let dr_dg = u8::wrapping_add(dr_dg, 8);
    let db_dg = u8::wrapping_add(db_dg, 8);

    proof {
        lemma_biased_delta(curr.g, prev.g, 32);
        lemma_biased_beyond(curr.r, prev.r, curr.g, prev.g);
        lemma_biased_beyond(curr.b, prev.b, curr.g, prev.g);
    }

    let mut bytes = Vec::new();
    bytes.push(tag_byte(QOI_OP_LUMA, dg));
    let mut byte2 = dr_dg;
    let shifted = byte2 << 4;
    assert(shifted == byte2 * 16) by (bit_vector)
        requires
            shifted == byte2 << 4,
            byte2 < 16,
    ;
    byte2 = shifted + db_dg;
    bytes.push(byte2);
    assert(bytes@ =~= luma_chunk(*prev, *curr).bytes());
    bytes
}

/// Chooses the kind of chunk for `curr_pixel`, which follows `prev_pixel`.
pub fn find_operation(prev_pixel: &Pixel, curr_pixel: &Pixel, index: &[Option<Pixel>]) -> (operation:
    Operation)
    requires
        index@.len() == 64,
    ensures
        operation == select_operation(*prev_pixel, *curr_pixel, index@),
{
    if prev_pixel.a != curr_pixel.a {
        return Operation::QoiOpRgba;
    }
    if *prev_pixel == *curr_pixel {
        return Operation::QoiOpRun;
    }
    if let Some(index_pixel) = index[calculate_index(curr_pixel)] {
        if index_pixel == *curr_pixel {
            return Operation::QoiOpIndex;
        }
    }
    let dr = u8::wrapping_sub(curr_pixel.r, prev_pixel.r);
    let dg = u8::wrapping_sub(curr_pixel.g, prev_pixel.g);
    let db = u8::wrapping_sub(curr_pixel.b, prev_pixel.b);

    let dr_2 = u8::wrapping_add(dr, 2);
    let dg_2 = u8::wrapping_add(dg, 2);
    let db_2 = u8::wrapping_add(db, 2);

    proof {
        lemma_biased_delta(curr_pixel.r, prev_pixel.r, 2);
        lemma_biased_delta(curr_pixel.g, prev_pixel.g, 2);
        lemma_biased_delta(curr_pixel.b, prev_pixel.b, 2);
    }
    if dr_2 < 4 && dg_2 < 4 && db_2 < 4 {
        return Operation::QoiOpDiff;
    }
    let dr_dg = u8::wrapping_sub(dr, dg);
    let dr_dg_8 = u8::wrapping_add(dr_dg, 8);

    let db_dg = u8::wrapping_sub(db, dg);
    let db_dg_8 = u8::wrapping_add(db_dg, 8);

    let dg_32 = u8::wrapping_add(dg, 32);

    proof {
        lemma_biased_delta(curr_pixel.g, prev_pixel.g, 32);
        lemma_biased_beyond(curr_pixel.r, prev_pixel.r, curr_pixel.g, prev_pixel.g);
        lemma_biased_beyond(curr_pixel.b, prev_pixel.b, curr_pixel.g, prev_pixel.g);
    }
    if dg_32 < 64 && dr_dg_8 < 16 && db_dg_8 < 16 {
        return Operation::QoiOpLuma;
    }
    Operation::QoiOpRgb
}

/// Appends a RUN chunk for `run_length` repetitions.
pub fn push_run(bytes: &mut Vec<u8>, run_length: u8)
    requires
        0 < run_length < 63,
    ensures
        final(bytes)@ == old(bytes)@ + (Chunk::Run { length: run_length as int }).bytes(),
{
    bytes.push(tag_byte(QOI_OP_RUN, run_length - 1));
    assert(bytes@ =~= old(bytes)@ + (Chunk::Run { length: run_length as int }).bytes());
}

/// Appends the RGB chunk for `pixel`.
pub fn push_rgb(pixel: &Pixel, bytes: &mut Vec<u8>)
    ensures
        final(bytes)@ == old(bytes)@ + (Chunk::Rgb { r: pixel.r, g: pixel.g, b: pixel.b }).bytes(),
{
    bytes.push(QOI_OP_RGB);
    bytes.push(pixel.r);
    bytes.push(pixel.g);
    bytes.push(pixel.b);
    assert(bytes@ =~= old(bytes)@ + (Chunk::Rgb { r: pixel.r, g: pixel.g, b: pixel.b }).bytes());
}

/// Appends the RGBA chunk for `pixel`.
pub fn push_rgba(pixel: &Pixel, bytes: &mut Vec<u8>)
    ensures
        final(bytes)@ == old(bytes)@ + (Chunk::Rgba {
            r: pixel.r,
            g: pixel.g,
            b: pixel.b,
            a: pixel.a,
        }).bytes(),
{
    bytes.push(QOI_OP_RGBA);
    bytes.push(pixel.r);
    bytes.push(pixel.g);
    bytes.push(pixel.b);
    bytes.push(pixel.a);
    assert(bytes@ =~= old(bytes)@ + (Chunk::Rgba {
        r: pixel.r,
        g: pixel.g,
        b: pixel.b,
        a: pixel.a,
    }).bytes());
}

/// Appends the INDEX chunk that names the slot of `pixel`.
pub fn push_index(pixel: &Pixel, bytes: &mut Vec<u8>)
    ensures
        final(bytes)@ == old(bytes)@ + (Chunk::Index { slot: index_position(*pixel) }).bytes(),
{
    let slot = calculate_index(pixel);
    bytes.push(tag_byte(QOI_OP_INDEX, slot as u8));
    assert(bytes@ =~= old(bytes)@ + (Chunk::Index { slot: index_position(*pixel) }).bytes());
}

/// Appends the DIFF chunk that leads from `prev` to `curr`.
pub fn push_diff(curr: &Pixel, prev: &Pixel, bytes: &mut Vec<u8>)
    requires
        fits_diff(*prev, *curr),
    ensures
        final(bytes)@ == old(bytes)@ + diff_chunk(*prev, *curr).bytes(),
{
    let byte = create_diff(curr, prev);
    bytes.push(byte);
    assert(bytes@ =~= old(bytes)@ + seq![byte]);
}

/// Appends the LUMA chunk that leads from `prev` to `curr`.
pub fn push_luma(curr: &Pixel, prev: &Pixel, bytes: &mut Vec<u8>)
    requires
        fits_luma(*prev, *curr),
    ensures
        final(bytes)@ == old(bytes)@ + luma_chunk(*prev, *curr).bytes(),
{
    let mut chunk = create_diff_luma(curr, prev);
    bytes.append(&mut chunk);
}

/// Appends the four bytes of `value`, most significant first.
fn push_be32(bytes: &mut Vec<u8>, value: u32)
    ensures
        final(bytes)@ == old(bytes)@ + be32(value),
{
    let b0 = (value >> 24) as u8;
    let b1 = ((value >> 16) & 0xFF) as u8;
    let b2 = ((value >> 8) & 0xFF) as u8;
    let b3 = (value & 0xFF) as u8;
    assert(b0 == value / 0x100_0000 && b1 == value / 0x1_0000 % 256 && b2 == value / 0x100 % 256
        && b3 == value % 256) by (bit_vector)
        requires
            b0 == (value >> 24) as u8,
            b1 == ((value >> 16) & 0xFF) as u8,
            b2 == ((value >> 8) & 0xFF) as u8,
            b3 == (value & 0xFF) as u8,
    ;
    bytes.push(b0);
    bytes.push(b1);
    bytes.push(b2);
    bytes.push(b3);
    assert(bytes@ =~= old(bytes)@ + be32(value));
}

/// Writes the header for `metadata` into the empty buffer `bytes`.
pub fn add_header(bytes: &mut Vec<u8>, metadata: &ImgMetadata)
    requires
        old(bytes)@.len() == 0,
    ensures
        final(bytes)@ == header_bytes(*metadata),
{
    bytes.push(0x71);
    bytes.push(0x6F);
    bytes.push(0x69);
    bytes.push(0x66);
    assert(bytes@ =~= magic());

    push_be32(bytes, metadata.width);
    push_be32(bytes, metadata.height);

    match metadata.channels {
        Channels::RGB => { bytes.push(3) },
        Channels::RGBA => { bytes.push(4) },
    }

    match metadata.colorspace {
        Colorspace::SrgbLinearAlpha => { bytes.push(0) },
        Colorspace::AllLinearAlpha => { bytes.push(1) },
    }
    assert(bytes@ =~= header_bytes(*metadata));
}

/// Appends the body for the samples in `pixels`, three to a pixel or, with
/// `alpha_included`, four.  A buffer that does not hold whole pixels is
/// refused, and `bytes` is then left as it was.
pub fn add_chunks(bytes: &mut Vec<u8>, pixels: &Vec<u8>, alpha_included: bool) -> (result: Result<
    (),
    QoiError,
>)
    ensures
        match result {
            Ok(_) => {
                &&& pixels@.len() % samples_per_pixel(alpha_included) as nat == 0
                &&& final(bytes)@ == old(bytes)@ + encoded_body(pixels@, alpha_included)
            },
            Err(e) => {
                &&& e == QoiError::Length
                &&& pixels@.len() % samples_per_pixel(alpha_included) as nat != 0
                &&& final(bytes)@ == old(bytes)@
            },
        },
{
    let expected_values_per_pixel: usize = match alpha_included {
        true => 4,
        false => 3,
    };

    if pixels.len() % expected_values_per_pixel != 0 {
        return Err(QoiError::Length);
    }
    let mut index: [Option<Pixel>; 64] = [None; 64];

    let mut previous_pixel = Pixel { r: 0, g: 0, b: 0, a: 255 };

    let mut run_count: u8 = 0;

    let mut position: usize = 0;

    let ghost all = pixels_of(pixels@, alpha_included);
    let ghost mut taken: int = 0;
    assert(index@ =~= empty_index());
    assert(all.take(0) =~= Seq::<Pixel>::empty());
    assert(bytes@ =~= old(bytes)@ + serialize(chunks_written(all.take(0))));

    while pixels.len() - position >= expected_values_per_pixel
        invariant
            expected_values_per_pixel == samples_per_pixel(alpha_included),
            pixels@.len() % expected_values_per_pixel as nat == 0,
            all == pixels_of(pixels@, alpha_included),
            position <= pixels.len(),
            position == taken * samples_per_pixel(alpha_included),
            0 <= taken <= all.len(),
            previous_pixel == encoder_after(all.take(taken)).codec.previous,
            index@ == encoder_after(all.take(taken)).codec.index,
            run_count == encoder_after(all.take(taken)).run,
            run_count < 62,
            bytes@ == old(bytes)@ + serialize(chunks_written(all.take(taken))),
        decreases pixels.len() - position,
    {
        let pixel = Pixel {
            r: pixels[position],
            g: pixels[position + 1],
            b: pixels[position + 2],
            a: match alpha_included {
                true => pixels[position + 3],
                false => 255,
            },
        };
        let ghost before = encoder_after(all.take(taken));
        let ghost written = chunks_written(all.take(taken));
        proof {
            assert(taken < all.len());
            assert(pixel == all[taken]);
            assert(all.take(taken + 1).drop_last() =~= all.take(taken));
            assert(all.take(taken + 1).last() == pixel);
            assert(encoder_after(all.take(taken + 1)) == before.advance(pixel));
            assert(chunks_written(all.take(taken + 1)) == written + before.emitted(pixel));
            lemma_serialize_concat(written, before.emitted(pixel));
        }

        let operation = find_operation(&previous_pixel, &pixel, &index);

        if operation != Operation::QoiOpRun && run_count > 0 {
            push_run(bytes, run_count);
            run_count = 0;
            proof {
                let chunk = chunk_for(operation, before.codec.previous, pixel);
                lemma_serialize_concat(before.pending(), seq![chunk]);
                lemma_serialize_one(before.pending()[0]);
                lemma_serialize_one(chunk);
            }
        } else if operation != Operation::QoiOpRun {
            proof {
                let chunk = chunk_for(operation, before.codec.previous, pixel);
                assert(before.emitted(pixel) =~= seq![chunk]);
                lemma_serialize_one(chunk);
            }
        }
        match operation {
            Operation::QoiOpRgb => { push_rgb(&pixel, bytes) },
            Operation::QoiOpRgba => { push_rgba(&pixel, bytes) },
            Operation::QoiOpIndex => { push_index(&pixel, bytes) },
            Operation::QoiOpDiff => { push_diff(&pixel, &previous_pixel, bytes) },
            Operation::QoiOpLuma => { push_luma(&pixel, &previous_pixel, bytes) },
            Operation::QoiOpRun => {
                run_count += 1;
                if run_count == 62 {
                    push_run(bytes, 62);
                    run_count = 0;
                    proof {
                        lemma_serialize_one(Chunk::Run { length: 62 });
                    }
                } else {
                    assert(serialize(before.emitted(pixel)) =~= Seq::<u8>::empty());
                }
            },
        }
        assert(bytes@ =~= old(bytes)@ + serialize(written) + serialize(before.emitted(pixel)));

        index[calculate_index(&pixel)] = Some(pixel);
        previous_pixel = pixel;
        position += expected_values_per_pixel;
        proof {
            taken = taken + 1;
        }
    }

    proof {
        assert(taken == all.len());
        assert(all.take(taken) =~= all);
        lemma_serialize_concat(chunks_written(all), encoder_after(all).pending());
    }
    if run_count > 0 {
        push_run(bytes, run_count);
        proof {
            lemma_serialize_one(encoder_after(all).pending()[0]);
        }
    } else {
        assert(serialize(encoder_after(all).pending()) =~= Seq::<u8>::empty());
    }
    assert(bytes@ =~= old(bytes)@ + encoded_body(pixels@, alpha_included));
    Ok(())
}

/// Appends the end marker.
pub fn add_end_marker(bytes: &mut Vec<u8>)
    ensures
        final(bytes)@ == old(bytes)@ + end_marker(),
{
    for n in 0..7
        invariant
            bytes@ == old(bytes)@ + Seq::new(n as nat, |i: int| 0u8),
    {
        bytes.push(0);
        assert(bytes@ =~= old(bytes)@ + Seq::new((n + 1) as nat, |i: int| 0u8));
    }
    bytes.push(1);
    assert(bytes@ =~= old(bytes)@ + end_marker());
}

} // verus!
