//! Decoding gives back what was encoded.

use vstd::prelude::*;
use crate::{encoded_image, ImgMetadata, Operation, Pixel, QoiError};
use crate::decoder::decoded_image;
use crate::encoder::{
    chunk_for, chunks_written, encoded_body, encoded_chunks, encoder_after, select_operation,
};
use crate::laws::{
    all_well_formed, chunks_are_well_formed, difference_is_modular, lemma_encoder_steady,
};
use crate::samples::{lemma_samples_of_pixels, pixels_of, samples_per_pixel};
use crate::stream::{
    be32, be32_value, channel_delta, decode_stream, decoder_start, end_marker, first_chunk,
    header_bytes, index_position, lemma_decode_nothing, lemma_decode_step, magic, parsed_header,
    repeated, serialize, signed8, wrap8, Chunk, CodecState, Decoded,
};

verus! {

/// A well-formed chunk is read back from its bytes, whatever follows them.
pub proof fn lemma_chunk_read_back(chunk: Chunk, tail: Seq<u8>)
    requires
        chunk.well_formed(),
    ensures
        first_chunk(chunk.bytes() + tail) == Some(chunk),
        chunk.bytes().len() == chunk.size(),
        (chunk.bytes() + tail).skip(chunk.size() as int) == tail,
{
    let bytes = chunk.bytes() + tail;
    assert(bytes.skip(chunk.size() as int) =~= tail);
    match chunk {
        Chunk::Rgb { r, g, b } => {
            assert(bytes[0] == 0xFE && bytes[1] == r && bytes[2] == g && bytes[3] == b);
        },
        Chunk::Rgba { r, g, b, a } => {
            assert(bytes[0] == 0xFF && bytes[1] == r && bytes[2] == g && bytes[3] == b && bytes[4]
                == a);
        },
        Chunk::Index { slot } => {
            assert(bytes[0] == slot);
        },
        Chunk::Diff { dr, dg, db } => {
            let tag = bytes[0];
            assert(tag == 64 + (dr + 2) * 16 + (dg + 2) * 4 + (db + 2));
            assert(tag / 64 == 1);
            assert(tag / 16 % 4 == dr + 2);
            assert(tag / 4 % 4 == dg + 2);
            assert(tag % 4 == db + 2);
        },
        Chunk::Luma { dg, dr_dg, db_dg } => {
            let tag = bytes[0];
            let second = bytes[1];
            assert(tag == 128 + (dg + 32));
            assert(second == (dr_dg + 8) * 16 + (db_dg + 8));
            assert(tag / 64 == 2);
            assert(tag % 64 == dg + 32);
            assert(second / 16 == dr_dg + 8);
            assert(second % 16 == db_dg + 8);
        },
        Chunk::Run { length } => {
            let tag = bytes[0];
            assert(tag == 192 + (length - 1));
            assert(tag / 64 == 3);
            assert(tag % 64 == length - 1);
        },
    }
}

/// What reading a sequence of chunks from a state gives.
struct Replayed {
    state: CodecState,
    pixels: Seq<Pixel>,
    readable: bool,
}

/// Reads `chunks` one after the other from state `st`.
spec fn replay(st: CodecState, chunks: Seq<Chunk>) -> Replayed
    decreases chunks.len(),
{
    if chunks.len() == 0 {
        Replayed { state: st, pixels: Seq::empty(), readable: true }
    } else {
        let before = replay(st, chunks.drop_last());
        match chunks.last().pixel(before.state) {
            Some(p) => Replayed {
                state: before.state.record(p),
                pixels: before.pixels + repeated(p, chunks.last().count()),
                readable: before.readable,
            },
            None => Replayed { state: before.state, pixels: before.pixels, readable: false },
        }
    }
}

/// Reading one more chunk.
proof fn lemma_replay_push(st: CodecState, chunks: Seq<Chunk>, chunk: Chunk)
    ensures
        replay(st, chunks.push(chunk)) == match chunk.pixel(replay(st, chunks).state) {
            Some(p) => Replayed {
                state: replay(st, chunks).state.record(p),
                pixels: replay(st, chunks).pixels + repeated(p, chunk.count()),
                readable: replay(st, chunks).readable,
            },
            None => Replayed {
                state: replay(st, chunks).state,
                pixels: replay(st, chunks).pixels,
                readable: false,
            },
        },
{
    assert(chunks.push(chunk).drop_last() =~= chunks);
}

/// The bytes of well-formed chunks that can be read one after the other
/// decode to their pixels, and decoding goes on behind them.
proof fn lemma_decode_serialized(st: CodecState, chunks: Seq<Chunk>, tail: Seq<u8>)
    requires
        all_well_formed(chunks),
        replay(st, chunks).readable,
    ensures
        ({
            let read = replay(st, chunks);
            let rest = decode_stream(read.state, tail);
            let whole = decode_stream(st, serialize(chunks) + tail);
            &&& whole.pixels == read.pixels + rest.pixels
            &&& whole.consumed == serialize(chunks).len() + rest.consumed
            &&& whole.complete == rest.complete
        }),
    decreases chunks.len(),
{
    let read = replay(st, chunks);
    let rest = decode_stream(read.state, tail);
    if chunks.len() == 0 {
        assert(serialize(chunks) + tail =~= tail);
        assert(read.pixels + rest.pixels =~= rest.pixels);
    } else {
        let front = chunks.drop_last();
        let last = chunks.last();
        let before = replay(st, front);
        let p = last.pixel(before.state)->0;
        assert(last.well_formed());
        assert(all_well_formed(front)) by {
            assert forall|i: int| 0 <= i < front.len() implies (#[trigger] front[i]).well_formed() by {
                assert(front[i] == chunks[i]);
            }
        }
        let longer = last.bytes() + tail;
        assert(serialize(chunks) + tail =~= serialize(front) + longer);
        lemma_decode_serialized(st, front, longer);
        lemma_chunk_read_back(last, tail);
        lemma_decode_step(before.state, longer, last, p);
        let middle = decode_stream(before.state, longer);
        assert(middle.pixels == repeated(p, last.count()) + rest.pixels);
        assert(before.pixels + middle.pixels =~= read.pixels + rest.pixels);
    }
}

/// A sample plus its signed difference from the sample before gives the
/// sample back.
proof fn lemma_delta_restores(current: u8, previous: u8)
    ensures
        wrap8(previous + channel_delta(current, previous)) == current,
{
    difference_is_modular(current, previous, 0);
}

/// A sample plus what a LUMA chunk records of it gives the sample back.
proof fn lemma_luma_restores(current: u8, previous: u8, current_green: u8, previous_green: u8)
    ensures
        wrap8(
            previous + signed8(
                channel_delta(current, previous) - channel_delta(current_green, previous_green),
            ) + channel_delta(current_green, previous_green),
        ) == current,
{
    let delta = channel_delta(current, previous);
    let green = channel_delta(current_green, previous_green);
    let beyond = signed8(delta - green);
    assert(beyond % 256 == (delta - green) % 256);
    assert((previous + beyond + green) % 256 == (previous + delta) % 256) by {
        vstd::arithmetic::div_mod::lemma_add_mod_noop(previous + green, beyond, 256);
        vstd::arithmetic::div_mod::lemma_add_mod_noop(previous + green, delta - green, 256);
    }
    lemma_delta_restores(current, previous);
}

/// The chunk chosen for a pixel that is no repetition reads back as that
/// pixel, in any state with the same pixel before whose index holds the
/// pixel where an INDEX chunk was chosen.
proof fn lemma_chosen_chunk_restores(
    previous: Pixel,
    current: Pixel,
    index: Seq<Option<Pixel>>,
    reader: CodecState,
)
    requires
        reader.previous == previous,
        select_operation(previous, current, index) != Operation::QoiOpRun,
        select_operation(previous, current, index) == Operation::QoiOpIndex
            ==> reader.index[index_position(current)] == Some(current),
    ensures
        chunk_for(select_operation(previous, current, index), previous, current).pixel(reader)
            == Some(current),
{
    let operation = select_operation(previous, current, index);
    if operation == Operation::QoiOpDiff {
        lemma_delta_restores(current.r, previous.r);
        lemma_delta_restores(current.g, previous.g);
        lemma_delta_restores(current.b, previous.b);
    } else if operation == Operation::QoiOpLuma {
        lemma_luma_restores(current.r, previous.r, current.g, previous.g);
        lemma_delta_restores(current.g, previous.g);
        lemma_luma_restores(current.b, previous.b, current.g, previous.g);
    }
}

/// How a decoder that has read the chunks written so far stands to the
/// encoder: it has the pixels taken except the pending run, the same pixel
/// before, that pixel in its slot of the index, and in every slot that the
/// encoder has filled the same pixel as the encoder.
spec fn in_step(pixels: Seq<Pixel>) -> bool {
    let st = encoder_after(pixels);
    let read = replay(decoder_start(), chunks_written(pixels));
    &&& read.readable
    &&& read.pixels + repeated(st.codec.previous, st.run) == pixels
    &&& read.state.previous == st.codec.previous
    &&& read.state.index.len() == 64
    &&& read.state.index[index_position(read.state.previous)] == Some(read.state.previous)
    &&& forall|slot: int|
        0 <= slot < 64 && (#[trigger] st.codec.index[slot]) is Some ==> read.state.index[slot]
            == st.codec.index[slot]
}

/// Encoder and decoder stay in step.
proof fn lemma_in_step(pixels: Seq<Pixel>)
    ensures
        in_step(pixels),
    decreases pixels.len(),
{
    let start = decoder_start();
    if pixels.len() == 0 {
        let read = replay(start, chunks_written(pixels));
        assert(read.pixels + repeated(start.previous, 0) =~= pixels);
    } else {
        let before = pixels.drop_last();
        let p = pixels.last();
        let st = encoder_after(before);
        let written = chunks_written(before);
        let read = replay(start, written);
        lemma_in_step(before);
        lemma_encoder_steady(before);
        let previous = st.codec.previous;
        let operation = st.operation(p);
        let after = encoder_after(pixels);
        assert(after == st.advance(p));
        assert(chunks_written(pixels) == written + st.emitted(p));
        if operation == Operation::QoiOpRun {
            assert(st.codec.record(p).index =~= st.codec.index.update(
                index_position(previous),
                Some(previous),
            ));
            if st.run + 1 == 62 {
                let run = Chunk::Run { length: 62 };
                assert(written + st.emitted(p) =~= written.push(run));
                lemma_replay_push(start, written, run);
                let now = replay(start, written.push(run));
                assert(now.state.index =~= read.state.index);
                assert(now.pixels + repeated(previous, 0) =~= pixels) by {
                    assert(pixels =~= before.push(p));
                    assert(read.pixels + repeated(previous, 61) == before);
                    assert(now.pixels == read.pixels + repeated(previous, 62));
                }
            } else {
                assert(written + st.emitted(p) =~= written);
                assert(read.pixels + repeated(previous, st.run + 1) =~= pixels) by {
                    assert(pixels =~= before.push(p));
                    assert(read.pixels + repeated(previous, st.run) == before);
                }
            }
        } else {
            let chunk = chunk_for(operation, previous, p);
            let flushed = if st.run > 0 {
                written.push(Chunk::Run { length: st.run as int })
            } else {
                written
            };
            assert(written + st.emitted(p) =~= flushed.push(chunk));
            let ready = replay(start, flushed);
            if st.run > 0 {
                lemma_replay_push(start, written, Chunk::Run { length: st.run as int });
                assert(ready.state.index =~= read.state.index);
            }
            assert(ready.pixels =~= before);
            assert(ready.state == read.state);
            lemma_chosen_chunk_restores(previous, p, st.codec.index, ready.state);
            lemma_replay_push(start, flushed, chunk);
            let now = replay(start, flushed.push(chunk));
            assert(now.pixels =~= pixels) by {
                assert(pixels =~= before.push(p));
                assert(repeated(p, 1) =~= seq![p]);
            }
            assert(now.pixels + repeated(p, 0) =~= pixels);
        }
    }
}

/// The body that the encoder writes for `pixels` decodes to `pixels`, with
/// nothing left over.
pub proof fn body_decodes_to_its_pixels(pixels: Seq<Pixel>)
    ensures
        decode_stream(decoder_start(), serialize(encoded_chunks(pixels))) == (Decoded {
            pixels,
            consumed: serialize(encoded_chunks(pixels)).len(),
            complete: true,
        }),
{
    let start = decoder_start();
    let st = encoder_after(pixels);
    let written = chunks_written(pixels);
    lemma_in_step(pixels);
    lemma_encoder_steady(pixels);
    chunks_are_well_formed(pixels);
    let chunks = encoded_chunks(pixels);
    let read = replay(start, written);
    if st.run > 0 {
        let run = Chunk::Run { length: st.run as int };
        assert(chunks =~= written.push(run));
        lemma_replay_push(start, written, run);
    } else {
        assert(chunks =~= written);
        assert(read.pixels + repeated(st.codec.previous, 0) =~= read.pixels);
    }
    let all = replay(start, chunks);
    assert(all.readable);
    assert(all.pixels =~= pixels);
    let nothing = Seq::<u8>::empty();
    lemma_decode_serialized(start, chunks, nothing);
    lemma_decode_nothing(all.state, nothing);
    assert(serialize(chunks) + nothing =~= serialize(chunks));
    assert(all.pixels + Seq::<Pixel>::empty() =~= pixels);
}

/// The four bytes of a number spell that number.
pub proof fn lemma_be32_read_back(value: u32)
    ensures
        be32_value(be32(value)) == value,
        be32(value).len() == 4,
{
}

/// A header is read back from its bytes, whatever follows them.
pub proof fn header_is_read_back(metadata: ImgMetadata, tail: Seq<u8>)
    ensures
        parsed_header(header_bytes(metadata) + tail) == Some(metadata),
        header_bytes(metadata).len() == 14,
        (header_bytes(metadata) + tail).skip(14) == tail,
{
    let bytes = header_bytes(metadata) + tail;
    lemma_be32_read_back(metadata.width);
    lemma_be32_read_back(metadata.height);
    assert(bytes.take(4) =~= magic());
    assert(bytes.skip(4).take(4) =~= be32(metadata.width));
    assert(bytes.skip(8).take(4) =~= be32(metadata.height));
    assert(be32_value(bytes.skip(4)) == be32_value(be32(metadata.width))) by {
        let found = bytes.skip(4);
        let made = be32(metadata.width);
        assert(found[0] == made[0] && found[1] == made[1] && found[2] == made[2] && found[3]
            == made[3]);
    }
    assert(be32_value(bytes.skip(8)) == be32_value(be32(metadata.height))) by {
        let found = bytes.skip(8);
        let made = be32(metadata.height);
        assert(found[0] == made[0] && found[1] == made[1] && found[2] == made[2] && found[3]
            == made[3]);
    }
    assert(bytes.skip(14) =~= tail);
}

/// A buffer of `count` times three or four samples holds `count` whole pixels.
proof fn lemma_whole_pixels(samples: Seq<u8>, count: int, alpha: bool)
    requires
        samples.len() == count * samples_per_pixel(alpha),
    ensures
        pixels_of(samples, alpha).len() == count,
        samples.len() % samples_per_pixel(alpha) as nat == 0,
{
    if alpha {
        assert(samples_per_pixel(alpha) == 4);
        assert(pixels_of(samples, alpha).len() == samples.len() / 4);
    } else {
        assert(samples_per_pixel(alpha) == 3);
        assert(pixels_of(samples, alpha).len() == samples.len() / 3);
    }
}

/// Decoding what was encoded gives back the metadata and the samples, for
/// every buffer that holds as many pixels as the metadata announces.
pub proof fn decode_inverts_encode(samples: Seq<u8>, metadata: ImgMetadata)
    requires
        samples.len() == metadata.width * metadata.height * samples_per_pixel(
            metadata.channels.has_alpha(),
        ),
    ensures
        decoded_image(encoded_image(samples, metadata)) == Ok::<(ImgMetadata, Seq<u8>), QoiError>(
            (metadata, samples),
        ),
{
    let alpha = metadata.channels.has_alpha();
    let pixels = pixels_of(samples, alpha);
    let header = header_bytes(metadata);
    let body = encoded_body(samples, alpha);
    let file = encoded_image(samples, metadata);
    let framed = file.take(file.len() - 8);
    assert(file.skip(file.len() - 8) =~= end_marker());
    assert(framed =~= header + body);
    header_is_read_back(metadata, body);
    body_decodes_to_its_pixels(pixels);
    lemma_whole_pixels(samples, metadata.width * metadata.height, alpha);
    lemma_samples_of_pixels(samples, alpha);
}

} // verus!
