//! What holds of every stream that the encoder writes.

use vstd::prelude::*;
use crate::{Operation, Pixel};
use crate::encoder::{
    blue_beyond_green, chunk_for, chunks_written, encoded_chunks, encoder_after, encoder_start,
    fits_diff, fits_luma, longest_run, red_beyond_green, select_operation, EncoderState,
};
use crate::stream::{channel_delta, index_position, repeated, wrap8, Chunk, CodecState};

verus! {

/// An RGBA chunk is chosen exactly when the alpha differs from the pixel
/// before, and an RGB chunk only when it does not; read back, an RGB chunk
/// gives a pixel with the alpha of the pixel before.
pub proof fn alpha_changes_only_by_rgba(
    previous: Pixel,
    current: Pixel,
    index: Seq<Option<Pixel>>,
    r: u8,
    g: u8,
    b: u8,
    st: CodecState,
)
    ensures
        select_operation(previous, current, index) == Operation::QoiOpRgba <==> current.a
            != previous.a,
        select_operation(previous, current, index) == Operation::QoiOpRgb ==> current.a
            == previous.a,
        (Chunk::Rgb { r, g, b }).pixel(st) matches Some(p) && p.a == st.previous.a,
{
}

/// A DIFF chunk is chosen only when each colour sample moved by -2 to 1, and
/// a LUMA chunk only when green moved by -32 to 31 and red and blue by -8 to
/// 7 beyond green, all differences taken modulo 256.  Where the alpha is the
/// same and neither a run nor the index applies, a pixel whose differences
/// fit is written as DIFF or LUMA, never in full.
pub proof fn differences_fit_their_chunk(
    previous: Pixel,
    current: Pixel,
    index: Seq<Option<Pixel>>,
)
    ensures
        select_operation(previous, current, index) == Operation::QoiOpDiff ==> {
            &&& -2 <= channel_delta(current.r, previous.r) <= 1
            &&& -2 <= channel_delta(current.g, previous.g) <= 1
            &&& -2 <= channel_delta(current.b, previous.b) <= 1
        },
        select_operation(previous, current, index) == Operation::QoiOpLuma ==> {
            &&& -32 <= channel_delta(current.g, previous.g) <= 31
            &&& -8 <= red_beyond_green(previous, current) <= 7
            &&& -8 <= blue_beyond_green(previous, current) <= 7
        },
        select_operation(previous, current, index) == Operation::QoiOpRgb ==> !fits_diff(
            previous,
            current,
        ) && !fits_luma(previous, current),
        current.a == previous.a && current != previous && index[index_position(current)] != Some(
            current,
        ) ==> {
            &&& fits_diff(previous, current) ==> select_operation(previous, current, index)
                == Operation::QoiOpDiff
            &&& !fits_diff(previous, current) && fits_luma(previous, current) ==> select_operation(
                previous,
                current,
                index,
            ) == Operation::QoiOpLuma
        },
{
}

/// The difference between two samples is the one number from -128 to 127
/// that leads from the sample before to the sample, counting modulo 256.
pub proof fn difference_is_modular(current: u8, previous: u8, d: int)
    ensures
        -128 <= channel_delta(current, previous) <= 127,
        wrap8(previous + channel_delta(current, previous)) == current,
        -128 <= d <= 127 && wrap8(previous + d) == current ==> d == channel_delta(
            current,
            previous,
        ),
{
}

/// A repetition of the pixel before is counted and writes nothing, until the
/// count reaches 62: then a run of 62 is written and the count starts again
/// from nothing, so that the next repetition is the first of a new run.
pub proof fn run_is_written_at_its_limit(st: EncoderState)
    requires
        st.run < longest_run(),
    ensures
        st.operation(st.codec.previous) == Operation::QoiOpRun,
        st.run + 1 < longest_run() ==> {
            &&& st.emitted(st.codec.previous) == Seq::<Chunk>::empty()
            &&& st.advance(st.codec.previous).run == st.run + 1
        },
        st.run + 1 == longest_run() ==> {
            &&& st.emitted(st.codec.previous) == seq![Chunk::Run { length: 62 }]
            &&& st.advance(st.codec.previous).run == 0
        },
        st.advance(st.codec.previous).codec.previous == st.codec.previous,
{
}

/// `count` runs of the greatest length.
pub open spec fn full_runs(count: nat) -> Seq<Chunk> {
    Seq::new(count, |i: int| Chunk::Run { length: 62 })
}

/// Counting one more in steps of 62.
proof fn lemma_count_on(total: nat)
    ensures
        total % 62 + 1 == 62 ==> (total + 1) % 62 == 0 && (total + 1) / 62 == total / 62 + 1,
        total % 62 + 1 != 62 ==> (total + 1) % 62 == total % 62 + 1 && (total + 1) / 62 == total
            / 62,
{
}

/// What one more repetition of the pixel before does.
proof fn lemma_one_repetition(pixels: Seq<Pixel>)
    ensures
        ({
            let st = encoder_after(pixels);
            let longer = pixels.push(st.codec.previous);
            &&& encoder_after(longer).codec.previous == st.codec.previous
            &&& st.run + 1 == 62 ==> encoder_after(longer).run == 0 && chunks_written(longer)
                == chunks_written(pixels).push(Chunk::Run { length: 62 })
            &&& st.run + 1 != 62 ==> encoder_after(longer).run == st.run + 1 && chunks_written(
                longer,
            ) == chunks_written(pixels)
        }),
{
    let st = encoder_after(pixels);
    let longer = pixels.push(st.codec.previous);
    assert(longer.drop_last() =~= pixels);
    lemma_encoder_steady(pixels);
    run_is_written_at_its_limit(st);
    if st.run + 1 == 62 {
        assert(chunks_written(pixels) + st.emitted(st.codec.previous) =~= chunks_written(
            pixels,
        ).push(Chunk::Run { length: 62 }));
    } else {
        assert(chunks_written(pixels) + st.emitted(st.codec.previous) =~= chunks_written(pixels));
    }
}

/// However many repetitions of the pixel before arrive, a run of 62 is
/// written each time the count reaches 62, and what is left is counted on.
pub proof fn repetitions_are_cut_into_runs(pixels: Seq<Pixel>, count: nat)
    ensures
        ({
            let st = encoder_after(pixels);
            let longer = pixels + repeated(st.codec.previous, count);
            &&& encoder_after(longer).run == (st.run + count) % 62
            &&& encoder_after(longer).codec.previous == st.codec.previous
            &&& chunks_written(longer) == chunks_written(pixels) + full_runs(
                (st.run + count) / 62,
            )
        }),
    decreases count,
{
    let st = encoder_after(pixels);
    let previous = st.codec.previous;
    let longer = pixels + repeated(previous, count);
    let written = chunks_written(pixels);
    if count == 0 {
        lemma_encoder_steady(pixels);
        assert(longer =~= pixels);
        assert(written + full_runs(0) =~= written);
    } else {
        let fewer = (count - 1) as nat;
        let shorter = pixels + repeated(previous, fewer);
        repetitions_are_cut_into_runs(pixels, fewer);
        lemma_one_repetition(shorter);
        assert(longer =~= shorter.push(previous));
        lemma_count_on(st.run + fewer);
        let runs = (st.run + fewer) / 62;
        if (st.run + fewer) % 62 + 1 == 62 {
            assert((written + full_runs(runs)).push(Chunk::Run { length: 62 }) =~= written
                + full_runs(runs + 1));
        }
    }
}

/// What holds of an encoder between two pixels: the index has its slots, the
/// pending run is shorter than a chunk can hold, and once a pixel has been
/// taken, it is the pixel before and lies in its slot of the index.
pub open spec fn encoder_steady(pixels: Seq<Pixel>) -> bool {
    let st = encoder_after(pixels);
    &&& st.codec.well_formed()
    &&& st.run < longest_run()
    &&& pixels.len() == 0 ==> st == encoder_start()
    &&& pixels.len() > 0 ==> {
        &&& st.codec.previous == pixels.last()
        &&& st.codec.index[index_position(pixels.last())] == Some(pixels.last())
    }
}

/// An encoder is steady whatever pixels it has taken.
pub proof fn lemma_encoder_steady(pixels: Seq<Pixel>)
    ensures
        encoder_steady(pixels),
    decreases pixels.len(),
{
    if pixels.len() > 0 {
        lemma_encoder_steady(pixels.drop_last());
    }
}

/// Every chunk of `chunks` is well formed.
pub open spec fn all_well_formed(chunks: Seq<Chunk>) -> bool {
    forall|i: int| 0 <= i < chunks.len() ==> (#[trigger] chunks[i]).well_formed()
}

/// The chunk chosen for a pixel is well formed.
pub proof fn lemma_chosen_chunk_well_formed(
    previous: Pixel,
    current: Pixel,
    index: Seq<Option<Pixel>>,
)
    ensures
        chunk_for(select_operation(previous, current, index), previous, current).well_formed(),
{
}

/// The chunks written on the way are well formed.
proof fn lemma_written_well_formed(pixels: Seq<Pixel>)
    ensures
        all_well_formed(chunks_written(pixels)),
    decreases pixels.len(),
{
    if pixels.len() > 0 {
        let before = pixels.drop_last();
        let st = encoder_after(before);
        let p = pixels.last();
        lemma_written_well_formed(before);
        lemma_encoder_steady(before);
        lemma_chosen_chunk_well_formed(st.codec.previous, p, st.codec.index);
        let written = chunks_written(before);
        let emitted = st.emitted(p);
        assert forall|i: int| 0 <= i < (written + emitted).len() implies (#[trigger] (written
            + emitted)[i]).well_formed() by {
            if i < written.len() {
                assert((written + emitted)[i] == written[i]);
            } else {
                assert((written + emitted)[i] == emitted[i - written.len()]);
            }
        }
    }
}

/// Every chunk that the encoder writes is well formed.  In particular every
/// run is 1 to 62 long: the two values of the field that would read as 63 and
/// 64, and that would make the byte the tag of an RGB or RGBA chunk, never
/// occur.
pub proof fn chunks_are_well_formed(pixels: Seq<Pixel>)
    ensures
        all_well_formed(encoded_chunks(pixels)),
        forall|i: int|
            0 <= i < encoded_chunks(pixels).len() ==> (#[trigger] encoded_chunks(
                pixels,
            )[i] matches Chunk::Run { length } ==> 1 <= length <= 62),
{
    lemma_written_well_formed(pixels);
    lemma_encoder_steady(pixels);
    let written = chunks_written(pixels);
    let pending = encoder_after(pixels).pending();
    assert forall|i: int| 0 <= i < (written + pending).len() implies (#[trigger] (written
        + pending)[i]).well_formed() by {
        if i < written.len() {
            assert((written + pending)[i] == written[i]);
        } else {
            assert((written + pending)[i] == pending[i - written.len()]);
        }
    }
}

/// No INDEX chunk of `chunks` is followed at once by an INDEX chunk for the
/// same slot.
pub open spec fn index_never_repeated(chunks: Seq<Chunk>) -> bool {
    forall|i: int|
        0 <= i && i + 1 < chunks.len() ==> !((#[trigger] chunks[i]) is Index && chunks[i + 1] is Index
            && chunks[i]->slot == chunks[i + 1]->slot)
}

/// Where the last chunk written is an INDEX chunk and no run is pending, the
/// chunk names the slot of the pixel before.
spec fn last_index_is_previous(pixels: Seq<Pixel>) -> bool {
    let written = chunks_written(pixels);
    let st = encoder_after(pixels);
    written.len() > 0 && st.run == 0 && written.last() is Index ==> written.last()->slot
        == index_position(st.codec.previous) && pixels.len() > 0
}

/// The chunks written on the way never repeat an INDEX chunk.
proof fn lemma_written_never_repeats(pixels: Seq<Pixel>)
    ensures
        index_never_repeated(chunks_written(pixels)),
        last_index_is_previous(pixels),
    decreases pixels.len(),
{
    if pixels.len() > 0 {
        let before = pixels.drop_last();
        let st = encoder_after(before);
        let p = pixels.last();
        lemma_written_never_repeats(before);
        lemma_encoder_steady(before);
        lemma_encoder_steady(pixels);
        let written = chunks_written(before);
        let emitted = st.emitted(p);
        let all = written + emitted;
        assert(chunks_written(pixels) == all);
        assert forall|i: int| 0 <= i && i + 1 < all.len() implies !((#[trigger] all[i]) is Index
            && all[i + 1] is Index && all[i]->slot == all[i + 1]->slot) by {
            if i + 1 < written.len() {
                assert(all[i] == written[i]);
                assert(all[i + 1] == written[i + 1]);
            } else if i + 1 == written.len() {
                assert(all[i] == written.last());
                assert(all[i + 1] == emitted[0]);
            } else {
                assert(all[i] == emitted[i - written.len()]);
                assert(all[i + 1] == emitted[i + 1 - written.len()]);
            }
        }
        if all.len() > 0 && encoder_after(pixels).run == 0 && all.last() is Index {
            assert(emitted.len() > 0);
            assert(all.last() == emitted.last());
        }
    }
}

/// The encoder never writes two INDEX chunks for the same slot one after the
/// other: the second pixel would be the first again, and is counted as a run.
pub proof fn index_chunks_never_repeat(pixels: Seq<Pixel>)
    ensures
        index_never_repeated(encoded_chunks(pixels)),
{
    lemma_written_never_repeats(pixels);
    let written = chunks_written(pixels);
    let pending = encoder_after(pixels).pending();
    let all = written + pending;
    assert forall|i: int| 0 <= i && i + 1 < all.len() implies !((#[trigger] all[i]) is Index
        && all[i + 1] is Index && all[i]->slot == all[i + 1]->slot) by {
        if i + 1 < written.len() {
            assert(all[i] == written[i]);
            assert(all[i + 1] == written[i + 1]);
        } else {
            assert(all[i + 1] == pending[i + 1 - written.len()]);
        }
    }
}

} // verus!
