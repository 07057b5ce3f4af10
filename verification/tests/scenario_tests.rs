use std::io::Cursor;

use jaqoi::decoder::{parse_chunks, parse_metadata, parse_operation, verify_ending, ByteCursor};
use jaqoi::encoder::{add_chunks, calculate_index, find_operation};
use jaqoi::{decode, encode, Channels, Colorspace, ImgMetadata, Operation, Pixel, QoiError};

fn metadata(width: u32, height: u32, channels: Channels) -> ImgMetadata {
    ImgMetadata { width, height, channels, colorspace: Colorspace::SrgbLinearAlpha }
}

fn body(samples: &Vec<u8>, alpha: bool) -> Vec<u8> {
    let mut bytes: Vec<u8> = Vec::new();
    add_chunks(&mut bytes, samples, alpha).unwrap();
    bytes
}

/// The kinds of the chunks of a body, in order, with the first byte of each.
fn chunk_tags(body: &Vec<u8>) -> Vec<(Operation, u8)> {
    let mut tags: Vec<(Operation, u8)> = Vec::new();
    let mut at: usize = 0;
    while at < body.len() {
        let operation = parse_operation(&body[at]);
        tags.push((operation, body[at]));
        at += match operation {
            Operation::QoiOpRgb => 4,
            Operation::QoiOpRgba => 5,
            Operation::QoiOpLuma => 2,
            _ => 1,
        };
    }
    tags
}

/// Samples that change slowly, jump, repeat and come back.
fn varied_samples(pixels: usize, alpha: bool) -> Vec<u8> {
    let mut samples: Vec<u8> = Vec::new();
    let mut seed: u32 = 12345;
    let mut r: u8 = 0;
    let mut g: u8 = 250;
    let mut b: u8 = 7;
    let mut a: u8 = 255;
    for n in 0..pixels {
        seed = seed.wrapping_mul(1103515245).wrapping_add(12345);
        let choice: u32 = (seed >> 16) % 10;
        if choice < 3 {
            // a repetition
        } else if choice < 5 {
            r = r.wrapping_add(((seed >> 8) % 4) as u8).wrapping_sub(2);
            g = g.wrapping_add(((seed >> 10) % 4) as u8).wrapping_sub(2);
            b = b.wrapping_add(((seed >> 12) % 4) as u8).wrapping_sub(2);
        } else if choice < 7 {
            let dg: u8 = ((seed >> 8) % 64) as u8;
            g = g.wrapping_add(dg).wrapping_sub(32);
            r = r.wrapping_add(dg).wrapping_sub(32).wrapping_add(((seed >> 14) % 16) as u8).wrapping_sub(8);
            b = b.wrapping_add(dg).wrapping_sub(32).wrapping_add(((seed >> 18) % 16) as u8).wrapping_sub(8);
        } else if choice < 8 {
            r = (n % 3) as u8 * 90;
            g = (n % 5) as u8 * 40;
            b = (n % 2) as u8 * 200;
        } else if choice < 9 {
            r = (seed >> 8) as u8;
            g = (seed >> 16) as u8;
            b = (seed >> 24) as u8;
        } else if alpha {
            a = (seed >> 20) as u8;
        }
        samples.push(r);
        samples.push(g);
        samples.push(b);
        if alpha {
            samples.push(a);
        }
    }
    samples
}

#[test]
fn empty_image_is_header_and_end_marker() {
    let md = metadata(0, 0, Channels::RGB);
    let stream: Vec<u8> = encode(&Vec::new(), &md).unwrap();
    assert_eq!(
        stream,
        vec![
            0x71, 0x6F, 0x69, 0x66, 0, 0, 0, 0, 0, 0, 0, 0, 3, 0, 0, 0, 0, 0, 0, 0, 0, 1
        ]
    );
    let (read, samples) = decode(&stream).unwrap();
    assert_eq!(read, md);
    assert_eq!(samples, Vec::<u8>::new());
}

#[test]
fn single_pixel_is_one_rgb_chunk() {
    let stream: Vec<u8> = encode(&vec![50, 50, 50], &metadata(1, 1, Channels::RGB)).unwrap();
    assert_eq!(stream.len(), 14 + 4 + 8);
    assert_eq!(&stream[14..18], &[0xFE, 0x32, 0x32, 0x32]);
}

#[test]
fn three_black_pixels_are_one_run() {
    let samples: Vec<u8> = vec![0; 9];
    let stream: Vec<u8> = encode(&samples, &metadata(3, 1, Channels::RGB)).unwrap();
    assert_eq!(&stream[14..stream.len() - 8], &[0xC2]);
}

#[test]
fn sixty_three_black_pixels_are_two_runs() {
    let samples: Vec<u8> = vec![0; 63 * 3];
    assert_eq!(body(&samples, false), vec![0xFD, 0xC0]);
}

#[test]
fn long_runs_are_cut_every_sixty_two() {
    let samples: Vec<u8> = vec![0; 62 * 3];
    assert_eq!(body(&samples, false), vec![0xFD]);
    let samples: Vec<u8> = vec![0; 124 * 3];
    assert_eq!(body(&samples, false), vec![0xFD, 0xFD]);
    let samples: Vec<u8> = vec![0; 125 * 3];
    assert_eq!(body(&samples, false), vec![0xFD, 0xFD, 0xC0]);
    let mut samples: Vec<u8> = vec![9, 100, 200];
    for _ in 0..62 {
        samples.extend(vec![9, 100, 200]);
    }
    samples.extend(vec![200, 9, 100]);
    assert_eq!(body(&samples, false), vec![0xFE, 9, 100, 200, 0xFD, 0xFE, 200, 9, 100]);
}

#[test]
fn far_apart_pixels_are_two_rgb_chunks() {
    let samples: Vec<u8> = vec![17, 18, 200, 6, 100, 50];
    assert_eq!(body(&samples, false), vec![0xFE, 17, 18, 200, 0xFE, 6, 100, 50]);
}

#[test]
fn pixel_hashes_to_slot_sixty() {
    assert_eq!(calculate_index(&Pixel { r: 5, g: 107, b: 203, a: 251 }), 60);
    assert_eq!(calculate_index(&Pixel { r: 0, g: 0, b: 0, a: 255 }), 53);
    assert_eq!(calculate_index(&Pixel { r: 0, g: 0, b: 0, a: 0 }), 0);
    assert_eq!(calculate_index(&Pixel { r: 255, g: 255, b: 255, a: 255 }), (255 * 26) % 64);
}

#[test]
fn wrapped_differences_are_diff_and_luma() {
    // From (0, 0, 0) to (0, 255, 0): 0, -1, 0.  On to (255, 0, 254): -1, +1, -2.
    let samples: Vec<u8> = vec![0, 255, 0, 255, 0, 254];
    assert_eq!(body(&samples, false), vec![0b01_10_01_10, 0b01_01_11_00]);
    // From (0, 255, 0) to (250, 1, 2): green +2, red -6 = -8 beyond, blue +2 = 0 beyond.
    let samples: Vec<u8> = vec![0, 255, 0, 250, 1, 2];
    assert_eq!(body(&samples, false), vec![0b01_10_01_10, 0b10_100010, 0b0000_1000]);
}

#[test]
fn diff_and_luma_limits() {
    let index: [Option<Pixel>; 64] = [None; 64];
    let from = Pixel { r: 100, g: 100, b: 100, a: 255 };
    let op = |r: u8, g: u8, b: u8| find_operation(&from, &Pixel { r, g, b, a: 255 }, &index);
    assert_eq!(op(101, 98, 101), Operation::QoiOpDiff);
    assert_eq!(op(98, 98, 98), Operation::QoiOpDiff);
    assert_eq!(op(102, 100, 100), Operation::QoiOpLuma);
    assert_eq!(op(97, 100, 100), Operation::QoiOpLuma);
    assert_eq!(op(131 + 7, 131, 131 - 8), Operation::QoiOpLuma);
    assert_eq!(op(68 - 8, 68, 68 + 7), Operation::QoiOpLuma);
    assert_eq!(op(132, 132, 132), Operation::QoiOpRgb);
    assert_eq!(op(67, 67, 67), Operation::QoiOpRgb);
    assert_eq!(op(108, 100, 100), Operation::QoiOpRgb);
    assert_eq!(op(100, 100, 91), Operation::QoiOpRgb);
}

#[test]
fn alpha_change_is_always_rgba() {
    let mut index: [Option<Pixel>; 64] = [None; 64];
    let from = Pixel { r: 1, g: 2, b: 3, a: 4 };
    let to = Pixel { r: 1, g: 2, b: 3, a: 5 };
    index[calculate_index(&to)] = Some(to);
    assert_eq!(find_operation(&from, &to, &index), Operation::QoiOpRgba);
    assert_eq!(body(&vec![1, 2, 3, 4, 1, 2, 3, 5], true), vec![
        0xFF, 1, 2, 3, 4, 0xFF, 1, 2, 3, 5
    ]);
}

#[test]
fn index_is_compared_by_the_whole_pixel() {
    // Both pixels belong to slot 0 of the index.
    let first = Pixel { r: 64, g: 0, b: 0, a: 0 };
    let second = Pixel { r: 0, g: 64, b: 0, a: 0 };
    assert_eq!(calculate_index(&first), calculate_index(&second));
    let mut index: [Option<Pixel>; 64] = [None; 64];
    index[calculate_index(&first)] = Some(first);
    let from = Pixel { r: 9, g: 9, b: 9, a: 0 };
    assert_eq!(find_operation(&from, &first, &index), Operation::QoiOpIndex);
    assert_eq!(find_operation(&from, &second, &index), Operation::QoiOpRgb);
}

#[test]
fn odd_lengths_are_refused() {
    let md = metadata(1, 1, Channels::RGB);
    assert_eq!(encode(&vec![1, 2, 3, 4], &md), Err(QoiError::Length));
    let md = metadata(1, 1, Channels::RGBA);
    assert_eq!(encode(&vec![1, 2, 3], &md), Err(QoiError::Length));
    let mut bytes: Vec<u8> = vec![7];
    assert_eq!(add_chunks(&mut bytes, &vec![1, 2], false), Err(QoiError::Length));
    assert_eq!(bytes, vec![7]);
    assert_eq!(add_chunks(&mut bytes, &vec![1, 2, 3, 4, 5, 6], true), Err(QoiError::Length));
    assert_eq!(add_chunks(&mut bytes, &vec![], true), Ok(()));
    assert_eq!(bytes, vec![7]);
}

#[test]
fn bad_endings_are_stream_errors() {
    assert_eq!(verify_ending(&vec![0, 0, 0, 1]), Err(QoiError::Stream));
    assert_eq!(verify_ending(&vec![0, 0, 0, 0, 0, 0, 0, 0]), Err(QoiError::Stream));
    assert_eq!(verify_ending(&vec![0, 0, 0, 0, 1, 0, 0, 1]), Err(QoiError::Stream));
    assert_eq!(verify_ending(&vec![0, 0, 0, 0, 0, 0, 0, 1]), Ok(()));
    assert_eq!(decode(&vec![]), Err(QoiError::Stream));
    let mut stream: Vec<u8> = encode(&vec![1, 2, 3], &metadata(1, 1, Channels::RGB)).unwrap();
    stream.pop();
    assert_eq!(decode(&stream), Err(QoiError::Stream));
}

#[test]
fn bad_headers_are_header_errors() {
    let good: Vec<u8> = encode(&vec![1, 2, 3], &metadata(1, 1, Channels::RGB)).unwrap();
    assert!(decode(&good).is_ok());

    let mut stream: Vec<u8> = good.clone();
    stream[0] = b'Q';
    assert_eq!(decode(&stream), Err(QoiError::Header));

    let mut stream: Vec<u8> = good.clone();
    stream[12] = 5;
    assert_eq!(decode(&stream), Err(QoiError::Header));

    let mut stream: Vec<u8> = good.clone();
    stream[13] = 2;
    assert_eq!(decode(&stream), Err(QoiError::Header));

    // An end marker with fewer than 14 bytes before it.
    let stream: Vec<u8> = vec![b'q', b'o', b'i', b'f', 0, 0, 0, 0, 0, 0, 0, 0, 1];
    assert_eq!(decode(&stream), Err(QoiError::Header));

    let short: Vec<u8> = vec![b'q', b'o', b'i', b'f', 0, 0, 0, 1];
    let mut cursor = ByteCursor::new(&short);
    assert_eq!(parse_metadata(&mut cursor), Err(QoiError::Header));
    assert_eq!(cursor.len(), 8);
}

#[test]
fn bad_bodies_are_stream_errors() {
    let md = metadata(1, 1, Channels::RGB);
    let frame = |chunks: Vec<u8>| -> Vec<u8> {
        let mut stream: Vec<u8> = encode(&vec![], &md).unwrap();
        stream.truncate(14);
        stream.extend(chunks);
        stream.extend(vec![0, 0, 0, 0, 0, 0, 0, 1]);
        stream
    };
    assert_eq!(decode(&frame(vec![0xFE, 1, 2, 3])), Ok((md, vec![1, 2, 3])));
    // A chunk that is cut short.
    assert_eq!(decode(&frame(vec![0xFE, 1, 2])), Err(QoiError::Stream));
    assert_eq!(decode(&frame(vec![0xFF, 1, 2, 3])), Err(QoiError::Stream));
    assert_eq!(decode(&frame(vec![0x80])), Err(QoiError::Stream));
    // An INDEX chunk for a slot that nothing was stored in.
    assert_eq!(decode(&frame(vec![0x01])), Err(QoiError::Stream));
    // Too few and too many pixels.
    assert_eq!(decode(&frame(vec![])), Err(QoiError::Stream));
    assert_eq!(decode(&frame(vec![0xC1])), Err(QoiError::Stream));
    assert_eq!(decode(&frame(vec![0xFE, 1, 2, 3, 0xFE, 4, 5, 6])), Err(QoiError::Stream));
}

#[test]
fn decoder_knows_two_pixels_from_the_start() {
    let mut out: Vec<u8> = Vec::new();
    // Slot 0 holds the transparent black pixel, slot 53 the opaque one.
    let chunks: Vec<u8> = vec![0, 53];
    let seen: usize = parse_chunks(&mut ByteCursor::new(&chunks), &mut out, true).unwrap();
    assert_eq!(seen, 2);
    assert_eq!(out, vec![0, 0, 0, 0, 0, 0, 0, 255]);
}

#[test]
fn failed_body_keeps_the_pixels_before_the_fault() {
    let mut out: Vec<u8> = vec![42];
    let chunks: Vec<u8> = vec![0xFE, 1, 2, 3, 0xC1, 0xFE, 9, 9];
    let mut cursor = ByteCursor::new(&chunks);
    assert_eq!(parse_chunks(&mut cursor, &mut out, false), Err(QoiError::Stream));
    assert_eq!(out, vec![42, 1, 2, 3, 1, 2, 3, 1, 2, 3]);
    // The cursor stands behind the tag of the chunk that was cut short.
    assert_eq!(cursor.len(), 2);
}

#[test]
fn cursor_hands_out_bytes_in_order() {
    let bytes: Vec<u8> = vec![3, 1, 4];
    let mut cursor = ByteCursor::new(&bytes);
    assert_eq!(cursor.len(), 3);
    assert_eq!(cursor.next(), Some(3));
    assert_eq!(cursor.next(), Some(1));
    assert_eq!(cursor.len(), 1);
    assert_eq!(cursor.next(), Some(4));
    assert_eq!(cursor.next(), None);
    assert_eq!(cursor.len(), 0);
}

#[test]
fn full_byte_tags_come_before_the_two_bit_tags() {
    assert_eq!(parse_operation(&0xFD), Operation::QoiOpRun);
    assert_eq!(parse_operation(&0xFE), Operation::QoiOpRgb);
    assert_eq!(parse_operation(&0xFF), Operation::QoiOpRgba);
    assert_eq!(parse_operation(&0xC0), Operation::QoiOpRun);
    assert_eq!(parse_operation(&0x3F), Operation::QoiOpIndex);
    assert_eq!(parse_operation(&0x40), Operation::QoiOpDiff);
    assert_eq!(parse_operation(&0xBF), Operation::QoiOpLuma);
}

#[test]
fn decoding_gives_back_what_was_encoded() {
    for alpha in [false, true] {
        for pixels in [0usize, 1, 2, 61, 62, 63, 64, 200, 1999] {
            let samples: Vec<u8> = varied_samples(pixels, alpha);
            let channels = if alpha { Channels::RGBA } else { Channels::RGB };
            let md = ImgMetadata {
                width: pixels as u32,
                height: 1,
                channels,
                colorspace: Colorspace::AllLinearAlpha,
            };
            let stream: Vec<u8> = encode(&samples, &md).unwrap();
            assert_eq!(decode(&stream), Ok((md, samples)));
        }
    }
}

#[test]
fn encoding_is_the_same_every_time() {
    let samples: Vec<u8> = varied_samples(500, true);
    let md = metadata(25, 20, Channels::RGBA);
    assert_eq!(encode(&samples, &md), encode(&samples, &md));
}

#[test]
fn colorspace_changes_one_header_byte_only() {
    let samples: Vec<u8> = varied_samples(100, false);
    let srgb: Vec<u8> = encode(&samples, &metadata(10, 10, Channels::RGB)).unwrap();
    let mut md = metadata(10, 10, Channels::RGB);
    md.colorspace = Colorspace::AllLinearAlpha;
    let linear: Vec<u8> = encode(&samples, &md).unwrap();
    assert_eq!(srgb.len(), linear.len());
    assert_eq!(srgb[13], 0);
    assert_eq!(linear[13], 1);
    assert_eq!(&srgb[14..], &linear[14..]);
    assert_eq!(&srgb[..13], &linear[..13]);
}

#[test]
fn no_index_chunk_follows_itself_and_no_run_is_too_long() {
    for alpha in [false, true] {
        let samples: Vec<u8> = varied_samples(5000, alpha);
        let tags: Vec<(Operation, u8)> = chunk_tags(&body(&samples, alpha));
        let mut kinds: [bool; 6] = [false; 6];
        for n in 0..tags.len() {
            let (operation, tag) = tags[n];
            match operation {
                Operation::QoiOpRgb => kinds[0] = true,
                Operation::QoiOpRgba => kinds[1] = true,
                Operation::QoiOpIndex => kinds[2] = true,
                Operation::QoiOpDiff => kinds[3] = true,
                Operation::QoiOpLuma => kinds[4] = true,
                Operation::QoiOpRun => {
                    kinds[5] = true;
                    assert!((tag & 0x3F) + 1 <= 62);
                }
            }
            if n > 0 && operation == Operation::QoiOpIndex {
                assert_ne!(tags[n - 1], (Operation::QoiOpIndex, tag));
            }
        }
        // The samples are varied enough to need every kind of chunk that they can have.
        assert_eq!(kinds, [true, alpha, true, true, true, true]);
    }
}

#[test]
fn other_decoder_reads_our_streams() {
    for (width, height) in [(1u32, 1u32), (7, 5), (64, 3), (40, 50)] {
        let samples: Vec<u8> = varied_samples((width * height) as usize, true);
        let stream: Vec<u8> = encode(&samples, &metadata(width, height, Channels::RGBA)).unwrap();
        let mut reader = image::io::Reader::new(Cursor::new(stream));
        reader.set_format(image::ImageFormat::Qoi);
        let read = reader.decode().expect("Decode should be successful");
        let read = read.as_rgba8().expect("Should be rgba8");
        assert_eq!(read.width(), width);
        assert_eq!(read.height(), height);
        assert_eq!(read.as_raw(), &samples);
    }
}

#[test]
fn we_read_the_streams_of_another_encoder() {
    for (width, height) in [(1u32, 1u32), (7, 5), (64, 3), (40, 50)] {
        let samples: Vec<u8> = varied_samples((width * height) as usize, false);
        let source = image::RgbImage::from_raw(width, height, samples.clone()).unwrap();
        let mut stream: Vec<u8> = Vec::new();
        source
            .write_to(&mut Cursor::new(&mut stream), image::ImageFormat::Qoi)
            .expect("Encode should be successful");
        let (md, read) = decode(&stream).unwrap();
        assert_eq!(md.width, width);
        assert_eq!(md.height, height);
        assert_eq!(md.channels, Channels::RGB);
        assert_eq!(read, samples);
    }
}
