use std::io::Cursor;

use jaqoi::{decode, encode, Channels, Colorspace, ImgMetadata};

fn create_random_image(width: u32, height: u32) -> image::RgbImage {
    let mut img = image::RgbImage::new(width, height);
    for x in 0..width {
        for y in 0..height {
            img.put_pixel(
                x,
                y,
                image::Rgb([(x % 256) as u8, (y % 256) as u8, (x + y % 256) as u8]),
            );
        }
    }
    img
}

#[test]
fn test_encode() {
    let source_image = create_random_image(2, 2);

    let metadata = ImgMetadata {
        width: 2,
        height: 2,
        channels: Channels::RGB,
        colorspace: Colorspace::SrgbLinearAlpha,
    };

    let qoi: Vec<u8> = encode(source_image.as_raw(), &metadata).unwrap();

    let mut reader = image::io::Reader::new(Cursor::new(qoi));
    reader.set_format(image::ImageFormat::Qoi);
    let output_image = reader.decode().expect("Decode should be successful");
    let output_image = output_image.as_rgb8().expect("Should be rgb8");
    assert!(source_image.eq(output_image));
}

#[test]
fn test_decode() {
    let source_image = create_random_image(2, 2);

    let mut qoi: Vec<u8> = Vec::new();
    source_image
        .write_to(&mut Cursor::new(&mut qoi), image::ImageFormat::Qoi)
        .expect("Encode should be successful");

    let (metadata, samples) = decode(&qoi).unwrap();

    assert_eq!(metadata.width, 2);
    assert_eq!(metadata.height, 2);
    assert_eq!(metadata.channels, Channels::RGB);
    assert_eq!(&samples, source_image.as_raw());
}
