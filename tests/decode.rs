use std::io::Cursor;

use photo_culler::decode::{decode_image, rgb_to_rgba, thumbnail_size, MAX_SIDE};

fn encoded(w: u32, h: u32, format: image::ImageFormat) -> Vec<u8> {
    let img = image::RgbImage::from_fn(w, h, |x, y| image::Rgb([(x % 256) as u8, (y % 256) as u8, 128]));
    let mut out = Cursor::new(Vec::new());
    image::DynamicImage::ImageRgb8(img).write_to(&mut out, format).unwrap();
    out.into_inner()
}

#[test]
fn thumbnail_size_values() {
    assert_eq!(thumbnail_size(3000, 1500), (2000, 1000));
    assert_eq!(thumbnail_size(1000, 800), (1000, 800));
    assert_eq!(thumbnail_size(2000, 2000), (2000, 2000));
    assert_eq!(thumbnail_size(1500, 4001), (750, 2000));
    assert_eq!(thumbnail_size(5000, 1), (2000, 1));
    assert_eq!(thumbnail_size(4000, 3001), (2000, 1501));
    assert_eq!(MAX_SIDE, 2000);
}

#[test]
fn rgb_gets_opaque_alpha() {
    assert_eq!(rgb_to_rgba(&vec![1, 2, 3, 4, 5, 6], 2, 1), Some(vec![1, 2, 3, 255, 4, 5, 6, 255]));
    assert_eq!(rgb_to_rgba(&vec![1, 2, 3, 4, 5, 6, 9], 1, 2), Some(vec![1, 2, 3, 255, 4, 5, 6, 255]));
    assert_eq!(rgb_to_rgba(&vec![1, 2, 3, 4, 5], 2, 1), None);
    assert_eq!(rgb_to_rgba(&vec![], 0, 5), Some(vec![]));
}

#[test]
fn large_png_is_downscaled_keeping_aspect() {
    let bytes = encoded(3000, 1500, image::ImageFormat::Png);
    let d = decode_image(&Some("png".to_string()), &bytes).unwrap();
    assert_eq!((d.width, d.height), (2000, 1000));
    assert_eq!(d.pixels.len(), 2000 * 1000 * 4);
}

#[test]
fn small_png_keeps_its_size_and_pixels() {
    let bytes = encoded(3, 2, image::ImageFormat::Png);
    let d = decode_image(&Some("PNG".to_string()), &bytes).unwrap();
    assert_eq!((d.width, d.height), (3, 2));
    assert_eq!(&d.pixels[0..8], &[0, 0, 128, 255, 1, 0, 128, 255]);
}

#[test]
fn jpeg_extension_in_any_case_decodes() {
    let bytes = encoded(40, 30, image::ImageFormat::Jpeg);
    for ext in ["jpg", "JPG", "Jpeg"] {
        let d = decode_image(&Some(ext.to_string()), &bytes).unwrap();
        assert_eq!((d.width, d.height), (40, 30));
        assert_eq!(d.pixels.len(), 40 * 30 * 4);
        assert!(d.pixels.chunks(4).all(|p| p[3] == 255));
    }
}

#[test]
fn tall_jpeg_is_downscaled() {
    let bytes = encoded(300, 2400, image::ImageFormat::Jpeg);
    let d = decode_image(&Some("jpeg".to_string()), &bytes).unwrap();
    assert_eq!((d.width, d.height), (250, 2000));
    assert_eq!(d.pixels.len(), 250 * 2000 * 4);
}

#[test]
fn corrupt_data_gives_nothing() {
    let junk = vec![0xFFu8, 0xD8, 0x00, 0x13, 0x37];
    assert!(decode_image(&Some("jpg".to_string()), &junk).is_none());
    assert!(decode_image(&Some("png".to_string()), &junk).is_none());
    assert!(decode_image(&Some("png".to_string()), &Vec::new()).is_none());
}

#[test]
fn missing_extension_gives_nothing() {
    let bytes = encoded(3, 2, image::ImageFormat::Png);
    assert!(decode_image(&None, &bytes).is_none());
}
