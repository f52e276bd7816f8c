use std::io::Cursor;
use stillkit::embedded::{
    decode_embedded, file_orientation, jpeg_candidates, largest_jpeg, orientation_from_exif, orientations, HeifTransform,
    Orientation,
};

fn jpeg_of(width: u32, height: u32) -> Vec<u8> {
    let mut jpeg = Cursor::new(Vec::new());
    image::DynamicImage::new_rgb8(width, height)
        .write_to(&mut jpeg, image::ImageFormat::Jpeg)
        .unwrap();
    jpeg.into_inner()
}

#[test]
fn selects_largest_embedded_jpeg_and_rejects_insufficient_resolution() {
    let mut data = b"RAW container\xff\xd8\xff invalid jpeg".to_vec();
    for (width, height) in [(8, 4), (32, 16), (16, 8)] {
        data.extend(jpeg_of(width, height));
    }
    let (image, source) = largest_jpeg(&data, 16).unwrap();
    assert_eq!((image.width(), image.height()), (32, 16));
    assert_eq!(source.0, 512);
    assert!(largest_jpeg(&data, 64).is_err());
    assert!(largest_jpeg(b"invalid raw", 1).is_err());
}

#[test]
fn candidates_are_ordered_largest_first() {
    let mut data = Vec::new();
    data.extend(jpeg_of(16, 8));
    let second = data.len();
    data.extend(jpeg_of(32, 16));
    let candidates = jpeg_candidates(&data, 8);
    assert_eq!(candidates.first(), Some(&(512, second)));
    assert_eq!(candidates.last(), Some(&(128, 0)));
    assert!(candidates.windows(2).all(|w| w[0] > w[1]));
    assert_eq!(
        largest_jpeg(b"none", 1).err(),
        Some("No decodable embedded JPEG large enough for the requested preview".to_string())
    );
}

#[test]
fn heif_transforms_map_to_orientations() {
    assert_eq!(
        orientations(&vec![HeifTransform::Rotation(0), HeifTransform::Rotation(90), HeifTransform::Mirror(1)]),
        Some(vec![Orientation::Rotate90, Orientation::FlipVertical])
    );
    assert_eq!(orientations(&vec![HeifTransform::Rotation(45)]), None);
    assert_eq!(orientations(&vec![HeifTransform::Mirror(0), HeifTransform::CleanAperture]), None);
    assert_eq!(orientations(&Vec::new()), Some(Vec::new()));
}

#[test]
fn applies_container_orientation_to_embedded_preview() {
    // Little-endian TIFF IFD0 containing Orientation=6 (90 degrees clockwise).
    let mut data = vec![
        0x49, 0x49, 42, 0, 8, 0, 0, 0, 1, 0, 0x12, 1, 3, 0, 1, 0, 0, 0, 6, 0, 0, 0, 0, 0, 0, 0,
    ];
    let mut jpeg = Cursor::new(Vec::new());
    image::DynamicImage::new_rgb8(32, 16)
        .write_to(&mut jpeg, image::ImageFormat::Jpeg)
        .unwrap();
    data.extend(jpeg.into_inner());
    let preview = decode_embedded(data, 16).unwrap();
    assert_eq!((preview.image.width(), preview.image.height()), (16, 32));
    assert_eq!(preview.orientation, Some(Orientation::Rotate90));
    assert_eq!(preview.source, (512, 26));
    assert_eq!(preview.dims, (16, 32));
}

#[test]
fn file_orientation_reads_the_exif_number() {
    let data = vec![
        0x49, 0x49, 42, 0, 8, 0, 0, 0, 1, 0, 0x12, 1, 3, 0, 1, 0, 0, 0, 6, 0, 0, 0, 0, 0, 0, 0,
    ];
    assert_eq!(file_orientation(&data), Some(Orientation::Rotate90));
    assert_eq!(file_orientation(b"no exif here"), None);
    let mut plain = jpeg_of(32, 16);
    assert_eq!(file_orientation(&plain), None);
    plain.truncate(4);
    assert!(decode_embedded(plain, 1).is_err());
}

#[test]
fn exif_orientation_numbers() {
    let expected = [
        Orientation::NoTransforms,
        Orientation::FlipHorizontal,
        Orientation::Rotate180,
        Orientation::FlipVertical,
        Orientation::Rotate90FlipH,
        Orientation::Rotate90,
        Orientation::Rotate270FlipH,
        Orientation::Rotate270,
    ];
    for (i, o) in expected.iter().enumerate() {
        assert_eq!(orientation_from_exif(i as u8 + 1), Some(*o));
    }
    assert_eq!(orientation_from_exif(0), None);
    assert_eq!(orientation_from_exif(9), None);
}

#[test]
fn embedded_preview_pixels_are_turned_half_way() {
    // Little-endian TIFF IFD0 containing Orientation=3 (half turn).
    let mut data = vec![
        0x49, 0x49, 42, 0, 8, 0, 0, 0, 1, 0, 0x12, 1, 3, 0, 1, 0, 0, 0, 3, 0, 0, 0, 0, 0, 0, 0,
    ];
    let mut source = image::RgbImage::new(32, 16);
    for (x, _, pixel) in source.enumerate_pixels_mut() {
        *pixel = if x < 16 { image::Rgb([255, 255, 255]) } else { image::Rgb([0, 0, 0]) };
    }
    let mut jpeg = Cursor::new(Vec::new());
    image::DynamicImage::ImageRgb8(source)
        .write_to(&mut jpeg, image::ImageFormat::Jpeg)
        .unwrap();
    let encoded = jpeg.into_inner();
    data.extend(encoded.clone());
    let decoded = image::load_from_memory_with_format(&encoded, image::ImageFormat::Jpeg).unwrap().to_rgb8();
    let preview = decode_embedded(data, 16).unwrap();
    assert_eq!(preview.orientation, Some(Orientation::Rotate180));
    let turned = preview.image.to_rgb8();
    assert_eq!(turned.dimensions(), (32, 16));
    for (x, y, pixel) in turned.enumerate_pixels() {
        assert_eq!(pixel, decoded.get_pixel(31 - x, 15 - y));
    }
    assert!(turned.get_pixel(0, 0)[0] < 64);
    assert!(turned.get_pixel(31, 0)[0] > 192);
}
