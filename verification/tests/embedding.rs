use exif::experimental::Writer;
use std::io::Cursor;
use stillkit::embedding::{embed_metadata, embed_tiff_metadata, exif_date_of, read_container_exif, source_profiles, SourceProfiles};

fn encoded(width: u32, height: u32, format: image::ImageFormat) -> Vec<u8> {
    let mut out = Cursor::new(Vec::new());
    image::DynamicImage::new_rgb8(width, height).write_to(&mut out, format).unwrap();
    out.into_inner()
}

fn no_profiles() -> SourceProfiles {
    SourceProfiles { icc: None, xmp: None, iptc: None, segments: None }
}

fn exif_width(bytes: &[u8]) -> Option<u32> {
    let exif = exif::Reader::new().read_from_container(&mut Cursor::new(bytes)).ok()?;
    exif.get_field(exif::Tag::ImageWidth, exif::In::PRIMARY)?.value.get_uint(0)
}

fn contains(haystack: &[u8], needle: &[u8]) -> bool {
    haystack.windows(needle.len()).any(|w| w == needle)
}

#[test]
fn embeds_dimensions_into_png_and_jpeg() {
    for format in [image::ImageFormat::Png, image::ImageFormat::Jpeg] {
        let out = embed_metadata(None, &no_profiles(), &encoded(4, 2, format), 4, 2, false).unwrap();
        assert_eq!(exif_width(&out), Some(4));
        assert!(image::load_from_memory(&out).is_ok());
    }
}

#[test]
fn source_fields_are_carried_and_dimensions_replaced() {
    let first = embed_metadata(None, &no_profiles(), &encoded(4, 2, image::ImageFormat::Jpeg), 4, 2, true).unwrap();
    let source = read_container_exif(&first).unwrap();
    let profiles = source_profiles(&first, false);
    let second = embed_metadata(Some(&source), &profiles, &encoded(8, 8, image::ImageFormat::Png), 8, 8, false).unwrap();
    assert_eq!(exif_width(&second), Some(8));
    let exif = exif::Reader::new().read_from_container(&mut Cursor::new(&second)).unwrap();
    let orientation = exif.get_field(exif::Tag::Orientation, exif::In::PRIMARY).unwrap();
    assert_eq!(orientation.value.get_uint(0), Some(1));
}

#[test]
fn non_image_output_is_refused() {
    assert_eq!(
        embed_metadata(None, &no_profiles(), b"not an image", 1, 1, false),
        Err("Unsupported preview metadata container".to_string())
    );
}

#[test]
fn copies_xmp_and_iptc_into_png_and_jpeg() {
    let profiles = SourceProfiles { icc: None, xmp: Some(b"<x/>".to_vec()), iptc: Some(vec![1, 2, 3]), segments: None };
    let png = embed_metadata(None, &profiles, &encoded(2, 2, image::ImageFormat::Png), 2, 2, false).unwrap();
    assert!(contains(&png, b"XML:com.adobe.xmp"));
    assert!(contains(&png, b"Raw profile type iptc"));
    let jpeg = embed_metadata(None, &profiles, &encoded(2, 2, image::ImageFormat::Jpeg), 2, 2, false).unwrap();
    assert!(contains(&jpeg, b"http://ns.adobe.com/xap/1.0/\0<x/>"));
    assert!(contains(&jpeg, b"Photoshop 3.0\0"));
    assert_eq!(stillkit::metadata::jpeg_iptc(&jpeg), Some(vec![1, 2, 3]));
}

#[test]
fn oversized_xmp_is_refused_for_jpeg() {
    let profiles = SourceProfiles { icc: None, xmp: Some(vec![b'x'; 70000]), iptc: None, segments: None };
    assert_eq!(
        embed_metadata(None, &profiles, &encoded(2, 2, image::ImageFormat::Jpeg), 2, 2, false),
        Err("XMP exceeds the JPEG segment limit".to_string())
    );
}

#[test]
fn exif_date_prefers_date_time_original() {
    let original = exif::Field {
        tag: exif::Tag::DateTimeOriginal,
        ifd_num: exif::In::PRIMARY,
        value: exif::Value::Ascii(vec![b"2026:04:15 10:30:00".to_vec()]),
    };
    let modified = exif::Field {
        tag: exif::Tag::DateTime,
        ifd_num: exif::In::PRIMARY,
        value: exif::Value::Ascii(vec![b"2025:01:02 10:30:00".to_vec()]),
    };
    let block = |fields: &[&exif::Field]| {
        let mut writer = Writer::new();
        for f in fields {
            writer.push_field(f);
        }
        let mut out = Cursor::new(Vec::new());
        writer.write(&mut out, false).unwrap();
        out.into_inner()
    };
    let with_exif = |exif_block: Vec<u8>| {
        let mut jpeg = img_parts::jpeg::Jpeg::from_bytes(encoded(2, 2, image::ImageFormat::Jpeg).into()).unwrap();
        img_parts::ImageEXIF::set_exif(&mut jpeg, Some(exif_block.into()));
        jpeg.encoder().bytes().to_vec()
    };
    let both = with_exif(block(&[&modified, &original]));
    let day = exif_date_of(&both).unwrap();
    assert_eq!((day.year(), day.month(), day.day()), (2026, 4, 15));
    let only_modified = with_exif(block(&[&modified]));
    let day = exif_date_of(&only_modified).unwrap();
    assert_eq!((day.year(), day.month(), day.day()), (2025, 1, 2));
    assert!(exif_date_of(&encoded(2, 2, image::ImageFormat::Jpeg)).is_none());
}

fn raw_uint(bytes: &[u8], tag: exif::Tag) -> Option<u32> {
    let exif = exif::Reader::new().read_raw(bytes.to_vec()).ok()?;
    exif.get_field(tag, exif::In::PRIMARY)?.value.get_uint(0)
}

#[test]
fn tiff_output_is_rebuilt_around_its_strips() {
    let tiff = encoded(3, 2, image::ImageFormat::Tiff);
    let out = embed_tiff_metadata(None, &tiff, 3, 2, true).unwrap();
    assert_eq!(raw_uint(&out, exif::Tag::ImageWidth), Some(3));
    assert_eq!(raw_uint(&out, exif::Tag::PixelXDimension), Some(3));
    assert_eq!(raw_uint(&out, exif::Tag::Orientation), Some(1));
    let image = image::load_from_memory(&out).unwrap();
    assert_eq!((image.width(), image.height()), (3, 2));
}

#[test]
fn tiff_output_carries_source_fields() {
    let first = embed_metadata(None, &no_profiles(), &encoded(4, 2, image::ImageFormat::Jpeg), 4, 2, true).unwrap();
    let source = read_container_exif(&first).unwrap();
    let out = embed_tiff_metadata(Some(&source), &encoded(5, 5, image::ImageFormat::Tiff), 5, 5, false).unwrap();
    assert_eq!(raw_uint(&out, exif::Tag::ImageLength), Some(5));
    assert_eq!(raw_uint(&out, exif::Tag::Orientation), Some(1));
    assert!(image::load_from_memory(&out).is_ok());
}

#[test]
fn tiff_without_strips_or_readable_block_is_refused() {
    let field = exif::Field {
        tag: exif::Tag::DateTime,
        ifd_num: exif::In::PRIMARY,
        value: exif::Value::Ascii(vec![b"2025:01:02 10:30:00".to_vec()]),
    };
    let mut writer = Writer::new();
    writer.push_field(&field);
    let mut block = Cursor::new(Vec::new());
    writer.write(&mut block, true).unwrap();
    assert_eq!(
        embed_tiff_metadata(None, &block.into_inner(), 1, 1, false),
        Err("TIFF has no strip offsets".to_string())
    );
    assert!(embed_tiff_metadata(None, b"not a tiff", 1, 1, false).is_err());
}
