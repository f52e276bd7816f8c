use stillkit::embedded::HeifTransform;
use stillkit::thumbnails::{
    choose_heif_thumbnail, hdr_color, heic_pixels, heic_thumbnail_preview, jpeg_item_whole, thumbnail_acceptable, thumbnail_pixels, thumbnail_size,
    ThumbnailItem,
};

fn item(id: u32, jpeg: bool, dimensions: Option<(u32, u32)>, transforms: Vec<HeifTransform>) -> ThumbnailItem {
    ThumbnailItem { id, jpeg, dimensions, transforms }
}

#[test]
fn hdr_colors_are_recognised() {
    assert!(hdr_color(9, 1));
    assert!(hdr_color(12, 1));
    assert!(hdr_color(1, 16));
    assert!(hdr_color(1, 18));
    assert!(!hdr_color(1, 13));
}

#[test]
fn thumbnails_are_tried_largest_first_then_by_id() {
    let rotated = vec![HeifTransform::Rotation(90)];
    let items = vec![
        item(7, true, Some((320, 240)), rotated.clone()),
        item(3, true, Some((640, 480)), rotated.clone()),
        item(5, true, Some((640, 480)), rotated.clone()),
        item(2, false, Some((1920, 1080)), rotated.clone()),
        item(4, true, Some((1280, 960)), vec![HeifTransform::Rotation(180)]),
        item(6, true, None, vec![HeifTransform::Rotation(0), HeifTransform::Rotation(90)]),
    ];
    assert_eq!(choose_heif_thumbnail(false, &rotated, &items), vec![3, 5, 7, 6]);
    assert!(choose_heif_thumbnail(true, &rotated, &items).is_empty());
    assert!(choose_heif_thumbnail(false, &vec![HeifTransform::CleanAperture], &items).is_empty());
    assert!(choose_heif_thumbnail(false, &Vec::new(), &items).is_empty());
}

#[test]
fn jpeg_items_must_be_whole() {
    assert!(jpeg_item_whole(&[0xff, 0xd8, 0x00, 0xff, 0xd9]));
    assert!(!jpeg_item_whole(&[0xff, 0xd8, 0x00, 0xff]));
    assert!(!jpeg_item_whole(&[0xff]));
}

#[test]
fn thumbnails_that_do_not_match_the_primary_image_are_refused() {
    let data = [0xff, 0xd8, 0xff, 0xd9];
    assert!(!thumbnail_acceptable(&data, Some((4, 4)), (4, 3), true, None, 48, None, None));
    assert!(!thumbnail_acceptable(&data, None, (4, 4), false, None, 48, None, None));
    assert!(!thumbnail_acceptable(&data, None, (4, 4), true, None, 200_000_000, None, None));
    assert!(!thumbnail_acceptable(&data, None, (4, 4), true, None, 48, Some(&[1]), None));
    assert!(!thumbnail_acceptable(&data, None, (4, 4), true, None, 48, Some(&[1]), Some(&[2])));
    // Not a complete baseline JPEG, although everything else agrees.
    assert!(!thumbnail_acceptable(&data, Some((4, 4)), (4, 4), true, None, 48, Some(&[1]), Some(&[1])));
}

#[test]
fn complete_small_jpeg_thumbnail_is_accepted() {
    let mut jpeg = std::io::Cursor::new(Vec::new());
    image::DynamicImage::new_rgb8(16, 8).write_to(&mut jpeg, image::ImageFormat::Jpeg).unwrap();
    let data = jpeg.into_inner();
    assert!(thumbnail_acceptable(&data, Some((16, 8)), (16, 8), true, None, 384, None, None));
}

#[test]
fn unreadable_heif_has_no_native_thumbnail() {
    let error = heic_thumbnail_preview(b"not a heif file", "x.heic", 100).unwrap_err();
    assert!(error.starts_with("Native HEIC thumbnail decode failed for x.heic: "));
}

#[test]
fn unreadable_heif_has_no_pixels() {
    for rgba in [false, true] {
        let error = heic_pixels(b"not a heif file", "y.heic", rgba).unwrap_err();
        assert!(error.starts_with("Failed to decode HEIC image y.heic: "));
    }
}

#[test]
fn whole_jpeg_thumbnail_gives_its_pixels() {
    let mut jpeg = std::io::Cursor::new(Vec::new());
    image::DynamicImage::new_rgb8(16, 8).write_to(&mut jpeg, image::ImageFormat::Jpeg).unwrap();
    let data = jpeg.into_inner();
    assert_eq!(thumbnail_size(&data), Some((16, 8)));
    let (width, height, pixels) = thumbnail_pixels(&data, Some((16, 8)), true, None).unwrap();
    assert_eq!((width, height, pixels.len()), (16, 8, 16 * 8 * 3));
    assert!(thumbnail_pixels(&data, Some((16, 8)), false, None).is_none());
    assert!(thumbnail_pixels(&data, Some((8, 8)), true, None).is_none());
    assert!(thumbnail_pixels(&data, None, true, Some(&[1, 2])).is_none());
    assert_eq!(thumbnail_size(&data[..data.len() - 1]), None);
}
