use stillkit::metadata::{
    check_exif_size, iptc_in_segments, jpeg_iptc, jpeg_xmp_segment, photoshop_iptc_segment, plan_exif_fields,
    png_iptc_text, png_xmp_chunk, portable_field, search_segment_exec, tiff_kept_fields, tiff_strip_ranges, unrotated_exif, vp8x_flags, ExifTag,
    FieldInfo, PlannedField, ResourceSearch, TagContext,
};

#[test]
fn invalid_or_ambiguous_jpeg_orientation_requires_primary_decoding() {
    assert!(unrotated_exif(None));
    assert!(!unrotated_exif(Some(b"corrupt")));
    for value in [1, 6, 8] {
        let field = exif::Field {
            tag: exif::Tag::Orientation,
            ifd_num: exif::In::PRIMARY,
            value: exif::Value::Short(vec![value]),
        };
        let mut writer = exif::experimental::Writer::new();
        writer.push_field(&field);
        let mut data = std::io::Cursor::new(Vec::new());
        writer.write(&mut data, false).unwrap();
        assert_eq!(unrotated_exif(Some(data.get_ref())), value == 1);
        let mut with_header = b"Exif\0\0".to_vec();
        with_header.extend_from_slice(data.get_ref());
        assert_eq!(unrotated_exif(Some(&with_header)), value == 1);
    }
}

#[test]
fn xmp_segments_carry_the_adobe_prefix_and_respect_the_limit() {
    let seg = jpeg_xmp_segment(b"<x/>").unwrap();
    assert_eq!(seg, b"http://ns.adobe.com/xap/1.0/\0<x/>".to_vec());
    assert_eq!(
        jpeg_xmp_segment(&vec![b'a'; 65533]),
        Err("XMP exceeds the JPEG segment limit".to_string())
    );
    assert_eq!(png_xmp_chunk(b"<x/>"), b"XML:com.adobe.xmp\0\0\0\0\0<x/>".to_vec());
}

#[test]
fn iptc_blocks_round_trip() {
    let iptc = vec![0x1c, 0x02, 0x00, 0x00, 0x02, 0x00];
    let seg = photoshop_iptc_segment(&iptc).unwrap();
    assert_eq!(&seg[..14], b"Photoshop 3.0\0");
    assert_eq!(&seg[14..26], b"8BIM\x04\x04\0\0\0\0\0\x06");
    assert!(matches!(search_segment_exec(&seg), ResourceSearch::Found(ref d) if *d == iptc));
    assert_eq!(iptc_in_segments(&vec![(0xed, seg.clone())]), Some(iptc.clone()));
    let odd = photoshop_iptc_segment(&[1, 2, 3]).unwrap();
    assert_eq!(odd.len(), 26 + 4);
    assert_eq!(
        photoshop_iptc_segment(&vec![0; 65510]),
        Err("IPTC exceeds the JPEG segment limit".to_string())
    );
}

#[test]
fn iptc_search_skips_other_resources_and_stops_at_malformed_ones() {
    let mut contents = b"Photoshop 3.0\0".to_vec();
    contents.extend_from_slice(b"8BIM\x03\xed\x03abc\0\0\0\x03xyz\0");
    contents.extend_from_slice(b"8BIM\x04\x04\0\0\0\0\0\x02hi");
    assert!(matches!(search_segment_exec(&contents), ResourceSearch::Found(ref d) if d == b"hi"));
    let truncated = b"Photoshop 3.0\08BIM\x04\x04\0\0\0\0\0\x09hi".to_vec();
    assert!(matches!(search_segment_exec(&truncated), ResourceSearch::Malformed));
    assert!(matches!(search_segment_exec(b"Other"), ResourceSearch::Absent));
    let good = photoshop_iptc_segment(&[7, 7]).unwrap();
    assert_eq!(iptc_in_segments(&vec![(0xe1, b"x".to_vec()), (0xed, truncated), (0xed, good.clone())]), None);
    assert_eq!(iptc_in_segments(&vec![(0xed, b"none".to_vec()), (0xed, good)]), Some(vec![7, 7]));
}

#[test]
fn iptc_is_read_from_a_jpeg_file() {
    let image = image::RgbImage::from_pixel(4, 4, image::Rgb([10, 20, 30]));
    let mut jpeg = Vec::new();
    image::codecs::jpeg::JpegEncoder::new_with_quality(&mut jpeg, 90).encode_image(&image).unwrap();
    assert_eq!(jpeg_iptc(&jpeg), None);
    let iptc = vec![0x1c, 0x02, 0x05, 0x00, 0x01, b'x'];
    let seg = photoshop_iptc_segment(&iptc).unwrap();
    let mut parsed = img_parts::jpeg::Jpeg::from_bytes(jpeg.clone().into()).unwrap();
    parsed
        .segments_mut()
        .insert(1, img_parts::jpeg::JpegSegment::new_with_contents(0xed, seg.into()));
    let mut with_iptc = Vec::new();
    parsed.encoder().write_to(&mut with_iptc).unwrap();
    assert_eq!(jpeg_iptc(&with_iptc), Some(iptc));
    assert_eq!(jpeg_iptc(b"not a jpeg"), None);
}

#[test]
fn png_iptc_text_is_hex_in_lines_of_36_bytes() {
    let text = png_iptc_text(&[0xab; 37]);
    let expected = format!(
        "Raw profile type iptc\0\niptc\n{:8}\n{}\n{}\n",
        37,
        "ab".repeat(36),
        "ab"
    );
    assert_eq!(text, expected.into_bytes());
    assert_eq!(png_iptc_text(&[]), b"Raw profile type iptc\0\niptc\n       0\n\n".to_vec());
}

#[test]
fn vp8x_flags_follow_the_chunks() {
    assert_eq!(vp8x_flags(0xff, false, false, false), 0xd3);
    assert_eq!(vp8x_flags(0x10, true, true, true), 0x3c);
    assert_eq!(vp8x_flags(0x02, false, true, false), 0x0a);
}

#[test]
fn portable_fields_exclude_storage_tags() {
    let tiff = |n| ExifTag { context: TagContext::Tiff, number: n };
    assert!(portable_field(tiff(0x010f), false));
    assert!(portable_field(tiff(0x9c9d), false));
    assert!(!portable_field(tiff(0x0111), false));
    assert!(!portable_field(ExifTag { context: TagContext::Exif, number: 0x927c }, false));
    assert!(portable_field(ExifTag { context: TagContext::Gps, number: 2 }, false));
    assert!(!portable_field(ExifTag { context: TagContext::Gps, number: 2 }, true));
}

#[test]
fn exif_fields_are_planned_with_new_dimensions() {
    let tiff = |n| ExifTag { context: TagContext::Tiff, number: n };
    let fields = vec![
        FieldInfo { tag: tiff(0x010f), primary: true, unknown_value: false },
        FieldInfo { tag: tiff(0x0100), primary: true, unknown_value: false },
        FieldInfo { tag: tiff(0x0112), primary: true, unknown_value: false },
        FieldInfo { tag: tiff(0x0110), primary: false, unknown_value: false },
    ];
    let plan = plan_exif_fields(&fields, 640, 480, true);
    assert_eq!(
        plan,
        vec![
            PlannedField::Keep(0),
            PlannedField::Long(tiff(0x100), 640),
            PlannedField::Long(tiff(0x101), 480),
            PlannedField::Long(ExifTag { context: TagContext::Exif, number: 0xa002 }, 640),
            PlannedField::Long(ExifTag { context: TagContext::Exif, number: 0xa003 }, 480),
            PlannedField::Short(tiff(0x112), 1),
        ]
    );
    let kept = plan_exif_fields(&fields, 1, 1, false);
    assert_eq!(kept[..2], [PlannedField::Keep(0), PlannedField::Keep(2)]);
    assert_eq!(kept.len(), 6);
    assert!(check_exif_size(true, 65527).is_ok());
    assert_eq!(check_exif_size(true, 65528), Err("EXIF metadata exceeds the JPEG segment limit".to_string()));
    assert!(check_exif_size(false, 70000).is_ok());
}

#[test]
fn tiff_strips_are_byte_ranges_inside_the_file() {
    assert_eq!(tiff_strip_ranges(&vec![8, 20], &vec![12, 5], 25), Ok(vec![(8, 20), (20, 25)]));
    assert_eq!(tiff_strip_ranges(&Vec::new(), &Vec::new(), 0), Ok(Vec::new()));
}

#[test]
fn tiff_strip_errors_name_the_first_bad_strip() {
    assert_eq!(
        tiff_strip_ranges(&vec![8, 20], &vec![12], 100),
        Err("Missing TIFF strip size".to_string())
    );
    assert_eq!(
        tiff_strip_ranges(&vec![8, 20], &vec![12, 6], 25),
        Err("TIFF strip outside file".to_string())
    );
    assert_eq!(
        tiff_strip_ranges(&vec![30, 20], &vec![1], 25),
        Err("TIFF strip outside file".to_string())
    );
}

#[test]
fn tiff_keeps_its_own_primary_fields_the_source_does_not_supply() {
    let tag = |number| ExifTag { context: TagContext::Tiff, number };
    let field = |number, primary| FieldInfo { tag: tag(number), primary, unknown_value: false };
    let fields = vec![field(0x0100, true), field(0x0111, true), field(0x010f, false), field(0x0112, true)];
    assert_eq!(tiff_kept_fields(&fields, &vec![tag(0x0100), tag(0x0112)]), vec![1]);
    assert_eq!(tiff_kept_fields(&fields, &Vec::new()), vec![0, 1, 3]);
}
