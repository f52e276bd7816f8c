use stillkit::jpeg_validation::{complete_baseline, Bits};

#[test]
fn accepts_complete_baseline_images_and_rejects_incomplete_scans() {
    for (width, height) in [(1, 1), (17, 31), (64, 64)] {
        let image = image::RgbImage::from_fn(width, height, |x, y| {
            image::Rgb([(x * 7) as u8, (y * 11) as u8, ((x + y) * 3) as u8])
        });
        let mut jpeg = Vec::new();
        image::codecs::jpeg::JpegEncoder::new_with_quality(&mut jpeg, 90)
            .encode_image(&image)
            .unwrap();
        assert!(complete_baseline(&jpeg));
        let sos = jpeg.windows(2).position(|v| v == [0xff, 0xda]).unwrap();
        let start = sos + 2 + usize::from(u16::from_be_bytes([jpeg[sos + 2], jpeg[sos + 3]]));
        for end in [start, start + 1, (start + jpeg.len() - 2) / 2] {
            let mut truncated = jpeg[..end].to_vec();
            truncated.extend([0xff, 0xd9]);
            assert!(
                !complete_baseline(&truncated),
                "{width}x{height}, end={end}"
            );
        }
        assert!(!complete_baseline(&jpeg[..jpeg.len() - 1]));
        let sof = jpeg.windows(2).position(|v| v == [0xff, 0xc0]).unwrap();
        jpeg[sof + 1] = 0xc2;
        assert!(
            !complete_baseline(&jpeg),
            "progressive requires primary fallback"
        );
    }
}

#[test]
fn entropy_reader_handles_stuffing_padding_and_restart_markers() {
    let mut bits = Bits {
        data: &[0xff, 0, 0xff, 0xd0, 0x7f, 0xff, 0xd9],
        position: 0,
        byte: 0,
        remaining: 0,
    };
    assert_eq!(bits.read(8), Some(255));
    assert_eq!(bits.marker(0xd0), Some(()));
    assert_eq!(bits.read(1), Some(0));
    assert_eq!(bits.marker(0xd9), Some(()));
    assert_eq!(bits.read(1), None);
}

#[test]
fn malformed_headers_are_rejected_without_panicking() {
    for data in [
        b"".as_slice(),
        &[0xff, 0xd8],
        &[0xff, 0xd8, 0xff, 0xc4, 0, 1],
        &[0xff, 0xd8, 0xff, 0xc4, 255, 255],
    ] {
        assert!(!complete_baseline(data));
    }
}

#[test]
fn reading_zero_bits_consumes_nothing() {
    let mut bits = Bits {
        data: &[0xa5],
        position: 0,
        byte: 0,
        remaining: 0,
    };
    assert_eq!(bits.read(0), Some(0));
    assert_eq!(bits.read(4), Some(0xa));
    assert_eq!(bits.read(4), Some(0x5));
    assert_eq!(bits.read(1), None);
}
