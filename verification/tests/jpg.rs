use auth_guard::jpg::{
    check_jpg_header, decoding_verdict, find_end_of_image, has_trailer, validate_decoding,
    ImageValidationError, Limits,
};

/// An image of the given size: start, frame header, scan header, two bytes of scan, end.
fn image(width: u16, height: u16) -> Vec<u8> {
    let mut bytes = vec![0xff, 0xd8];
    bytes.extend([0xff, 0xc0, 0x00, 0x0b, 0x08]);
    bytes.extend(height.to_be_bytes());
    bytes.extend(width.to_be_bytes());
    bytes.extend([0x01, 0x01, 0x11, 0x00]);
    bytes.extend([0xff, 0xda, 0x00, 0x08, 0x01, 0x01, 0x00, 0x00, 0x3f, 0x00]);
    bytes.extend([0x12, 0x34]);
    bytes.extend([0xff, 0xd9]);
    bytes
}

const NO_LIMITS: Limits = Limits {
    max_image_width: None,
    max_image_height: None,
    max_alloc: None,
};

fn invalid(text: &str) -> ImageValidationError {
    ImageValidationError::InvalidImage(text.to_string())
}

#[test]
fn test_jpg_has_trailer_rejects_short_buffers() {
    // Anything shorter than the magic plus an EOI marker cannot be a JPEG, and must error rather
    // than underflow the EOI scan limit.
    for len in 0..4 {
        let contents = vec![0xff; len];
        assert!(
            has_trailer(&contents).is_err(),
            "{len}-byte buffer should be rejected as too short"
        );
    }

    // The shortest buffer the scan will accept: magic plus EOI, and no trailing bytes.
    let contents = vec![0xff, 0xd8, 0xff, 0xd9];
    assert!(!has_trailer(&contents).expect("magic + EOI should parse"));
}

#[test]
fn short_buffers_are_described() {
    for len in 0..4usize {
        assert_eq!(
            has_trailer(&vec![0; len]),
            Err(invalid(&format!(
                "JPEG file is too short to be valid, got {len} bytes"
            )))
        );
    }
}

#[test]
fn trailers_are_found() {
    let clean = image(8, 8);
    assert_eq!(has_trailer(&clean), Ok(false));
    for extra in [vec![0u8], vec![0xff, 0xd9], image(3, 3)] {
        let mut contents = clean.clone();
        contents.extend(extra);
        assert_eq!(has_trailer(&contents), Ok(true));
        contents.truncate(clean.len());
        assert_eq!(has_trailer(&contents), Ok(false));
    }
}

#[test]
fn missing_end_is_an_error() {
    let mut contents = image(8, 8);
    contents.truncate(contents.len() - 1);
    assert_eq!(
        has_trailer(&contents),
        Err(invalid("End of image magic bytes not found in JPEG"))
    );
    // a segment that reaches past the end of the file
    let contents = vec![0xff, 0xd8, 0xff, 0xe0, 0xff, 0xff, 0xff, 0xd9, 0x00];
    assert_eq!(
        has_trailer(&contents),
        Err(invalid("End of image magic bytes not found in JPEG"))
    );
}

#[test]
fn end_markers_inside_segments_are_skipped() {
    // a comment that holds an end marker, a thumbnail for example
    let mut contents = vec![0xff, 0xd8, 0xff, 0xfe, 0x00, 0x06, 0xff, 0xd9, 0x00, 0x00];
    contents.extend(&image(8, 8)[2..]);
    assert_eq!(has_trailer(&contents), Ok(false));
    contents.push(0);
    assert_eq!(has_trailer(&contents), Ok(true));
}

#[test]
fn bytes_behind_a_bare_end_can_pass_for_a_segment() {
    let contents = vec![0xff, 0xd8, 0xff, 0xd9, 0x00, 0x04, 0x00, 0x00, 0xff, 0xd9];
    assert_eq!(has_trailer(&contents), Ok(false));
}

#[test]
fn header_needs_the_magic_bytes() {
    assert_eq!(check_jpg_header(&[0xff, 0xd8]), Ok(()));
    assert_eq!(check_jpg_header(&image(1, 1)), Ok(()));
    let error = || Err(invalid("Failed to parse JPEG file, invalid magic bytes"));
    assert_eq!(check_jpg_header(&[]), error());
    assert_eq!(check_jpg_header(&[0xff]), error());
    assert_eq!(check_jpg_header(&[0xff, 0xd9]), error());
    assert_eq!(check_jpg_header(&[0xfe, 0xd8, 0xff]), error());
}

#[test]
fn verdicts() {
    assert_eq!(decoding_verdict("a.jpg", Ok(true)), Ok(()));
    assert_eq!(
        decoding_verdict("a.jpg", Ok(false)),
        Err(ImageValidationError::ExceedsMaxDimensions)
    );
    assert_eq!(
        decoding_verdict("a.jpg", Err("why".to_string())),
        Err(invalid("Failed to parse a.jpg as JPG: why"))
    );
}

#[test]
fn images_within_the_limits_are_accepted() {
    let contents = image(300, 200);
    assert_eq!(validate_decoding("a.jpg", &contents, NO_LIMITS), Ok(()));
    let exact = Limits {
        max_image_width: Some(300),
        max_image_height: Some(200),
        max_alloc: Some(0),
    };
    assert_eq!(validate_decoding("a.jpg", &contents, exact), Ok(()));
}

#[test]
fn oversize_images_are_refused() {
    let contents = image(300, 200);
    let narrow = Limits { max_image_width: Some(299), ..NO_LIMITS };
    let low = Limits { max_image_height: Some(199), ..NO_LIMITS };
    for limits in [narrow, low] {
        assert_eq!(
            validate_decoding("a.jpg", &contents, limits),
            Err(ImageValidationError::ExceedsMaxDimensions)
        );
    }
}

#[test]
fn unreadable_headers_are_described() {
    match validate_decoding("a.jpg", &[0x00, 0x01, 0x02], NO_LIMITS) {
        Err(ImageValidationError::InvalidImage(text)) => {
            assert!(text.starts_with("Failed to parse a.jpg as JPG: Decoding("), "{text}");
            assert!(text.contains("Illegal start bytes:1"), "{text}");
        }
        other => panic!("{other:?}"),
    }
    assert!(matches!(
        validate_decoding("b.jpg", &[], NO_LIMITS),
        Err(ImageValidationError::InvalidImage(_))
    ));
}

#[test]
fn end_of_image_is_located() {
    let clean = image(8, 8);
    assert_eq!(find_end_of_image(&clean), Some(clean.len() - 2));
    let mut contents = clean.clone();
    contents.extend(image(3, 3));
    assert_eq!(find_end_of_image(&contents), Some(clean.len() - 2));
    assert_eq!(find_end_of_image(&clean[..clean.len() - 1].to_vec()), None);
    for len in 0..4 {
        assert_eq!(find_end_of_image(&vec![0xff; len]), None);
    }
}
