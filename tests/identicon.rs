use identicon::color::RGB;
use identicon::{text_of_encoding, Error, Identicon};
use image::error::{ImageError, LimitError, LimitErrorKind};

const EMPTY_MASK: [bool; 15] = [
    true, true, false, true, false, true, false, false, false, true, true, false, true, false,
    true,
];

fn bg() -> RGB {
    RGB::new(240, 240, 240)
}

#[test]
fn digest_of_empty_name() {
    let icon = Identicon::new("", 2, bg()).unwrap();
    assert_eq!(icon.paints(), EMPTY_MASK);
    assert_eq!(icon.foreground(), RGB::new(205, 113, 219));
    assert_eq!(icon.background(), bg());
}

#[test]
fn digest_of_other_names() {
    let icon = Identicon::new("identicon", 1, bg()).unwrap();
    assert_eq!(icon.foreground(), RGB::new(135, 219, 221));
    assert_eq!(
        icon.paints(),
        [
            true, false, true, false, true, false, true, false, true, true, false, false, false,
            true, true
        ]
    );
    let icon = Identicon::new("alice", 1, bg()).unwrap();
    assert_eq!(icon.foreground(), RGB::new(135, 223, 212));
}

#[test]
fn appearance_ignores_size_and_background() {
    let a = Identicon::new("alice", 1, bg()).unwrap();
    let b = Identicon::new("alice", 9, RGB::new(0, 0, 0)).unwrap();
    assert_eq!(a.foreground(), b.foreground());
    assert_eq!(a.paints(), b.paints());
}

#[test]
fn deterministic_pixels() {
    let a = Identicon::new("bob", 3, bg()).unwrap();
    let b = Identicon::new("bob", 3, bg()).unwrap();
    assert_eq!(a.image(), b.image());
}

#[test]
fn painted_cells_and_mirrors() {
    let icon = Identicon::new("", 2, bg()).unwrap();
    let fg = icon.foreground();
    assert_eq!(icon.side(), 14);
    // mask entry 0 is painted: cell column 1, row 1, and its mirror column 5
    for y in 2..4 {
        for x in 2..4 {
            assert_eq!(icon.pixel(x, y), fg);
            assert_eq!(icon.pixel(13 - x, y), fg);
        }
    }
    // mask entry 2 is not painted: the middle column of row 1
    for y in 2..4 {
        for x in 6..8 {
            assert_eq!(icon.pixel(x, y), bg());
        }
    }
    // the border is background
    for i in 0..14 {
        assert_eq!(icon.pixel(i, 0), bg());
        assert_eq!(icon.pixel(i, 13), bg());
        assert_eq!(icon.pixel(0, i), bg());
        assert_eq!(icon.pixel(13, i), bg());
    }
}

#[test]
fn raw_image_layout() {
    let icon = Identicon::new("", 2, bg()).unwrap();
    let raw = icon.image();
    assert_eq!(raw.len(), 14 * 14 * 3);
    for y in 0..14u32 {
        for x in 0..14u32 {
            let c = icon.pixel(x, y);
            let k = ((y * 14 + x) * 3) as usize;
            assert_eq!(&raw[k..k + 3], &c.as_pixel()[..]);
        }
    }
    let fg = icon.foreground();
    let k = ((2 * 14 + 2) * 3) as usize;
    assert_eq!(&raw[k..k + 3], &[fg.red, fg.green, fg.blue][..]);
}

#[test]
fn png_is_base64_of_a_png_file() {
    let icon = Identicon::new("alice", 2, bg()).unwrap();
    let text = icon.png().unwrap();
    assert!(text.starts_with("iVBORw0KGgo"));
    assert_eq!(text.len() % 4, 0);
}

#[test]
fn jpeg_and_gif_encode() {
    let icon = Identicon::new("alice", 2, bg()).unwrap();
    assert!(icon.jpeg().unwrap().starts_with("/9j/"));
    assert!(icon.gif().unwrap().starts_with("R0lGOD"));
}

#[test]
fn from_fixed_digest() {
    let hash: [u8; 16] = [
        0xd4, 0x1d, 0x8c, 0xd9, 0x8f, 0x00, 0xb2, 0x04, 0xe9, 0x80, 0x09, 0x98, 0xec, 0xf8, 0x42,
        0x7e,
    ];
    let a = Identicon::from_digest(&hash, 1, bg()).unwrap();
    let b = Identicon::from_digest(&hash, 5, RGB::new(1, 2, 3)).unwrap();
    assert_eq!(a.paints(), EMPTY_MASK);
    assert_eq!(a.foreground(), RGB::new(205, 113, 219));
    assert_eq!(a.paints(), b.paints());
    assert_eq!(a.foreground(), b.foreground());
    assert_eq!(b.size(), 5);
    assert_eq!(b.background(), RGB::new(1, 2, 3));
}

#[test]
fn digest_mask_and_hue_bits() {
    // all nibbles even: every cell painted; hue, sat and lum at their lowest raw values
    let a = Identicon::from_digest(&[0u8; 16], 1, bg()).unwrap();
    assert_eq!(a.paints(), [true; 15]);
    // hue 0, sat 65%, lum 75%
    assert_eq!(a.foreground(), RGB::new(233, 150, 150));
    // all nibbles odd: no cell painted
    let b = Identicon::from_digest(&[0xffu8; 16], 1, bg()).unwrap();
    assert_eq!(b.paints(), [false; 15]);
    for y in 0..7 {
        for x in 0..7 {
            assert_eq!(b.pixel(x, y), bg());
        }
    }
}

#[test]
fn encoding_text_on_success_is_base64() {
    match text_of_encoding(Ok(vec![0x4d, 0x61, 0x6e])) {
        Ok(text) => assert_eq!(text, "TWFu"),
        Err(_) => panic!("success turned into an error"),
    }
}

#[test]
fn encoding_text_keeps_the_encoder_error() {
    let e = ImageError::Limits(LimitError::from_kind(LimitErrorKind::DimensionError));
    match text_of_encoding(Err(e)) {
        Err(Error::SaveImage(ImageError::Limits(l))) => {
            assert_eq!(l.kind(), LimitErrorKind::DimensionError)
        }
        _ => panic!("encoder error lost"),
    }
}
