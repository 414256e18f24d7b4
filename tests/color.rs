use identicon::color::{parse_color, Error, HslField, HSL, RGB};

#[test]
fn to_black() {
    let black = RGB::new(0, 0, 0);
    let rgb: RGB = HSL::new(0, 0, 0, 1).unwrap().as_rgb();
    assert_eq!(black, rgb);
}

#[test]
fn to_white() {
    let white = RGB::new(255, 255, 255);
    let rgb: RGB = HSL::new(0, 0, 100, 1).unwrap().as_rgb();
    assert_eq!(white, rgb);
}

#[test]
fn to_red() {
    let red = RGB::new(255, 0, 0);
    let rgb: RGB = HSL::new(0, 100, 50, 1).unwrap().as_rgb();
    assert_eq!(red, rgb);
}

#[test]
fn to_green() {
    let green = RGB::new(0, 255, 0);
    let rgb: RGB = HSL::new(120, 100, 50, 1).unwrap().as_rgb();
    assert_eq!(green, rgb);
}

#[test]
fn to_blue() {
    let blue = RGB::new(0, 0, 255);
    let rgb: RGB = HSL::new(240, 100, 50, 1).unwrap().as_rgb();
    assert_eq!(blue, rgb);
}

#[test]
fn to_random_1() {
    let color = RGB::new(130, 121, 23);
    let rgb: RGB = HSL::new(552, 700, 300, 10).unwrap().as_rgb();
    assert_eq!(color, rgb)
}

#[test]
fn to_random_2() {
    let color = RGB::new(75, 235, 72);
    let rgb: RGB = HSL::new(1187, 804, 602, 10).unwrap().as_rgb();
    assert_eq!(color, rgb);
}

#[test]
fn to_random_3() {
    let color = RGB::new(32, 60, 75);
    let rgb: RGB = HSL::new(2013, 402, 209, 10).unwrap().as_rgb();
    assert_eq!(color, rgb);
}

#[test]
fn to_random_4() {
    let color = RGB::new(242, 211, 220);
    let rgb: RGB = HSL::new(3434, 553, 889, 10).unwrap().as_rgb();
    assert_eq!(color, rgb);
}

#[test]
fn hue_at_full_turn_is_red() {
    let rgb = HSL::new(360, 100, 50, 1).unwrap().as_rgb();
    assert_eq!(rgb, RGB::new(255, 0, 0));
}

#[test]
fn hsl_rejects_out_of_range() {
    match HSL::new(3601, 0, 0, 10) {
        Err(e) => assert_eq!(
            e,
            Error::HSLOutOfBounds { name: HslField::Hue, val: 3601, den: 10, max: 360 }
        ),
        Ok(_) => panic!("hue 360.1 accepted"),
    }
    match HSL::new(0, -1, 0, 10) {
        Err(e) => assert_eq!(
            e,
            Error::HSLOutOfBounds { name: HslField::Sat, val: -1, den: 10, max: 100 }
        ),
        Ok(_) => panic!("sat -0.1 accepted"),
    }
    match HSL::new(0, 0, 1001, 10) {
        Err(e) => assert_eq!(
            e,
            Error::HSLOutOfBounds { name: HslField::Lum, val: 1001, den: 10, max: 100 }
        ),
        Ok(_) => panic!("lum 100.1 accepted"),
    }
}

#[test]
fn hsl_reports_first_violation() {
    match HSL::new(-1, -1, -1, 1) {
        Err(Error::HSLOutOfBounds { name, .. }) => assert_eq!(name, HslField::Hue),
        Ok(_) => panic!("accepted"),
    }
}

#[test]
fn hsl_accepts_boundaries() {
    assert!(HSL::new(0, 0, 0, 1).is_ok());
    assert!(HSL::new(360, 100, 100, 1).is_ok());
    assert!(HSL::new(3600, 1000, 1000, 10).is_ok());
}

#[test]
fn rgb_as_pixel() {
    assert_eq!(RGB::new(1, 2, 3).as_pixel(), [1, 2, 3]);
}

#[test]
fn parse_color_accepts_three_bytes() {
    assert_eq!(parse_color("255,0,0"), Some(RGB::new(255, 0, 0)));
    assert_eq!(parse_color("240,240,240"), Some(RGB::new(240, 240, 240)));
    assert_eq!(parse_color("+1,007,42"), Some(RGB::new(1, 7, 42)));
}

#[test]
fn parse_color_rejects_bad_text() {
    assert_eq!(parse_color("256,0,0"), None);
    assert_eq!(parse_color("1,2"), None);
    assert_eq!(parse_color("1,2,3,4"), None);
    assert_eq!(parse_color("1,,3"), None);
    assert_eq!(parse_color("a,2,3"), None);
    assert_eq!(parse_color("+,2,3"), None);
    assert_eq!(parse_color(""), None);
    assert_eq!(parse_color("1, 2,3"), None);
}

#[test]
fn to_text_writes_decimal_bytes() {
    assert_eq!(RGB::new(240, 240, 240).to_text(), "240,240,240");
    assert_eq!(RGB::new(0, 7, 42).to_text(), "0,7,42");
    assert_eq!(RGB::new(255, 100, 9).to_text(), "255,100,9");
}

#[test]
fn to_text_reads_back() {
    for c in [RGB::new(0, 0, 0), RGB::new(9, 10, 99), RGB::new(100, 199, 255)] {
        assert_eq!(parse_color(&c.to_text()), Some(c));
    }
}
