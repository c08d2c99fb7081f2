use am_scene::color::{pack_color, parse_color, repack_with_alpha, ColorParseError};

fn to_unit(c: [u8; 4]) -> [f32; 4] {
    [c[0] as f32 / 255.0, c[1] as f32 / 255.0, c[2] as f32 / 255.0, c[3] as f32 / 255.0]
}

fn channel(x: f32) -> u32 {
    (x * 255.0) as u32
}

#[test]
fn test_parse_color() {
    let color = to_unit(parse_color("#ff000000").unwrap());
    assert_eq!(color, [0.0, 0.0, 0.0, 1.0]);

    let color = to_unit(parse_color("#ffffffff").unwrap());
    assert_eq!(color, [1.0, 1.0, 1.0, 1.0]);

    let color = to_unit(parse_color("#80ff0000").unwrap());
    assert!((color[0] - 1.0).abs() < 0.01);
    assert!((color[1] - 0.0).abs() < 0.01);
    assert!((color[2] - 0.0).abs() < 0.01);
    assert!((color[3] - 0.5).abs() < 0.01);
}

#[test]
fn sdf_test_pack_color() {
    let bits = pack_color(channel(1.0), channel(1.0), channel(1.0), channel(1.0));
    assert!((bits >> 24) >= 254, "R should be ~255");
    assert!(((bits >> 16) & 0xFF) >= 254, "G should be ~255");
    assert!(((bits >> 8) & 0xFF) >= 254, "B should be ~255");
    assert!((bits & 0xFF) >= 254, "A should be ~255");

    let bits = pack_color(channel(1.0), channel(0.0), channel(0.0), channel(1.0));
    assert!((bits >> 24) >= 254, "R should be ~255");
    assert_eq!((bits >> 16) & 0xFF, 0);
    assert_eq!((bits >> 8) & 0xFF, 0);
    assert!((bits & 0xFF) >= 254, "A should be ~255");
}

#[test]
fn tests_test_pack_color() {
    let bits = pack_color(channel(1.0), channel(1.0), channel(1.0), channel(1.0));
    assert!((bits >> 24) >= 254, "R should be ~255, got {}", bits >> 24);
    assert!(((bits >> 16) & 0xFF) >= 254, "G should be ~255");
    assert!(((bits >> 8) & 0xFF) >= 254, "B should be ~255");
    assert!((bits & 0xFF) >= 254, "A should be ~255");

    let bits = pack_color(channel(1.0), channel(0.0), channel(0.0), channel(1.0));
    assert!((bits >> 24) >= 254, "R should be ~255");
    assert_eq!((bits >> 16) & 0xFF, 0);
    assert_eq!((bits >> 8) & 0xFF, 0);
    assert!((bits & 0xFF) >= 254, "A should be ~255");
}

#[test]
fn test_repack_with_alpha() {
    let packed = pack_color(channel(1.0), channel(1.0), channel(1.0), channel(1.0));
    let alpha = channel(0.5f32.clamp(0.0, 1.0));
    let bits = repack_with_alpha(packed, alpha);
    assert!((bits >> 24) >= 254, "R should be ~255");
    assert!(((bits >> 16) & 0xFF) >= 254, "G should be ~255");
    assert!(((bits >> 8) & 0xFF) >= 254, "B should be ~255");
    assert!(
        (bits & 0xFF) >= 126 && (bits & 0xFF) <= 129,
        "A should be ~127, got {}",
        bits & 0xFF
    );
}

#[test]
fn parse_color_reads_channels_in_argb_order() {
    assert_eq!(parse_color("#80102030"), Ok([0x10, 0x20, 0x30, 0x80]));
    assert_eq!(parse_color("ff0A0b0C"), Ok([0x0a, 0x0b, 0x0c, 0xff]));
    assert_eq!(parse_color("###01020304"), Ok([2, 3, 4, 1]));
    assert_eq!(parse_color("#+1+2+3+4"), Ok([2, 3, 4, 1]));
}

#[test]
fn parse_color_refuses_wrong_length() {
    assert_eq!(parse_color(""), Err(ColorParseError::InvalidFormat));
    assert_eq!(parse_color("#fff"), Err(ColorParseError::InvalidFormat));
    assert_eq!(parse_color("#ff0000000"), Err(ColorParseError::InvalidFormat));
}

#[test]
fn parse_color_refuses_bad_digits() {
    assert_eq!(parse_color("#gg000000"), Err(ColorParseError::InvalidDigit));
    assert_eq!(parse_color("#00000 00"), Err(ColorParseError::InvalidDigit));
    assert_eq!(parse_color("#-1000000"), Err(ColorParseError::InvalidDigit));
}

#[test]
fn pack_color_places_each_channel_in_its_byte() {
    assert_eq!(pack_color(0x12, 0x34, 0x56, 0x78), 0x1234_5678);
    assert_eq!(pack_color(0, 0, 0, 0), 0);
    assert_eq!(pack_color(0x1ff, 0, 0, 0), 0xff00_0000);
}

#[test]
fn unpacking_a_packed_color_gives_its_channels() {
    let p = pack_color(200, 100, 50, 25);
    assert_eq!(((p >> 24) & 0xff, (p >> 16) & 0xff, (p >> 8) & 0xff, p & 0xff), (200, 100, 50, 25));
}

#[test]
fn repack_keeps_color_and_sets_alpha() {
    let p = pack_color(1, 2, 3, 4);
    let q = repack_with_alpha(p, 0x1_99);
    assert_eq!(q, 0x0102_0399);
    assert_eq!(repack_with_alpha(q, 7), repack_with_alpha(p, 7));
}
