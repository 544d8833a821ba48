//! Color parsing and compositing behavior.
use termimg::color::{Blend, RGBA};
use termimg::error::Error;

#[test]
fn test_parse_color() -> Result<(), Error> {
    assert_eq!("#d3869b".parse::<RGBA>()?, RGBA::new(211, 134, 155, 255));
    assert_eq!(
        "rgb:d3d3/86/9b".parse::<RGBA>()?,
        RGBA::new(211, 134, 155, 255)
    );
    assert_eq!("#b8bb2680".parse::<RGBA>()?, RGBA::new(184, 187, 38, 128));
    Ok(())
}

#[test]
fn parse_color_rejects_garbage() {
    assert!(RGBA::from_str_opt("#zzzzzz").is_none());
    assert!(RGBA::from_str_opt("#d3869").is_none());
    assert!(RGBA::from_str_opt("rgb:12345/0/0").is_none());
    assert!(RGBA::from_str_opt("rgb:ff").is_none());
    assert!("#zz".parse::<RGBA>().unwrap_err().is_parse_error());
}

#[test]
fn parse_color_quoted_and_short_forms() {
    assert_eq!(
        RGBA::from_str_opt("\"#102030\""),
        Some(RGBA::new(16, 32, 48, 255))
    );
    // one hex digit scales by 17, three digits divide by 16
    assert_eq!(RGBA::from_str_opt("rgb:f/0/0"), Some(RGBA::new(255, 0, 0, 255)));
    assert_eq!(
        RGBA::from_str_opt("rgb:800/080/008"),
        Some(RGBA::new(128, 8, 0, 255))
    );
}

#[test]
fn color_to_string_round_trips() {
    let c = RGBA::new(211, 134, 155, 255);
    assert_eq!(c.to_string(), "#d3869b");
    assert_eq!(c.to_string().parse::<RGBA>().unwrap(), c);
    let t = RGBA::new(184, 187, 38, 128);
    assert_eq!(t.to_string(), "#b8bb2680");
    assert_eq!(t.to_string().parse::<RGBA>().unwrap(), t);
}

#[test]
fn blend_over_opaque_background() {
    let bg = RGBA::new(0, 0, 0, 255);
    // fully opaque source replaces the background
    let red = RGBA::new(255, 0, 0, 255);
    assert_eq!(bg.blend(red, Blend::Over), red);
    // fully transparent source leaves the background
    let clear = RGBA::new(9, 9, 9, 0);
    assert_eq!(bg.blend(clear, Blend::Over), bg);
    // half-transparent white over black lands mid-range
    let half = RGBA::new(255, 255, 255, 128);
    let mixed = bg.blend(half, Blend::Over);
    assert_eq!(mixed.a, 255);
    assert!(mixed.r >= 126 && mixed.r <= 130);
}

#[test]
fn base64_known_vectors() {
    assert_eq!(termimg::codec::base64_encode(&b"Man".to_vec()), b"TWFu");
    assert_eq!(termimg::codec::base64_encode(&b"Ma".to_vec()), b"TWE=");
    assert_eq!(termimg::codec::base64_encode(&b"M".to_vec()), b"TQ==");
    assert_eq!(termimg::codec::base64_encode(&b"".to_vec()), b"");
}
