//! Face parsing and rendering.
use termimg::color::RGBA;
use termimg::error::Error;
use termimg::face::{Face, FaceAttrs};

#[test]
fn test_parse_face() -> Result<(), Error> {
    let face = Face::new(
        Some(RGBA::new(152, 151, 26, 255)),
        Some(RGBA::new(189, 174, 147, 255)),
        FaceAttrs::bold().insert(FaceAttrs::underline()),
    );
    let face_str: Face = "fg=#98971a,bg=#bdae93, bold ,underline".parse()?;
    assert_eq!(face, face_str);

    let face_str: Face = face.to_string().parse()?;
    assert_eq!(face, face_str);

    Ok(())
}

#[test]
fn face_parse_rejects_unknown_keys() {
    assert!(Face::parse_str("fg=#98971a,shiny").is_none());
    assert!(Face::parse_str("fg=#xyz").is_none());
    assert!("bg=#12345".parse::<Face>().unwrap_err().is_parse_error());
}

#[test]
fn face_attr_operations() {
    let attrs = FaceAttrs::bold().insert(FaceAttrs::italic());
    assert!(attrs.contains(FaceAttrs::bold()));
    assert!(attrs.contains(FaceAttrs::italic()));
    assert!(!attrs.contains(FaceAttrs::blink()));
    assert!(attrs.remove(FaceAttrs::bold()) == FaceAttrs::italic());
    assert!(FaceAttrs::empty().is_empty());
    assert!(!attrs.is_empty());
    let names = attrs.names();
    assert_eq!(names, vec!["bold", "italic"]);
}

#[test]
fn face_overlay_keeps_missing_planes() {
    let base = Face::new(Some(RGBA::new(10, 20, 30, 255)), None, FaceAttrs::empty());
    let top = Face::new(None, Some(RGBA::new(1, 2, 3, 255)), FaceAttrs::bold());
    let merged = base.overlay(&top);
    assert_eq!(merged.fg, Some(RGBA::new(10, 20, 30, 255)));
    assert_eq!(merged.bg, Some(RGBA::new(1, 2, 3, 255)));
    assert!(merged.attrs.contains(FaceAttrs::bold()));
    // an opaque overlay color replaces the base color
    let both = Face::new(Some(RGBA::new(5, 5, 5, 255)), None, FaceAttrs::empty());
    let over = both.overlay(&Face::new(
        Some(RGBA::new(200, 100, 50, 255)),
        None,
        FaceAttrs::empty(),
    ));
    assert_eq!(over.fg, Some(RGBA::new(200, 100, 50, 255)));
}
