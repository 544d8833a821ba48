//! Palette extraction, nearest-neighbor search and quantization.
use termimg::color::RGBA;
use termimg::image::Image;
use termimg::palette::ColorPalette;

fn dist(c0: RGBA, c1: RGBA) -> i32 {
    let [r0, g0, b0] = c0.rgb_u8();
    let [r1, g1, b1] = c1.rgb_u8();
    (r0 as i32 - r1 as i32).pow(2)
        + (g0 as i32 - g1 as i32).pow(2)
        + (b0 as i32 - b1 as i32).pow(2)
}

#[test]
pub fn test_palette() {
    // make sure that the k-d tree actually finds a nearest neighbor
    let mut gen = RGBA::random();
    let mut palette_colors = Vec::new();
    for _ in 0..256 {
        palette_colors.push(gen.next_color());
    }
    let palette = ColorPalette::new(palette_colors).unwrap();
    let mut colors: Vec<RGBA> = Vec::new();
    for _ in 0..65_536 {
        colors.push(gen.next_color());
    }
    colors.extend(palette.colors().iter().copied());
    for (index, color) in colors.iter().enumerate() {
        let (_, find) = palette.find(*color);
        let (_, find_naive) = palette.find_naive(*color);
        if find != find_naive && dist(*color, find) != dist(*color, find_naive) {
            panic!(
                "failed to find colors[{}]={:?}: find_naive={:?} find={:?}",
                index, color, find_naive, find
            );
        }
    }
}

#[test]
fn palette_find_is_consistent_on_members() {
    // for every palette color, find returns that color and its index
    let mut colors = Vec::new();
    for step in 0..32u8 {
        colors.push(RGBA::new(step * 8, 255 - step * 8, step, 255));
    }
    let palette = ColorPalette::new(colors.clone()).unwrap();
    for (i, c) in colors.iter().enumerate() {
        let (index, found) = palette.find(*c);
        assert_eq!(index, i);
        assert_eq!(found, *c);
    }
}

#[test]
fn palette_extraction_uniform_image() {
    // a uniform image yields a palette with exactly its one color
    let color = RGBA::new(10, 20, 30, 255);
    let data = vec![color; 16];
    let img = Image::new(4, 4, data, 1);
    let palette = ColorPalette::from_image(&img, 256, RGBA::new(0, 0, 0, 255)).unwrap();
    assert_eq!(palette.size(), 1);
    assert_eq!(palette.get(0), color);
    assert_eq!(palette.find(color), (0, color));
}

#[test]
fn palette_from_empty_image_is_none() {
    let img = Image::new(0, 0, Vec::new(), 7);
    assert!(ColorPalette::from_image(&img, 256, RGBA::new(0, 0, 0, 255)).is_none());
    assert!(img.quantize(256, true, None).is_none());
}

#[test]
fn quantize_indices_stay_in_palette() {
    // a noisy image, dithered: every index must name a palette color
    let mut gen = RGBA::random();
    let mut data = Vec::new();
    for _ in 0..40 * 30 {
        data.push(gen.next_color());
    }
    let img = Image::new(40, 30, data, 2);
    let (palette, indexed) = img.quantize(16, true, None).unwrap();
    assert!(palette.size() >= 1 && palette.size() <= 16);
    assert_eq!(indexed.len(), 40 * 30);
    for index in indexed.iter() {
        assert!(*index < palette.size());
    }
}

#[test]
fn quantize_uniform_image_without_dither() {
    let color = RGBA::new(200, 100, 50, 255);
    let data = vec![color; 6];
    let img = Image::new(3, 2, data, 3);
    let (palette, indexed) = img.quantize(8, false, None).unwrap();
    assert_eq!(palette.size(), 1);
    assert_eq!(indexed, vec![0, 0, 0, 0, 0, 0]);
}

#[test]
fn quantize_composites_transparent_pixels() {
    // transparent pixels composite over the background before quantization
    let data = vec![RGBA::new(255, 255, 255, 0); 4];
    let img = Image::new(2, 2, data, 4);
    let bg = RGBA::new(1, 2, 3, 255);
    let (palette, _) = img.quantize(8, false, Some(bg)).unwrap();
    assert_eq!(palette.size(), 1);
    assert_eq!(palette.get(0), bg);
}

#[test]
fn image_equality_is_the_fingerprint() {
    // two images compare equal exactly when their fingerprints do
    let a = Image::new(1, 1, vec![RGBA::new(1, 2, 3, 255)], 42);
    let b = Image::new(2, 1, vec![RGBA::new(9, 9, 9, 255), RGBA::new(0, 0, 0, 255)], 42);
    let c = Image::new(1, 1, vec![RGBA::new(1, 2, 3, 255)], 43);
    assert!(a == b);
    assert!(a != c);
}

#[test]
fn palette_stays_within_pixel_channel_box() {
    // every palette channel lies within the min/max of the composited pixels
    let mut gen = RGBA::random();
    let mut data = Vec::new();
    for _ in 0..64 {
        let c = gen.next_color();
        data.push(RGBA::new(40 + c.r % 100, 60 + c.g % 80, 10 + c.b % 50, 255));
    }
    let img = Image::new(8, 8, data.clone(), 5);
    let palette = ColorPalette::from_image(&img, 8, RGBA::new(0, 0, 0, 255)).unwrap();
    let lo = (
        data.iter().map(|c| c.r).min().unwrap(),
        data.iter().map(|c| c.g).min().unwrap(),
        data.iter().map(|c| c.b).min().unwrap(),
    );
    let hi = (
        data.iter().map(|c| c.r).max().unwrap(),
        data.iter().map(|c| c.g).max().unwrap(),
        data.iter().map(|c| c.b).max().unwrap(),
    );
    for c in palette.colors() {
        assert!(lo.0 <= c.r && c.r <= hi.0);
        assert!(lo.1 <= c.g && c.g <= hi.1);
        assert!(lo.2 <= c.b && c.b <= hi.2);
        assert_eq!(c.a, 255);
    }
}
