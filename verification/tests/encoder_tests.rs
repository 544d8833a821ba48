//! Protocol encoders: Kitty, Sixel, iTerm, the dispatcher, and the
//! byte-cache budget.
use std::io::Read;

use termimg::color::RGBA;
use termimg::handler::{AnyImageHandler, ImageHandler, ImageHandlerKind};
use termimg::image::Image;
use termimg::iterm::ItermImageHandler;
use termimg::kitty::KittyImageHandler;
use termimg::sixel::SixelImageHandler;
use termimg::terminal::{DecMode, DecModeStatus, Key, KeyMod, KeyName, Position, TerminalEvent, TerminalSize};

fn find_subsequence(haystack: &[u8], needle: &[u8]) -> Option<usize> {
    if needle.is_empty() {
        return Some(0);
    }
    haystack
        .windows(needle.len())
        .position(|window| window == needle)
}

fn count_subsequence(haystack: &[u8], needle: &[u8]) -> usize {
    if needle.is_empty() {
        return 0;
    }
    haystack
        .windows(needle.len())
        .filter(|window| *window == needle)
        .count()
}

fn b64_value(c: u8) -> u8 {
    match c {
        b'A'..=b'Z' => c - b'A',
        b'a'..=b'z' => c - b'a' + 26,
        b'0'..=b'9' => c - b'0' + 52,
        b'+' => 62,
        b'/' => 63,
        _ => panic!("not a base64 character: {}", c),
    }
}

fn b64_decode(data: &[u8]) -> Vec<u8> {
    let mut out = Vec::new();
    for group in data.chunks(4) {
        assert_eq!(group.len(), 4, "base64 length must be a multiple of four");
        let c0 = b64_value(group[0]) as u32;
        let c1 = b64_value(group[1]) as u32;
        out.push(((c0 << 2) | (c1 >> 4)) as u8);
        if group[2] != b'=' {
            let c2 = b64_value(group[2]) as u32;
            out.push((((c1 & 15) << 4) | (c2 >> 2)) as u8);
            if group[3] != b'=' {
                let c3 = b64_value(group[3]) as u32;
                out.push((((c2 & 3) << 6) | c3) as u8);
            }
        }
    }
    out
}

fn noise_image(width: usize, height: usize, hash: u64) -> Image {
    let mut gen = RGBA::random();
    let mut data = Vec::new();
    for _ in 0..width * height {
        data.push(gen.next_color());
    }
    Image::new(width, height, data, hash)
}

#[test]
fn kitty_draw_is_idempotent() {
    // drawing the same image twice transfers once, places twice
    let img = noise_image(8, 8, 424242);
    let mut handler = KittyImageHandler::new();
    let mut out = Vec::new();
    handler.draw(&mut out, &img, Position::new(1, 2)).unwrap();
    handler.draw(&mut out, &img, Position::new(3, 4)).unwrap();
    assert_eq!(count_subsequence(&out, b"a=t"), 1);
    assert_eq!(count_subsequence(&out, b"a=p"), 2);
}

#[test]
fn kitty_retransmits_after_error_ack() {
    // a rejected transfer drops the cache entry, so the next draw
    // transfers again
    let img = noise_image(8, 8, 91);
    let mut handler = KittyImageHandler::new();
    let mut out = Vec::new();
    handler.draw(&mut out, &img, Position::new(0, 0)).unwrap();
    assert_eq!(count_subsequence(&out, b"a=t"), 1);

    let event = TerminalEvent::KittyImage {
        id: 91,
        error: Some(String::from("bad data")),
    };
    assert_eq!(handler.handle(&event).unwrap(), false);

    handler.draw(&mut out, &img, Position::new(0, 0)).unwrap();
    assert_eq!(count_subsequence(&out, b"a=t"), 2);
}

#[test]
fn kitty_clean_ack_is_filtered() {
    let img = noise_image(4, 4, 17);
    let mut handler = KittyImageHandler::new();
    let mut out = Vec::new();
    handler.draw(&mut out, &img, Position::new(0, 0)).unwrap();
    let clean = TerminalEvent::KittyImage { id: 17, error: None };
    assert_eq!(handler.handle(&clean).unwrap(), true);
    // the payload is still cached: the next draw is a bare placement
    let before = out.len();
    handler.draw(&mut out, &img, Position::new(0, 0)).unwrap();
    assert_eq!(count_subsequence(&out[before..], b"a=t"), 0);
}

#[test]
fn kitty_chunked_upload_structure() {
    // enough pixels that the base64 payload spans several 4096-byte chunks
    let img = noise_image(96, 96, 7777777);
    let mut handler = KittyImageHandler::new();
    let mut out = Vec::new();
    handler.draw(&mut out, &img, Position::new(5, 6)).unwrap();

    // split into APC frames
    let mut frames: Vec<&[u8]> = Vec::new();
    let mut rest: &[u8] = &out;
    while let Some(end) = find_subsequence(rest, b"\x1b\\") {
        frames.push(&rest[..end]);
        rest = &rest[end + 2..];
    }
    assert!(rest.is_empty());
    assert!(frames.len() >= 3, "expected several transfer chunks");

    // first frame carries the full control set
    let first = frames[0];
    assert!(first.starts_with(b"\x1b_Ga=t,f=32,o=z,i=7777777,v=96,s=96,m=1;"));

    // middle frames say m=1, the last transfer frame m=0, then the placement
    let placement = frames[frames.len() - 1];
    assert!(placement.starts_with(b"\x1b_Ga=p,i=7777777,p="));
    let last_transfer = frames[frames.len() - 2];
    assert!(last_transfer.starts_with(b"\x1b_Gm=0;"));
    for frame in &frames[1..frames.len() - 2] {
        assert!(frame.starts_with(b"\x1b_Gm=1;"));
    }

    // chunks are multiples of four bytes, and the reassembled payload
    // inflates back to the raw RGBA bytes
    let mut payload = Vec::new();
    for frame in &frames[..frames.len() - 1] {
        let semi = find_subsequence(frame, b";").unwrap();
        let chunk = &frame[semi + 1..];
        assert_eq!(chunk.len() % 4, 0, "chunk length must be divisible by 4");
        payload.extend_from_slice(chunk);
    }
    let compressed = b64_decode(&payload);
    let mut inflated = Vec::new();
    flate2::read::ZlibDecoder::new(&compressed[..])
        .read_to_end(&mut inflated)
        .unwrap();
    let mut raw = Vec::new();
    for color in img.data.iter() {
        raw.extend_from_slice(&color.rgba_u8());
    }
    assert_eq!(inflated, raw);
}

#[test]
fn kitty_erase_frames() {
    let img = noise_image(4, 4, 12);
    let mut handler = KittyImageHandler::new();
    let mut out = Vec::new();
    handler
        .erase(&mut out, &img, Some(Position::new(2, 3)))
        .unwrap();
    assert!(out.starts_with(b"\x1b_Ga=d,d=i,i=12,p="));
    out.clear();
    handler.erase(&mut out, &img, None).unwrap();
    assert_eq!(out, b"\x1b_Ga=d,d=i,i=12\x1b\\");
}

#[test]
fn sixel_red_square() {
    // a solid red image: one palette entry at full red, a band of
    // full-height sixels, and the standard framing
    let red = RGBA::new(255, 0, 0, 255);
    let img = Image::new(2, 2, vec![red; 4], 1001);
    let mut handler = SixelImageHandler::new(None);
    let mut out = Vec::new();
    handler.draw(&mut out, &img, Position::new(0, 0)).unwrap();

    assert!(out.starts_with(b"\x1bPq"));
    assert!(out.ends_with(b"\x1b\\"));
    assert!(find_subsequence(&out, b"\"1;1;2;2").is_some());
    assert!(find_subsequence(&out, b"#0;2;100;0;0").is_some());
    // both columns carry all six band rows: '~' twice
    assert!(find_subsequence(&out, b"~~").is_some());
    assert_eq!(out[out.len() - 3], b'-');
}

#[test]
fn sixel_well_formed_bands() {
    // every band ends with '-' and the stream is framed correctly
    let img = noise_image(10, 14, 555);
    let mut handler = SixelImageHandler::new(None);
    let mut out = Vec::new();
    handler.draw(&mut out, &img, Position::new(0, 0)).unwrap();
    assert!(out.starts_with(b"\x1bPq"));
    assert!(out.ends_with(b"\x1b\\"));
    // 14 rows make three bands of six
    assert_eq!(count_subsequence(&out, b"-"), 3);
    assert_eq!(out[out.len() - 3], b'-');
    // every color introduction uses '#', and data bytes stay printable
    let body_start = find_subsequence(&out, b"#").unwrap();
    for &byte in &out[body_start..out.len() - 2] {
        assert!(
            byte == b'#' || byte == b'$' || byte == b'-' || byte == b'!' || byte == b';'
                || byte.is_ascii_digit() || (63..=126).contains(&byte),
            "unexpected sixel byte: {}",
            byte
        );
    }
    // drawing again hits the cache and emits identical bytes
    let mut again = Vec::new();
    handler.draw(&mut again, &img, Position::new(0, 0)).unwrap();
    assert_eq!(out, again);
}

#[test]
fn iterm_inline_png() {
    // a single black pixel: the full escape with a decodable PNG inside
    let img = Image::new(1, 1, vec![RGBA::new(0, 0, 0, 255)], 31);
    let mut handler = ItermImageHandler::new();
    let mut out = Vec::new();
    handler.draw(&mut out, &img, Position::new(0, 0)).unwrap();

    assert!(out.starts_with(b"\x1b]1337;File=inline=1;width=1px:"));
    assert_eq!(*out.last().unwrap(), 0x07);
    let colon = find_subsequence(&out, b"px:").unwrap() + 3;
    let encoded = &out[colon..out.len() - 1];
    for &byte in encoded {
        assert!(
            byte.is_ascii_alphanumeric() || byte == b'+' || byte == b'/' || byte == b'=',
            "unexpected base64 byte: {}",
            byte
        );
    }

    // the payload is a real PNG of the right shape and content
    let png_bytes = b64_decode(encoded);
    let decoder = png::Decoder::new(&png_bytes[..]);
    let mut reader = decoder.read_info().unwrap();
    let mut buf = vec![0u8; reader.output_buffer_size()];
    let info = reader.next_frame(&mut buf).unwrap();
    assert_eq!(info.width, 1);
    assert_eq!(info.height, 1);
    assert_eq!(&buf[..4], &[0, 0, 0, 255]);

    // a second draw is served from the cache, byte for byte
    let mut again = Vec::new();
    handler.draw(&mut again, &img, Position::new(0, 0)).unwrap();
    assert_eq!(out, again);
}

#[test]
fn iterm_rejects_empty_image() {
    let img = Image::new(0, 0, Vec::new(), 99);
    let mut handler = ItermImageHandler::new();
    let mut out = Vec::new();
    let result = handler.draw(&mut out, &img, Position::new(0, 0));
    assert!(result.is_err());
    assert!(out.is_empty());
}

#[test]
fn cache_stays_within_budget() {
    // grow a cache past a small budget, then shrink: the accounted
    // size never exceeds budget plus the newest entry
    let budget: usize = 100;
    let mut cache = termimg::cache::lru_new();
    let mut size: usize = 0;
    for key in 0..10u64 {
        let payload = vec![key as u8; 30];
        size += payload.len();
        termimg::cache::lru_put(&mut cache, key, payload);
        termimg::cache::shrink_to_budget(&mut cache, &mut size, budget);
        assert!(size <= budget + 30);
    }
    assert!(size <= budget + 30);
    // one oversized entry survives alone
    let big = vec![7u8; 500];
    size += big.len();
    termimg::cache::lru_put(&mut cache, 77, big);
    termimg::cache::shrink_to_budget(&mut cache, &mut size, budget);
    assert_eq!(termimg::cache::lru_len(&cache), 1);
    assert_eq!(size, 500);
}

#[test]
fn dispatcher_selects_handlers() {
    let kinds = [
        ImageHandlerKind::Kitty,
        ImageHandlerKind::Sixel,
        ImageHandlerKind::ITerm,
        ImageHandlerKind::Dummy,
    ];
    for kind in kinds {
        let mut handler: AnyImageHandler = kind.into_image_handler(None);
        assert_eq!(handler.kind(), kind);
        let img = noise_image(2, 2, 5);
        let mut out = Vec::new();
        handler.draw(&mut out, &img, Position::new(0, 0)).unwrap();
        if kind == ImageHandlerKind::Dummy {
            assert!(out.is_empty());
        } else {
            assert!(!out.is_empty());
        }
    }
    assert_eq!(
        "KITTY".parse::<ImageHandlerKind>().unwrap(),
        ImageHandlerKind::Kitty
    );
    assert_eq!(
        "sixel".parse::<ImageHandlerKind>().unwrap(),
        ImageHandlerKind::Sixel
    );
    assert!("spectre".parse::<ImageHandlerKind>().is_err());
}

#[test]
fn terminal_codes_round_trip() {
    for mode in [
        DecMode::VisibleCursor,
        DecMode::AutoWrap,
        DecMode::MouseReport,
        DecMode::MouseMotions,
        DecMode::MouseSGR,
        DecMode::AltScreen,
        DecMode::KittyKeyboard,
    ] {
        assert_eq!(DecMode::from_usize(mode.to_usize()), Some(mode));
    }
    assert_eq!(DecMode::from_usize(26), None);
    for status in [
        DecModeStatus::NotRecognized,
        DecModeStatus::Enabled,
        DecModeStatus::Disabled,
        DecModeStatus::PermanentlyEnabled,
        DecModeStatus::PermanentlyDisabled,
    ] {
        assert_eq!(DecModeStatus::from_usize(status.to_usize()), Some(status));
    }
    assert_eq!(DecModeStatus::from_usize(5), None);

    let key = Key::new(KeyName::Char('q'), KeyMod::ctrl());
    assert!(key.mode.contains(KeyMod::ctrl()));
    assert!(!key.mode.contains(KeyMod::shift()));
    assert!(KeyMod::empty().is_empty());
    assert_eq!(KeyMod::from_bits(3).bits, 3);

    let term = TerminalSize {
        width: 80,
        height: 24,
        width_pixels: 800,
        height_pixels: 480,
    };
    let cell = term.cell_size();
    assert_eq!(cell.width, 10);
    assert_eq!(cell.height, 20);
    let img = noise_image(40, 100, 1);
    let cells = img.size_cells(term);
    assert_eq!(cells.width, 4);
    assert_eq!(cells.height, 5);
    assert_eq!(img.size(), 40 * 100 * 4);
}
