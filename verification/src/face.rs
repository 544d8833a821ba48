//! Foreground/background colors and style attributes of a terminal cell.
use vstd::prelude::*;
use vstd::string::StringSliceAdditionalSpecFns;

use crate::codec::{ascii_string, spec_ascii};
use crate::color::{
    find_byte, parse_rgba_range, spec_parse_rgba, spec_rgba_text, Blend, RGBA,
};

verus! {

/// Face style attributes, a small bit set.
#[derive(Clone, Copy, PartialEq, Eq, Structural, Debug, Hash)]
pub struct FaceAttrs {
    bits: u16,
}

/// The attribute bit set holding exactly the given bits; the spec-level
/// constructor the parsing model uses.
pub closed spec fn attrs_from_bits(b: u16) -> FaceAttrs {
    FaceAttrs { bits: b }
}

impl FaceAttrs {
    /// The raw bit set, as the contracts speak of it. Only the six
    /// defined attribute bits can ever be set: every constructor keeps
    /// the value below 64.
    pub closed spec fn spec_bits(self) -> u16 {
        self.bits
    }

    /// No attributes.
    pub fn empty() -> (r: FaceAttrs)
        ensures
            r.spec_bits() == 0,
    {
        FaceAttrs { bits: 0 }
    }

    /// Bold text.
    pub fn bold() -> (r: FaceAttrs)
        ensures
            r.spec_bits() == 1,
    {
        FaceAttrs { bits: 1 }
    }

    /// Italic text.
    pub fn italic() -> (r: FaceAttrs)
        ensures
            r.spec_bits() == 2,
    {
        FaceAttrs { bits: 2 }
    }

    /// Underlined text.
    pub fn underline() -> (r: FaceAttrs)
        ensures
            r.spec_bits() == 4,
    {
        FaceAttrs { bits: 4 }
    }

    /// Blinking text.
    pub fn blink() -> (r: FaceAttrs)
        ensures
            r.spec_bits() == 8,
    {
        FaceAttrs { bits: 8 }
    }

    /// Reverse video.
    pub fn reverse() -> (r: FaceAttrs)
        ensures
            r.spec_bits() == 16,
    {
        FaceAttrs { bits: 16 }
    }

    /// Struck-through text.
    pub fn strike() -> (r: FaceAttrs)
        ensures
            r.spec_bits() == 32,
    {
        FaceAttrs { bits: 32 }
    }

    /// True when no attribute is set.
    pub fn is_empty(self) -> (r: bool)
        ensures
            r == (self.spec_bits() == 0),
    {
        self.bits == 0
    }

    /// Whether all attributes of `other` are set in `self`.
    pub fn contains(self, other: FaceAttrs) -> (r: bool)
        ensures
            r == (self.spec_bits() & other.spec_bits() == other.spec_bits()),
    {
        self.bits & other.bits == other.bits
    }

    /// Add all attributes set in `other`.
    pub fn insert(self, other: FaceAttrs) -> (r: FaceAttrs)
        ensures
            r.spec_bits() == self.spec_bits() | other.spec_bits(),
    {
        FaceAttrs { bits: self.bits | other.bits }
    }

    /// Remove all attributes set in `other`.
    pub fn remove(self, other: FaceAttrs) -> (r: FaceAttrs)
        ensures
            r.spec_bits() == self.spec_bits() & (other.spec_bits() ^ 63),
    {
        FaceAttrs { bits: self.bits & (other.bits ^ 63) }
    }

    /// Names of the set attributes, in display order.
    pub fn names(&self) -> (r: Vec<&'static str>)
        ensures
            r.deep_view() == spec_attr_names(self.spec_bits()),
    {
        let mut out: Vec<&'static str> = Vec::new();
        if self.bits & 1 == 1 {
            out.push("bold");
        }
        if self.bits & 2 == 2 {
            out.push("italic");
        }
        if self.bits & 4 == 4 {
            out.push("underline");
        }
        if self.bits & 8 == 8 {
            out.push("blink");
        }
        if self.bits & 16 == 16 {
            out.push("reverse");
        }
        if self.bits & 32 == 32 {
            out.push("strike");
        }
        proof {
            assert(out.deep_view() =~= spec_attr_names(self.bits));
        }
        out
    }
}

/// The attribute names selected by a bit pattern, in display order.
pub open spec fn spec_attr_names(bits: u16) -> Seq<Seq<char>> {
    let s = Seq::<Seq<char>>::empty();
    let s = if bits & 1 == 1 {
        s.push("bold"@)
    } else {
        s
    };
    let s = if bits & 2 == 2 {
        s.push("italic"@)
    } else {
        s
    };
    let s = if bits & 4 == 4 {
        s.push("underline"@)
    } else {
        s
    };
    let s = if bits & 8 == 8 {
        s.push("blink"@)
    } else {
        s
    };
    let s = if bits & 16 == 16 {
        s.push("reverse"@)
    } else {
        s
    };
    if bits & 32 == 32 {
        s.push("strike"@)
    } else {
        s
    }
}

/// Colors and style attributes of a terminal cell.
#[derive(Clone, Copy, PartialEq, Eq, Debug, Hash)]
pub struct Face {
    /// Foreground color
    pub fg: Option<RGBA>,
    /// Background color
    pub bg: Option<RGBA>,
    /// Style attributes
    pub attrs: FaceAttrs,
}

/// Overlaying combines both color planes with `Over` compositing and
/// takes the overlay's attributes.
pub open spec fn spec_overlay(base: Face, other: Face) -> Face {
    let fg = match (base.fg, other.fg) {
        (Some(dst), Some(src)) => Some(crate::color::spec_blend(dst, src, Blend::Over)),
        (fg, None) => fg,
        (None, fg) => fg,
    };
    let bg = match (base.bg, other.bg) {
        (Some(dst), Some(src)) => Some(crate::color::spec_blend(dst, src, Blend::Over)),
        (bg, None) => bg,
        (None, bg) => bg,
    };
    Face { fg, bg, attrs: other.attrs }
}

impl Face {
    /// Build a face from its parts.
    pub fn new(fg: Option<RGBA>, bg: Option<RGBA>, attrs: FaceAttrs) -> (r: Face)
        ensures
            r == (Face { fg, bg, attrs }),
    {
        Face { fg, bg, attrs }
    }

    /// The default face: no colors, no attributes.
    pub fn plain() -> (r: Face)
        ensures
            r == (Face { fg: None::<RGBA>, bg: None::<RGBA>, attrs: attrs_from_bits(0) }),
    {
        Face { fg: None, bg: None, attrs: FaceAttrs { bits: 0 } }
    }

    /// Override background color.
    pub fn with_bg(&self, bg: Option<RGBA>) -> (r: Face)
        ensures
            r == (Face { bg, ..*self }),
    {
        Face { bg, ..*self }
    }

    /// Override foreground color.
    pub fn with_fg(&self, fg: Option<RGBA>) -> (r: Face)
        ensures
            r == (Face { fg, ..*self }),
    {
        Face { fg, ..*self }
    }

    /// Override style attributes.
    pub fn with_attrs(&self, attrs: FaceAttrs) -> (r: Face)
        ensures
            r == (Face { attrs, ..*self }),
    {
        Face { attrs, ..*self }
    }

    /// Swap foreground and background colors.
    pub fn invert(&self) -> (r: Face)
        ensures
            r == (Face { fg: self.bg, bg: self.fg, attrs: self.attrs }),
    {
        Face { fg: self.bg, bg: self.fg, attrs: self.attrs }
    }

    /// Overlay `other` on top of `self`.
    pub fn overlay(&self, other: &Face) -> (r: Face)
        ensures
            r == spec_overlay(*self, *other),
    {
        let fg = match (self.fg, other.fg) {
            (Some(dst), Some(src)) => Some(dst.blend(src, Blend::Over)),
            (fg, None) => fg,
            (None, fg) => fg,
        };
        let bg = match (self.bg, other.bg) {
            (Some(dst), Some(src)) => Some(dst.blend(src, Blend::Over)),
            (bg, None) => bg,
            (None, bg) => bg,
        };
        Face { fg, bg, attrs: other.attrs }
    }

    /// Parse a comma-separated face description such as
    /// `fg=#98971a,bg=#bdae93,bold,underline`; keys are
    /// case-insensitive and padding spaces are ignored.
    pub fn parse_str(text: &str) -> (r: Option<Face>)
        ensures
            r == spec_parse_face(text.spec_bytes()),
    {
        let bytes: &[u8] = text.as_bytes();
        let n = bytes.len();
        let mut face = Face::plain();
        let mut start: usize = 0;
        proof {
            assert(bytes@.subrange(0, n as int) =~= bytes@);
            assert(spec_parse_face(bytes@) == spec_face_fold(face, bytes@.subrange(0, n as int)));
        }
        loop
            invariant
                start <= n,
                n == bytes@.len(),
                bytes@ == text.spec_bytes(),
                spec_parse_face(bytes@) == spec_face_fold(
                    face,
                    bytes@.subrange(start as int, n as int),
                ),
            decreases n - start,
        {
            let comma = crate::color::find_byte_from(bytes, start, n, 44);
            let ghost seg = bytes@.subrange(start as int, comma as int);
            let ghost rest = bytes@.subrange(start as int, n as int);
            proof {
                assert(seg =~= rest.subrange(0, comma - start));
            }
            let updated = face_apply_segment(face, bytes, start, comma);
            match updated {
                None => {
                    proof {
                        assert(spec_face_fold(face, rest) is None);
                    }
                    return None;
                },
                Some(next_face) => {
                    if comma == n {
                        proof {
                            assert(find_byte(rest, 44) == rest.len());
                            assert(spec_face_fold(face, rest) == spec_face_seg(face, rest));
                            assert(seg =~= rest);
                        }
                        return Some(next_face);
                    }
                    proof {
                        assert(find_byte(rest, 44) == comma - start);
                        assert(rest.subrange(comma - start + 1, rest.len() as int)
                            =~= bytes@.subrange(comma as int + 1, n as int));
                    }
                    face = next_face;
                    start = comma + 1;
                },
            }
        }
    }

    /// Render the face as the comma-separated description accepted by
    /// `parse_str`; every present part carries a trailing comma.
    pub fn to_string(&self) -> (s: String)
        ensures
            s@ == spec_ascii(spec_face_text(*self)),
    {
        let mut out: Vec<u8> = Vec::new();
        match self.fg {
            Some(fg) => {
                out.push(102);
                out.push(103);
                out.push(61);
                push_rgba_text(&mut out, fg);
                out.push(44);
            },
            None => {},
        }
        proof {
            assert(out@ =~= (match self.fg {
                Some(fg) => seq![102u8, 103u8, 61u8] + spec_rgba_text(fg) + seq![44u8],
                None => Seq::<u8>::empty(),
            }));
        }
        let ghost s1 = out@;
        match self.bg {
            Some(bg) => {
                out.push(98);
                out.push(103);
                out.push(61);
                push_rgba_text(&mut out, bg);
                out.push(44);
            },
            None => {},
        }
        proof {
            assert(out@ =~= s1 + (match self.bg {
                Some(bg) => seq![98u8, 103u8, 61u8] + spec_rgba_text(bg) + seq![44u8],
                None => Seq::<u8>::empty(),
            }));
        }
        let ghost s2 = out@;
        push_attr_text(&mut out, self.attrs.bits);
        proof {
            assert(out@ =~= spec_face_text(*self));
            lemma_face_text_ascii(*self);
        }
        ascii_string(&out)
    }
}

/// ASCII-lowercase every byte.
pub open spec fn ascii_lower(s: Seq<u8>) -> Seq<u8> {
    s.map_values(
        |b: u8|
            if 65 <= b && b <= 90 {
                (b + 32) as u8
            } else {
                b
            },
    )
}

/// ASCII whitespace, as trimmed around keys and values.
pub open spec fn is_ws(b: u8) -> bool {
    b == 32 || (9 <= b && b <= 13)
}

/// Strip leading and trailing ASCII whitespace.
pub open spec fn trim_ws(s: Seq<u8>) -> Seq<u8>
    decreases s.len(),
{
    if s.len() > 0 && is_ws(s[0]) {
        trim_ws(s.subrange(1, s.len() as int))
    } else if s.len() > 0 && is_ws(s.last()) {
        trim_ws(s.drop_last())
    } else {
        s
    }
}

/// Interpret one `key=value` segment of a face description on top of
/// an already accumulated face.
pub open spec fn spec_face_seg(face: Face, seg: Seq<u8>) -> Option<Face> {
    let j = find_byte(seg, 61);
    let key = ascii_lower(trim_ws(seg.subrange(0, j)));
    let value = if j == seg.len() {
        Seq::<u8>::empty()
    } else {
        seg.subrange(j + 1, seg.len() as int)
    };
    if key.len() == 0 {
        Some(face)
    } else if key == keyword(0) {
        match spec_parse_rgba(trim_ws(value)) {
            Some(c) => Some(Face { fg: Some(c), ..face }),
            None => None,
        }
    } else if key == keyword(1) {
        match spec_parse_rgba(trim_ws(value)) {
            Some(c) => Some(Face { bg: Some(c), ..face }),
            None => None,
        }
    } else if key == keyword(2) {
        Some(with_bit(face, 1))
    } else if key == keyword(3) {
        Some(with_bit(face, 2))
    } else if key == keyword(4) {
        Some(with_bit(face, 4))
    } else if key == keyword(5) {
        Some(with_bit(face, 8))
    } else if key == keyword(6) {
        Some(with_bit(face, 16))
    } else if key == keyword(7) {
        Some(with_bit(face, 32))
    } else {
        None
    }
}

/// A face with one more attribute bit set.
pub open spec fn with_bit(face: Face, bit: u16) -> Face {
    Face { attrs: attrs_from_bits(face.attrs.spec_bits() | bit), ..face }
}

/// Fold the comma-separated segments of a face description, stopping at
/// the first segment that fails.
pub open spec fn spec_face_fold(face: Face, s: Seq<u8>) -> Option<Face>
    decreases s.len(),
{
    let i = find_byte(s, 44);
    if 0 <= i < s.len() {
        match spec_face_seg(face, s.subrange(0, i)) {
            None => None,
            Some(f) => spec_face_fold(f, s.subrange(i + 1, s.len() as int)),
        }
    } else {
        spec_face_seg(face, s)
    }
}

/// What `Face::parse_str` yields for a byte string.
pub open spec fn spec_parse_face(s: Seq<u8>) -> Option<Face> {
    spec_face_fold(Face { fg: None, bg: None, attrs: attrs_from_bits(0) }, s)
}

/// The textual form of a face: `fg=`/`bg=` colors then attribute names,
/// each part with a trailing comma.
pub open spec fn spec_face_text(face: Face) -> Seq<u8> {
    let s = Seq::<u8>::empty();
    let s = match face.fg {
        Some(fg) => s + seq![102u8, 103u8, 61u8] + spec_rgba_text(fg) + seq![44u8],
        None => s,
    };
    let s = match face.bg {
        Some(bg) => s + seq![98u8, 103u8, 61u8] + spec_rgba_text(bg) + seq![44u8],
        None => s,
    };
    s + spec_attr_text(face.attrs.spec_bits())
}

/// The attribute-name section of a face's textual form.
pub open spec fn spec_attr_text(bits: u16) -> Seq<u8> {
    let s = Seq::<u8>::empty();
    let s = if bits & 1 == 1 {
        s + name_bytes(0)
    } else {
        s
    };
    let s = if bits & 2 == 2 {
        s + name_bytes(1)
    } else {
        s
    };
    let s = if bits & 4 == 4 {
        s + name_bytes(2)
    } else {
        s
    };
    let s = if bits & 8 == 8 {
        s + name_bytes(3)
    } else {
        s
    };
    let s = if bits & 16 == 16 {
        s + name_bytes(4)
    } else {
        s
    };
    if bits & 32 == 32 {
        s + name_bytes(5)
    } else {
        s
    }
}

/// The bytes of one attribute name, comma included.
pub open spec fn name_bytes(which: int) -> Seq<u8> {
    if which == 0 {
        seq![98u8, 111u8, 108u8, 100u8, 44u8]  // bold,
    } else if which == 1 {
        seq![105u8, 116u8, 97u8, 108u8, 105u8, 99u8, 44u8]  // italic,
    } else if which == 2 {
        seq![117u8, 110u8, 100u8, 101u8, 114u8, 108u8, 105u8, 110u8, 101u8, 44u8]  // underline,
    } else if which == 3 {
        seq![98u8, 108u8, 105u8, 110u8, 107u8, 44u8]  // blink,
    } else if which == 4 {
        seq![114u8, 101u8, 118u8, 101u8, 114u8, 115u8, 101u8, 44u8]  // reverse,
    } else {
        seq![115u8, 116u8, 114u8, 105u8, 107u8, 101u8, 44u8]  // strike,
    }
}

/// Push one attribute name, comma included.
fn push_name(out: &mut Vec<u8>, which: usize)
    requires
        which < 6,
    ensures
        final(out)@ == old(out)@ + name_bytes(which as int),
{
    if which == 0 {
        out.push(98);
        out.push(111);
        out.push(108);
        out.push(100);
        out.push(44);
    } else if which == 1 {
        out.push(105);
        out.push(116);
        out.push(97);
        out.push(108);
        out.push(105);
        out.push(99);
        out.push(44);
    } else if which == 2 {
        out.push(117);
        out.push(110);
        out.push(100);
        out.push(101);
        out.push(114);
        out.push(108);
        out.push(105);
        out.push(110);
        out.push(101);
        out.push(44);
    } else if which == 3 {
        out.push(98);
        out.push(108);
        out.push(105);
        out.push(110);
        out.push(107);
        out.push(44);
    } else if which == 4 {
        out.push(114);
        out.push(101);
        out.push(118);
        out.push(101);
        out.push(114);
        out.push(115);
        out.push(101);
        out.push(44);
    } else {
        out.push(115);
        out.push(116);
        out.push(114);
        out.push(105);
        out.push(107);
        out.push(101);
        out.push(44);
    }
    proof {
        assert(out@ =~= old(out)@ + name_bytes(which as int));
    }
}

/// Push the textual form of a color.
fn push_rgba_text(out: &mut Vec<u8>, c: RGBA)
    ensures
        final(out)@ == old(out)@ + spec_rgba_text(c),
{
    out.push(35);
    crate::codec::push_hex_byte(out, c.r);
    crate::codec::push_hex_byte(out, c.g);
    crate::codec::push_hex_byte(out, c.b);
    if c.a != 255 {
        crate::codec::push_hex_byte(out, c.a);
    }
    proof {
        assert(out@ =~= old(out)@ + spec_rgba_text(c));
    }
}

/// Append the attribute-name section of a face's textual form.
#[verifier::rlimit(60)]
fn push_attr_text(out: &mut Vec<u8>, bits: u16)
    ensures
        final(out)@ == old(out)@ + spec_attr_text(bits),
{
    let ghost e = Seq::<u8>::empty();
    let ghost p0 = e;
    let ghost p1 = if bits & 1 == 1 { p0 + name_bytes(0) } else { p0 };
    let ghost p2 = if bits & 2 == 2 { p1 + name_bytes(1) } else { p1 };
    let ghost p3 = if bits & 4 == 4 { p2 + name_bytes(2) } else { p2 };
    let ghost p4 = if bits & 8 == 8 { p3 + name_bytes(3) } else { p3 };
    let ghost p5 = if bits & 16 == 16 { p4 + name_bytes(4) } else { p4 };
    let ghost p6 = if bits & 32 == 32 { p5 + name_bytes(5) } else { p5 };
    if bits & 1 == 1 {
        push_name(out, 0);
    }
    proof {
        assert(out@ =~= old(out)@ + p1);
    }
    if bits & 2 == 2 {
        push_name(out, 1);
    }
    proof {
        assert(out@ =~= old(out)@ + p2);
    }
    if bits & 4 == 4 {
        push_name(out, 2);
    }
    proof {
        assert(out@ =~= old(out)@ + p3);
    }
    if bits & 8 == 8 {
        push_name(out, 3);
    }
    proof {
        assert(out@ =~= old(out)@ + p4);
    }
    if bits & 16 == 16 {
        push_name(out, 4);
    }
    proof {
        assert(out@ =~= old(out)@ + p5);
    }
    if bits & 32 == 32 {
        push_name(out, 5);
    }
    proof {
        assert(out@ =~= old(out)@ + p6);
        assert(p6 =~= spec_attr_text(bits));
    }
}

/// Every byte of one attribute name is ASCII.
proof fn lemma_name_bytes_ascii(which: int)
    ensures
        forall|j: int| 0 <= j < name_bytes(which).len() ==> name_bytes(which)[j] < 128,
{
}

/// Every byte of a color's textual form is ASCII.
proof fn lemma_rgba_text_ascii(c: RGBA)
    ensures
        forall|j: int| 0 <= j < spec_rgba_text(c).len() ==> spec_rgba_text(c)[j] < 128,
{
    assert(spec_hex_char_ascii(c.r));
    assert(spec_hex_char_ascii(c.g));
    assert(spec_hex_char_ascii(c.b));
    assert(spec_hex_char_ascii(c.a));
}

/// Both hex digits of a byte are ASCII.
pub open spec fn spec_hex_char_ascii(b: u8) -> bool {
    crate::codec::spec_hex_char(b as int / 16) < 128 && crate::codec::spec_hex_char(
        b as int % 16,
    ) < 128
}

/// The attribute-name section is ASCII throughout.
proof fn lemma_attr_text_ascii(bits: u16)
    ensures
        forall|j: int| 0 <= j < spec_attr_text(bits).len() ==> spec_attr_text(bits)[j] < 128,
{
    lemma_name_bytes_ascii(0);
    lemma_name_bytes_ascii(1);
    lemma_name_bytes_ascii(2);
    lemma_name_bytes_ascii(3);
    lemma_name_bytes_ascii(4);
    lemma_name_bytes_ascii(5);
}

/// Every byte of a face's textual form is ASCII.
#[verifier::rlimit(60)]
proof fn lemma_face_text_ascii(face: Face)
    ensures
        forall|i: int| 0 <= i < spec_face_text(face).len() ==> spec_face_text(face)[i] < 128,
{
    match face.fg {
        Some(fg) => {
            lemma_rgba_text_ascii(fg);
        },
        None => {},
    }
    match face.bg {
        Some(bg) => {
            lemma_rgba_text_ascii(bg);
        },
        None => {},
    }
    lemma_attr_text_ascii(face.attrs.spec_bits());
}

/// Interpret `bytes[lo..hi]` as one face segment on top of `face`.
fn face_apply_segment(face: Face, bytes: &[u8], lo: usize, hi: usize) -> (r: Option<Face>)
    requires
        lo <= hi <= bytes@.len(),
    ensures
        r == spec_face_seg(face, bytes@.subrange(lo as int, hi as int)),
{
    let ghost seg = bytes@.subrange(lo as int, hi as int);
    let eq = crate::color::find_byte_from(bytes, lo, hi, 61);
    proof {
        assert(find_byte(seg, 61) == eq - lo);
        assert(seg.subrange(0, eq - lo) =~= bytes@.subrange(lo as int, eq as int));
        if eq < hi {
            assert(seg.subrange(eq - lo + 1, seg.len() as int) =~= bytes@.subrange(
                eq as int + 1,
                hi as int,
            ));
        }
    }
    // trim and lowercase the key
    let (klo, khi) = trim_ws_range(bytes, lo, eq);
    let mut key: Vec<u8> = Vec::new();
    let mut k: usize = klo;
    while k < khi
        invariant
            klo <= k <= khi <= bytes@.len(),
            key@ == ascii_lower(bytes@.subrange(klo as int, k as int)),
        decreases khi - k,
    {
        let b = bytes[k];
        key.push(
            if 65 <= b && b <= 90 {
                b + 32
            } else {
                b
            },
        );
        proof {
            assert(key@ =~= ascii_lower(bytes@.subrange(klo as int, k as int + 1)));
        }
        k = k + 1;
    }
    proof {
        assert(key@ == ascii_lower(trim_ws(seg.subrange(0, eq - lo))));
    }
    if key.len() == 0 {
        return Some(face);
    }
    if key_is(&key, 0) {
        // fg=
        let (vlo, vhi) = trim_ws_range(bytes, if eq < hi { eq + 1 } else { hi }, hi);
        let ghost value = if eq < hi {
            seg.subrange(eq - lo + 1, seg.len() as int)
        } else {
            Seq::<u8>::empty()
        };
        proof {
            assert(trim_ws(value) =~= bytes@.subrange(vlo as int, vhi as int));
        }
        match parse_rgba_range(bytes, vlo, vhi) {
            Some(c) => Some(Face { fg: Some(c), ..face }),
            None => None,
        }
    } else if key_is(&key, 1) {
        // bg=
        let (vlo, vhi) = trim_ws_range(bytes, if eq < hi { eq + 1 } else { hi }, hi);
        let ghost value = if eq < hi {
            seg.subrange(eq - lo + 1, seg.len() as int)
        } else {
            Seq::<u8>::empty()
        };
        proof {
            assert(trim_ws(value) =~= bytes@.subrange(vlo as int, vhi as int));
        }
        match parse_rgba_range(bytes, vlo, vhi) {
            Some(c) => Some(Face { bg: Some(c), ..face }),
            None => None,
        }
    } else if key_is(&key, 2) {
        Some(Face { attrs: FaceAttrs { bits: face.attrs.bits | 1 }, ..face })
    } else if key_is(&key, 3) {
        Some(Face { attrs: FaceAttrs { bits: face.attrs.bits | 2 }, ..face })
    } else if key_is(&key, 4) {
        Some(Face { attrs: FaceAttrs { bits: face.attrs.bits | 4 }, ..face })
    } else if key_is(&key, 5) {
        Some(Face { attrs: FaceAttrs { bits: face.attrs.bits | 8 }, ..face })
    } else if key_is(&key, 6) {
        Some(Face { attrs: FaceAttrs { bits: face.attrs.bits | 16 }, ..face })
    } else if key_is(&key, 7) {
        Some(Face { attrs: FaceAttrs { bits: face.attrs.bits | 32 }, ..face })
    } else {
        None
    }
}

/// The keyword compared against by `key_is`.
pub open spec fn keyword(which: int) -> Seq<u8> {
    if which == 0 {
        seq![102u8, 103u8]  // fg
    } else if which == 1 {
        seq![98u8, 103u8]  // bg
    } else if which == 2 {
        seq![98u8, 111u8, 108u8, 100u8]  // bold
    } else if which == 3 {
        seq![105u8, 116u8, 97u8, 108u8, 105u8, 99u8]  // italic
    } else if which == 4 {
        seq![117u8, 110u8, 100u8, 101u8, 114u8, 108u8, 105u8, 110u8, 101u8]  // underline
    } else if which == 5 {
        seq![98u8, 108u8, 105u8, 110u8, 107u8]  // blink
    } else if which == 6 {
        seq![114u8, 101u8, 118u8, 101u8, 114u8, 115u8, 101u8]  // reverse
    } else {
        seq![115u8, 116u8, 114u8, 105u8, 107u8, 101u8]  // strike
    }
}

/// Compare a key against one of the known keywords.
fn key_is(key: &Vec<u8>, which: usize) -> (r: bool)
    requires
        which < 8,
    ensures
        r == (key@ == keyword(which as int)),
{
    let pat: [u8; 9] = [
        [102u8, 103u8, 0u8, 0u8, 0u8, 0u8, 0u8, 0u8, 0u8],
        [98u8, 103u8, 0u8, 0u8, 0u8, 0u8, 0u8, 0u8, 0u8],
        [98u8, 111u8, 108u8, 100u8, 0u8, 0u8, 0u8, 0u8, 0u8],
        [105u8, 116u8, 97u8, 108u8, 105u8, 99u8, 0u8, 0u8, 0u8],
        [117u8, 110u8, 100u8, 101u8, 114u8, 108u8, 105u8, 110u8, 101u8],
        [98u8, 108u8, 105u8, 110u8, 107u8, 0u8, 0u8, 0u8, 0u8],
        [114u8, 101u8, 118u8, 101u8, 114u8, 115u8, 101u8, 0u8, 0u8],
        [115u8, 116u8, 114u8, 105u8, 107u8, 101u8, 0u8, 0u8, 0u8],
    ][which];
    let len: usize = [2usize, 2, 4, 6, 9, 5, 7, 6][which];
    if key.len() != len {
        proof {
            assert(key@ != keyword(which as int));
        }
        return false;
    }
    let mut i: usize = 0;
    while i < len
        invariant
            i <= len,
            len == key@.len(),
            which < 8,
            len == keyword(which as int).len(),
            forall|j: int| 0 <= j < len ==> pat@[j] == keyword(which as int)[j],
            forall|j: int| 0 <= j < i ==> key@[j] == keyword(which as int)[j],
        decreases len - i,
    {
        if key[i] != pat[i] {
            proof {
                assert(key@[i as int] != keyword(which as int)[i as int]);
                assert(key@ != keyword(which as int));
            }
            return false;
        }
        i = i + 1;
    }
    proof {
        assert(key@ =~= keyword(which as int));
    }
    true
}

/// Trim ASCII whitespace from both ends of `bytes[lo..hi]`, returning
/// the trimmed bounds.
fn trim_ws_range(bytes: &[u8], lo0: usize, hi0: usize) -> (r: (usize, usize))
    requires
        lo0 <= hi0 <= bytes@.len(),
    ensures
        lo0 <= r.0 <= r.1 <= hi0,
        bytes@.subrange(r.0 as int, r.1 as int) == trim_ws(
            bytes@.subrange(lo0 as int, hi0 as int),
        ),
{
    let mut lo = lo0;
    let mut hi = hi0;
    while lo < hi && is_ws_exec(bytes[lo])
        invariant
            lo0 <= lo <= hi <= hi0 <= bytes@.len(),
            trim_ws(bytes@.subrange(lo as int, hi as int)) == trim_ws(
                bytes@.subrange(lo0 as int, hi0 as int),
            ),
        decreases hi - lo,
    {
        proof {
            let s = bytes@.subrange(lo as int, hi as int);
            assert(s.subrange(1, s.len() as int) =~= bytes@.subrange(lo as int + 1, hi as int));
        }
        lo = lo + 1;
    }
    while lo < hi && is_ws_exec(bytes[hi - 1])
        invariant
            lo0 <= lo <= hi <= hi0 <= bytes@.len(),
            trim_ws(bytes@.subrange(lo as int, hi as int)) == trim_ws(
                bytes@.subrange(lo0 as int, hi0 as int),
            ),
            lo == hi || !is_ws(bytes@[lo as int]),
        decreases hi - lo,
    {
        proof {
            let s = bytes@.subrange(lo as int, hi as int);
            assert(s.drop_last() =~= bytes@.subrange(lo as int, hi as int - 1));
        }
        hi = hi - 1;
    }
    proof {
        let s = bytes@.subrange(lo as int, hi as int);
        assert(trim_ws(s) == s);
    }
    (lo, hi)
}

/// Whether a byte is ASCII whitespace.
fn is_ws_exec(b: u8) -> (r: bool)
    ensures
        r == is_ws(b),
{
    b == 32 || (9 <= b && b <= 13)
}

impl core::str::FromStr for Face {
    type Err = crate::error::Error;

    fn from_str(string: &str) -> Result<Face, crate::error::Error> {
        match Face::parse_str(string) {
            Some(face) => Ok(face),
            None => Err(crate::error::Error::ParseError(string.to_owned())),
        }
    }
}

} // verus!
