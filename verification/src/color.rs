//! Color definition: 8-bit RGBA values, Porter-Duff compositing and parsing.
use vstd::prelude::*;
use vstd::string::StringSliceAdditionalSpecFns;

verus! {

/// Blend methods (Porter-Duff compositing operators).
#[derive(Clone, Copy, PartialEq, Eq, Structural, Debug, Hash)]
pub enum Blend {
    Over,
    Out,
    In,
    Atop,
    Xor,
}

/// u8 RGBA color, channels not premultiplied.
#[derive(Clone, Copy, PartialEq, Eq, Structural, Debug, Hash)]
pub struct RGBA {
    pub r: u8,
    pub g: u8,
    pub b: u8,
    pub a: u8,
}

/// `x * f / 255`, rounded to the nearest integer (half away from zero),
/// for `x, f` in `[0, 255]`.
pub open spec fn mul_div255(x: int, f: int) -> int {
    (x * f + 127) / 255
}

/// Premultiplied value of channel `c` under alpha `a`.
pub open spec fn spec_premul(c: u8, a: u8) -> int {
    mul_div255(c as int, a as int)
}

/// One premultiplied output component: `s`/`d` are the premultiplied source
/// and destination components, `sa`/`da` the two alphas.
pub open spec fn spec_blend_pre(s: int, sa: int, d: int, da: int, method: Blend) -> int {
    match method {
        Blend::Over => s + mul_div255(d, 255 - sa),
        Blend::Out => mul_div255(s, 255 - da),
        Blend::In => mul_div255(s, da),
        Blend::Atop => mul_div255(s, da) + mul_div255(d, 255 - sa),
        Blend::Xor => mul_div255(s, 255 - da) + mul_div255(d, 255 - sa),
    }
}

/// Recover a straight (non-premultiplied) channel from a premultiplied one,
/// rounding and clamping to `[0, 255]`.
pub open spec fn spec_unpremul(p: int, a: int) -> u8
    recommends
        a > 0,
{
    let q = (p * 255 + a / 2) / a;
    if q > 255 {
        255u8
    } else if q < 0 {
        0u8
    } else {
        q as u8
    }
}

/// Porter-Duff compositing of `src` onto `dst`, carried out on
/// premultiplied 8-bit sRGB channels; a zero result alpha collapses to
/// fully transparent black. Compositing directly on the gamma-encoded
/// channels is deliberate: it keeps the whole pipeline in exact
/// integer arithmetic. For translucent sources it darkens mixtures
/// relative to blending in the linear color space (for example, 50%
/// white over black gives 128 here rather than the ~188 a linear
/// blend would), so callers that need the linear result convert
/// outside this library.
pub open spec fn spec_blend(dst: RGBA, src: RGBA, method: Blend) -> RGBA {
    let sa = src.a as int;
    let da = dst.a as int;
    let oa = spec_blend_pre(sa, sa, da, da, method);
    if oa <= 0 {
        RGBA { r: 0, g: 0, b: 0, a: 0 }
    } else {
        RGBA {
            r: spec_unpremul(
                spec_blend_pre(spec_premul(src.r, src.a), sa, spec_premul(dst.r, dst.a), da, method),
                oa,
            ),
            g: spec_unpremul(
                spec_blend_pre(spec_premul(src.g, src.a), sa, spec_premul(dst.g, dst.a), da, method),
                oa,
            ),
            b: spec_unpremul(
                spec_blend_pre(spec_premul(src.b, src.a), sa, spec_premul(dst.b, dst.a), da, method),
                oa,
            ),
            a: oa as u8,
        }
    }
}

/// `mul_div255` stays within `[0, min(x, f)]` when both arguments are channels.
pub proof fn lemma_mul_div255_bounds(x: int, f: int)
    requires
        0 <= x <= 255,
        0 <= f <= 255,
    ensures
        0 <= mul_div255(x, f),
        mul_div255(x, f) <= x,
        mul_div255(x, f) <= f,
{
    assert(x * f >= 0) by (nonlinear_arith)
        requires 0 <= x && 0 <= f;
    assert(x * f + 127 < 255 * (x + 1)) by (nonlinear_arith)
        requires 0 <= x && 0 <= f <= 255;
    assert(x * f + 127 < 255 * (f + 1)) by (nonlinear_arith)
        requires 0 <= f && 0 <= x <= 255;
    assert((x * f + 127) / 255 < x + 1) by (nonlinear_arith)
        requires x * f + 127 < 255 * (x + 1) && x * f >= 0;
    assert((x * f + 127) / 255 < f + 1) by (nonlinear_arith)
        requires x * f + 127 < 255 * (f + 1) && x * f >= 0;
}

/// The blended alpha never leaves `[0, 255]`.
pub proof fn lemma_blend_alpha_bounds(sa: int, da: int, method: Blend)
    requires
        0 <= sa <= 255,
        0 <= da <= 255,
    ensures
        0 <= spec_blend_pre(sa, sa, da, da, method) <= 255,
{
    lemma_mul_div255_bounds(sa, da);
    lemma_mul_div255_bounds(sa, 255 - da);
    lemma_mul_div255_bounds(da, 255 - sa);
    lemma_mul_div255_bounds(da, sa);
}

impl RGBA {
    /// Create a color from its four channels.
    pub fn new(r: u8, g: u8, b: u8, a: u8) -> (c: RGBA)
        ensures
            c == (RGBA { r, g, b, a }),
    {
        RGBA { r, g, b, a }
    }

    /// The three color channels, without alpha.
    pub fn rgb_u8(self) -> (rgb: [u8; 3])
        ensures
            rgb@ == seq![self.r, self.g, self.b],
    {
        let rgb = [self.r, self.g, self.b];
        proof {
            assert(rgb@ =~= seq![self.r, self.g, self.b]);
        }
        rgb
    }

    /// All four channels.
    pub fn rgba_u8(self) -> (rgba: [u8; 4])
        ensures
            rgba@ == seq![self.r, self.g, self.b, self.a],
    {
        let rgba = [self.r, self.g, self.b, self.a];
        proof {
            assert(rgba@ =~= seq![self.r, self.g, self.b, self.a]);
        }
        rgba
    }

    /// Blend `other` onto `self` with the given Porter-Duff operator.
    pub fn blend(self, other: RGBA, method: Blend) -> (out: RGBA)
        ensures
            out == spec_blend(self, other, method),
    {
        let sa = other.a as u32;
        let da = self.a as u32;
        let oa = blend_pre(sa, sa, da, da, method);
        proof {
            lemma_blend_alpha_bounds(sa as int, da as int, method);
        }
        if oa == 0 {
            RGBA { r: 0, g: 0, b: 0, a: 0 }
        } else {
            let sr = premul(other.r, other.a);
            let sg = premul(other.g, other.a);
            let sb = premul(other.b, other.a);
            let dr = premul(self.r, self.a);
            let dg = premul(self.g, self.a);
            let db = premul(self.b, self.a);
            RGBA {
                r: unpremul(blend_pre(sr, sa, dr, da, method), oa),
                g: unpremul(blend_pre(sg, sa, dg, da, method), oa),
                b: unpremul(blend_pre(sb, sa, db, da, method), oa),
                a: oa as u8,
            }
        }
    }
}

/// Executable counterpart of `mul_div255` for channel-sized inputs.
fn exec_mul_div255(x: u32, f: u32) -> (r: u32)
    requires
        x <= 255,
        f <= 255,
    ensures
        r as int == mul_div255(x as int, f as int),
        r <= x,
        r <= f,
{
    proof {
        lemma_mul_div255_bounds(x as int, f as int);
    }
    (x * f + 127) / 255
}

/// Executable premultiplication of one channel.
fn premul(c: u8, a: u8) -> (r: u32)
    ensures
        r as int == spec_premul(c, a),
        r <= a,
{
    exec_mul_div255(c as u32, a as u32)
}

/// Executable counterpart of `spec_blend_pre`; inputs are at most 255.
fn blend_pre(s: u32, sa: u32, d: u32, da: u32, method: Blend) -> (r: u32)
    requires
        s <= 255,
        sa <= 255,
        d <= 255,
        da <= 255,
    ensures
        r as int == spec_blend_pre(s as int, sa as int, d as int, da as int, method),
        r <= 510,
{
    match method {
        Blend::Over => s + exec_mul_div255(d, 255 - sa),
        Blend::Out => exec_mul_div255(s, 255 - da),
        Blend::In => exec_mul_div255(s, da),
        Blend::Atop => exec_mul_div255(s, da) + exec_mul_div255(d, 255 - sa),
        Blend::Xor => exec_mul_div255(s, 255 - da) + exec_mul_div255(d, 255 - sa),
    }
}

/// Executable counterpart of `spec_unpremul`.
fn unpremul(p: u32, a: u32) -> (r: u8)
    requires
        0 < a <= 255,
        p <= 510,
    ensures
        r == spec_unpremul(p as int, a as int),
{
    let q = (p * 255 + a / 2) / a;
    if q > 255 {
        255
    } else {
        q as u8
    }
}

/// ASCII hexadecimal digit, either case.
pub open spec fn is_hex_digit(b: u8) -> bool {
    (48 <= b && b <= 57) || (97 <= b && b <= 102) || (65 <= b && b <= 70)
}

/// Numeric value of a hexadecimal digit.
pub open spec fn hex_value(b: u8) -> int {
    if 48 <= b && b <= 57 {
        b - 48
    } else if 97 <= b && b <= 102 {
        b - 87
    } else {
        b - 55
    }
}

/// Every byte of `s` is a hexadecimal digit.
pub open spec fn all_hex(s: Seq<u8>) -> bool {
    forall|i: int| 0 <= i < s.len() ==> is_hex_digit(s[i])
}

/// The number written by the hexadecimal digits `s`, most significant first.
pub open spec fn spec_hex_num(s: Seq<u8>) -> int
    decreases s.len(),
{
    if s.len() == 0 {
        0
    } else {
        16 * spec_hex_num(s.drop_last()) + hex_value(s.last())
    }
}

/// The channel value written by two hexadecimal digits.
pub open spec fn spec_hex_pair(hi: u8, lo: u8) -> u8 {
    (16 * hex_value(hi) + hex_value(lo)) as u8
}

/// 16 to the `n`-th power.
pub open spec fn pow16(n: nat) -> int
    decreases n,
{
    if n == 0 {
        1
    } else {
        16 * pow16((n - 1) as nat)
    }
}

/// One component of the `rgb:` form: one to four hexadecimal digits,
/// scaled to an 8-bit channel.
pub open spec fn spec_component(s: Seq<u8>) -> Option<u8> {
    if !all_hex(s) {
        None
    } else if s.len() == 4 {
        Some((spec_hex_num(s) / 256) as u8)
    } else if s.len() == 3 {
        Some((spec_hex_num(s) / 16) as u8)
    } else if s.len() == 2 {
        Some(spec_hex_num(s) as u8)
    } else if s.len() == 1 {
        Some((spec_hex_num(s) * 17) as u8)
    } else {
        None
    }
}

/// Index of the first occurrence of `b` in `s`, or `s.len()` if absent.
pub open spec fn find_byte(s: Seq<u8>, b: u8) -> int
    decreases s.len(),
{
    if s.len() == 0 {
        0
    } else if s[0] == b {
        0
    } else {
        1 + find_byte(s.subrange(1, s.len() as int), b)
    }
}

/// `find_byte` is characterized by: no occurrence before it, an
/// occurrence at it unless it is the length.
pub proof fn lemma_find_byte_unique(s: Seq<u8>, b: u8, k: int)
    requires
        0 <= k <= s.len(),
        forall|i: int| 0 <= i < k ==> s[i] != b,
        k == s.len() || s[k] == b,
    ensures
        find_byte(s, b) == k,
    decreases s.len(),
{
    if s.len() > 0 && s[0] != b {
        let t = s.subrange(1, s.len() as int);
        lemma_find_byte_unique(t, b, k - 1);
    }
}

/// Strip every leading and trailing double-quote byte.
pub open spec fn trim_quotes(s: Seq<u8>) -> Seq<u8>
    decreases s.len(),
{
    if s.len() > 0 && s[0] == 34 {
        trim_quotes(s.subrange(1, s.len() as int))
    } else if s.len() > 0 && s.last() == 34 {
        trim_quotes(s.drop_last())
    } else {
        s
    }
}

/// Parse the `r/g/b` tail of the X11 `rgb:` form. Anything after a
/// third slash is ignored.
pub open spec fn spec_parse_rgb_form(s: Seq<u8>) -> Option<RGBA> {
    let i1 = find_byte(s, 47);
    if i1 == s.len() {
        None
    } else {
        let c1 = s.subrange(0, i1);
        let s2 = s.subrange(i1 + 1, s.len() as int);
        let i2 = find_byte(s2, 47);
        if i2 == s2.len() {
            None
        } else {
            let c2 = s2.subrange(0, i2);
            let s3 = s2.subrange(i2 + 1, s2.len() as int);
            let i3 = find_byte(s3, 47);
            let c3 = s3.subrange(0, i3);
            if spec_component(c1) is Some && spec_component(c2) is Some && spec_component(c3)
                is Some {
                Some(
                    RGBA {
                        r: spec_component(c1)->Some_0,
                        g: spec_component(c2)->Some_0,
                        b: spec_component(c3)->Some_0,
                        a: 255,
                    },
                )
            } else {
                None
            }
        }
    }
}

/// Parse a color literal with the surrounding quotes already removed:
/// `#RRGGBB`, `#RRGGBBAA`, or `rgb:r/g/b`.
pub open spec fn spec_parse_trimmed(t: Seq<u8>) -> Option<RGBA> {
    if t.len() == 7 && t[0] == 35 {
        if all_hex(t.subrange(1, 7)) {
            Some(
                RGBA {
                    r: spec_hex_pair(t[1], t[2]),
                    g: spec_hex_pair(t[3], t[4]),
                    b: spec_hex_pair(t[5], t[6]),
                    a: 255,
                },
            )
        } else {
            None
        }
    } else if t.len() == 9 && t[0] == 35 {
        if all_hex(t.subrange(1, 9)) {
            Some(
                RGBA {
                    r: spec_hex_pair(t[1], t[2]),
                    g: spec_hex_pair(t[3], t[4]),
                    b: spec_hex_pair(t[5], t[6]),
                    a: spec_hex_pair(t[7], t[8]),
                },
            )
        } else {
            None
        }
    } else if t.len() >= 4 && t[0] == 114 && t[1] == 103 && t[2] == 98 && t[3] == 58 {
        spec_parse_rgb_form(t.subrange(4, t.len() as int))
    } else {
        None
    }
}

/// What `RGBA::from_str_opt` returns for a byte string.
pub open spec fn spec_parse_rgba(s: Seq<u8>) -> Option<RGBA> {
    spec_parse_trimmed(trim_quotes(s))
}

/// Decode one hexadecimal digit.
fn hex_val_exec(b: u8) -> (r: Option<u8>)
    ensures
        r == (if is_hex_digit(b) {
            Some(hex_value(b) as u8)
        } else {
            None::<u8>
        }),
{
    if 48 <= b && b <= 57 {
        Some(b - 48)
    } else if 97 <= b && b <= 102 {
        Some(b - 87)
    } else if 65 <= b && b <= 70 {
        Some(b - 55)
    } else {
        None
    }
}

/// Decode the two hexadecimal digits at `i`.
fn hex_pair_at(bytes: &[u8], i: usize) -> (r: Option<u8>)
    requires
        i + 2 <= bytes@.len(),
    ensures
        r == (if is_hex_digit(bytes@[i as int]) && is_hex_digit(bytes@[i as int + 1]) {
            Some(spec_hex_pair(bytes@[i as int], bytes@[i as int + 1]))
        } else {
            None::<u8>
        }),
{
    let hi = hex_val_exec(bytes[i]);
    let lo = hex_val_exec(bytes[i + 1]);
    match (hi, lo) {
        (Some(h), Some(l)) => Some(16 * h + l),
        _ => None,
    }
}

/// Find `b` in `bytes[from..to]`; returns the absolute index of the first
/// occurrence, or `to` if there is none.
pub(crate) fn find_byte_from(bytes: &[u8], from: usize, to: usize, b: u8) -> (r: usize)
    requires
        from <= to <= bytes@.len(),
    ensures
        from <= r <= to,
        r - from == find_byte(bytes@.subrange(from as int, to as int), b),
{
    let mut i: usize = from;
    while i < to && bytes[i] != b
        invariant
            from <= i <= to <= bytes@.len(),
            forall|j: int| from <= j < i ==> bytes@[j] != b,
        decreases to - i,
    {
        i = i + 1;
    }
    proof {
        let s = bytes@.subrange(from as int, to as int);
        assert(forall|j: int| 0 <= j < i - from ==> s[j] != b);
        assert(i < to ==> s[i - from] == b);
        lemma_find_byte_unique(s, b, i - from);
    }
    i
}

/// Parse one `rgb:` component over `bytes[s..e]`.
fn parse_component(bytes: &[u8], s: usize, e: usize) -> (r: Option<u8>)
    requires
        s <= e <= bytes@.len(),
    ensures
        r == spec_component(bytes@.subrange(s as int, e as int)),
{
    let len = e - s;
    if len < 1 || len > 4 {
        proof {
            let t = bytes@.subrange(s as int, e as int);
            if all_hex(t) {
                assert(spec_component(t) is None);
            }
        }
        return None;
    }
    let mut k: usize = 0;
    let mut v: u32 = 0;
    while k < len
        invariant
            s <= e <= bytes@.len(),
            1 <= len <= 4,
            len == e - s,
            0 <= k <= len,
            all_hex(bytes@.subrange(s as int, s as int + k as int)),
            v as int == spec_hex_num(bytes@.subrange(s as int, s as int + k as int)),
            (v as int) < pow16(k as nat),
        decreases len - k,
    {
        let b = bytes[s + k];
        match hex_val_exec(b) {
            Some(d) => {
                proof {
                    let pre = bytes@.subrange(s as int, s as int + k as int);
                    let post = bytes@.subrange(s as int, s as int + k as int + 1);
                    assert(post.drop_last() =~= pre);
                    assert(post.last() == b);
                    assert(forall|j: int| 0 <= j < post.len() ==> is_hex_digit(post[j]));
                    assert(pow16(0) == 1);
                    assert(pow16(1) == 16);
                    assert(pow16(2) == 256);
                    assert(pow16(3) == 4096);
                    assert((v as int) < 4096);
                }
                v = 16 * v + d as u32;
                k = k + 1;
            },
            None => {
                proof {
                    let t = bytes@.subrange(s as int, e as int);
                    assert(t[k as int] == b);
                    assert(!all_hex(t));
                }
                return None;
            },
        }
    }
    proof {
        let t = bytes@.subrange(s as int, e as int);
        assert(t =~= bytes@.subrange(s as int, s as int + k as int));
        assert(all_hex(t));
        assert(pow16(0) == 1);
        assert(pow16(1) == 16);
        assert(pow16(2) == 256);
        assert(pow16(3) == 4096);
        assert(pow16(4) == 65536);
    }
    if len == 4 {
        Some((v / 256) as u8)
    } else if len == 3 {
        Some((v / 16) as u8)
    } else if len == 2 {
        Some(v as u8)
    } else {
        Some((v * 17) as u8)
    }
}

/// Parse a color literal found in `bytes[lo0..hi0]`: `#RRGGBB`,
/// `#RRGGBBAA`, or the X11 `rgb:r/g/b` form with one to four hex digits
/// per component; surrounding double quotes are ignored.
#[verifier::rlimit(80)]
pub(crate) fn parse_rgba_range(bytes: &[u8], lo0: usize, hi0: usize) -> (r: Option<RGBA>)
    requires
        lo0 <= hi0 <= bytes@.len(),
    ensures
        r == spec_parse_rgba(bytes@.subrange(lo0 as int, hi0 as int)),
{
    {
        let n = bytes.len();
        let mut lo: usize = lo0;
        let mut hi: usize = hi0;
        while lo < hi && bytes[lo] == 34
            invariant
                lo0 <= lo <= hi <= hi0 <= n,
                n == bytes@.len(),
                trim_quotes(bytes@.subrange(lo as int, hi as int)) == trim_quotes(
                    bytes@.subrange(lo0 as int, hi0 as int),
                ),
            decreases hi - lo,
        {
            proof {
                let s = bytes@.subrange(lo as int, hi as int);
                assert(s.subrange(1, s.len() as int) =~= bytes@.subrange(
                    lo as int + 1,
                    hi as int,
                ));
            }
            lo = lo + 1;
        }
        while lo < hi && bytes[hi - 1] == 34
            invariant
                lo0 <= lo <= hi <= hi0 <= n,
                n == bytes@.len(),
                trim_quotes(bytes@.subrange(lo as int, hi as int)) == trim_quotes(
                    bytes@.subrange(lo0 as int, hi0 as int),
                ),
                lo == hi || bytes@[lo as int] != 34,
            decreases hi - lo,
        {
            proof {
                let s = bytes@.subrange(lo as int, hi as int);
                assert(s.drop_last() =~= bytes@.subrange(lo as int, hi as int - 1));
            }
            hi = hi - 1;
        }
        let ghost t = bytes@.subrange(lo as int, hi as int);
        proof {
            assert(trim_quotes(t) == t);
            assert(spec_parse_rgba(bytes@.subrange(lo0 as int, hi0 as int))
                == spec_parse_trimmed(t));
        }
        let len = hi - lo;
        if (len == 7 || len == 9) && bytes[lo] == 35 {
            let r = hex_pair_at(bytes, lo + 1);
            let g = hex_pair_at(bytes, lo + 3);
            let b = hex_pair_at(bytes, lo + 5);
            let a: Option<u8> = if len == 9 {
                hex_pair_at(bytes, lo + 7)
            } else {
                Some(255)
            };
            proof {
                assert(forall|j: int| 0 <= j < t.len() ==> t[j] == bytes@[lo + j]);
            }
            match (r, g, b, a) {
                (Some(r), Some(g), Some(b), Some(a)) => {
                    proof {
                        if len == 7 {
                            assert(forall|j: int|
                                1 <= j < 7 ==> is_hex_digit(#[trigger] t[j]));
                            assert(all_hex(t.subrange(1, 7)));
                        } else {
                            assert(forall|j: int|
                                1 <= j < 9 ==> is_hex_digit(#[trigger] t[j]));
                            assert(all_hex(t.subrange(1, 9)));
                        }
                    }
                    Some(RGBA { r, g, b, a })
                },
                _ => {
                    proof {
                        if len == 7 {
                            let sub = t.subrange(1, 7);
                            if all_hex(sub) {
                                assert(is_hex_digit(sub[0]));
                                assert(is_hex_digit(sub[1]));
                                assert(is_hex_digit(sub[2]));
                                assert(is_hex_digit(sub[3]));
                                assert(is_hex_digit(sub[4]));
                                assert(is_hex_digit(sub[5]));
                                assert(false);
                            }
                        } else {
                            let sub = t.subrange(1, 9);
                            if all_hex(sub) {
                                assert(is_hex_digit(sub[0]));
                                assert(is_hex_digit(sub[1]));
                                assert(is_hex_digit(sub[2]));
                                assert(is_hex_digit(sub[3]));
                                assert(is_hex_digit(sub[4]));
                                assert(is_hex_digit(sub[5]));
                                assert(is_hex_digit(sub[6]));
                                assert(is_hex_digit(sub[7]));
                                assert(false);
                            }
                        }
                    }
                    None
                },
            }
        } else if len >= 4 && bytes[lo] == 114 && bytes[lo + 1] == 103 && bytes[lo + 2] == 98
            && bytes[lo + 3] == 58 {
            let ghost s = t.subrange(4, t.len() as int);
            proof {
                assert(s =~= bytes@.subrange(lo as int + 4, hi as int));
            }
            let i1 = find_byte_from(bytes, lo + 4, hi, 47);
            if i1 == hi {
                return None;
            }
            proof {
                assert(s.subrange(0, i1 - lo - 4) =~= bytes@.subrange(lo as int + 4, i1 as int));
                let s2 = s.subrange(i1 - lo - 4 + 1, s.len() as int);
                assert(s2 =~= bytes@.subrange(i1 as int + 1, hi as int));
            }
            let ghost s2 = bytes@.subrange(i1 as int + 1, hi as int);
            let c1 = parse_component(bytes, lo + 4, i1);
            let i2 = find_byte_from(bytes, i1 + 1, hi, 47);
            if i2 == hi {
                return None;
            }
            proof {
                assert(s2.subrange(0, i2 - i1 - 1) =~= bytes@.subrange(i1 as int + 1, i2 as int));
                let s3 = s2.subrange(i2 - i1 - 1 + 1, s2.len() as int);
                assert(s3 =~= bytes@.subrange(i2 as int + 1, hi as int));
            }
            let ghost s3 = bytes@.subrange(i2 as int + 1, hi as int);
            let c2 = parse_component(bytes, i1 + 1, i2);
            let i3 = find_byte_from(bytes, i2 + 1, hi, 47);
            proof {
                assert(s3.subrange(0, i3 - i2 - 1) =~= bytes@.subrange(i2 as int + 1, i3 as int));
            }
            let c3 = parse_component(bytes, i2 + 1, i3);
            match (c1, c2, c3) {
                (Some(r), Some(g), Some(b)) => Some(RGBA { r, g, b, a: 255 }),
                _ => None,
            }
        } else {
            None
        }
    }
}

impl RGBA {
    /// Parse a color literal: `#RRGGBB`, `#RRGGBBAA`, or the X11
    /// `rgb:r/g/b` form with one to four hex digits per component;
    /// surrounding double quotes are ignored.
    pub fn from_str_opt(rgba: &str) -> (r: Option<RGBA>)
        ensures
            r == spec_parse_rgba(rgba.spec_bytes()),
    {
        let bytes: &[u8] = rgba.as_bytes();
        let n = bytes.len();
        proof {
            assert(bytes@.subrange(0, n as int) =~= bytes@);
        }
        parse_rgba_range(bytes, 0, n)
    }

    /// Render the color as `#rrggbb`, with a trailing `aa` pair when the
    /// color is not opaque.
    pub fn to_string(&self) -> (s: String)
        ensures
            s@ == crate::codec::spec_ascii(spec_rgba_text(*self)),
    {
        let mut out: Vec<u8> = Vec::new();
        out.push(35);
        crate::codec::push_hex_byte(&mut out, self.r);
        crate::codec::push_hex_byte(&mut out, self.g);
        crate::codec::push_hex_byte(&mut out, self.b);
        if self.a != 255 {
            crate::codec::push_hex_byte(&mut out, self.a);
        }
        proof {
            assert(out@ =~= spec_rgba_text(*self));
            assert(forall|i: int| 0 <= i < out@.len() ==> out@[i] < 128);
        }
        crate::codec::ascii_string(&out)
    }
}

/// The textual form of a color: `#rrggbb` plus `aa` when not opaque.
pub open spec fn spec_rgba_text(c: RGBA) -> Seq<u8> {
    let head = seq![
        35u8,
        crate::codec::spec_hex_char(c.r as int / 16),
        crate::codec::spec_hex_char(c.r as int % 16),
        crate::codec::spec_hex_char(c.g as int / 16),
        crate::codec::spec_hex_char(c.g as int % 16),
        crate::codec::spec_hex_char(c.b as int / 16),
        crate::codec::spec_hex_char(c.b as int % 16),
    ];
    if c.a == 255 {
        head
    } else {
        head + seq![
            crate::codec::spec_hex_char(c.a as int / 16),
            crate::codec::spec_hex_char(c.a as int % 16),
        ]
    }
}

/// Rendering a color and parsing the result returns the color: the
/// textual form round-trips through the parser, for every color.
pub proof fn lemma_rgba_text_parses_back(c: RGBA)
    ensures
        spec_parse_rgba(spec_rgba_text(c)) == Some(c),
{
    let t = spec_rgba_text(c);
    assert(forall|v: int|
        0 <= v < 16 ==> is_hex_digit(#[trigger] crate::codec::spec_hex_char(v)) && hex_value(
            crate::codec::spec_hex_char(v),
        ) == v && crate::codec::spec_hex_char(v) != 34);
    assert(c.r as int / 16 < 16 && c.r as int % 16 < 16);
    assert(c.g as int / 16 < 16 && c.g as int % 16 < 16);
    assert(c.b as int / 16 < 16 && c.b as int % 16 < 16);
    assert(c.a as int / 16 < 16 && c.a as int % 16 < 16);
    assert(trim_quotes(t) == t);
    if c.a == 255 {
        let sub = t.subrange(1, 7);
        assert(forall|j: int| 0 <= j < 6 ==> is_hex_digit(#[trigger] sub[j]));
        assert(spec_hex_pair(t[1], t[2]) == c.r) by {
            assert(16 * (c.r as int / 16) + c.r as int % 16 == c.r);
        }
        assert(spec_hex_pair(t[3], t[4]) == c.g) by {
            assert(16 * (c.g as int / 16) + c.g as int % 16 == c.g);
        }
        assert(spec_hex_pair(t[5], t[6]) == c.b) by {
            assert(16 * (c.b as int / 16) + c.b as int % 16 == c.b);
        }
    } else {
        let sub = t.subrange(1, 9);
        assert(forall|j: int| 0 <= j < 8 ==> is_hex_digit(#[trigger] sub[j]));
        assert(spec_hex_pair(t[1], t[2]) == c.r) by {
            assert(16 * (c.r as int / 16) + c.r as int % 16 == c.r);
        }
        assert(spec_hex_pair(t[3], t[4]) == c.g) by {
            assert(16 * (c.g as int / 16) + c.g as int % 16 == c.g);
        }
        assert(spec_hex_pair(t[5], t[6]) == c.b) by {
            assert(16 * (c.b as int / 16) + c.b as int % 16 == c.b);
        }
        assert(spec_hex_pair(t[7], t[8]) == c.a) by {
            assert(16 * (c.a as int / 16) + c.a as int % 16 == c.a);
        }
    }
}

impl core::str::FromStr for RGBA {
    type Err = crate::error::Error;

    fn from_str(string: &str) -> Result<RGBA, crate::error::Error> {
        match RGBA::from_str_opt(string) {
            Some(color) => Ok(color),
            None => Err(crate::error::Error::ParseError(string.to_owned())),
        }
    }
}

/// Deterministic generator of opaque colors, used for stress tests of
/// the palette search structures.
pub struct ColorGenerator {
    pub state: u64,
}

/// One state step of the underlying splitmix-style generator.
pub open spec fn spec_gen_state(s: u64) -> u64 {
    ((s as int + 0x9E3779B97F4A7C15) % 0x1_0000_0000_0000_0000) as u64
}

/// The output word derived from a generator state.
pub open spec fn spec_gen_mix(z0: u64) -> u64 {
    let z1 = (((z0 ^ (z0 >> 30)) as int * 0xBF58476D1CE4E5B9) % 0x1_0000_0000_0000_0000) as u64;
    let z2 = (((z1 ^ (z1 >> 27)) as int * 0x94D049BB133111EB) % 0x1_0000_0000_0000_0000) as u64;
    z2 ^ (z2 >> 31)
}

/// The opaque color produced from one generator output word.
pub open spec fn spec_gen_color(w: u64) -> RGBA {
    RGBA {
        r: (w & 0xff) as u8,
        g: ((w >> 8) & 0xff) as u8,
        b: ((w >> 16) & 0xff) as u8,
        a: 255,
    }
}

impl RGBA {
    /// A deterministic stream of opaque colors.
    pub fn random() -> (g: ColorGenerator)
        ensures
            g.state == 0,
    {
        ColorGenerator { state: 0 }
    }
}

impl ColorGenerator {
    /// Advance the generator and return the next 64-bit word.
    pub fn next_u64(&mut self) -> (w: u64)
        ensures
            final(self).state == spec_gen_state(old(self).state),
            w == spec_gen_mix(final(self).state),
    {
        let s0 = self.state;
        let s = s0.wrapping_add(0x9E3779B97F4A7C15);
        self.state = s;
        let z1 = (s ^ (s >> 30)).wrapping_mul(0xBF58476D1CE4E5B9);
        let z2 = (z1 ^ (z1 >> 27)).wrapping_mul(0x94D049BB133111EB);
        let w = z2 ^ (z2 >> 31);
        proof {
            assert(s == spec_gen_state(s0)) by (bit_vector)
                requires s == s0.wrapping_add(0x9E3779B97F4A7C15u64);
            assert(w == spec_gen_mix(s)) by (bit_vector)
                requires z1 == (s ^ (s >> 30)).wrapping_mul(0xBF58476D1CE4E5B9u64) && z2 == (z1
                    ^ (z1 >> 27)).wrapping_mul(0x94D049BB133111EBu64) && w == z2 ^ (z2 >> 31);
        }
        w
    }

    /// The next opaque color of the stream.
    pub fn next_color(&mut self) -> (c: RGBA)
        ensures
            final(self).state == spec_gen_state(old(self).state),
            c == spec_gen_color(spec_gen_mix(final(self).state)),
            c.a == 255,
    {
        let w = self.next_u64();
        RGBA {
            r: (w & 0xff) as u8,
            g: ((w >> 8) & 0xff) as u8,
            b: ((w >> 16) & 0xff) as u8,
            a: 255,
        }
    }
}

} // verus!
