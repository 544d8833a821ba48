//! Raster images and the quantization pipeline: palette extraction via
//! the octree plus Floyd-Steinberg error diffusion.
use vstd::prelude::*;

use crate::color::{Blend, ColorGenerator, RGBA};
use crate::octree::{octree_wf, rgba_in_box, tree_boxed, tree_total, OcTree, COUNT_LIMIT};
use crate::kdtree::sqdist;
use crate::palette::{palette_wf, rgb_view, ColorPalette};

verus! {

/// Largest pixel count an image may carry; keeps every byte-size and
/// buffer computation inside the machine integers.
pub const PIXEL_LIMIT: usize = 0x0FFF_FFFF;

/// An RGBA raster with a precomputed content fingerprint; the
/// fingerprint is the sole identity the caches use.
pub struct Image {
    pub width: usize,
    pub height: usize,
    pub data: Vec<RGBA>,
    pub hash: u64,
}

/// Row-major storage of exactly `width * height` pixels, with the pixel
/// count bounded by `PIXEL_LIMIT`.
pub open spec fn image_wf(img: Image) -> bool {
    &&& img.data@.len() == img.width * img.height
    &&& img.width * img.height <= PIXEL_LIMIT
}

/// `idx` names a palette color at minimal squared RGB distance from `c`.
pub open spec fn spec_nearest_index(palette: ColorPalette, c: RGBA, idx: int) -> bool {
    &&& 0 <= idx < palette.colors@.len()
    &&& forall|j: int|
        0 <= j < palette.colors@.len() ==> sqdist(
            rgb_view(c),
            rgb_view(palette.colors@[idx]),
        ) <= sqdist(rgb_view(c), rgb_view(#[trigger] palette.colors@[j]))
}

/// Every color of the palette lies channel-wise within the box.
pub open spec fn palette_boxed(colors: Seq<RGBA>, lo: RGBA, hi: RGBA) -> bool {
    forall|i: int| 0 <= i < colors.len() ==> rgba_in_box(#[trigger] colors[i], lo, hi)
}

/// The background color quantization composites over: the given color,
/// or opaque black.
pub open spec fn spec_quant_bg(bg: Option<RGBA>) -> RGBA {
    match bg {
        Some(c) => c,
        None => RGBA { r: 0, g: 0, b: 0, a: 255 },
    }
}

/// Composite a pixel over the background when it is not fully opaque.
pub open spec fn spec_composite(bg: RGBA, c: RGBA) -> RGBA {
    if c.a < 255 {
        crate::color::spec_blend(bg, c, Blend::Over)
    } else {
        c
    }
}

/// Executable counterpart of `spec_composite`.
pub fn composite(bg: RGBA, c: RGBA) -> (r: RGBA)
    ensures
        r == spec_composite(bg, c),
{
    if c.a < 255 {
        bg.blend(c, Blend::Over)
    } else {
        c
    }
}

/// Image equality goes by the content fingerprint alone: the
/// fingerprint is the identity the caches and handlers use.
impl PartialEq for Image {
    fn eq(&self, other: &Image) -> (r: bool) {
        self.hash == other.hash
    }
}

impl vstd::std_specs::cmp::PartialEqSpecImpl for Image {
    open spec fn obeys_eq_spec() -> bool {
        true
    }

    open spec fn eq_spec(&self, other: &Image) -> bool {
        self.hash == other.hash
    }
}

impl Eq for Image {

}

impl Image {
    /// Wrap a pixel buffer; `data` holds the rows top to bottom, and
    /// `hash` is the provider's content fingerprint.
    pub fn new(width: usize, height: usize, data: Vec<RGBA>, hash: u64) -> (img: Image)
        requires
            data@.len() == width * height,
            width * height <= PIXEL_LIMIT,
        ensures
            image_wf(img),
            img.width == width,
            img.height == height,
            img.data@ == data@,
            img.hash == hash,
    {
        Image { width, height, data, hash }
    }

    /// Width in pixels.
    pub fn width(&self) -> (r: usize)
        ensures
            r == self.width,
    {
        self.width
    }

    /// Height in pixels.
    pub fn height(&self) -> (r: usize)
        ensures
            r == self.height,
    {
        self.height
    }

    /// The content fingerprint.
    pub fn hash(&self) -> (r: u64)
        ensures
            r == self.hash,
    {
        self.hash
    }

    /// Image size in bytes, four per pixel.
    pub fn size(&self) -> (r: usize)
        requires
            image_wf(*self),
        ensures
            r == self.width * self.height * 4,
    {
        proof {
            assert(self.width * self.height * 4 <= PIXEL_LIMIT * 4) by (nonlinear_arith)
                requires self.width * self.height <= PIXEL_LIMIT;
            assert(self.data@.len() <= PIXEL_LIMIT);
        }
        self.data.len() * 4
    }

    /// The pixel at `(row, col)`.
    pub fn get(&self, row: usize, col: usize) -> (c: RGBA)
        requires
            image_wf(*self),
            row < self.height,
            col < self.width,
        ensures
            c == self.data@[row * self.width + col],
    {
        proof {
            assert(row * self.width + col < self.width * self.height) by (nonlinear_arith)
                requires row < self.height && col < self.width;
        }
        self.data[row * self.width + col]
    }

    /// Quantize the image: extract a palette of at most
    /// `max(palette_size, 8)` colors and map every pixel to a palette
    /// index, optionally diffusing the per-pixel error with the
    /// Floyd-Steinberg kernel. `None` exactly for an empty image.
    pub fn quantize(&self, palette_size: usize, dither: bool, bg: Option<RGBA>) -> (r: Option<
        (ColorPalette, Vec<usize>),
    >)
        requires
            image_wf(*self),
            1 <= palette_size,
        ensures
            r is Some <==> self.width * self.height > 0,
            r matches Some((palette, indexed)) ==> {
                &&& palette_wf(palette)
                &&& 1 <= palette.colors@.len()
                &&& palette.colors@.len() <= (if palette_size >= 8 {
                    palette_size
                } else {
                    8
                })
                &&& indexed@.len() == self.width * self.height
                &&& forall|k: int|
                    0 <= k < indexed@.len() ==> (#[trigger] indexed@[k]) < palette.colors@.len()
                &&& forall|i: int| 0 <= i < palette.colors@.len() ==> (#[trigger] palette.colors@[i]).a == 255
                &&& !dither ==> forall|k: int|
                    0 <= k < indexed@.len() ==> spec_nearest_index(
                        palette,
                        spec_composite(
                            match bg {
                                Some(c) => c,
                                None => RGBA { r: 0, g: 0, b: 0, a: 255 },
                            },
                            self.data@[k],
                        ),
                        #[trigger] indexed@[k] as int,
                    )
            },
            (forall|k: int|
                0 <= k < self.data@.len() ==> spec_composite(
                    spec_quant_bg(bg),
                    #[trigger] self.data@[k],
                ) == spec_composite(spec_quant_bg(bg), self.data@[0])) ==> (r matches Some(
                (palette, indexed),
            ) ==> palette.colors@ == seq![
                (RGBA {
                    r: spec_composite(spec_quant_bg(bg), self.data@[0]).r,
                    g: spec_composite(spec_quant_bg(bg), self.data@[0]).g,
                    b: spec_composite(spec_quant_bg(bg), self.data@[0]).b,
                    a: 255,
                }),
            ] && (forall|k: int| 0 <= k < indexed@.len() ==> (#[trigger] indexed@[k]) == 0)),
    {
        let ghost bgp = bg;
        let bg = match bg {
            Some(c) => c,
            None => RGBA::new(0, 0, 0, 255),
        };
        proof {
            assert(bg == spec_quant_bg(bgp));
        }
        let palette = match ColorPalette::from_image(self, palette_size, bg) {
            None => {
                return None;
            },
            Some(palette) => palette,
        };
        let width = self.width;
        let height = self.height;
        let mut qimg: Vec<usize> = Vec::new();
        proof {
            assert(self.width * self.height > 0);
            assert(height >= 1) by (nonlinear_arith)
                requires width * height > 0;
            assert(width <= width * height) by (nonlinear_arith)
                requires height >= 1 && width >= 0;
        }
        // fixed-point error buffer: two rows, one padding column on each
        // side, three channels per cell, values scaled by 16
        let ewidth = width + 2;
        proof {
            assert(ewidth * 3 <= (PIXEL_LIMIT + 2) * 3) by (nonlinear_arith)
                requires ewidth <= PIXEL_LIMIT + 2;
        }
        let ew3 = ewidth * 3;
        let ebuflen = ew3 * 2;
        let mut errors: Vec<i32> = Vec::new();
        if dither {
            let mut k: usize = 0;
            while k < ebuflen
                invariant
                    errors@.len() == k,
                    0 <= k <= ebuflen,
                    forall|t: int| 0 <= t < k ==> err_ok(#[trigger] errors@[t]),
                decreases ebuflen - k,
            {
                errors.push(0);
                k = k + 1;
            }
        }
        let mut row: usize = 0;
        while row < height
            invariant
                image_wf(*self),
                width == self.width,
                height == self.height,
                ewidth == width + 2,
                ew3 == ewidth * 3,
                ebuflen == ew3 * 2,
                0 <= row <= height,
                palette_wf(palette),
                dither ==> errors@.len() == ebuflen,
                dither ==> forall|t: int| 0 <= t < errors@.len() ==> err_ok(#[trigger] errors@[t]),
                qimg@.len() == row * width,
                forall|k: int| 0 <= k < qimg@.len() ==> (#[trigger] qimg@[k]) < palette.colors@.len(),
                !dither ==> forall|k: int|
                    0 <= k < qimg@.len() ==> spec_nearest_index(
                        palette,
                        spec_composite(bg, self.data@[k]),
                        #[trigger] qimg@[k] as int,
                    ),
            decreases height - row,
        {
            if dither {
                // rotate the two error rows: the next row becomes current
                let mut col: usize = 0;
                while col < ew3
                    invariant
                        errors@.len() == ebuflen,
                        ebuflen == ew3 * 2,
                        0 <= col <= ew3,
                        forall|t: int| 0 <= t < errors@.len() ==> err_ok(#[trigger] errors@[t]),
                    decreases ew3 - col,
                {
                    let moved = errors[col + ew3];
                    errors[col] = moved;
                    errors[col + ew3] = 0i32;
                    col = col + 1;
                }
            }
            let mut col: usize = 0;
            while col < width
                invariant
                    image_wf(*self),
                    width == self.width,
                    height == self.height,
                    row < height,
                    ewidth == width + 2,
                    ew3 == ewidth * 3,
                    ebuflen == ew3 * 2,
                    0 <= col <= width,
                    palette_wf(palette),
                    dither ==> errors@.len() == ebuflen,
                    dither ==> forall|t: int|
                        0 <= t < errors@.len() ==> err_ok(#[trigger] errors@[t]),
                    qimg@.len() == row * width + col,
                    forall|k: int|
                        0 <= k < qimg@.len() ==> (#[trigger] qimg@[k]) < palette.colors@.len(),
                    !dither ==> forall|k: int|
                        0 <= k < qimg@.len() ==> spec_nearest_index(
                            palette,
                            spec_composite(bg, self.data@[k]),
                            #[trigger] qimg@[k] as int,
                        ),
                decreases width - col,
            {
                let mut color = composite(bg, self.get(row, col));
                if dither {
                    // add the accumulated error for this column
                    let base = (col + 1) * 3;
                    proof {
                        assert((col + 1) * 3 + 3 <= ewidth * 3) by (nonlinear_arith)
                            requires col + 2 <= ewidth;
                    }
                    color = RGBA::new(
                        apply_err(color.r, errors[base]),
                        apply_err(color.g, errors[base + 1]),
                        apply_err(color.b, errors[base + 2]),
                        255,
                    );
                }
                let (qindex, qcolor) = palette.find(color);
                qimg.push(qindex);
                proof {
                    if !dither {
                        assert(color == spec_composite(bg, self.data@[row * width + col]));
                        assert(rgb_view(qcolor) == rgb_view(palette.colors@[qindex as int]));
                        assert(spec_nearest_index(palette, color, qindex as int));
                    }
                }
                if dither {
                    // Floyd-Steinberg kernel, in sixteenths:
                    // [[0   , X   , 7/16],
                    //  [3/16, 5/16, 1/16]]
                    let er = color.r as i32 - qcolor.r as i32;
                    let eg = color.g as i32 - qcolor.g as i32;
                    let eb = color.b as i32 - qcolor.b as i32;
                    proof {
                        assert(col + 3 <= ewidth);
                        assert((col + 3) * 3 <= ewidth * 3) by (nonlinear_arith)
                            requires col + 3 <= ewidth;
                        assert(col * 3 <= (col + 3) * 3 && (col + 1) * 3 <= (col + 3) * 3 && (col
                            + 2) * 3 <= (col + 3) * 3) by (nonlinear_arith);
                    }
                    spread_err(&mut errors, (col + 2) * 3, er, eg, eb, 7);
                    spread_err(&mut errors, ew3 + col * 3, er, eg, eb, 3);
                    spread_err(&mut errors, ew3 + (col + 1) * 3, er, eg, eb, 5);
                    spread_err(&mut errors, ew3 + (col + 2) * 3, er, eg, eb, 1);
                }
                col = col + 1;
                proof {
                    assert(row * width + (col - 1) + 1 == row * width + col);
                }
            }
            row = row + 1;
            proof {
                assert((row - 1) * width + width == row * width) by (nonlinear_arith);
            }
        }
        proof {
            assert(qimg@.len() == height * width);
            assert(height * width == width * height) by (nonlinear_arith);
            if forall|k: int|
                0 <= k < self.data@.len() ==> spec_composite(
                    spec_quant_bg(bgp),
                    #[trigger] self.data@[k],
                ) == spec_composite(spec_quant_bg(bgp), self.data@[0]) {
                assert(palette.colors@.len() == 1);
                assert(forall|k: int|
                    0 <= k < qimg@.len() ==> (#[trigger] qimg@[k]) < palette.colors@.len());
            }
        }
        Some((palette, qimg))
    }
}

/// An error-buffer cell stays within one full pixel step, scaled by 16.
pub open spec fn err_ok(e: i32) -> bool {
    -4080 <= e <= 4080
}

/// Add a fixed-point error to a channel, clamping to the valid range.
fn apply_err(c: u8, e: i32) -> (r: u8)
    requires
        err_ok(e),
    ensures
        r as int == spec_apply_err(c as int, e as int),
{
    let v = c as i32 * 16 + e;
    let clamped = if v < 0 {
        0
    } else if v > 4080 {
        4080
    } else {
        v
    };
    (clamped / 16) as u8
}

/// The clamped, error-corrected value of a channel: `e` is in
/// sixteenths, the result is a whole channel value.
pub open spec fn spec_apply_err(c: int, e: int) -> int {
    let v = c * 16 + e;
    let clamped = if v < 0 {
        0
    } else if v > 4080 {
        4080
    } else {
        v
    };
    clamped / 16
}

/// Diffuse one weighted error triple into the buffer at `base`,
/// saturating each cell at one full pixel step.
fn spread_err(errors: &mut Vec<i32>, base: usize, er: i32, eg: i32, eb: i32, weight: i32)
    requires
        base + 3 <= old(errors)@.len(),
        -255 <= er <= 255,
        -255 <= eg <= 255,
        -255 <= eb <= 255,
        1 <= weight <= 7,
        forall|t: int| 0 <= t < old(errors)@.len() ==> err_ok(#[trigger] old(errors)@[t]),
    ensures
        final(errors)@.len() == old(errors)@.len(),
        forall|t: int| 0 <= t < final(errors)@.len() ==> err_ok(#[trigger] final(errors)@[t]),
{
    let n = errors.len();
    proof {
        assert(base + 3 <= n);
        assert(-1785 <= er * weight <= 1785) by (nonlinear_arith)
            requires -255 <= er <= 255 && 1 <= weight <= 7;
        assert(-1785 <= eg * weight <= 1785) by (nonlinear_arith)
            requires -255 <= eg <= 255 && 1 <= weight <= 7;
        assert(-1785 <= eb * weight <= 1785) by (nonlinear_arith)
            requires -255 <= eb <= 255 && 1 <= weight <= 7;
    }
    let e0 = sat_add(errors[base], er * weight);
    errors[base] = e0;
    let e1 = sat_add(errors[base + 1], eg * weight);
    errors[base + 1] = e1;
    let e2 = sat_add(errors[base + 2], eb * weight);
    errors[base + 2] = e2;
}

/// Saturating addition of a weighted error into a buffer cell.
fn sat_add(a: i32, d: i32) -> (r: i32)
    requires
        err_ok(a),
        -1785 <= d <= 1785,
    ensures
        err_ok(r),
{
    let v = a + d;
    if v < -4080 {
        -4080
    } else if v > 4080 {
        4080
    } else {
        v
    }
}

impl ColorPalette {
    /// Extract a palette from an image: composite every pixel over `bg`,
    /// insert (all pixels, or a pseudo-randomly strided sample of them,
    /// when the image dwarfs the palette), prune the octree to
    /// `max(palette_size, 8)` colors and emit the leaf averages.
    /// `None` exactly for an empty image.
    pub fn from_image(img: &Image, palette_size: usize, bg: RGBA) -> (r: Option<ColorPalette>)
        requires
            image_wf(*img),
            1 <= palette_size,
        ensures
            r is Some <==> img.width * img.height > 0,
            r matches Some(p) ==> {
                &&& palette_wf(p)
                &&& 1 <= p.colors@.len()
                &&& p.colors@.len() <= (if palette_size >= 8 {
                    palette_size
                } else {
                    8
                })
                &&& forall|i: int| 0 <= i < p.colors@.len() ==> (#[trigger] p.colors@[i]).a == 255
            },
            (forall|k: int|
                0 <= k < img.data@.len() ==> spec_composite(bg, #[trigger] img.data@[k])
                    == spec_composite(bg, img.data@[0])) ==> (r matches Some(p) ==> p.colors@
                == seq![
                (RGBA {
                    r: spec_composite(bg, img.data@[0]).r,
                    g: spec_composite(bg, img.data@[0]).g,
                    b: spec_composite(bg, img.data@[0]).b,
                    a: 255,
                }),
            ]),
            r matches Some(p) ==> forall|lo: RGBA, hi: RGBA|
                (forall|k: int|
                    0 <= k < img.data@.len() ==> rgba_in_box(
                        spec_composite(bg, #[trigger] img.data@[k]),
                        lo,
                        hi,
                    )) ==> #[trigger] palette_boxed(p.colors@, lo, hi),
    {
        let ghost uniform = forall|k: int|
            0 <= k < img.data@.len() ==> spec_composite(bg, #[trigger] img.data@[k])
                == spec_composite(bg, img.data@[0]);
        let ghost c0 = spec_composite(bg, img.data@[0]);
        let total = img.data.len();
        if total == 0 {
            proof {
                assert(img.width * img.height == 0);
            }
            return None;
        }
        let sample = total / palette_size / 100;
        let mut octree = OcTree::new();
        proof {
            crate::octree::lemma_path_index_bound(c0, 0);
        }
        if sample < 2 {
            let mut k: usize = 0;
            while k < total
                invariant
                    image_wf(*img),
                    total == img.data@.len(),
                    0 <= k <= total,
                    octree_wf(octree),
                    tree_total(octree) <= k,
                    k > 0 ==> octree.info.leaf_count >= 1,
                    c0 == spec_composite(bg, img.data@[0]),
                    uniform == (forall|k2: int|
                        0 <= k2 < img.data@.len() ==> spec_composite(
                            bg,
                            #[trigger] img.data@[k2],
                        ) == spec_composite(bg, img.data@[0])),
                    forall|lo: RGBA, hi: RGBA|
                        #![trigger tree_boxed(octree, lo, hi)]
                        (forall|k2: int|
                            0 <= k2 < img.data@.len() ==> rgba_in_box(
                                spec_composite(bg, #[trigger] img.data@[k2]),
                                lo,
                                hi,
                            )) ==> tree_boxed(octree, lo, hi),
                    uniform && k == 0 ==> octree.info.leaf_count == 0
                        && crate::octree::spec_octree_leaf_at(octree, c0, 0) is None,
                    uniform && k > 0 ==> (crate::octree::spec_octree_leaf_at(octree, c0, 0)
                        matches Some(l) && octree.info.leaf_count == 1 && 1 <= l.color_count
                        && l.color_count <= k && l.red_acc as int == l.color_count * (
                    c0.r as int) && l.green_acc as int == l.color_count * (c0.g as int)
                        && l.blue_acc as int == l.color_count * (c0.b as int)),
                decreases total - k,
            {
                proof {
                    assert(total <= PIXEL_LIMIT);
                    assert(PIXEL_LIMIT < COUNT_LIMIT);
                    if uniform {
                        assert(spec_composite(bg, img.data@[k as int]) == c0);
                        lemma_uniform_leaf_bounds(octree, c0, k as int);
                    }
                }
                octree.insert(composite(bg, img.data[k]));
                proof {
                    assert forall|lo: RGBA, hi: RGBA|
                        (forall|k2: int|
                            0 <= k2 < img.data@.len() ==> rgba_in_box(
                                spec_composite(bg, #[trigger] img.data@[k2]),
                                lo,
                                hi,
                            )) implies #[trigger] tree_boxed(octree, lo, hi) by {
                        assert(rgba_in_box(spec_composite(bg, img.data@[k as int]), lo, hi));
                    }
                }
                k = k + 1;
            }
        } else {
            let mut gen: ColorGenerator = RGBA::random();
            let mut idx: usize = 0;
            let mut inserted: usize = 0;
            loop
                invariant
                    image_wf(*img),
                    total == img.data@.len(),
                    total > 0,
                    sample >= 2,
                    octree_wf(octree),
                    tree_total(octree) <= inserted,
                    inserted <= idx,
                    inserted <= total,
                    idx <= total,
                    inserted > 0 ==> octree.info.leaf_count >= 1,
                    c0 == spec_composite(bg, img.data@[0]),
                    uniform == (forall|k2: int|
                        0 <= k2 < img.data@.len() ==> spec_composite(
                            bg,
                            #[trigger] img.data@[k2],
                        ) == spec_composite(bg, img.data@[0])),
                    forall|lo: RGBA, hi: RGBA|
                        #![trigger tree_boxed(octree, lo, hi)]
                        (forall|k2: int|
                            0 <= k2 < img.data@.len() ==> rgba_in_box(
                                spec_composite(bg, #[trigger] img.data@[k2]),
                                lo,
                                hi,
                            )) ==> tree_boxed(octree, lo, hi),
                    uniform && inserted == 0 ==> octree.info.leaf_count == 0
                        && crate::octree::spec_octree_leaf_at(octree, c0, 0) is None,
                    uniform && inserted > 0 ==> (crate::octree::spec_octree_leaf_at(
                        octree,
                        c0,
                        0,
                    ) matches Some(l) && octree.info.leaf_count == 1 && 1 <= l.color_count
                        && l.color_count <= inserted && l.red_acc as int == l.color_count * (
                    c0.r as int) && l.green_acc as int == l.color_count * (c0.g as int)
                        && l.blue_acc as int == l.color_count * (c0.b as int)),
                decreases total - idx,
            {
                let skip = (gen.next_u64() % (sample as u64)) as usize;
                if total - idx <= skip {
                    break;
                }
                let pick = idx + skip;
                proof {
                    assert(total <= PIXEL_LIMIT);
                    assert(PIXEL_LIMIT < COUNT_LIMIT);
                    if uniform {
                        assert(spec_composite(bg, img.data@[pick as int]) == c0);
                        lemma_uniform_leaf_bounds(octree, c0, inserted as int);
                    }
                }
                octree.insert(composite(bg, img.data[pick]));
                proof {
                    assert forall|lo: RGBA, hi: RGBA|
                        (forall|k2: int|
                            0 <= k2 < img.data@.len() ==> rgba_in_box(
                                spec_composite(bg, #[trigger] img.data@[k2]),
                                lo,
                                hi,
                            )) implies #[trigger] tree_boxed(octree, lo, hi) by {
                        assert(rgba_in_box(spec_composite(bg, img.data@[pick as int]), lo, hi));
                    }
                }
                inserted = inserted + 1;
                idx = pick + 1;
            }
            if inserted == 0 {
                // the stride skipped everything; fall back to the first pixel
                proof {
                    if uniform {
                        assert(spec_composite(bg, img.data@[0]) == c0);
                    }
                }
                octree.insert(composite(bg, img.data[0]));
                proof {
                    assert forall|lo: RGBA, hi: RGBA|
                        (forall|k2: int|
                            0 <= k2 < img.data@.len() ==> rgba_in_box(
                                spec_composite(bg, #[trigger] img.data@[k2]),
                                lo,
                                hi,
                            )) implies #[trigger] tree_boxed(octree, lo, hi) by {
                        assert(rgba_in_box(spec_composite(bg, img.data@[0]), lo, hi));
                    }
                }
            }
        }
        octree.prune_until(palette_size);
        let ghost t_pre = octree;
        let palette_colors = octree.build_palette();
        proof {
            assert(palette_colors@.len() >= 1);
            assert(forall|i: int|
                0 <= i < palette_colors@.len() ==> (#[trigger] palette_colors@[i]).a == 255);
            assert forall|lo: RGBA, hi: RGBA|
                (forall|k2: int|
                    0 <= k2 < img.data@.len() ==> rgba_in_box(
                        spec_composite(bg, #[trigger] img.data@[k2]),
                        lo,
                        hi,
                    )) implies #[trigger] palette_boxed(palette_colors@, lo, hi) by {
                assert(tree_boxed(t_pre, lo, hi));
                crate::octree::lemma_children_leaves_boxed(t_pre.children@, lo, hi);
                assert(crate::octree::tree_leaves(t_pre) == crate::octree::children_leaves(
                    t_pre.children@,
                ));
                assert forall|i: int|
                    0 <= i < palette_colors@.len() implies rgba_in_box(
                    #[trigger] palette_colors@[i],
                    lo,
                    hi,
                ) by {
                    assert(palette_colors@[i] == crate::octree::spec_leaf_rgba(
                        crate::octree::tree_leaves(t_pre)[i],
                    ));
                    assert(crate::octree::leaf_boxed(
                        crate::octree::tree_leaves(t_pre)[i],
                        lo,
                        hi,
                    ) && crate::octree::leaf_wf(crate::octree::tree_leaves(t_pre)[i]));
                    crate::octree::lemma_leaf_avg_in_box(
                        crate::octree::tree_leaves(t_pre)[i],
                        lo,
                        hi,
                    );
                }
            }
            if uniform {
                let l = crate::octree::spec_octree_leaf_at(t_pre, c0, 0)->Some_0;
                crate::octree::lemma_octree_leaf_at_in_leaves(t_pre, c0);
                crate::octree::lemma_children_counts(t_pre.children@);
                let leaves = crate::octree::tree_leaves(t_pre);
                assert(leaves.len() == 1);
                assert(leaves.contains(l));
                assert(leaves =~= seq![l]);
                assert(palette_colors@ =~= seq![crate::octree::spec_leaf_rgba(l)]);
                vstd::arithmetic::div_mod::lemma_div_multiples_vanish(
                    c0.r as int,
                    l.color_count as int,
                );
                vstd::arithmetic::div_mod::lemma_div_multiples_vanish(
                    c0.g as int,
                    l.color_count as int,
                );
                vstd::arithmetic::div_mod::lemma_div_multiples_vanish(
                    c0.b as int,
                    l.color_count as int,
                );
                assert(crate::octree::spec_leaf_rgba(l) == (RGBA {
                    r: c0.r,
                    g: c0.g,
                    b: c0.b,
                    a: 255,
                }));
            }
        }
        ColorPalette::new(palette_colors)
    }
}

/// Inserting into a single-leaf tree of a repeated color keeps every
/// accumulator far from its bound: the step bounds the loop invariants
/// of `from_image` need.
proof fn lemma_uniform_leaf_bounds(t: OcTree, c0: RGBA, n: int)
    requires
        octree_wf(t),
        0 <= n <= PIXEL_LIMIT,
        crate::octree::spec_octree_leaf_at(t, c0, 0) matches Some(l) ==> 1 <= l.color_count
            && l.color_count <= n && l.red_acc as int == l.color_count * (c0.r as int)
            && l.green_acc as int == l.color_count * (c0.g as int) && l.blue_acc as int
            == l.color_count * (c0.b as int),
    ensures
        crate::octree::spec_octree_leaf_at(t, c0, 0) matches Some(l) ==> l.red_acc + c0.r < 
            0xFFFF_FFFF_FFFF_FFFF && l.green_acc + c0.g < 0xFFFF_FFFF_FFFF_FFFF && l.blue_acc
            + c0.b < 0xFFFF_FFFF_FFFF_FFFF && (l.color_count + 1) * (c0.r as int)
            == l.color_count * (c0.r as int) + c0.r && (l.color_count + 1) * (c0.g as int)
            == l.color_count * (c0.g as int) + c0.g && (l.color_count + 1) * (c0.b as int)
            == l.color_count * (c0.b as int) + c0.b,
{
    if crate::octree::spec_octree_leaf_at(t, c0, 0) is Some {
        let l = crate::octree::spec_octree_leaf_at(t, c0, 0)->Some_0;
        let cc = l.color_count as int;
        assert(cc * (c0.r as int) <= PIXEL_LIMIT * 255) by (nonlinear_arith)
            requires 0 <= cc <= PIXEL_LIMIT && c0.r <= 255;
        assert(cc * (c0.g as int) <= PIXEL_LIMIT * 255) by (nonlinear_arith)
            requires 0 <= cc <= PIXEL_LIMIT && c0.g <= 255;
        assert(cc * (c0.b as int) <= PIXEL_LIMIT * 255) by (nonlinear_arith)
            requires 0 <= cc <= PIXEL_LIMIT && c0.b <= 255;
        assert((cc + 1) * (c0.r as int) == cc * (c0.r as int) + c0.r) by (nonlinear_arith);
        assert((cc + 1) * (c0.g as int) == cc * (c0.g as int) + c0.g) by (nonlinear_arith);
        assert((cc + 1) * (c0.b as int) == cc * (c0.b as int) + c0.b) by (nonlinear_arith);
    }
}

} // verus!
