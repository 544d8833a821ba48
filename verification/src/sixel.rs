//! DEC Sixel encoder: band-oriented run-length coding over a quantized
//! image, with an LRU byte cache.
use vstd::prelude::*;

use crate::cache::{
    cache_entries, cache_order, lru_get, lru_new, lru_put, lru_wf, shrink_to_budget, sum_bytes,
    ByteCache,
};
use crate::codec::push_dec;
use crate::color::RGBA;
use crate::error::Error;
use crate::image::{image_wf, Image, PIXEL_LIMIT};
use crate::iterm::IMAGE_CACHE_SIZE;
use crate::palette::{palette_wf, ColorPalette};
use crate::terminal::Position;

verus! {

/// One channel folded to the Sixel's 101-step range and back: round to
/// the nearest of 101 levels, then rescale to 8 bits.
pub open spec fn spec_sixel_prepass(c: u8) -> u8 {
    let q = (c * 40 + 51) / 102;
    ((q * 51) / 20) as u8
}

/// A pixel after the Sixel channel pre-pass.
pub open spec fn spec_sixel_reduced(c: RGBA) -> RGBA {
    RGBA {
        r: spec_sixel_prepass(c.r),
        g: spec_sixel_prepass(c.g),
        b: spec_sixel_prepass(c.b),
        a: c.a,
    }
}

/// Executable counterpart of `spec_sixel_prepass`.
fn sixel_prepass_channel(c: u8) -> (r: u8)
    ensures
        r == spec_sixel_prepass(c),
{
    let q = (c as u32 * 40 + 51) / 102;
    ((q * 51) / 20) as u8
}

/// A channel scaled to the Sixel palette range `0..=100`.
pub open spec fn spec_sixel_level(c: u8) -> int {
    (c * 40 + 51) / 102
}

/// Every channel folded to the Sixel palette range lands in `0..=100`.
pub proof fn lemma_sixel_level_bounded(c: u8)
    ensures
        0 <= spec_sixel_level(c) <= 100,
{
}

/// Executable counterpart of `spec_sixel_level`.
fn sixel_level(c: u8) -> (r: u8)
    ensures
        r as int == spec_sixel_level(c),
        r <= 100,
{
    ((c as u32 * 40 + 51) / 102) as u8
}

/// A byte stream shaped like a Sixel image: it opens with `ESC P q`,
/// closes with `ESC \`, and when at least one band was emitted the
/// byte before the closer terminates that band with `-`.
pub open spec fn sixel_shaped(s: Seq<u8>, has_bands: bool) -> bool {
    &&& s.len() >= 5
    &&& s[0] == 27
    &&& s[1] == 80
    &&& s[2] == 113
    &&& s[s.len() - 2] == 27
    &&& s[s.len() - 1] == 92
    &&& has_bands ==> s[s.len() - 3] == 45
}

/// One palette line: `#{i};2;{r};{g};{b}` with channels scaled to
/// `0..=100`.
pub open spec fn sixel_palette_entry(i: int, c: RGBA) -> Seq<u8> {
    seq![35u8] + crate::codec::spec_dec(i) + seq![59u8, 50u8, 59u8] + crate::codec::spec_dec(
        spec_sixel_level(c.r),
    ) + seq![59u8] + crate::codec::spec_dec(spec_sixel_level(c.g)) + seq![59u8]
        + crate::codec::spec_dec(spec_sixel_level(c.b))
}

/// The palette section: one line per color, in index order.
pub open spec fn sixel_palette_text(colors: Seq<RGBA>) -> Seq<u8>
    decreases colors.len(),
{
    if colors.len() == 0 {
        Seq::empty()
    } else {
        sixel_palette_text(colors.drop_last()) + sixel_palette_entry(
            colors.len() - 1,
            colors.last(),
        )
    }
}

/// Everything of a Sixel stream before the first band: the introducer,
/// the raster attributes, and the palette section.
pub open spec fn spec_sixel_head(width: int, height: int, colors: Seq<RGBA>) -> Seq<u8> {
    seq![27u8, 80u8, 113u8, 34u8, 49u8, 59u8, 49u8, 59u8] + crate::codec::spec_dec(width)
        + seq![59u8] + crate::codec::spec_dec(height) + sixel_palette_text(colors)
}

/// The bit weight of band row `k`, `2^k` for `k` in `0..6`.
pub open spec fn sixel_bit(k: int) -> int {
    if k == 0 {
        1
    } else if k == 1 {
        2
    } else if k == 2 {
        4
    } else if k == 3 {
        8
    } else if k == 4 {
        16
    } else {
        32
    }
}

/// `2^k` for `k` in `0..=6`: the bound below which the first `k` bits
/// of a sixel code stay.
pub open spec fn sixel_bound(k: int) -> int {
    if k <= 0 {
        1
    } else if k == 1 {
        2
    } else if k == 2 {
        4
    } else if k == 3 {
        8
    } else if k == 4 {
        16
    } else if k == 5 {
        32
    } else {
        64
    }
}

/// Whether band row `k` of the band starting at image row `row` shows
/// palette slot `color` in column `col`; rows past the image bottom
/// count as slot 0.
pub open spec fn sixel_covers(
    qimg: Seq<usize>,
    width: int,
    height: int,
    row: int,
    col: int,
    color: int,
    k: int,
) -> bool {
    if row + k < height {
        qimg[(row + k) * width + col] as int == color
    } else {
        color == 0
    }
}

/// The first `k` bits of the sixel code of one band column.
pub open spec fn spec_sixel_code_upto(
    qimg: Seq<usize>,
    width: int,
    height: int,
    row: int,
    col: int,
    color: int,
    k: int,
) -> int
    decreases k,
{
    if k <= 0 {
        0
    } else {
        spec_sixel_code_upto(qimg, width, height, row, col, color, k - 1) + (if sixel_covers(
            qimg,
            width,
            height,
            row,
            col,
            color,
            k - 1,
        ) {
            sixel_bit(k - 1)
        } else {
            0
        })
    }
}

/// The six-bit sixel code of one band column for one palette slot.
pub open spec fn spec_sixel_code(
    qimg: Seq<usize>,
    width: int,
    height: int,
    row: int,
    col: int,
    color: int,
) -> int {
    spec_sixel_code_upto(qimg, width, height, row, col, color, 6)
}

/// The first `k` bits of a sixel code stay below `2^k`.
pub proof fn lemma_sixel_code_bound(
    qimg: Seq<usize>,
    width: int,
    height: int,
    row: int,
    col: int,
    color: int,
    k: int,
)
    requires
        0 <= k <= 6,
    ensures
        0 <= spec_sixel_code_upto(qimg, width, height, row, col, color, k) < sixel_bound(k),
    decreases k,
{
    if k > 0 {
        lemma_sixel_code_bound(qimg, width, height, row, col, color, k - 1);
    }
}

/// The `(column, sixel byte)` runs of one color over the first `ncols`
/// columns of a band: the columns whose code is nonzero, in order, each
/// code offset by 63.
pub open spec fn spec_sixel_line(
    qimg: Seq<usize>,
    width: int,
    height: int,
    row: int,
    color: int,
    ncols: int,
) -> Seq<(int, int)>
    decreases ncols,
{
    if ncols <= 0 {
        Seq::empty()
    } else {
        let pre = spec_sixel_line(qimg, width, height, row, color, ncols - 1);
        let code = spec_sixel_code(qimg, width, height, row, ncols - 1, color);
        if code != 0 {
            pre.push((ncols - 1, code + 63))
        } else {
            pre
        }
    }
}

/// A collected line's entries as plain integers.
pub open spec fn line_view(line: Seq<(usize, u8)>) -> Seq<(int, int)> {
    line.map_values(|p: (usize, u8)| (p.0 as int, p.1 as int))
}

/// Length of the run of consecutive columns carrying one sixel byte,
/// starting at entry `li`.
pub open spec fn spec_run_len(line: Seq<(int, int)>, li: int) -> int
    decreases line.len() - li,
{
    if 0 <= li && li + 1 < line.len() && line[li + 1].0 == line[li].0 + 1 && line[li + 1].1
        == line[li].1 {
        1 + spec_run_len(line, li + 1)
    } else {
        1
    }
}

/// A run covers at least its own entry, stays inside the line, and
/// chains column by column.
pub proof fn lemma_run_len_bounds(line: Seq<(int, int)>, li: int)
    requires
        0 <= li < line.len(),
    ensures
        1 <= spec_run_len(line, li),
        li + spec_run_len(line, li) <= line.len(),
        forall|j: int|
            0 < j < spec_run_len(line, li) ==> (#[trigger] line[li + j]).0 == line[li].0 + j
                && line[li + j].1 == line[li].1,
    decreases line.len() - li,
{
    if li + 1 < line.len() && line[li + 1].0 == line[li].0 + 1 && line[li + 1].1 == line[li].1 {
        lemma_run_len_bounds(line, li + 1);
        assert forall|j: int|
            0 < j < spec_run_len(line, li) implies (#[trigger] line[li + j]).0 == line[li].0 + j
            && line[li + j].1 == line[li].1 by {
            if j > 1 {
                assert(line[(li + 1) + (j - 1)].0 == line[li + 1].0 + (j - 1) && line[(li + 1) + (
                j - 1)].1 == line[li + 1].1);
            }
        }
    }
}

/// A chain of exactly `r` consecutive entries that breaks at `r` is a
/// run of length `r`.
pub proof fn lemma_run_len_is(line: Seq<(int, int)>, li: int, r: int)
    requires
        0 <= li < line.len(),
        1 <= r,
        li + r <= line.len(),
        forall|j: int|
            0 < j < r ==> (#[trigger] line[li + j]).0 == line[li].0 + j && line[li + j].1
                == line[li].1,
        li + r < line.len() ==> !(line[li + r].0 == line[li].0 + r && line[li + r].1
            == line[li].1),
    ensures
        spec_run_len(line, li) == r,
    decreases r,
{
    if r == 1 {
    } else {
        assert(line[li + 1].0 == line[li].0 + 1 && line[li + 1].1 == line[li].1);
        assert forall|j: int|
            0 < j < r - 1 implies (#[trigger] line[li + 1 + j]).0 == line[li + 1].0 + j && line[li
            + 1 + j].1 == line[li + 1].1 by {
            assert(line[li + (j + 1)].0 == line[li].0 + j + 1 && line[li + (j + 1)].1
                == line[li].1);
        }
        if li + 1 + (r - 1) < line.len() {
            assert(line[li + r].0 != line[li].0 + r || line[li + r].1 != line[li].1);
        }
        lemma_run_len_is(line, li + 1, r - 1);
    }
}

/// `count` copies of a sixel byte, compressed to `!{count}{byte}` when
/// the run is longer than three.
pub open spec fn spec_rle(byte: u8, count: int) -> Seq<u8> {
    if count > 3 {
        seq![33u8] + crate::codec::spec_dec(count) + seq![byte]
    } else {
        Seq::new(
            if count >= 0 {
                count as nat
            } else {
                0
            },
            |i: int| byte,
        )
    }
}

/// The run-length coding of one color's line from entry `li` on, the
/// cursor sitting at column `offset`: a `?` skip to each run's first
/// column, then the run's byte.
pub open spec fn spec_emit_line(line: Seq<(int, int)>, li: int, offset: int) -> Seq<u8>
    decreases line.len() - li,
    via spec_emit_line_dec
{
    if li < 0 || li >= line.len() {
        Seq::empty()
    } else {
        let column = line[li].0;
        let code = line[li].1;
        let r = spec_run_len(line, li);
        (if column - offset > 0 {
            spec_rle(63u8, column - offset)
        } else {
            Seq::empty()
        }) + spec_rle(code as u8, r) + spec_emit_line(line, li + r, column + r)
    }
}

#[via_fn]
proof fn spec_emit_line_dec(line: Seq<(int, int)>, li: int, offset: int) {
    if !(li < 0 || li >= line.len()) {
        lemma_run_len_bounds(line, li);
    }
}

/// One color's section of a band: nothing when the color is absent from
/// the band, else `#` + the color number + the coded line + `$`.
pub open spec fn spec_color_section(
    qimg: Seq<usize>,
    width: int,
    height: int,
    row: int,
    color: int,
) -> Seq<u8> {
    let line = spec_sixel_line(qimg, width, height, row, color, width);
    if line.len() == 0 {
        Seq::empty()
    } else {
        seq![35u8] + crate::codec::spec_dec(color) + spec_emit_line(line, 0, 0) + seq![36u8]
    }
}

/// The sections of the first `c` palette slots of one band, in slot
/// order.
pub open spec fn spec_band_upto(
    qimg: Seq<usize>,
    width: int,
    height: int,
    row: int,
    c: int,
) -> Seq<u8>
    decreases c,
{
    if c <= 0 {
        Seq::empty()
    } else {
        spec_band_upto(qimg, width, height, row, c - 1) + spec_color_section(
            qimg,
            width,
            height,
            row,
            c - 1,
        )
    }
}

/// One six-row band: the per-color sections then the `-` terminator.
pub open spec fn spec_sixel_band(
    qimg: Seq<usize>,
    width: int,
    height: int,
    row: int,
    ncolors: int,
) -> Seq<u8> {
    spec_band_upto(qimg, width, height, row, ncolors) + seq![45u8]
}

/// All bands from image row `row` to the bottom, six rows per band.
pub open spec fn spec_sixel_bands(
    qimg: Seq<usize>,
    width: int,
    height: int,
    row: int,
    ncolors: int,
) -> Seq<u8>
    decreases height + 6 - row,
{
    if row < 0 || row >= height {
        Seq::empty()
    } else {
        spec_sixel_band(qimg, width, height, row, ncolors) + spec_sixel_bands(
            qimg,
            width,
            height,
            row + 6,
            ncolors,
        )
    }
}

/// The whole Sixel stream of a quantized image: head, bands, trailer.
pub open spec fn spec_sixel_stream(
    colors: Seq<RGBA>,
    qimg: Seq<usize>,
    width: int,
    height: int,
) -> Seq<u8> {
    spec_sixel_head(width, height, colors) + spec_sixel_bands(
        qimg,
        width,
        height,
        0,
        colors.len() as int,
    ) + seq![27u8, 92u8]
}

/// How many times `b` occurs in `s`.
pub open spec fn count_byte(s: Seq<u8>, b: u8) -> int
    decreases s.len(),
{
    if s.len() == 0 {
        0
    } else {
        count_byte(s.drop_last(), b) + (if s.last() == b {
            1int
        } else {
            0int
        })
    }
}

/// Extending a byte string without adding occurrences of `b` keeps its
/// count.
pub proof fn lemma_count_extend(s1: Seq<u8>, s2: Seq<u8>, b: u8)
    requires
        s1.len() <= s2.len(),
        forall|t: int| 0 <= t < s1.len() ==> s2[t] == s1[t],
        forall|t: int| s1.len() <= t < s2.len() ==> s2[t] != b,
    ensures
        count_byte(s2, b) == count_byte(s1, b),
    decreases s2.len(),
{
    if s2.len() == s1.len() {
        assert(s2 =~= s1);
    } else {
        lemma_count_extend(s1, s2.drop_last(), b);
    }
}

/// Encode a quantized image as a Sixel byte stream: raster attributes,
/// the palette scaled to `0..=100`, then the pixel rows in bands of
/// six, each band run-length coded per palette color.
pub fn sixel_encode(palette: &ColorPalette, qimg: &Vec<usize>, width: usize, height: usize) -> (r:
    Vec<u8>)
    requires
        palette_wf(*palette),
        qimg@.len() == width * height,
        width * height <= PIXEL_LIMIT,
        width >= 1,
        forall|k: int| 0 <= k < qimg@.len() ==> (#[trigger] qimg@[k]) < palette.colors@.len(),
    ensures
        sixel_shaped(r@, height > 0),
        count_byte(r@, 45) == (height + 5) / 6,
        spec_sixel_head(width as int, height as int, palette.colors@).is_prefix_of(r@),
        forall|t: int|
            spec_sixel_head(width as int, height as int, palette.colors@).len() <= t < r@.len()
                - 2 ==> 33 <= #[trigger] r@[t] <= 126,
        r@ == spec_sixel_stream(palette.colors@, qimg@, width as int, height as int),
{
    proof {
        assert(height <= width * height) by (nonlinear_arith)
            requires width >= 1 && height >= 0;
        assert(height > 0 ==> width <= width * height) by (nonlinear_arith)
            requires width >= 0;
    }
    let mut out: Vec<u8> = Vec::new();
    out.push(27);
    out.push(80);
    out.push(113);
    // raster attributes: "1;1;{width};{height}
    out.push(34);
    out.push(49);
    out.push(59);
    out.push(49);
    out.push(59);
    push_dec(&mut out, width as u64);
    out.push(59);
    push_dec(&mut out, height as u64);
    proof {
        assert(out@.len() >= 3 && out@[0] == 27 && out@[1] == 80 && out@[2] == 113);
        assert(forall|t: int| 0 <= t < out@.len() ==> (#[trigger] out@[t]) != 45);
    }
    sixel_palette_section(&mut out, palette);
    let ghost head = spec_sixel_head(width as int, height as int, palette.colors@);
    proof {
        assert(count_byte(Seq::<u8>::empty(), 45) == 0);
        lemma_count_extend(Seq::<u8>::empty(), out@, 45);
        assert(out@ =~= head);
    }
    let mut row: usize = 0;
    let ghost mut bands: int = 0;
    while row < height
        invariant
            palette_wf(*palette),
            qimg@.len() == width * height,
            width * height <= PIXEL_LIMIT,
            forall|k: int| 0 <= k < qimg@.len() ==> (#[trigger] qimg@[k]) < palette.colors@.len(),
            width >= 1,
            height <= PIXEL_LIMIT,
            height > 0 ==> width <= PIXEL_LIMIT,
            out@.len() >= 3,
            out@[0] == 27 && out@[1] == 80 && out@[2] == 113,
            head == spec_sixel_head(width as int, height as int, palette.colors@),
            head.len() <= out@.len(),
            forall|t: int| 0 <= t < head.len() ==> out@[t] == head[t],
            row > 0 ==> out@[out@.len() - 1] == 45,
            count_byte(out@, 45) == bands,
            forall|t: int| head.len() <= t < out@.len() ==> 33 <= #[trigger] out@[t] <= 126,
            row <= height,
            out@ + spec_sixel_bands(
                qimg@,
                width as int,
                height as int,
                row as int,
                palette.colors@.len() as int,
            ) == head + spec_sixel_bands(
                qimg@,
                width as int,
                height as int,
                0,
                palette.colors@.len() as int,
            ),
            row <= height,
            row < height ==> row == 6 * bands,
            row == height ==> bands == (height + 5) / 6,
        decreases height - row,
    {
        let ghost pre = out@;
        let ghost row0 = row as int;
        sixel_band(&mut out, palette, qimg, width, height, row);
        proof {
            let nc = palette.colors@.len() as int;
            assert(spec_sixel_bands(qimg@, width as int, height as int, row0, nc)
                == spec_sixel_band(qimg@, width as int, height as int, row0, nc)
                + spec_sixel_bands(qimg@, width as int, height as int, row0 + 6, nc));
            if height - row <= 6 {
                assert(spec_sixel_bands(qimg@, width as int, height as int, row0 + 6, nc)
                    =~= Seq::<u8>::empty());
                assert(spec_sixel_bands(qimg@, width as int, height as int, height as int, nc)
                    =~= Seq::<u8>::empty());
            }
            assert(out@.drop_last().len() >= pre.len());
            assert(forall|t: int| 0 <= t < pre.len() ==> out@.drop_last()[t] == pre[t]);
            assert(forall|t: int|
                pre.len() <= t < out@.drop_last().len() ==> (#[trigger] out@.drop_last()[t])
                    != 45);
            lemma_count_extend(pre, out@.drop_last(), 45);
            assert(count_byte(out@, 45) == count_byte(out@.drop_last(), 45) + 1);
            bands = bands + 1;
        }
        if height - row > 6 {
            row = row + 6;
        } else {
            proof {
                assert((height + 5) / 6 == bands) by (nonlinear_arith)
                    requires 6 * (bands - 1) < height <= 6 * (bands - 1) + 6;
            }
            row = height;
        }
    }
    let ghost done = out@;
    out.push(27);
    out.push(92);
    proof {
        lemma_count_extend(done, out@, 45);
        assert(head.is_prefix_of(out@)) by {
            assert(out@.subrange(0, head.len() as int) =~= head);
        }
        let nc = palette.colors@.len() as int;
        assert(spec_sixel_bands(qimg@, width as int, height as int, height as int, nc)
            =~= Seq::<u8>::empty());
        assert(done =~= head + spec_sixel_bands(qimg@, width as int, height as int, 0, nc));
        assert(out@ =~= spec_sixel_stream(
            palette.colors@,
            qimg@,
            width as int,
            height as int,
        ));
    }
    out
}

/// Emit the palette section: `#{i};2;{r};{g};{b}` per color, channels
/// scaled to `0..=100`.
fn sixel_palette_section(out: &mut Vec<u8>, palette: &ColorPalette)
    requires
        palette_wf(*palette),
    ensures
        final(out)@.len() >= old(out)@.len(),
        final(out)@ == old(out)@ + sixel_palette_text(palette.colors@),
        forall|t: int| 0 <= t < old(out)@.len() ==> final(out)@[t] == old(out)@[t],
        forall|t: int|
            old(out)@.len() <= t < final(out)@.len() ==> (#[trigger] final(out)@[t]) != 45,
{
    let n = palette.size();
    let mut i: usize = 0;
    proof {
        assert(palette.colors@.subrange(0, 0) =~= Seq::<RGBA>::empty());
        assert(out@ =~= old(out)@ + sixel_palette_text(palette.colors@.subrange(0, 0)));
    }
    while i < n
        invariant
            palette_wf(*palette),
            n == palette.colors@.len(),
            0 <= i <= n,
            out@.len() >= old(out)@.len(),
            out@ == old(out)@ + sixel_palette_text(palette.colors@.subrange(0, i as int)),
            forall|t: int| 0 <= t < old(out)@.len() ==> out@[t] == old(out)@[t],
            forall|t: int| old(out)@.len() <= t < out@.len() ==> (#[trigger] out@[t]) != 45,
        decreases n - i,
    {
        let color = palette.get(i);
        out.push(35);
        push_dec(out, i as u64);
        out.push(59);
        out.push(50);
        out.push(59);
        push_dec(out, sixel_level(color.r) as u64);
        out.push(59);
        push_dec(out, sixel_level(color.g) as u64);
        out.push(59);
        push_dec(out, sixel_level(color.b) as u64);
        proof {
            let pre = palette.colors@.subrange(0, i as int);
            let post = palette.colors@.subrange(0, i as int + 1);
            assert(post.drop_last() =~= pre);
            assert(post.last() == palette.colors@[i as int]);
            assert(out@ =~= old(out)@ + sixel_palette_text(post));
        }
        i = i + 1;
    }
    proof {
        assert(palette.colors@.subrange(0, n as int) =~= palette.colors@);
    }
}

/// Emit one six-row band: for every palette color present in the band,
/// a `#color` introducer, the run-length coded sixels, and `$`; the
/// band closes with `-`.
fn sixel_band(
    out: &mut Vec<u8>,
    palette: &ColorPalette,
    qimg: &Vec<usize>,
    width: usize,
    height: usize,
    row: usize,
)
    requires
        palette_wf(*palette),
        qimg@.len() == width * height,
        width * height <= PIXEL_LIMIT,
        height <= PIXEL_LIMIT,
        width >= 1,
        width <= PIXEL_LIMIT,
        row < height,
        forall|k: int| 0 <= k < qimg@.len() ==> (#[trigger] qimg@[k]) < palette.colors@.len(),
    ensures
        final(out)@.len() > old(out)@.len(),
        forall|t: int| 0 <= t < old(out)@.len() ==> final(out)@[t] == old(out)@[t],
        final(out)@[final(out)@.len() - 1] == 45,
        forall|t: int|
            old(out)@.len() <= t < final(out)@.len() - 1 ==> (#[trigger] final(out)@[t]) != 45,
        forall|t: int|
            old(out)@.len() <= t < final(out)@.len() ==> 33 <= #[trigger] final(out)@[t] <= 126,
        final(out)@ == old(out)@ + spec_sixel_band(
            qimg@,
            width as int,
            height as int,
            row as int,
            palette.colors@.len() as int,
        ),
{
    let ncolors = palette.size();
    let mut color: usize = 0;
    proof {
        assert(out@ =~= old(out)@ + spec_band_upto(
            qimg@,
            width as int,
            height as int,
            row as int,
            0,
        ));
    }
    while color < ncolors
        invariant
            palette_wf(*palette),
            qimg@.len() == width * height,
            width * height <= PIXEL_LIMIT,
            height <= PIXEL_LIMIT,
            width >= 1,
            width <= PIXEL_LIMIT,
            row < height,
            ncolors == palette.colors@.len(),
            forall|k: int| 0 <= k < qimg@.len() ==> (#[trigger] qimg@[k]) < palette.colors@.len(),
            0 <= color <= ncolors,
            out@.len() >= old(out)@.len(),
            forall|t: int| 0 <= t < old(out)@.len() ==> out@[t] == old(out)@[t],
            forall|t: int| old(out)@.len() <= t < out@.len() ==> (#[trigger] out@[t]) != 45,
            forall|t: int|
                old(out)@.len() <= t < out@.len() ==> 33 <= #[trigger] out@[t] <= 126,
            out@ == old(out)@ + spec_band_upto(
                qimg@,
                width as int,
                height as int,
                row as int,
                color as int,
            ),
        decreases ncolors - color,
    {
        let ghost pre = out@;
        let ghost sline = spec_sixel_line(
            qimg@,
            width as int,
            height as int,
            row as int,
            color as int,
            width as int,
        );
        let line = sixel_line(palette, qimg, width, height, row, color);
        proof {
            assert(line_view(line@).len() == line@.len());
        }
        if line.len() > 0 {
            out.push(35);
            push_dec(out, color as u64);
            sixel_emit_line(out, &line, width);
            out.push(36);
            proof {
                assert(spec_color_section(
                    qimg@,
                    width as int,
                    height as int,
                    row as int,
                    color as int,
                ) == seq![35u8] + crate::codec::spec_dec(color as int) + spec_emit_line(
                    sline,
                    0,
                    0,
                ) + seq![36u8]);
                assert(out@ =~= pre + spec_color_section(
                    qimg@,
                    width as int,
                    height as int,
                    row as int,
                    color as int,
                ));
            }
        } else {
            proof {
                assert(sline.len() == 0);
                assert(out@ =~= pre + spec_color_section(
                    qimg@,
                    width as int,
                    height as int,
                    row as int,
                    color as int,
                ));
            }
        }
        proof {
            assert(out@ =~= old(out)@ + spec_band_upto(
                qimg@,
                width as int,
                height as int,
                row as int,
                color as int + 1,
            ));
        }
        color = color + 1;
    }
    out.push(45);
    proof {
        assert(out@ =~= old(out)@ + spec_sixel_band(
            qimg@,
            width as int,
            height as int,
            row as int,
            palette.colors@.len() as int,
        ));
    }
}

/// Collect, for one color, the columns of the band whose six-pixel
/// stack uses it, paired with the sixel code byte; rows past the image
/// bottom count as palette slot 0. Columns come back strictly
/// increasing.
fn sixel_line(
    palette: &ColorPalette,
    qimg: &Vec<usize>,
    width: usize,
    height: usize,
    row: usize,
    color: usize,
) -> (line: Vec<(usize, u8)>)
    requires
        qimg@.len() == width * height,
        width * height <= PIXEL_LIMIT,
        height <= PIXEL_LIMIT,
        row < height,
    ensures
        forall|j: int| 0 <= j < line@.len() ==> (#[trigger] line@[j]).0 < width,
        forall|j: int| 0 < j < line@.len() ==> line@[j - 1].0 < (#[trigger] line@[j]).0,
        forall|j: int| 0 <= j < line@.len() ==> 64 <= (#[trigger] line@[j]).1 <= 126,
        line_view(line@) == spec_sixel_line(
            qimg@,
            width as int,
            height as int,
            row as int,
            color as int,
            width as int,
        ),
{
    let mut line: Vec<(usize, u8)> = Vec::new();
    let mut col: usize = 0;
    proof {
        assert(line_view(line@) =~= spec_sixel_line(
            qimg@,
            width as int,
            height as int,
            row as int,
            color as int,
            0,
        ));
    }
    while col < width
        invariant
            qimg@.len() == width * height,
            width * height <= PIXEL_LIMIT,
            height <= PIXEL_LIMIT,
            row < height,
            0 <= col <= width,
            forall|j: int| 0 <= j < line@.len() ==> (#[trigger] line@[j]).0 < col,
            forall|j: int| 0 < j < line@.len() ==> line@[j - 1].0 < (#[trigger] line@[j]).0,
            forall|j: int| 0 <= j < line@.len() ==> 64 <= (#[trigger] line@[j]).1 <= 126,
            line_view(line@) == spec_sixel_line(
                qimg@,
                width as int,
                height as int,
                row as int,
                color as int,
                col as int,
            ),
        decreases width - col,
    {
        let mut code: u8 = 0;
        let mut k: usize = 0;
        while k < 6
            invariant
                qimg@.len() == width * height,
                width * height <= PIXEL_LIMIT,
                height <= PIXEL_LIMIT,
                row < height,
                col < width,
                0 <= k <= 6,
                code < 64,
                code as int == spec_sixel_code_upto(
                    qimg@,
                    width as int,
                    height as int,
                    row as int,
                    col as int,
                    color as int,
                    k as int,
                ),
            decreases 6 - k,
        {
            let ghost code0 = code;
            let index: usize = if row + k < height {
                proof {
                    assert((row + k) * width + col < width * height) by (nonlinear_arith)
                        requires row + k < height && col < width && width >= 0;
                }
                qimg[(row + k) * width + col]
            } else {
                0
            };
            proof {
                assert((index as int == color as int) == sixel_covers(
                    qimg@,
                    width as int,
                    height as int,
                    row as int,
                    col as int,
                    color as int,
                    k as int,
                ));
            }
            if index == color {
                let mask: u8 = 1u8 << (k as u8);
                proof {
                    let kk = k as u8;
                    assert(code < 64 && kk < 6 ==> ((code | (1u8 << kk)) < 64))
                        by (bit_vector);
                    lemma_sixel_code_bound(
                        qimg@,
                        width as int,
                        height as int,
                        row as int,
                        col as int,
                        color as int,
                        k as int,
                    );
                    assert((1u8 << kk) == (if kk == 0 {
                        1u8
                    } else if kk == 1 {
                        2u8
                    } else if kk == 2 {
                        4u8
                    } else if kk == 3 {
                        8u8
                    } else if kk == 4 {
                        16u8
                    } else {
                        32u8
                    })) by (bit_vector)
                        requires kk < 6;
                    assert(sixel_bound(k as int) == sixel_bit(k as int));
                    assert(code < (1u8 << kk));
                    assert((code | (1u8 << kk)) == ((code + (1u8 << kk)) as u8)) by (bit_vector)
                        requires code < (1u8 << kk) && kk < 6;
                }
                code = code | mask;
                proof {
                    assert(code as int == code0 as int + sixel_bit(k as int));
                }
            }
            proof {
                assert(code as int == spec_sixel_code_upto(
                    qimg@,
                    width as int,
                    height as int,
                    row as int,
                    col as int,
                    color as int,
                    k as int + 1,
                ));
            }
            k = k + 1;
        }
        proof {
            assert(code as int == spec_sixel_code(
                qimg@,
                width as int,
                height as int,
                row as int,
                col as int,
                color as int,
            ));
        }
        let ghost pre_view = line_view(line@);
        if code != 0 {
            line.push((col, code + 63));
            proof {
                assert(line_view(line@) =~= pre_view.push((col as int, code as int + 63)));
            }
        }
        proof {
            assert(line_view(line@) =~= spec_sixel_line(
                qimg@,
                width as int,
                height as int,
                row as int,
                color as int,
                col as int + 1,
            ));
        }
        col = col + 1;
    }
    line
}

/// Run-length code one color's sixels: `?` runs (or `!n?`) to skip to
/// each column, the code byte repeated (or `!n` prefixed) for each run.
#[verifier::rlimit(100)]
fn sixel_emit_line(out: &mut Vec<u8>, line: &Vec<(usize, u8)>, width: usize)
    requires
        width <= PIXEL_LIMIT,
        forall|j: int| 0 <= j < line@.len() ==> (#[trigger] line@[j]).0 < width,
        forall|j: int| 0 < j < line@.len() ==> line@[j - 1].0 < (#[trigger] line@[j]).0,
        forall|j: int| 0 <= j < line@.len() ==> 64 <= (#[trigger] line@[j]).1 <= 126,
    ensures
        final(out)@.len() >= old(out)@.len(),
        forall|t: int| 0 <= t < old(out)@.len() ==> final(out)@[t] == old(out)@[t],
        forall|t: int|
            old(out)@.len() <= t < final(out)@.len() ==> (#[trigger] final(out)@[t]) != 45,
        forall|t: int|
            old(out)@.len() <= t < final(out)@.len() ==> 33 <= #[trigger] final(out)@[t] <= 126,
        final(out)@ == old(out)@ + spec_emit_line(line_view(line@), 0, 0),
{
    let ghost ml = line_view(line@);
    proof {
        assert(forall|j: int|
            0 <= j < line@.len() ==> #[trigger] ml[j] == (line@[j].0 as int, line@[j].1 as int));
    }
    let n = line.len();
    let mut offset: usize = 0;
    let mut li: usize = 0;
    while li < n
        invariant
            n == line@.len(),
            width <= PIXEL_LIMIT,
            forall|j: int| 0 <= j < line@.len() ==> (#[trigger] line@[j]).0 < width,
            forall|j: int| 0 < j < line@.len() ==> line@[j - 1].0 < (#[trigger] line@[j]).0,
            forall|j: int| 0 <= j < line@.len() ==> 64 <= (#[trigger] line@[j]).1 <= 126,
            ml == line_view(line@),
            forall|j: int|
                0 <= j < line@.len() ==> #[trigger] ml[j] == (
                line@[j].0 as int,
                line@[j].1 as int,
            ),
            0 <= li <= n,
            li < n ==> offset <= line@[li as int].0,
            offset <= width,
            out@.len() >= old(out)@.len(),
            forall|t: int| 0 <= t < old(out)@.len() ==> out@[t] == old(out)@[t],
            forall|t: int| old(out)@.len() <= t < out@.len() ==> (#[trigger] out@[t]) != 45,
            forall|t: int|
                old(out)@.len() <= t < out@.len() ==> 33 <= #[trigger] out@[t] <= 126,
            old(out)@ + spec_emit_line(ml, 0, 0) == out@ + spec_emit_line(
                ml,
                li as int,
                offset as int,
            ),
        decreases n - li,
    {
        let ghost li0 = li as int;
        let ghost off0 = offset as int;
        let ghost out0 = out@;
        let (column, code) = line[li];
        // skip to the run's first column with transparent sixels
        let shift = column - offset;
        if shift > 0 {
            push_rle(out, 63, shift);
        }
        let ghost out1 = out@;
        let repeats = sixel_run_length(line, li, width);
        push_rle(out, code, repeats);
        proof {
            assert(ml[li0].0 == column as int && ml[li0].1 == code as int);
            assert(spec_run_len(ml, li0) == repeats as int);
            assert(spec_emit_line(ml, li0, off0) == (if column as int - off0 > 0 {
                spec_rle(63u8, column as int - off0)
            } else {
                Seq::<u8>::empty()
            }) + spec_rle((ml[li0].1) as u8, spec_run_len(ml, li0)) + spec_emit_line(
                ml,
                li0 + spec_run_len(ml, li0),
                ml[li0].0 + spec_run_len(ml, li0),
            ));
            assert((ml[li0].1) as u8 == code);
            assert(out1 =~= out0 + (if column as int - off0 > 0 {
                spec_rle(63u8, column as int - off0)
            } else {
                Seq::<u8>::empty()
            }));
            assert(out@ =~= out1 + spec_rle(code, repeats as int));
            assert(old(out)@ + spec_emit_line(ml, 0, 0) =~= out@ + spec_emit_line(
                ml,
                li0 + repeats,
                column as int + repeats,
            ));
        }
        offset = column + repeats;
        li = li + repeats;
    }
    proof {
        assert(spec_emit_line(ml, li as int, offset as int) =~= Seq::<u8>::empty());
        assert(out@ =~= old(out)@ + spec_emit_line(ml, 0, 0));
    }
}

/// Length of the run of consecutive columns carrying the same sixel
/// code, starting at entry `li`.
#[verifier::rlimit(100)]
fn sixel_run_length(line: &Vec<(usize, u8)>, li: usize, width: usize) -> (repeats: usize)
    requires
        width <= PIXEL_LIMIT,
        li < line@.len(),
        forall|j: int| 0 <= j < line@.len() ==> (#[trigger] line@[j]).0 < width,
        forall|j: int| 0 < j < line@.len() ==> line@[j - 1].0 < (#[trigger] line@[j]).0,
    ensures
        1 <= repeats,
        li + repeats <= line@.len(),
        line@[li as int].0 + repeats <= width,
        li + repeats < line@.len() ==> line@[li as int].0 + repeats <= line@[li as int
            + repeats].0,
        repeats == spec_run_len(line_view(line@), li as int),
{
    let ghost ml = line_view(line@);
    proof {
        assert(forall|j: int|
            0 <= j < line@.len() ==> #[trigger] ml[j] == (line@[j].0 as int, line@[j].1 as int));
    }
    let n = line.len();
    let (column, code) = line[li];
    let mut repeats: usize = 1;
    while li + repeats < n && line[li + repeats].0 == column + repeats && line[li + repeats].1
        == code
        invariant
            n == line@.len(),
            width <= PIXEL_LIMIT,
            forall|j: int| 0 <= j < line@.len() ==> (#[trigger] line@[j]).0 < width,
            forall|j: int| 0 < j < line@.len() ==> line@[j - 1].0 < (#[trigger] line@[j]).0,
            ml == line_view(line@),
            forall|j: int|
                0 <= j < line@.len() ==> #[trigger] ml[j] == (
                line@[j].0 as int,
                line@[j].1 as int,
            ),
            li < n,
            column == line@[li as int].0,
            code == line@[li as int].1,
            1 <= repeats,
            li + repeats <= n,
            column + repeats <= width,
            forall|j: int|
                0 < j < repeats ==> (#[trigger] line@[li + j]).0 == column + j && line@[li
                    + j].1 == code,
        decreases n - li - repeats,
    {
        repeats = repeats + 1;
    }
    proof {
        if li + repeats < line@.len() {
            if repeats > 1 {
                assert(line@[li + (repeats - 1) as int].0 == column + (repeats - 1));
            }
            assert(line@[li as int + repeats - 1].0 < line@[li as int + repeats].0);
        }
        assert forall|j: int|
            0 < j < repeats implies (#[trigger] ml[li + j]).0 == ml[li as int].0 + j && ml[li
            + j].1 == ml[li as int].1 by {
            assert(line@[li + j].0 == column + j && line@[li + j].1 == code);
        }
        if li + repeats < ml.len() {
            assert(!(ml[li + repeats].0 == ml[li as int].0 + repeats && ml[li + repeats].1
                == ml[li as int].1));
        }
        lemma_run_len_is(ml, li as int, repeats as int);
    }
    repeats
}

/// Emit `count` copies of a sixel byte, compressed to `!{count}{byte}`
/// when the run is longer than three.
fn push_rle(out: &mut Vec<u8>, byte: u8, count: usize)
    requires
        63 <= byte <= 126,
    ensures
        final(out)@ == old(out)@ + spec_rle(byte, count as int),
        final(out)@.len() >= old(out)@.len(),
        forall|t: int| 0 <= t < old(out)@.len() ==> final(out)@[t] == old(out)@[t],
        forall|t: int|
            old(out)@.len() <= t < final(out)@.len() ==> (#[trigger] final(out)@[t]) != 45,
        forall|t: int|
            old(out)@.len() <= t < final(out)@.len() ==> 33 <= #[trigger] final(out)@[t] <= 126,
{
    if count > 3 {
        out.push(33);
        push_dec(out, count as u64);
        out.push(byte);
        proof {
            assert(out@ =~= old(out)@ + spec_rle(byte, count as int));
        }
    } else {
        let mut z: usize = 0;
        proof {
            assert(out@ =~= old(out)@ + Seq::new(0, |i: int| byte));
        }
        while z < count
            invariant
                63 <= byte <= 126,
                z <= count,
                out@ == old(out)@ + Seq::new(z as nat, |i: int| byte),
                out@.len() >= old(out)@.len(),
                forall|t: int| 0 <= t < old(out)@.len() ==> out@[t] == old(out)@[t],
                forall|t: int| old(out)@.len() <= t < out@.len() ==> (#[trigger] out@[t]) != 45,
                forall|t: int|
                    old(out)@.len() <= t < out@.len() ==> 33 <= #[trigger] out@[t] <= 126,
            decreases count - z,
        {
            out.push(byte);
            proof {
                assert(out@ =~= old(out)@ + Seq::new((z + 1) as nat, |i: int| byte));
            }
            z = z + 1;
        }
        proof {
            assert(out@ =~= old(out)@ + spec_rle(byte, count as int));
        }
    }
}

/// Image handler for the Sixel protocol, with an LRU cache of encoded
/// streams keyed by image fingerprint.
pub struct SixelImageHandler {
    pub imgs: ByteCache,
    pub size: usize,
    pub bg: Option<RGBA>,
}

/// The byte accounting matches the cache contents.
pub open spec fn sixel_wf(h: SixelImageHandler) -> bool {
    &&& lru_wf(h.imgs)
    &&& h.size as int == sum_bytes(cache_order(h.imgs), cache_entries(h.imgs))
    &&& h.size <= IMAGE_CACHE_SIZE || cache_order(h.imgs).len() <= 1
}

impl SixelImageHandler {
    /// A handler with an empty cache and the given quantization
    /// background.
    pub fn new(bg: Option<RGBA>) -> (r: SixelImageHandler)
        ensures
            sixel_wf(r),
            r.bg == bg,
            cache_order(r.imgs) == Seq::<u64>::empty(),
    {
        SixelImageHandler { imgs: lru_new(), size: 0, bg }
    }

    /// Draw `img`: emit the cached stream, or quantize the channel-
    /// reduced image to at most 256 dithered colors, encode it, emit
    /// and cache the bytes, evicting least-recently-used streams
    /// beyond the cache budget. An empty image draws nothing.
    pub fn draw(&mut self, out: &mut Vec<u8>, img: &Image, _pos: Position) -> (r: Result<
        (),
        Error,
    >)
        requires
            image_wf(*img),
            sixel_wf(*old(self)),
        ensures
            r is Ok,
            sixel_wf(*final(self)),
            final(self).bg == old(self).bg,
            cache_entries(old(self).imgs).dom().contains(img.hash) ==> final(out)@ == old(out)@
                + cache_entries(old(self).imgs)[img.hash] && cache_entries(final(self).imgs)
                == cache_entries(old(self).imgs) && final(self).size == old(self).size,
            !cache_entries(old(self).imgs).dom().contains(img.hash) && img.width * img.height
                > 0 ==> exists|s: Seq<u8>|
                #![trigger sixel_shaped(s, true)]
                {
                    &&& final(out)@ == old(out)@ + s
                    &&& sixel_shaped(s, img.height > 0)
                    &&& count_byte(s, 45) == (img.height + 5) / 6
                    &&& exists|cs: Seq<RGBA>, qi: Seq<usize>|
                        #![trigger sixel_palette_text(cs), qi.len()]
                        {
                            &&& 1 <= cs.len() <= 256
                            &&& forall|i: int| 0 <= i < cs.len() ==> (#[trigger] cs[i]).a == 255
                            &&& qi.len() == img.width * img.height
                            &&& forall|k: int| 0 <= k < qi.len() ==> (#[trigger] qi[k]) < cs.len()
                            &&& s == spec_sixel_stream(
                                cs,
                                qi,
                                img.width as int,
                                img.height as int,
                            )
                            &&& spec_sixel_head(
                                img.width as int,
                                img.height as int,
                                cs,
                            ).is_prefix_of(s)
                            &&& forall|t: int|
                                spec_sixel_head(img.width as int, img.height as int, cs).len()
                                    <= t < s.len() - 2 ==> 33 <= #[trigger] s[t] <= 126
                        }
                    &&& cache_entries(final(self).imgs).dom().contains(img.hash)
                        ==> cache_entries(final(self).imgs)[img.hash] == s
                },
            !cache_entries(old(self).imgs).dom().contains(img.hash) && img.width * img.height
                > 0 && (forall|k: int|
                0 <= k < img.data@.len() ==> crate::image::spec_composite(
                    crate::image::spec_quant_bg(old(self).bg),
                    spec_sixel_reduced(#[trigger] img.data@[k]),
                ) == crate::image::spec_composite(
                    crate::image::spec_quant_bg(old(self).bg),
                    spec_sixel_reduced(img.data@[0]),
                )) ==> final(out)@ == old(out)@ + spec_sixel_stream(
                seq![
                    (RGBA {
                        r: crate::image::spec_composite(
                            crate::image::spec_quant_bg(old(self).bg),
                            spec_sixel_reduced(img.data@[0]),
                        ).r,
                        g: crate::image::spec_composite(
                            crate::image::spec_quant_bg(old(self).bg),
                            spec_sixel_reduced(img.data@[0]),
                        ).g,
                        b: crate::image::spec_composite(
                            crate::image::spec_quant_bg(old(self).bg),
                            spec_sixel_reduced(img.data@[0]),
                        ).b,
                        a: 255,
                    }),
                ],
                Seq::new((img.width * img.height) as nat, |i: int| 0usize),
                img.width as int,
                img.height as int,
            ),
            !cache_entries(old(self).imgs).dom().contains(img.hash) && img.width * img.height
                == 0 ==> final(out)@ == old(out)@ && cache_entries(final(self).imgs)
                == cache_entries(old(self).imgs) && final(self).size == old(self).size,
    {
        let hash = img.hash();
        let cached = lru_get(&mut self.imgs, hash);
        match cached {
            Some(data) => {
                let mut copy = crate::iterm::clone_bytes(data);
                proof {
                    crate::iterm::lemma_sum_bytes_move(
                        cache_order(old(self).imgs),
                        cache_entries(old(self).imgs),
                        hash,
                    );
                }
                out.append(&mut copy);
                proof {
                    assert(out@ =~= old(out)@ + cache_entries(old(self).imgs)[img.hash]);
                }
                Ok(())
            },
            None => {
                // fold every channel to the Sixel range before palette
                // extraction: a smaller, more faithful palette
                let mut reduced: Vec<RGBA> = Vec::new();
                let total = img.data.len();
                let mut k: usize = 0;
                while k < total
                    invariant
                        total == img.data@.len(),
                        0 <= k <= total,
                        reduced@.len() == k,
                        forall|t: int|
                            0 <= t < k ==> #[trigger] reduced@[t] == spec_sixel_reduced(
                                img.data@[t],
                            ),
                    decreases total - k,
                {
                    let c = img.data[k];
                    reduced.push(
                        RGBA {
                            r: sixel_prepass_channel(c.r),
                            g: sixel_prepass_channel(c.g),
                            b: sixel_prepass_channel(c.b),
                            a: c.a,
                        },
                    );
                    k = k + 1;
                }
                let dimg = Image::new(img.width(), img.height(), reduced, img.hash());
                let quantized = dimg.quantize(256, true, self.bg);
                match quantized {
                    None => Ok(()),
                    Some((palette, qimg)) => {
                        proof {
                            assert(img.width >= 1 && img.height >= 1) by (nonlinear_arith)
                                requires img.width * img.height > 0;
                        }
                        let stream = sixel_encode(&palette, &qimg, img.width(), img.height());
                        let ghost sv = stream@;
                        let mut copy = crate::iterm::clone_bytes(&stream);
                        let stream_len = stream.len();
                        out.append(&mut copy);
                        proof {
                            crate::iterm::lemma_sum_bytes_move(
                                cache_order(old(self).imgs),
                                cache_entries(old(self).imgs),
                                hash,
                            );
                            crate::cache::lemma_sum_bytes_put(
                                cache_order(self.imgs),
                                cache_entries(self.imgs),
                                hash,
                                stream@,
                            );
                            assert(sixel_shaped(stream@, true));
                            assert(sixel_shaped(stream@, img.height > 0));
                            assert(out@ =~= old(out)@ + stream@);
                            assert(spec_sixel_head(
                                img.width as int,
                                img.height as int,
                                palette.colors@,
                            ).is_prefix_of(sv));
                            assert(1 <= palette.colors@.len() <= 256);
                            assert(forall|t: int|
                                spec_sixel_head(
                                    img.width as int,
                                    img.height as int,
                                    palette.colors@,
                                ).len() <= t < sv.len() - 2 ==> 33 <= #[trigger] sv[t] <= 126);
                            assert(qimg@.len() == img.width * img.height);
                            assert(sv == spec_sixel_stream(
                                palette.colors@,
                                qimg@,
                                img.width as int,
                                img.height as int,
                            ));
                            let bgc = crate::image::spec_quant_bg(old(self).bg);
                            if forall|t: int|
                                0 <= t < img.data@.len() ==> crate::image::spec_composite(
                                    bgc,
                                    spec_sixel_reduced(#[trigger] img.data@[t]),
                                ) == crate::image::spec_composite(
                                    bgc,
                                    spec_sixel_reduced(img.data@[0]),
                                ) {
                                assert(forall|t: int|
                                    0 <= t < dimg.data@.len() ==> crate::image::spec_composite(
                                        bgc,
                                        #[trigger] dimg.data@[t],
                                    ) == crate::image::spec_composite(bgc, dimg.data@[0]));
                                assert(palette.colors@ == seq![
                                    (RGBA {
                                        r: crate::image::spec_composite(
                                            bgc,
                                            spec_sixel_reduced(img.data@[0]),
                                        ).r,
                                        g: crate::image::spec_composite(
                                            bgc,
                                            spec_sixel_reduced(img.data@[0]),
                                        ).g,
                                        b: crate::image::spec_composite(
                                            bgc,
                                            spec_sixel_reduced(img.data@[0]),
                                        ).b,
                                        a: 255,
                                    }),
                                ]);
                                assert(qimg@ =~= Seq::new(
                                    (img.width * img.height) as nat,
                                    |i: int| 0usize,
                                ));
                            }
                        }
                        match self.size.checked_add(stream_len) {
                            Some(new_size) => {
                                lru_put(&mut self.imgs, hash, stream);
                                self.size = new_size;
                                shrink_to_budget(&mut self.imgs, &mut self.size, IMAGE_CACHE_SIZE);
                                proof {
                                    if cache_entries(self.imgs).dom().contains(hash) {
                                        assert(cache_order(self.imgs).contains(hash));
                                        assert(cache_entries(self.imgs)[hash] == sv);
                                    }
                                }
                            },
                            None => {
                                // accounting would overflow: emit without caching
                            },
                        }
                        Ok(())
                    },
                }
            },
        }
    }

    /// Erasing is a no-op: the terminal treats the image as ordinary
    /// cell content.
    pub fn erase(&mut self, _out: &mut Vec<u8>, _img: &Image, _pos: Option<Position>) -> (r:
        Result<(), Error>)
        ensures
            r is Ok,
            *final(self) == *old(self),
    {
        Ok(())
    }

    /// No terminal event concerns this handler.
    pub fn handle(&mut self, _event: &crate::terminal::TerminalEvent) -> (r: Result<bool, Error>)
        ensures
            r == Ok::<bool, Error>(false),
            *final(self) == *old(self),
    {
        Ok(false)
    }
}

} // verus!
