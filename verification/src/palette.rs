//! Color palette: a dense color list plus a k-d tree for exact
//! nearest-neighbor lookup.
use vstd::prelude::*;

use crate::color::RGBA;
use crate::kdtree::{kd_pair_set, kd_wf, sq, sqdist, KDTree};

verus! {

/// The three color channels of a color, as a byte sequence.
pub open spec fn rgb_view(c: RGBA) -> Seq<u8> {
    seq![c.r, c.g, c.b]
}

/// Color palette which implements fast nearest-neighbor search with
/// squared Euclidean distance.
pub struct ColorPalette {
    pub colors: Vec<RGBA>,
    pub kdtree: KDTree,
}

/// The palette's tree indexes exactly the palette's colors.
pub open spec fn palette_wf(p: ColorPalette) -> bool {
    &&& p.colors@.len() > 0
    &&& p.kdtree.nodes@.len() == p.colors@.len()
    &&& kd_wf(p.kdtree.nodes@, p.kdtree.nodes@.len() - 1)
    &&& forall|q: (usize, Seq<u8>)|
        (#[trigger] kd_pair_set(p.kdtree.nodes@, p.kdtree.nodes@.len() - 1).contains(q)) <==> (
        q.0 < p.colors@.len() && q.1 == rgb_view(p.colors@[q.0 as int]))
}

impl ColorPalette {
    /// Create a palette from a color list; `None` exactly when the list
    /// is empty.
    pub fn new(colors: Vec<RGBA>) -> (r: Option<ColorPalette>)
        ensures
            r is Some <==> colors@.len() > 0,
            r matches Some(p) ==> p.colors@ == colors@ && palette_wf(p),
    {
        if colors.len() == 0 {
            None
        } else {
            let kdtree = KDTree::new(colors.as_slice());
            Some(ColorPalette { colors, kdtree })
        }
    }

    /// Number of colors in the palette.
    pub fn size(&self) -> (r: usize)
        ensures
            r == self.colors@.len(),
    {
        self.colors.len()
    }

    /// The color stored at `index`.
    pub fn get(&self, index: usize) -> (c: RGBA)
        requires
            index < self.colors@.len(),
        ensures
            c == self.colors@[index as int],
    {
        self.colors[index]
    }

    /// All palette colors, in index order.
    pub fn colors(&self) -> (r: &[RGBA])
        ensures
            r@ == self.colors@,
    {
        self.colors.as_slice()
    }

    /// Nearest palette color to `color` in squared Euclidean RGB
    /// distance; ties resolve to the tree's choice. Returns the palette
    /// index and the color, fully opaque.
    pub fn find(&self, color: RGBA) -> (r: (usize, RGBA))
        requires
            palette_wf(*self),
        ensures
            r.0 < self.colors@.len(),
            rgb_view(r.1) == rgb_view(self.colors@[r.0 as int]),
            r.1.a == 255,
            forall|j: int|
                0 <= j < self.colors@.len() ==> sqdist(rgb_view(color), rgb_view(r.1)) <= sqdist(
                    rgb_view(color),
                    rgb_view(#[trigger] self.colors@[j]),
                ),
    {
        let n = self.colors.len();
        let (index, found) = self.kdtree.find(color);
        proof {
            assert(self.colors@.len() == n);
            let root = self.kdtree.nodes@.len() - 1;
            assert(kd_pair_set(self.kdtree.nodes@, root).contains(
                (index, seq![found.r, found.g, found.b]),
            ));
            assert forall|j: int|
                0 <= j < self.colors@.len() implies sqdist(rgb_view(color), rgb_view(found))
                <= sqdist(rgb_view(color), rgb_view(#[trigger] self.colors@[j])) by {
                let q = (j as usize, rgb_view(self.colors@[j]));
                assert(q.0 < self.colors@.len());
                assert(q.0 as int == j);
                assert(q.1 == rgb_view(self.colors@[q.0 as int]));
                assert(kd_pair_set(self.kdtree.nodes@, root).contains(q));
            }
        }
        (index, found)
    }

    /// Nearest palette color by scanning every entry; the reference
    /// implementation for `find`, kept for cross-checking. Returns the
    /// first index reaching the minimal distance, with the stored color.
    pub fn find_naive(&self, color: RGBA) -> (r: (usize, RGBA))
        requires
            self.colors@.len() > 0,
        ensures
            r.0 < self.colors@.len(),
            r.1 == self.colors@[r.0 as int],
            forall|j: int|
                0 <= j < self.colors@.len() ==> sqdist(rgb_view(color), rgb_view(
                    self.colors@[r.0 as int],
                )) <= sqdist(rgb_view(color), rgb_view(#[trigger] self.colors@[j])),
            forall|j: int|
                0 <= j < r.0 ==> sqdist(rgb_view(color), rgb_view(self.colors@[r.0 as int]))
                    < sqdist(rgb_view(color), rgb_view(#[trigger] self.colors@[j])),
    {
        let target = color.rgb_u8();
        let first = self.colors[0];
        let mut best_index: usize = 0;
        let mut best_dist: i32 = dist_to(target, first);
        let mut index: usize = 1;
        proof {
            assert(target@ == rgb_view(color));
            assert(seq![first.r, first.g, first.b] == rgb_view(first));
        }
        while index < self.colors.len()
            invariant
                self.colors@.len() > 0,
                1 <= index <= self.colors@.len(),
                best_index < index,
                target@ == rgb_view(color),
                best_dist as int == sqdist(rgb_view(color), rgb_view(
                    self.colors@[best_index as int],
                )),
                forall|j: int|
                    0 <= j < index ==> best_dist as int <= sqdist(rgb_view(color), rgb_view(
                        #[trigger] self.colors@[j],
                    )),
                forall|j: int|
                    0 <= j < best_index ==> (best_dist as int) < sqdist(rgb_view(color), rgb_view(
                        #[trigger] self.colors@[j],
                    )),
            decreases self.colors@.len() - index,
        {
            let candidate = self.colors[index];
            let d = dist_to(target, candidate);
            if d < best_dist {
                best_index = index;
                best_dist = d;
            }
            index = index + 1;
        }
        (best_index, self.colors[best_index])
    }
}

/// Squared distance from a target triple to a color.
fn dist_to(target: [u8; 3], c: RGBA) -> (d: i32)
    ensures
        d as int == sqdist(target@, rgb_view(c)),
        0 <= d,
{
    let rgb = c.rgb_u8();
    let d0 = target[0] as i32 - rgb[0] as i32;
    let d1 = target[1] as i32 - rgb[1] as i32;
    let d2 = target[2] as i32 - rgb[2] as i32;
    proof {
        assert(d0 * d0 >= 0 && d0 * d0 <= 65025) by (nonlinear_arith)
            requires -255 <= d0 <= 255;
        assert(d1 * d1 >= 0 && d1 * d1 <= 65025) by (nonlinear_arith)
            requires -255 <= d1 <= 255;
        assert(d2 * d2 >= 0 && d2 * d2 <= 65025) by (nonlinear_arith)
            requires -255 <= d2 <= 255;
        assert(rgb@ == rgb_view(c));
    }
    d0 * d0 + d1 * d1 + d2 * d2
}

/// Palette consistency: a nearest-neighbor answer for a query that is
/// itself a palette color has distance zero, so it returns that very
/// color. `i` stands for any index satisfying `find`'s minimality
/// guarantee, `j0` for a slot holding the query.
pub proof fn lemma_palette_consistency(colors: Seq<RGBA>, c: RGBA, i: int, j0: int)
    requires
        0 <= i < colors.len(),
        0 <= j0 < colors.len(),
        rgb_view(colors[j0]) == rgb_view(c),
        forall|j: int|
            0 <= j < colors.len() ==> sqdist(rgb_view(c), rgb_view(colors[i])) <= sqdist(
                rgb_view(c),
                rgb_view(#[trigger] colors[j]),
            ),
    ensures
        rgb_view(colors[i]) == rgb_view(c),
{
    let qv = rgb_view(c);
    let iv = rgb_view(colors[i]);
    assert(sqdist(qv, rgb_view(colors[j0])) == 0) by {
        assert(sq(0) == 0) by (nonlinear_arith);
    }
    assert(sqdist(qv, iv) <= 0);
    assert(sq(qv[0] - iv[0]) >= 0) by (nonlinear_arith);
    assert(sq(qv[1] - iv[1]) >= 0) by (nonlinear_arith);
    assert(sq(qv[2] - iv[2]) >= 0) by (nonlinear_arith);
    assert(sq(qv[0] - iv[0]) == 0 && sq(qv[1] - iv[1]) == 0 && sq(qv[2] - iv[2]) == 0);
    assert(qv[0] == iv[0]) by (nonlinear_arith)
        requires sq(qv[0] - iv[0]) == 0 && sq(qv[0] - iv[0]) == (qv[0] - iv[0]) * (qv[0] - iv[0]);
    assert(qv[1] == iv[1]) by (nonlinear_arith)
        requires sq(qv[1] - iv[1]) == 0 && sq(qv[1] - iv[1]) == (qv[1] - iv[1]) * (qv[1] - iv[1]);
    assert(qv[2] == iv[2]) by (nonlinear_arith)
        requires sq(qv[2] - iv[2]) == 0 && sq(qv[2] - iv[2]) == (qv[2] - iv[2]) * (qv[2] - iv[2]);
    assert(iv =~= qv);
}

/// The tree search and the brute-force scan agree: any two answers that
/// both satisfy the minimality guarantee sit at the same distance from
/// the query.
pub proof fn lemma_find_agrees_with_naive(colors: Seq<RGBA>, c: RGBA, i: int, j: int)
    requires
        0 <= i < colors.len(),
        0 <= j < colors.len(),
        forall|k: int|
            0 <= k < colors.len() ==> sqdist(rgb_view(c), rgb_view(colors[i])) <= sqdist(
                rgb_view(c),
                rgb_view(#[trigger] colors[k]),
            ),
        forall|k: int|
            0 <= k < colors.len() ==> sqdist(rgb_view(c), rgb_view(colors[j])) <= sqdist(
                rgb_view(c),
                rgb_view(#[trigger] colors[k]),
            ),
    ensures
        sqdist(rgb_view(c), rgb_view(colors[i])) == sqdist(rgb_view(c), rgb_view(colors[j])),
{
}

} // verus!
