//! Static 3-D k-d tree over palette colors, answering exact
//! nearest-neighbor queries in squared Euclidean RGB distance.
use vstd::prelude::*;

use crate::color::RGBA;
use vstd::multiset::Multiset;

verus! {

/// One node of the flattened tree; children point at earlier slots of
/// the node vector.
#[derive(Debug, Clone, Copy)]
pub struct KDNode {
    pub color: [u8; 3],
    pub color_index: usize,
    pub dim: usize,
    pub left: Option<usize>,
    pub right: Option<usize>,
}

/// The tree: nodes in a flat vector, the root at the last slot.
#[derive(Debug)]
pub struct KDTree {
    pub nodes: Vec<KDNode>,
}

/// The square of an integer.
pub open spec fn sq(x: int) -> int {
    x * x
}

/// Squared Euclidean distance between two RGB triples.
pub open spec fn sqdist(a: Seq<u8>, b: Seq<u8>) -> int {
    sq(a[0] - b[0]) + sq(a[1] - b[1]) + sq(a[2] - b[2])
}

/// The `(palette index, color)` pairs stored in the subtree rooted at `i`,
/// colors taken as byte sequences.
pub open spec fn kd_pair_set(nodes: Seq<KDNode>, i: int) -> Set<(usize, Seq<u8>)>
    decreases i,
{
    if !(0 <= i < nodes.len()) {
        Set::empty()
    } else {
        let here = Set::empty().insert((nodes[i].color_index, nodes[i].color@));
        let lset = match nodes[i].left {
            Some(l) => if (l as int) < i {
                kd_pair_set(nodes, l as int)
            } else {
                Set::empty()
            },
            None => Set::empty(),
        };
        let rset = match nodes[i].right {
            Some(r) => if (r as int) < i {
                kd_pair_set(nodes, r as int)
            } else {
                Set::empty()
            },
            None => Set::empty(),
        };
        here.union(lset).union(rset)
    }
}

/// Every color of the set is at most `v` on axis `d`.
pub open spec fn set_le(ps: Set<(usize, Seq<u8>)>, d: int, v: int) -> bool {
    forall|p: (usize, Seq<u8>)| ps.contains(p) ==> #[trigger] p.1[d] <= v
}

/// Every color of the set is at least `v` on axis `d`.
pub open spec fn set_ge(ps: Set<(usize, Seq<u8>)>, d: int, v: int) -> bool {
    forall|p: (usize, Seq<u8>)| ps.contains(p) ==> #[trigger] p.1[d] >= v
}

/// The pairs named by a sequence of `(index, color)` entries, colors as
/// byte sequences.
pub open spec fn pairs_view_set(s: Seq<(usize, [u8; 3])>) -> Set<(usize, Seq<u8>)> {
    Set::new(
        |q: (usize, Seq<u8>)|
            exists|k: int| 0 <= k < s.len() && (#[trigger] s[k]).0 == q.0 && s[k].1@ == q.1,
    )
}

/// Structural invariant of the subtree rooted at `i`: children sit at
/// earlier slots, split axes are valid, and each side of a node is
/// bounded by the node's coordinate on its axis.
pub open spec fn kd_wf(nodes: Seq<KDNode>, i: int) -> bool
    decreases i,
{
    &&& 0 <= i < nodes.len()
    &&& nodes[i].dim < 3
    &&& (match nodes[i].left {
        Some(l) => (l as int) < i && kd_wf(nodes, l as int) && set_le(
            kd_pair_set(nodes, l as int),
            nodes[i].dim as int,
            nodes[i].color@[nodes[i].dim as int] as int,
        ),
        None => true,
    })
    &&& (match nodes[i].right {
        Some(r) => (r as int) < i && kd_wf(nodes, r as int) && set_ge(
            kd_pair_set(nodes, r as int),
            nodes[i].dim as int,
            nodes[i].color@[nodes[i].dim as int] as int,
        ),
        None => true,
    })
}

/// The split-axis discipline of the subtree rooted at `i`: the node
/// splits on axis `d`, and each child level cycles to the next of the
/// three axes, so a node `k` levels below the root splits on axis
/// `(d + k) % 3`.
pub open spec fn kd_dims_ok(nodes: Seq<KDNode>, i: int, d: int) -> bool
    decreases i,
{
    &&& 0 <= i < nodes.len()
    &&& nodes[i].dim == d
    &&& (match nodes[i].left {
        Some(l) => (l as int) < i && kd_dims_ok(nodes, l as int, (d + 1) % 3),
        None => true,
    })
    &&& (match nodes[i].right {
        Some(r) => (r as int) < i && kd_dims_ok(nodes, r as int, (d + 1) % 3),
        None => true,
    })
}

/// The axis discipline, like the structure, only reads slots up to the
/// root.
pub proof fn lemma_kd_dims_prefix_stable(ns1: Seq<KDNode>, ns2: Seq<KDNode>, i: int, d: int)
    requires
        0 <= i < ns1.len(),
        ns1.len() <= ns2.len(),
        forall|j: int| 0 <= j < ns1.len() ==> ns2[j] == ns1[j],
        kd_dims_ok(ns1, i, d),
    ensures
        kd_dims_ok(ns2, i, d),
    decreases i,
{
    match ns1[i].left {
        Some(l) => {
            lemma_kd_dims_prefix_stable(ns1, ns2, l as int, (d + 1) % 3);
        },
        None => {},
    }
    match ns1[i].right {
        Some(r) => {
            lemma_kd_dims_prefix_stable(ns1, ns2, r as int, (d + 1) % 3);
        },
        None => {},
    }
}

/// Subtree structure only reads slots up to the root, so appending nodes
/// changes neither well-formedness nor the stored pair set.
pub proof fn lemma_kd_prefix_stable(ns1: Seq<KDNode>, ns2: Seq<KDNode>, i: int)
    requires
        0 <= i < ns1.len(),
        ns1.len() <= ns2.len(),
        forall|j: int| 0 <= j < ns1.len() ==> ns2[j] == ns1[j],
    ensures
        kd_wf(ns1, i) ==> kd_wf(ns2, i),
        kd_pair_set(ns2, i) == kd_pair_set(ns1, i),
    decreases i,
{
    if 0 <= i < ns1.len() {
        match ns1[i].left {
            Some(l) => {
                if (l as int) < i {
                    lemma_kd_prefix_stable(ns1, ns2, l as int);
                }
            },
            None => {},
        }
        match ns1[i].right {
            Some(r) => {
                if (r as int) < i {
                    lemma_kd_prefix_stable(ns1, ns2, r as int);
                }
            },
            None => {},
        }
        assert(kd_pair_set(ns2, i) =~= kd_pair_set(ns1, i));
    }
}

/// Squaring is monotone on non-negatives.
pub proof fn lemma_sq_mono(a: int, b: int)
    requires
        0 <= a <= b,
    ensures
        sq(a) <= sq(b),
{
    assert(a * a <= b * b) by (nonlinear_arith)
        requires 0 <= a <= b;
}

/// Squares ignore the sign of the difference.
pub proof fn lemma_sq_sym(a: int, b: int)
    ensures
        sq(a - b) == sq(b - a),
{
    assert((a - b) * (a - b) == (b - a) * (b - a)) by (nonlinear_arith);
}

/// A squared distance dominates the square of any single coordinate gap.
pub proof fn lemma_sqdist_component(a: Seq<u8>, b: Seq<u8>, d: int)
    requires
        0 <= d < 3,
    ensures
        sqdist(a, b) >= sq(a[d] - b[d]),
        sqdist(a, b) >= 0,
{
    assert(sq(a[0] - b[0]) >= 0) by (nonlinear_arith);
    assert(sq(a[1] - b[1]) >= 0) by (nonlinear_arith);
    assert(sq(a[2] - b[2]) >= 0) by (nonlinear_arith);
}

/// Squared distance between two color triples, in `i32` range.
fn sq_dist(a: [u8; 3], b: [u8; 3]) -> (d: i32)
    ensures
        d as int == sqdist(a@, b@),
        0 <= d <= 195075,
{
    let d0 = a[0] as i32 - b[0] as i32;
    let d1 = a[1] as i32 - b[1] as i32;
    let d2 = a[2] as i32 - b[2] as i32;
    proof {
        assert(d0 * d0 >= 0 && d0 * d0 <= 65025) by (nonlinear_arith)
            requires -255 <= d0 <= 255;
        assert(d1 * d1 >= 0 && d1 * d1 <= 65025) by (nonlinear_arith)
            requires -255 <= d1 <= 255;
        assert(d2 * d2 >= 0 && d2 * d2 <= 65025) by (nonlinear_arith)
            requires -255 <= d2 <= 255;
    }
    d0 * d0 + d1 * d1 + d2 * d2
}

/// Sort index/color pairs by the coordinate on axis `dim`, smallest
/// first, keeping the collection of pairs intact (selection sort, first
/// minimum first, so the order is stable).
fn sort_pairs_by_dim(v: &mut Vec<(usize, [u8; 3])>, dim: usize)
    requires
        dim < 3,
    ensures
        final(v)@.len() == old(v)@.len(),
        final(v)@.to_multiset() == old(v)@.to_multiset(),
        forall|a: int, b: int|
            0 <= a <= b < final(v)@.len() ==> final(v)@[a].1@[dim as int]
                <= final(v)@[b].1@[dim as int],
        forall|p: (usize, [u8; 3])| final(v)@.contains(p) <==> old(v)@.contains(p),
{
    broadcast use vstd::seq_lib::group_to_multiset_ensures;
    broadcast use vstd::multiset::group_multiset_axioms;

    let mut src: Vec<(usize, [u8; 3])> = Vec::new();
    core::mem::swap(&mut src, v);
    let ghost orig = src@;
    proof {
        assert(v@ =~= Seq::<(usize, [u8; 3])>::empty());
        assert(v@.to_multiset().add(src@.to_multiset()) =~= orig.to_multiset());
    }
    while src.len() > 0
        invariant
            dim < 3,
            v@.to_multiset().add(src@.to_multiset()) == orig.to_multiset(),
            v@.len() + src@.len() == orig.len(),
            forall|a: int, b: int|
                0 <= a <= b < v@.len() ==> v@[a].1@[dim as int] <= v@[b].1@[dim as int],
            forall|a: int, k: int|
                0 <= a < v@.len() && 0 <= k < src@.len() ==> v@[a].1@[dim as int]
                    <= src@[k].1@[dim as int],
        decreases src@.len(),
    {
        // index of the first minimum of the remaining pairs
        let mut min_idx: usize = 0;
        let mut k: usize = 1;
        while k < src.len()
            invariant
                dim < 3,
                src@.len() > 0,
                0 <= min_idx < src@.len(),
                min_idx < k,
                1 <= k <= src@.len(),
                forall|j: int| 0 <= j < k ==> src@[min_idx as int].1@[dim as int]
                    <= #[trigger] src@[j].1@[dim as int],
            decreases src@.len() - k,
        {
            if src[k].1[dim] < src[min_idx].1[dim] {
                min_idx = k;
            }
            k = k + 1;
        }
        let ghost vs0 = v@;
        let ghost ss0 = src@;
        let x = src.remove(min_idx);
        v.push(x);
        proof {
            broadcast use vstd::multiset::group_multiset_axioms;

            assert(src@ == ss0.remove(min_idx as int));
            assert(v@ == vs0.push(x));
            vstd::seq_lib::to_multiset_remove(ss0, min_idx as int);
            vstd::seq_lib::to_multiset_build(vs0, x);
            assert(ss0.contains(x));
            vstd::seq_lib::to_multiset_contains(ss0, x);
            assert(ss0.to_multiset().count(x) > 0);
            assert(v@.to_multiset().add(src@.to_multiset()) =~= orig.to_multiset());
            assert(forall|j: int|
                0 <= j < src@.len() ==> x.1@[dim as int] <= #[trigger] src@[j].1@[dim as int]);
        }
    }
    proof {
        broadcast use vstd::multiset::group_multiset_axioms;

        assert(src@ =~= Seq::<(usize, [u8; 3])>::empty());
        assert(src@.to_multiset() =~= Multiset::<(usize, [u8; 3])>::empty());
        assert(v@.to_multiset() =~= orig.to_multiset());
        assert forall|p: (usize, [u8; 3])| v@.contains(p) <==> orig.contains(p) by {
            vstd::seq_lib::to_multiset_contains(v@, p);
            vstd::seq_lib::to_multiset_contains(orig, p);
        }
        vstd::seq_lib::to_multiset_len(v@);
        vstd::seq_lib::to_multiset_len(orig);
    }
}

/// Splitting a sequence of pairs at `mid` splits its pair set.
proof fn lemma_pairs_split(s: Seq<(usize, [u8; 3])>, mid: int)
    requires
        0 <= mid < s.len(),
    ensures
        pairs_view_set(s) == pairs_view_set(s.subrange(0, mid)).union(
            pairs_view_set(s.subrange(mid + 1, s.len() as int)),
        ).insert((s[mid].0, s[mid].1@)),
{
    let lhs = pairs_view_set(s);
    let a = pairs_view_set(s.subrange(0, mid));
    let b = pairs_view_set(s.subrange(mid + 1, s.len() as int));
    let rhs = a.union(b).insert((s[mid].0, s[mid].1@));
    assert forall|q: (usize, Seq<u8>)| lhs.contains(q) implies rhs.contains(q) by {
        let k = choose|k: int|
            0 <= k < s.len() && (#[trigger] s[k]).0 == q.0 && s[k].1@ == q.1;
        if k < mid {
            assert(s.subrange(0, mid)[k] == s[k]);
            assert(a.contains(q));
        } else if k == mid {
        } else {
            assert(s.subrange(mid + 1, s.len() as int)[k - mid - 1] == s[k]);
            assert(b.contains(q));
        }
    }
    assert forall|q: (usize, Seq<u8>)| rhs.contains(q) implies lhs.contains(q) by {
        if a.contains(q) {
            let k = choose|k: int|
                0 <= k < s.subrange(0, mid).len() && (#[trigger] s.subrange(0, mid)[k]).0 == q.0
                    && s.subrange(0, mid)[k].1@ == q.1;
            assert(s[k] == s.subrange(0, mid)[k]);
        } else if b.contains(q) {
            let t = s.subrange(mid + 1, s.len() as int);
            let k = choose|k: int|
                0 <= k < t.len() && (#[trigger] t[k]).0 == q.0 && t[k].1@ == q.1;
            assert(s[mid + 1 + k] == t[k]);
        } else {
            assert(s[mid].0 == q.0 && s[mid].1@ == q.1);
        }
    }
    assert(lhs =~= rhs);
}

/// Two pair sequences with the same members name the same pair set.
proof fn lemma_pairs_same_elems(s1: Seq<(usize, [u8; 3])>, s2: Seq<(usize, [u8; 3])>)
    requires
        forall|p: (usize, [u8; 3])| s1.contains(p) <==> s2.contains(p),
    ensures
        pairs_view_set(s1) == pairs_view_set(s2),
{
    assert forall|q: (usize, Seq<u8>)|
        pairs_view_set(s1).contains(q) <==> pairs_view_set(s2).contains(q) by {
        if pairs_view_set(s1).contains(q) {
            let k = choose|k: int|
                0 <= k < s1.len() && (#[trigger] s1[k]).0 == q.0 && s1[k].1@ == q.1;
            assert(s1.contains(s1[k]));
            assert(s2.contains(s1[k]));
            let j = choose|j: int| 0 <= j < s2.len() && s2[j] == s1[k];
            assert((#[trigger] s2[j]).0 == q.0 && s2[j].1@ == q.1);
        }
        if pairs_view_set(s2).contains(q) {
            let k = choose|k: int|
                0 <= k < s2.len() && (#[trigger] s2[k]).0 == q.0 && s2[k].1@ == q.1;
            assert(s2.contains(s2[k]));
            assert(s1.contains(s2[k]));
            let j = choose|j: int| 0 <= j < s1.len() && s1[j] == s2[k];
            assert((#[trigger] s1[j]).0 == q.0 && s1[j].1@ == q.1);
        }
    }
    assert(pairs_view_set(s1) =~= pairs_view_set(s2));
}

/// Build a subtree out of `colors`, appending its nodes to `nodes` and
/// returning the root slot: median split on the current axis, smaller
/// coordinates to the left, the axis cycling through R, G, B.
fn build_rec(dim: usize, nodes: &mut Vec<KDNode>, colors: Vec<(usize, [u8; 3])>) -> (r: Option<
    usize,
>)
    requires
        dim < 3,
        old(nodes)@.len() + colors@.len() <= usize::MAX,
    ensures
        final(nodes)@.len() == old(nodes)@.len() + colors@.len(),
        forall|j: int| 0 <= j < old(nodes)@.len() ==> final(nodes)@[j] == old(nodes)@[j],
        r is None <==> colors@.len() == 0,
        r matches Some(root) ==> root == final(nodes)@.len() - 1 && old(nodes)@.len() <= root
            && kd_wf(final(nodes)@, root as int) && kd_pair_set(final(nodes)@, root as int)
            == pairs_view_set(colors@) && kd_dims_ok(final(nodes)@, root as int, dim as int),
    decreases colors@.len(),
{
    let n = colors.len();
    if n == 0 {
        return None;
    }
    let mut sorted = colors;
    sort_pairs_by_dim(&mut sorted, dim);
    proof {
        lemma_pairs_same_elems(colors@, sorted@);
    }
    if n == 1 {
        let p = sorted[0];
        let node = KDNode { color: p.1, color_index: p.0, dim, left: None, right: None };
        nodes.push(node);
        let root = nodes.len() - 1;
        proof {
            assert(kd_wf(nodes@, root as int));
            assert forall|q: (usize, Seq<u8>)|
                kd_pair_set(nodes@, root as int).contains(q) <==> pairs_view_set(
                    sorted@,
                ).contains(q) by {
                if pairs_view_set(sorted@).contains(q) {
                    let k = choose|k: int|
                        0 <= k < sorted@.len() && (#[trigger] sorted@[k]).0 == q.0
                            && sorted@[k].1@ == q.1;
                }
            }
            assert(kd_pair_set(nodes@, root as int) =~= pairs_view_set(sorted@));
        }
        return Some(root);
    }
    let mid = n / 2;
    let mut left: Vec<(usize, [u8; 3])> = Vec::new();
    let mut k: usize = 0;
    while k < mid
        invariant
            mid <= sorted@.len(),
            0 <= k <= mid,
            left@ == sorted@.subrange(0, k as int),
        decreases mid - k,
    {
        left.push(sorted[k]);
        proof {
            assert(left@ =~= sorted@.subrange(0, k as int + 1));
        }
        k = k + 1;
    }
    let mut right: Vec<(usize, [u8; 3])> = Vec::new();
    let mut k2: usize = mid + 1;
    while k2 < n
        invariant
            mid + 1 <= k2 <= n,
            n == sorted@.len(),
            right@ == sorted@.subrange(mid as int + 1, k2 as int),
        decreases n - k2,
    {
        right.push(sorted[k2]);
        proof {
            assert(right@ =~= sorted@.subrange(mid as int + 1, k2 as int + 1));
        }
        k2 = k2 + 1;
    }
    let dim_next = (dim + 1) % 3;
    let ghost ns0 = nodes@;
    let l = build_rec(dim_next, nodes, left);
    let ghost ns1 = nodes@;
    let r = build_rec(dim_next, nodes, right);
    let ghost ns2 = nodes@;
    let p = sorted[mid];
    let node = KDNode { color: p.1, color_index: p.0, dim, left: l, right: r };
    nodes.push(node);
    let root = nodes.len() - 1;
    proof {
        let ns3 = nodes@;
        let lset = pairs_view_set(sorted@.subrange(0, mid as int));
        let rset = pairs_view_set(sorted@.subrange(mid as int + 1, n as int));
        let pivot = p.1@[dim as int];
        // left subtree facts survive the later pushes
        match l {
            Some(li) => {
            lemma_kd_prefix_stable(ns1, ns2, li as int);
            lemma_kd_prefix_stable(ns2, ns3, li as int);
            lemma_kd_prefix_stable(ns1, ns3, li as int);
            lemma_kd_dims_prefix_stable(ns1, ns3, li as int, dim_next as int);
            assert(kd_pair_set(ns3, li as int) == lset);
            assert forall|q: (usize, Seq<u8>)| lset.contains(q) implies (#[trigger] q.1)[dim as int] <= pivot by {
                let t = sorted@.subrange(0, mid as int);
                let kk = choose|kk: int|
                    0 <= kk < t.len() && (#[trigger] t[kk]).0 == q.0 && t[kk].1@ == q.1;
                assert(t[kk] == sorted@[kk]);
                assert(sorted@[kk].1@[dim as int] <= sorted@[mid as int].1@[dim as int]);
            }
            },
            None => {},
        }
        match r {
            Some(ri) => {
            lemma_kd_prefix_stable(ns2, ns3, ri as int);
            lemma_kd_dims_prefix_stable(ns2, ns3, ri as int, dim_next as int);
            assert(kd_pair_set(ns3, ri as int) == rset);
            assert forall|q: (usize, Seq<u8>)| rset.contains(q) implies (#[trigger] q.1)[dim as int] >= pivot by {
                let t = sorted@.subrange(mid as int + 1, n as int);
                let kk = choose|kk: int|
                    0 <= kk < t.len() && (#[trigger] t[kk]).0 == q.0 && t[kk].1@ == q.1;
                assert(t[kk] == sorted@[mid + 1 + kk]);
                assert(sorted@[mid as int].1@[dim as int] <= sorted@[mid + 1 + kk].1@[dim as int]);
            }
            },
            None => {},
        }
        assert(kd_wf(ns3, root as int));
        assert(kd_dims_ok(ns3, root as int, dim as int));
        lemma_pairs_split(sorted@, mid as int);
        if l is None {
            assert(sorted@.subrange(0, mid as int).len() == 0);
            assert(pairs_view_set(sorted@.subrange(0, mid as int)) =~= Set::<(
                usize,
                Seq<u8>,
            )>::empty());
        }
        if r is None {
            assert(sorted@.subrange(mid as int + 1, n as int).len() == 0);
            assert(pairs_view_set(sorted@.subrange(mid as int + 1, n as int)) =~= Set::<(
                usize,
                Seq<u8>,
            )>::empty());
        }
        assert(kd_pair_set(ns3, root as int) =~= pairs_view_set(sorted@));
    }
    Some(root)
}

/// Recursive worker of `KDTree::find`: exact nearest pair of the subtree
/// at `index`, with backtracking pruned by the splitting planes.
fn find_rec(nodes: &Vec<KDNode>, index: usize, target: [u8; 3]) -> (r: (KDNode, i32))
    requires
        kd_wf(nodes@, index as int),
    ensures
        kd_pair_set(nodes@, index as int).contains((r.0.color_index, r.0.color@)),
        r.1 as int == sqdist(target@, r.0.color@),
        forall|q: (usize, Seq<u8>)|
            kd_pair_set(nodes@, index as int).contains(q) ==> r.1 as int <= sqdist(
                target@,
                q.1,
            ),
    decreases index,
{
    let node = nodes[index];
    let node_dist = sq_dist(target, node.color);
    let tcoord = target[node.dim];
    let ncoord = node.color[node.dim];
    let go_left = tcoord < ncoord;
    let (next, other) = if go_left {
        (node.left, node.right)
    } else {
        (node.right, node.left)
    };
    let ghost full = kd_pair_set(nodes@, index as int);
    let ghost nset = match next {
        Some(ni) => kd_pair_set(nodes@, ni as int),
        None => Set::<(usize, Seq<u8>)>::empty(),
    };
    let ghost oset = match other {
        Some(oi) => kd_pair_set(nodes@, oi as int),
        None => Set::<(usize, Seq<u8>)>::empty(),
    };
    proof {
        assert(full =~= Set::empty().insert((node.color_index, node.color@)).union(nset).union(
            oset,
        ));
    }
    let (guess, guess_dist) = match next {
        None => (node, node_dist),
        Some(next_index) => {
            let (g, gd) = find_rec(nodes, next_index, target);
            if gd >= node_dist {
                (node, node_dist)
            } else {
                (g, gd)
            }
        },
    };
    let axis = tcoord as i32 - ncoord as i32;
    proof {
        assert(axis * axis >= 0 && axis * axis <= 65025) by (nonlinear_arith)
            requires -255 <= axis <= 255;
    }
    let other_dist = axis * axis;
    proof {
        assert(other_dist as int == sq(tcoord as int - ncoord as int));
    }
    if other_dist >= guess_dist {
        proof {
            assert forall|q: (usize, Seq<u8>)| oset.contains(q) implies guess_dist as int
                <= sqdist(target@, q.1) by {
                let d = node.dim as int;
                lemma_sqdist_component(target@, q.1, d);
                assert(target@[d] == tcoord);
                if go_left {
                    assert(q.1[d] >= ncoord);
                    lemma_sq_mono(ncoord as int - tcoord as int, q.1[d] - tcoord as int);
                    lemma_sq_sym(target@[d] as int, q.1[d] as int);
                    lemma_sq_sym(tcoord as int, ncoord as int);
                } else {
                    assert(q.1[d] <= ncoord);
                    lemma_sq_mono(tcoord as int - ncoord as int, tcoord as int - q.1[d]);
                    lemma_sq_sym(target@[d] as int, q.1[d] as int);
                }
            }
        }
        return (guess, guess_dist);
    }
    match other {
        None => (guess, guess_dist),
        Some(other_index) => {
            let (o, od) = find_rec(nodes, other_index, target);
            if od < guess_dist {
                (o, od)
            } else {
                (guess, guess_dist)
            }
        },
    }
}

impl KDTree {
    /// Build the tree for a palette; entry `k` of `colors` is stored
    /// under palette index `k`.
    pub fn new(colors: &[RGBA]) -> (t: KDTree)
        ensures
            t.nodes@.len() == colors@.len(),
            colors@.len() > 0 ==> kd_wf(t.nodes@, t.nodes@.len() - 1),
            colors@.len() > 0 ==> kd_dims_ok(t.nodes@, t.nodes@.len() - 1, 0),
            colors@.len() > 0 ==> forall|q: (usize, Seq<u8>)|
                (#[trigger] kd_pair_set(t.nodes@, t.nodes@.len() - 1).contains(q)) <==> (q.0
                    < colors@.len() && q.1 == seq![
                    colors@[q.0 as int].r,
                    colors@[q.0 as int].g,
                    colors@[q.0 as int].b,
                ]),
    {
        let n = colors.len();
        let mut pairs: Vec<(usize, [u8; 3])> = Vec::new();
        let mut k: usize = 0;
        while k < n
            invariant
                0 <= k <= n,
                n == colors@.len(),
                pairs@.len() == k,
                forall|j: int|
                    0 <= j < k ==> (#[trigger] pairs@[j]).0 == j && pairs@[j].1@ == seq![
                        colors@[j].r,
                        colors@[j].g,
                        colors@[j].b,
                    ],
            decreases n - k,
        {
            let c = colors[k];
            pairs.push((k, c.rgb_u8()));
            k = k + 1;
        }
        let mut nodes: Vec<KDNode> = Vec::new();
        let root = build_rec(0, &mut nodes, pairs);
        proof {
            if n > 0 {
                assert(root matches Some(rt) && rt == nodes@.len() - 1);
                assert forall|q: (usize, Seq<u8>)|
                    pairs_view_set(pairs@).contains(q) <==> (q.0 < colors@.len() && q.1 == seq![
                        colors@[q.0 as int].r,
                        colors@[q.0 as int].g,
                        colors@[q.0 as int].b,
                    ]) by {
                    if pairs_view_set(pairs@).contains(q) {
                        let kk = choose|kk: int|
                            0 <= kk < pairs@.len() && (#[trigger] pairs@[kk]).0 == q.0
                                && pairs@[kk].1@ == q.1;
                    }
                    if q.0 < colors@.len() && q.1 == seq![
                        colors@[q.0 as int].r,
                        colors@[q.0 as int].g,
                        colors@[q.0 as int].b,
                    ] {
                        assert((#[trigger] pairs@[q.0 as int]).0 == q.0 && pairs@[q.0 as int].1@
                            == q.1);
                    }
                }
            }
        }
        KDTree { nodes }
    }

    /// Exact nearest palette color to `color` in squared Euclidean RGB
    /// distance; returns its palette index and the color, fully opaque.
    pub fn find(&self, color: RGBA) -> (r: (usize, RGBA))
        requires
            self.nodes@.len() > 0,
            kd_wf(self.nodes@, self.nodes@.len() - 1),
        ensures
            kd_pair_set(self.nodes@, self.nodes@.len() - 1).contains(
                (r.0, seq![r.1.r, r.1.g, r.1.b]),
            ),
            r.1.a == 255,
            forall|q: (usize, Seq<u8>)|
                kd_pair_set(self.nodes@, self.nodes@.len() - 1).contains(q) ==> sqdist(
                    seq![color.r, color.g, color.b],
                    seq![r.1.r, r.1.g, r.1.b],
                ) <= sqdist(seq![color.r, color.g, color.b], q.1),
    {
        let target = color.rgb_u8();
        let (node, _dist) = find_rec(&self.nodes, self.nodes.len() - 1, target);
        let rgb = node.color;
        proof {
            assert(node.color@ =~= seq![rgb[0], rgb[1], rgb[2]]);
            assert(target@ =~= seq![color.r, color.g, color.b]);
        }
        (node.color_index, RGBA { r: rgb[0], g: rgb[1], b: rgb[2], a: 255 })
    }
}

} // verus!
