//! Octree color quantization: a frequency-weighted 8-ary prefix tree over
//! bit-interleaved RGB, with pruning to a bounded number of leaves.
use vstd::prelude::*;

use crate::color::RGBA;

verus! {

/// Upper bound on the number of colors an octree may account for; keeps
/// every accumulator comfortably inside `u64`.
pub const COUNT_LIMIT: u64 = 0x0100_0000_0000_0000;

/// A leaf aggregates the running per-channel sums of the inserted colors
/// and how many colors were inserted; `index` is the palette slot assigned
/// during palette emission.
#[derive(Debug, Clone, Copy)]
pub struct OcTreeLeaf {
    pub red_acc: u64,
    pub green_acc: u64,
    pub blue_acc: u64,
    pub color_count: u64,
    pub index: usize,
}

/// One slot of an octree node: empty, a leaf, or a subtree.
#[derive(Debug)]
pub enum OcTreeNode {
    Leaf(OcTreeLeaf),
    Tree(Box<OcTree>),
    Empty,
}

/// Rolling summary of a subtree: number of leaves, total color count, and
/// the smallest per-leaf color count.
#[derive(Debug, Clone, Copy, PartialEq, Eq)]
pub struct OcTreeInfo {
    pub leaf_count: u64,
    pub color_count: u64,
    pub min_color_count: Option<u64>,
}

/// The octree proper: eight children plus the summary of everything below
/// and an accumulator of everything pruned at or below this node.
#[derive(Debug)]
pub struct OcTree {
    pub info: OcTreeInfo,
    pub removed: OcTreeLeaf,
    pub children: Vec<OcTreeNode>,
}

// ---------------------------------------------------------------------------
// Specification model
// ---------------------------------------------------------------------------

/// Channel sums never exceed 255 per counted color.
pub open spec fn leaf_accs_wf(l: OcTreeLeaf) -> bool {
    &&& l.red_acc <= 255 * l.color_count
    &&& l.green_acc <= 255 * l.color_count
    &&& l.blue_acc <= 255 * l.color_count
}

/// A live leaf has counted at least one color.
pub open spec fn leaf_wf(l: OcTreeLeaf) -> bool {
    &&& l.color_count >= 1
    &&& l.color_count <= COUNT_LIMIT
    &&& leaf_accs_wf(l)
}

/// The monoid identity of subtree summaries.
pub open spec fn spec_empty_info() -> OcTreeInfo {
    OcTreeInfo { leaf_count: 0, color_count: 0, min_color_count: None }
}

/// The monoid join of two subtree summaries.
pub open spec fn spec_join(a: OcTreeInfo, b: OcTreeInfo) -> OcTreeInfo {
    OcTreeInfo {
        leaf_count: (a.leaf_count + b.leaf_count) as u64,
        color_count: (a.color_count + b.color_count) as u64,
        min_color_count: match (a.min_color_count, b.min_color_count) {
            (Some(c0), Some(c1)) => Some(if c0 <= c1 { c0 } else { c1 }),
            (None, Some(c1)) => Some(c1),
            (Some(c0), None) => Some(c0),
            (None, None) => None,
        },
    }
}

/// The summary a single node contributes.
pub open spec fn node_info(n: OcTreeNode) -> OcTreeInfo {
    match n {
        OcTreeNode::Empty => spec_empty_info(),
        OcTreeNode::Leaf(l) => OcTreeInfo {
            leaf_count: 1,
            color_count: l.color_count,
            min_color_count: Some(l.color_count),
        },
        OcTreeNode::Tree(t) => t.info,
    }
}

/// Join of the summaries of a sequence of nodes, in order.
pub open spec fn infos_join(cs: Seq<OcTreeNode>) -> OcTreeInfo
    decreases cs.len(),
{
    if cs.len() == 0 {
        spec_empty_info()
    } else {
        spec_join(infos_join(cs.drop_last()), node_info(cs.last()))
    }
}

/// Total number of colors accounted for below a node, pruned ones included.
pub open spec fn node_total(n: OcTreeNode) -> int
    decreases n,
{
    match n {
        OcTreeNode::Empty => 0,
        OcTreeNode::Leaf(l) => l.color_count as int,
        OcTreeNode::Tree(t) => tree_total(*t),
    }
}

/// Sum of `node_total` over a sequence of children.
pub open spec fn children_total(cs: Seq<OcTreeNode>) -> int
    decreases cs,
{
    if cs.len() == 0 {
        0
    } else {
        children_total(cs.subrange(0, cs.len() - 1)) + node_total(cs[cs.len() - 1])
    }
}

/// Total number of colors accounted for by a tree, pruned ones included.
pub open spec fn tree_total(t: OcTree) -> int
    decreases t,
{
    t.removed.color_count + children_total(t.children@)
}

/// The leaves below a node, in child order.
pub open spec fn node_leaves(n: OcTreeNode) -> Seq<OcTreeLeaf>
    decreases n,
{
    match n {
        OcTreeNode::Empty => Seq::empty(),
        OcTreeNode::Leaf(l) => seq![l],
        OcTreeNode::Tree(t) => tree_leaves(*t),
    }
}

/// The leaves below a sequence of children, in order.
pub open spec fn children_leaves(cs: Seq<OcTreeNode>) -> Seq<OcTreeLeaf>
    decreases cs,
{
    if cs.len() == 0 {
        Seq::empty()
    } else {
        children_leaves(cs.subrange(0, cs.len() - 1)) + node_leaves(cs[cs.len() - 1])
    }
}

/// The leaves of a tree, in post-order.
pub open spec fn tree_leaves(t: OcTree) -> Seq<OcTreeLeaf>
    decreases t,
{
    children_leaves(t.children@)
}

/// One channel accumulator of a leaf: `ch` 0 selects red, 1 green,
/// anything else blue.
pub open spec fn leaf_sum(l: OcTreeLeaf, ch: int) -> int {
    if ch == 0 {
        l.red_acc as int
    } else if ch == 1 {
        l.green_acc as int
    } else {
        l.blue_acc as int
    }
}

/// One channel of a color, selected as in `leaf_sum`.
pub open spec fn rgba_channel(c: RGBA, ch: int) -> int {
    if ch == 0 {
        c.r as int
    } else if ch == 1 {
        c.g as int
    } else {
        c.b as int
    }
}

/// Total of one channel accumulator below a node, pruned colors included.
pub open spec fn node_sum(n: OcTreeNode, ch: int) -> int
    decreases n,
{
    match n {
        OcTreeNode::Empty => 0,
        OcTreeNode::Leaf(l) => leaf_sum(l, ch),
        OcTreeNode::Tree(t) => tree_sum(*t, ch),
    }
}

/// Sum of `node_sum` over a sequence of children.
pub open spec fn children_sum(cs: Seq<OcTreeNode>, ch: int) -> int
    decreases cs,
{
    if cs.len() == 0 {
        0
    } else {
        children_sum(cs.subrange(0, cs.len() - 1), ch) + node_sum(cs[cs.len() - 1], ch)
    }
}

/// Total of one channel accumulator of a tree, pruned colors included.
pub open spec fn tree_sum(t: OcTree, ch: int) -> int
    decreases t,
{
    leaf_sum(t.removed, ch) + children_sum(t.children@, ch)
}

/// How a channel total changes when one child is replaced.
pub proof fn lemma_children_sum_update(cs: Seq<OcTreeNode>, i: int, v: OcTreeNode, ch: int)
    requires
        0 <= i < cs.len(),
    ensures
        children_sum(cs.update(i, v), ch) == children_sum(cs, ch) - node_sum(cs[i], ch)
            + node_sum(v, ch),
    decreases cs,
{
    let up = cs.update(i, v);
    let pre = cs.subrange(0, cs.len() - 1);
    if i == cs.len() - 1 {
        assert(up.subrange(0, up.len() - 1) =~= pre);
    } else {
        lemma_children_sum_update(pre, i, v, ch);
        assert(up.subrange(0, up.len() - 1) =~= pre.update(i, v));
    }
}

/// A sequence of empty nodes accumulates nothing on any channel.
pub proof fn lemma_empty_children_sum(cs: Seq<OcTreeNode>, ch: int)
    requires
        forall|i: int| 0 <= i < cs.len() ==> (#[trigger] cs[i]) is Empty,
    ensures
        children_sum(cs, ch) == 0,
    decreases cs,
{
    if cs.len() > 0 {
        let pre = cs.subrange(0, cs.len() - 1);
        assert(forall|i: int| 0 <= i < pre.len() ==> (#[trigger] pre[i]) is Empty);
        lemma_empty_children_sum(pre, ch);
        assert(cs[cs.len() - 1] is Empty);
        assert(node_sum(cs[cs.len() - 1], ch) == 0);
    }
}

/// A color lies channel-wise within the box `lo..hi`.
pub open spec fn rgba_in_box(c: RGBA, lo: RGBA, hi: RGBA) -> bool {
    &&& lo.r <= c.r <= hi.r
    &&& lo.g <= c.g <= hi.g
    &&& lo.b <= c.b <= hi.b
}

/// An accumulator of colors all taken from the box: each channel sum
/// lies between `color_count` times the box's two corners.
pub open spec fn leaf_boxed(l: OcTreeLeaf, lo: RGBA, hi: RGBA) -> bool {
    &&& (lo.r as int) * (l.color_count as int) <= l.red_acc as int <= (hi.r as int) * (
    l.color_count as int)
    &&& (lo.g as int) * (l.color_count as int) <= l.green_acc as int <= (hi.g as int) * (
    l.color_count as int)
    &&& (lo.b as int) * (l.color_count as int) <= l.blue_acc as int <= (hi.b as int) * (
    l.color_count as int)
}

/// Every accumulator below a node — live leaves and `removed` side
/// accumulators alike — is boxed.
pub open spec fn node_boxed(n: OcTreeNode, lo: RGBA, hi: RGBA) -> bool
    decreases n,
{
    match n {
        OcTreeNode::Empty => true,
        OcTreeNode::Leaf(l) => leaf_boxed(l, lo, hi),
        OcTreeNode::Tree(t) => tree_boxed(*t, lo, hi),
    }
}

/// `node_boxed` over a child list.
pub open spec fn children_boxed(cs: Seq<OcTreeNode>, lo: RGBA, hi: RGBA) -> bool
    decreases cs,
{
    if cs.len() == 0 {
        true
    } else {
        children_boxed(cs.subrange(0, cs.len() - 1), lo, hi) && node_boxed(
            cs[cs.len() - 1],
            lo,
            hi,
        )
    }
}

/// Every accumulator of a tree is boxed.
pub open spec fn tree_boxed(t: OcTree, lo: RGBA, hi: RGBA) -> bool
    decreases t,
{
    leaf_boxed(t.removed, lo, hi) && children_boxed(t.children@, lo, hi)
}

/// Boxedness of a child list is boxedness of all its elements.
pub proof fn lemma_children_boxed_iff(cs: Seq<OcTreeNode>, lo: RGBA, hi: RGBA)
    ensures
        children_boxed(cs, lo, hi) <==> (forall|i: int|
            0 <= i < cs.len() ==> node_boxed(#[trigger] cs[i], lo, hi)),
    decreases cs,
{
    if cs.len() > 0 {
        let pre = cs.subrange(0, cs.len() - 1);
        lemma_children_boxed_iff(pre, lo, hi);
        assert(forall|i: int| 0 <= i < pre.len() ==> pre[i] == cs[i]);
        if children_boxed(cs, lo, hi) {
            assert(forall|i: int| 0 <= i < cs.len() - 1 ==> node_boxed(#[trigger] cs[i], lo, hi));
        }
        if forall|i: int| 0 <= i < cs.len() ==> node_boxed(#[trigger] cs[i], lo, hi) {
            assert(children_boxed(pre, lo, hi));
            assert(node_boxed(cs[cs.len() - 1], lo, hi));
        }
    }
}

/// Absorbing one boxed color keeps an accumulator boxed.
pub proof fn lemma_leaf_boxed_add(l: OcTreeLeaf, c: RGBA, lo: RGBA, hi: RGBA)
    requires
        leaf_boxed(l, lo, hi),
        rgba_in_box(c, lo, hi),
        leaf_accs_wf(l),
        l.color_count < COUNT_LIMIT,
    ensures
        leaf_boxed(spec_leaf_add(l, c), lo, hi),
{
    let cc = l.color_count as int;
    assert(255 * cc + 255 <= 255 * COUNT_LIMIT) by (nonlinear_arith)
        requires cc + 1 <= COUNT_LIMIT;
    assert((lo.r as int) * (cc + 1) == (lo.r as int) * cc + lo.r) by (nonlinear_arith);
    assert((lo.g as int) * (cc + 1) == (lo.g as int) * cc + lo.g) by (nonlinear_arith);
    assert((lo.b as int) * (cc + 1) == (lo.b as int) * cc + lo.b) by (nonlinear_arith);
    assert((hi.r as int) * (cc + 1) == (hi.r as int) * cc + hi.r) by (nonlinear_arith);
    assert((hi.g as int) * (cc + 1) == (hi.g as int) * cc + hi.g) by (nonlinear_arith);
    assert((hi.b as int) * (cc + 1) == (hi.b as int) * cc + hi.b) by (nonlinear_arith);
}

/// Merging two boxed accumulators gives a boxed accumulator.
pub proof fn lemma_leaf_boxed_merge(l1: OcTreeLeaf, l2: OcTreeLeaf, lo: RGBA, hi: RGBA)
    requires
        leaf_boxed(l1, lo, hi),
        leaf_boxed(l2, lo, hi),
        leaf_accs_wf(l1),
        leaf_accs_wf(l2),
        l1.color_count + l2.color_count <= COUNT_LIMIT,
    ensures
        leaf_boxed(
            OcTreeLeaf {
                red_acc: (l1.red_acc + l2.red_acc) as u64,
                green_acc: (l1.green_acc + l2.green_acc) as u64,
                blue_acc: (l1.blue_acc + l2.blue_acc) as u64,
                color_count: (l1.color_count + l2.color_count) as u64,
                index: l1.index,
            },
            lo,
            hi,
        ),
{
    let c1 = l1.color_count as int;
    let c2 = l2.color_count as int;
    assert(255 * c1 + 255 * c2 <= 255 * COUNT_LIMIT) by (nonlinear_arith)
        requires c1 + c2 <= COUNT_LIMIT;
    assert((lo.r as int) * (c1 + c2) == (lo.r as int) * c1 + (lo.r as int) * c2)
        by (nonlinear_arith);
    assert((lo.g as int) * (c1 + c2) == (lo.g as int) * c1 + (lo.g as int) * c2)
        by (nonlinear_arith);
    assert((lo.b as int) * (c1 + c2) == (lo.b as int) * c1 + (lo.b as int) * c2)
        by (nonlinear_arith);
    assert((hi.r as int) * (c1 + c2) == (hi.r as int) * c1 + (hi.r as int) * c2)
        by (nonlinear_arith);
    assert((hi.g as int) * (c1 + c2) == (hi.g as int) * c1 + (hi.g as int) * c2)
        by (nonlinear_arith);
    assert((hi.b as int) * (c1 + c2) == (hi.b as int) * c1 + (hi.b as int) * c2)
        by (nonlinear_arith);
}

/// The average of a nonempty boxed accumulator lies in the box.
pub proof fn lemma_leaf_avg_in_box(l: OcTreeLeaf, lo: RGBA, hi: RGBA)
    requires
        leaf_boxed(l, lo, hi),
        l.color_count >= 1,
    ensures
        rgba_in_box(spec_leaf_rgba(l), lo, hi),
{
    let cc = l.color_count as int;
    vstd::arithmetic::div_mod::lemma_div_multiples_vanish(lo.r as int, cc);
    vstd::arithmetic::div_mod::lemma_div_multiples_vanish(lo.g as int, cc);
    vstd::arithmetic::div_mod::lemma_div_multiples_vanish(lo.b as int, cc);
    vstd::arithmetic::div_mod::lemma_div_multiples_vanish(hi.r as int, cc);
    vstd::arithmetic::div_mod::lemma_div_multiples_vanish(hi.g as int, cc);
    vstd::arithmetic::div_mod::lemma_div_multiples_vanish(hi.b as int, cc);
    vstd::arithmetic::div_mod::lemma_div_is_ordered((lo.r as int) * cc, l.red_acc as int, cc);
    vstd::arithmetic::div_mod::lemma_div_is_ordered((lo.g as int) * cc, l.green_acc as int, cc);
    vstd::arithmetic::div_mod::lemma_div_is_ordered((lo.b as int) * cc, l.blue_acc as int, cc);
    vstd::arithmetic::div_mod::lemma_div_is_ordered(l.red_acc as int, (hi.r as int) * cc, cc);
    vstd::arithmetic::div_mod::lemma_div_is_ordered(l.green_acc as int, (hi.g as int) * cc, cc);
    vstd::arithmetic::div_mod::lemma_div_is_ordered(l.blue_acc as int, (hi.b as int) * cc, cc);
    assert((lo.r as int) * cc == cc * (lo.r as int)) by (nonlinear_arith);
    assert((lo.g as int) * cc == cc * (lo.g as int)) by (nonlinear_arith);
    assert((lo.b as int) * cc == cc * (lo.b as int)) by (nonlinear_arith);
    assert((hi.r as int) * cc == cc * (hi.r as int)) by (nonlinear_arith);
    assert((hi.g as int) * cc == cc * (hi.g as int)) by (nonlinear_arith);
    assert((hi.b as int) * cc == cc * (hi.b as int)) by (nonlinear_arith);
    assert(lo.r as int <= l.red_acc as int / cc <= hi.r as int);
    assert(lo.g as int <= l.green_acc as int / cc <= hi.g as int);
    assert(lo.b as int <= l.blue_acc as int / cc <= hi.b as int);
}

/// Every leaf below a well-formed boxed node is a boxed, well-formed
/// accumulator.
pub proof fn lemma_node_leaves_boxed(n: OcTreeNode, lo: RGBA, hi: RGBA)
    requires
        node_wf(n),
        node_boxed(n, lo, hi),
    ensures
        forall|j: int|
            0 <= j < node_leaves(n).len() ==> leaf_boxed(#[trigger] node_leaves(n)[j], lo, hi)
                && leaf_wf(node_leaves(n)[j]),
    decreases n,
{
    match n {
        OcTreeNode::Empty => {},
        OcTreeNode::Leaf(l) => {
            assert(node_leaves(n) =~= seq![l]);
        },
        OcTreeNode::Tree(t) => {
            lemma_children_leaves_boxed(t.children@, lo, hi);
            assert(node_leaves(n) == tree_leaves(*t));
            assert(tree_leaves(*t) == children_leaves(t.children@));
        },
    }
}

/// `lemma_node_leaves_boxed` over a child list.
pub proof fn lemma_children_leaves_boxed(cs: Seq<OcTreeNode>, lo: RGBA, hi: RGBA)
    requires
        forall|i: int| 0 <= i < cs.len() ==> node_wf(#[trigger] cs[i]),
        children_boxed(cs, lo, hi),
    ensures
        forall|j: int|
            0 <= j < children_leaves(cs).len() ==> leaf_boxed(
                #[trigger] children_leaves(cs)[j],
                lo,
                hi,
            ) && leaf_wf(children_leaves(cs)[j]),
    decreases cs,
{
    if cs.len() > 0 {
        let pre = cs.subrange(0, cs.len() - 1);
        assert(forall|i: int| 0 <= i < pre.len() ==> node_wf(#[trigger] pre[i]));
        lemma_children_leaves_boxed(pre, lo, hi);
        lemma_node_leaves_boxed(cs[cs.len() - 1], lo, hi);
        let a = children_leaves(pre);
        let b = node_leaves(cs[cs.len() - 1]);
        assert forall|j: int|
            0 <= j < children_leaves(cs).len() implies leaf_boxed(
            #[trigger] children_leaves(cs)[j],
            lo,
            hi,
        ) && leaf_wf(children_leaves(cs)[j]) by {
            assert(children_leaves(cs) == a + b);
            if j < a.len() {
                assert(children_leaves(cs)[j] == a[j]);
            } else {
                assert(children_leaves(cs)[j] == b[j - a.len()]);
            }
        }
    }
}

/// Number of `Tree` nodes below a node; with the leaf count this is the
/// measure that pruning strictly decreases.
pub open spec fn node_size(n: OcTreeNode) -> int
    decreases n,
{
    match n {
        OcTreeNode::Empty => 0,
        OcTreeNode::Leaf(_) => 0,
        OcTreeNode::Tree(t) => tree_size(*t),
    }
}

/// Sum of `node_size` over a sequence of children.
pub open spec fn children_size(cs: Seq<OcTreeNode>) -> int
    decreases cs,
{
    if cs.len() == 0 {
        0
    } else {
        children_size(cs.subrange(0, cs.len() - 1)) + node_size(cs[cs.len() - 1])
    }
}

/// Number of `Tree` nodes of a tree, itself included.
pub open spec fn tree_size(t: OcTree) -> int
    decreases t,
{
    1 + children_size(t.children@)
}

/// Well-formedness of a node.
pub open spec fn node_wf(n: OcTreeNode) -> bool
    decreases n,
{
    match n {
        OcTreeNode::Empty => true,
        OcTreeNode::Leaf(l) => leaf_wf(l),
        OcTreeNode::Tree(t) => tree_wf(*t) && t.info.leaf_count >= 1,
    }
}

/// Well-formedness of a tree: eight well-formed children, a summary that
/// is exactly the monoidal join of the children's summaries, a sane
/// `removed` accumulator, and a bounded total.
pub open spec fn tree_wf(t: OcTree) -> bool
    decreases t,
{
    &&& t.children@.len() == 8
    &&& (forall|i: int| 0 <= i < 8 ==> node_wf(#[trigger] t.children@[i]))
    &&& t.info == infos_join(t.children@)
    &&& leaf_accs_wf(t.removed)
    &&& tree_total(t) <= COUNT_LIMIT
}

// ---------------------------------------------------------------------------
// Counting lemmas
// ---------------------------------------------------------------------------

/// Summary counts of a well-formed node agree with the model: the leaf
/// count is the number of leaves, the color count never exceeds the total,
/// and the minimum exists exactly when there is a leaf.
pub proof fn lemma_node_counts(n: OcTreeNode)
    requires
        node_wf(n),
    ensures
        node_info(n).leaf_count as int == node_leaves(n).len(),
        node_info(n).leaf_count <= node_info(n).color_count,
        node_info(n).color_count as int <= node_total(n),
        0 <= node_total(n) <= COUNT_LIMIT,
        node_size(n) >= 0,
        (node_info(n).leaf_count > 0) <==> node_info(n).min_color_count is Some,
    decreases n,
{
    match n {
        OcTreeNode::Empty => {},
        OcTreeNode::Leaf(l) => {},
        OcTreeNode::Tree(t) => {
            lemma_children_counts(t.children@);
        },
    }
}

/// `lemma_node_counts` lifted to a sequence of children.
pub proof fn lemma_children_counts(cs: Seq<OcTreeNode>)
    requires
        forall|i: int| 0 <= i < cs.len() ==> node_wf(#[trigger] cs[i]),
        cs.len() <= 8,
    ensures
        infos_join(cs).leaf_count as int == children_leaves(cs).len(),
        infos_join(cs).leaf_count <= infos_join(cs).color_count,
        infos_join(cs).color_count as int <= children_total(cs),
        0 <= children_total(cs) <= cs.len() * COUNT_LIMIT,
        children_size(cs) >= 0,
        (infos_join(cs).leaf_count > 0) <==> infos_join(cs).min_color_count is Some,
    decreases cs,
{
    if cs.len() > 0 {
        let pre = cs.subrange(0, cs.len() - 1);
        assert(forall|i: int| 0 <= i < pre.len() ==> node_wf(#[trigger] pre[i]));
        lemma_children_counts(pre);
        lemma_node_counts(cs[cs.len() - 1]);
        assert(pre =~= cs.drop_last());
        assert(cs[cs.len() - 1] == cs.last());
        assert((cs.len() - 1) * COUNT_LIMIT + COUNT_LIMIT == cs.len() * COUNT_LIMIT)
            by (nonlinear_arith);
    }
}

/// One child's contribution is bounded by the whole: summaries and totals
/// of `cs[i]` are below those of the full sequence.
pub proof fn lemma_child_le_children(cs: Seq<OcTreeNode>, i: int)
    requires
        forall|j: int| 0 <= j < cs.len() ==> node_wf(#[trigger] cs[j]),
        cs.len() <= 8,
        0 <= i < cs.len(),
    ensures
        node_info(cs[i]).color_count <= infos_join(cs).color_count,
        node_info(cs[i]).leaf_count <= infos_join(cs).leaf_count,
        node_total(cs[i]) <= children_total(cs),
        node_size(cs[i]) <= children_size(cs),
    decreases cs,
{
    lemma_children_counts(cs);
    let pre = cs.subrange(0, cs.len() - 1);
    assert(forall|j: int| 0 <= j < pre.len() ==> node_wf(#[trigger] pre[j]));
    assert(pre =~= cs.drop_last());
    assert(cs[cs.len() - 1] == cs.last());
    lemma_children_counts(pre);
    lemma_node_counts(cs[cs.len() - 1]);
    if i < cs.len() - 1 {
        lemma_child_le_children(pre, i);
        assert(pre[i] == cs[i]);
    }
}

// ---------------------------------------------------------------------------
// Leaf and info operations
// ---------------------------------------------------------------------------

impl OcTreeLeaf {
    /// A zeroed accumulator.
    pub fn new() -> (l: OcTreeLeaf)
        ensures
            l == (OcTreeLeaf {
                red_acc: 0,
                green_acc: 0,
                blue_acc: 0,
                color_count: 0,
                index: 0,
            }),
    {
        OcTreeLeaf { red_acc: 0, green_acc: 0, blue_acc: 0, color_count: 0, index: 0 }
    }

    /// A leaf holding exactly one color.
    pub fn from_rgba(rgba: RGBA) -> (l: OcTreeLeaf)
        ensures
            l == (OcTreeLeaf {
                red_acc: rgba.r as u64,
                green_acc: rgba.g as u64,
                blue_acc: rgba.b as u64,
                color_count: 1,
                index: 0,
            }),
            leaf_wf(l),
    {
        OcTreeLeaf {
            red_acc: rgba.r as u64,
            green_acc: rgba.g as u64,
            blue_acc: rgba.b as u64,
            color_count: 1,
            index: 0,
        }
    }

    /// The average color held by this leaf, fully opaque.
    pub fn to_rgba(self) -> (c: RGBA)
        requires
            leaf_wf(self),
        ensures
            c == spec_leaf_rgba(self),
    {
        proof {
            assert(self.red_acc / self.color_count <= 255) by (nonlinear_arith)
                requires self.red_acc <= 255 * self.color_count && self.color_count >= 1;
            assert(self.green_acc / self.color_count <= 255) by (nonlinear_arith)
                requires self.green_acc <= 255 * self.color_count && self.color_count >= 1;
            assert(self.blue_acc / self.color_count <= 255) by (nonlinear_arith)
                requires self.blue_acc <= 255 * self.color_count && self.color_count >= 1;
        }
        RGBA {
            r: (self.red_acc / self.color_count) as u8,
            g: (self.green_acc / self.color_count) as u8,
            b: (self.blue_acc / self.color_count) as u8,
            a: 255,
        }
    }

    /// Fold one more color into the accumulator.
    pub fn add_color(&mut self, rgba: RGBA)
        requires
            leaf_accs_wf(*old(self)),
            old(self).color_count < COUNT_LIMIT,
        ensures
            *final(self) == (OcTreeLeaf {
                red_acc: (old(self).red_acc + rgba.r) as u64,
                green_acc: (old(self).green_acc + rgba.g) as u64,
                blue_acc: (old(self).blue_acc + rgba.b) as u64,
                color_count: (old(self).color_count + 1) as u64,
                index: old(self).index,
            }),
            leaf_wf(*final(self)),
    {
        proof {
            let cc = old(self).color_count as int;
            assert(255 * cc + 255 == 255 * (cc + 1)) by (nonlinear_arith);
            assert(255 * (cc + 1) <= 255 * COUNT_LIMIT) by (nonlinear_arith)
                requires cc + 1 <= COUNT_LIMIT;
        }
        self.red_acc = self.red_acc + rgba.r as u64;
        self.green_acc = self.green_acc + rgba.g as u64;
        self.blue_acc = self.blue_acc + rgba.b as u64;
        self.color_count = self.color_count + 1;
    }

    /// Fold another accumulator into this one.
    pub fn add_leaf(&mut self, rhs: OcTreeLeaf)
        requires
            leaf_accs_wf(*old(self)),
            leaf_accs_wf(rhs),
            old(self).color_count + rhs.color_count <= COUNT_LIMIT,
        ensures
            *final(self) == (OcTreeLeaf {
                red_acc: (old(self).red_acc + rhs.red_acc) as u64,
                green_acc: (old(self).green_acc + rhs.green_acc) as u64,
                blue_acc: (old(self).blue_acc + rhs.blue_acc) as u64,
                color_count: (old(self).color_count + rhs.color_count) as u64,
                index: old(self).index,
            }),
            leaf_accs_wf(*final(self)),
    {
        proof {
            let cc = old(self).color_count as int;
            let rc = rhs.color_count as int;
            assert(255 * cc + 255 * rc == 255 * (cc + rc)) by (nonlinear_arith);
            assert(255 * (cc + rc) <= 255 * COUNT_LIMIT) by (nonlinear_arith)
                requires cc + rc <= COUNT_LIMIT;
        }
        self.red_acc = self.red_acc + rhs.red_acc;
        self.green_acc = self.green_acc + rhs.green_acc;
        self.blue_acc = self.blue_acc + rhs.blue_acc;
        self.color_count = self.color_count + rhs.color_count;
    }
}

/// The average color of a leaf, as a spec value.
pub open spec fn spec_leaf_rgba(l: OcTreeLeaf) -> RGBA {
    RGBA {
        r: (l.red_acc / l.color_count) as u8,
        g: (l.green_acc / l.color_count) as u8,
        b: (l.blue_acc / l.color_count) as u8,
        a: 255,
    }
}

impl OcTreeInfo {
    /// Monoidal unit.
    pub fn empty() -> (r: OcTreeInfo)
        ensures
            r == spec_empty_info(),
    {
        OcTreeInfo { leaf_count: 0, color_count: 0, min_color_count: None }
    }

    /// Monoidal sum.
    pub fn join(self, other: OcTreeInfo) -> (r: OcTreeInfo)
        requires
            self.leaf_count + other.leaf_count <= u64::MAX,
            self.color_count + other.color_count <= u64::MAX,
        ensures
            r == spec_join(self, other),
    {
        let min_color_count: Option<u64> = match (self.min_color_count, other.min_color_count) {
            (Some(c0), Some(c1)) => Some(if c0 <= c1 { c0 } else { c1 }),
            (None, Some(c1)) => Some(c1),
            (Some(c0), None) => Some(c0),
            (None, None) => None,
        };
        OcTreeInfo {
            leaf_count: self.leaf_count + other.leaf_count,
            color_count: self.color_count + other.color_count,
            min_color_count,
        }
    }
}

impl OcTreeNode {
    /// True exactly for the `Empty` variant.
    pub fn is_empty(&self) -> (r: bool)
        ensures
            r == (*self is Empty),
    {
        match self {
            OcTreeNode::Empty => true,
            _ => false,
        }
    }

    /// Summary contributed by this node.
    pub fn info(&self) -> (r: OcTreeInfo)
        ensures
            r == node_info(*self),
    {
        match self {
            OcTreeNode::Empty => OcTreeInfo::empty(),
            OcTreeNode::Leaf(leaf) => OcTreeInfo {
                leaf_count: 1,
                color_count: leaf.color_count,
                min_color_count: Some(leaf.color_count),
            },
            OcTreeNode::Tree(tree) => tree.info,
        }
    }
}

// ---------------------------------------------------------------------------
// Path iterator
// ---------------------------------------------------------------------------

/// Walks the eight 3-bit child indices of a color, most significant bits
/// first: at each step the top bit of R, G, B (R highest) forms the index.
#[derive(Debug, Clone, Copy)]
pub struct OcTreePath {
    pub rgba: RGBA,
    pub state: u32,
    pub length: u8,
}

/// The `k`-th child index (0-based from the top) on the path of color `c`.
pub open spec fn spec_path_index(c: RGBA, k: int) -> u8
    recommends
        0 <= k < 8,
{
    let sh = (7 - k) as u8;
    (4 * ((c.r >> sh) & 1) + 2 * ((c.g >> sh) & 1) + ((c.b >> sh) & 1)) as u8
}

/// The full eight-step path of a color.
pub open spec fn spec_path_seq(c: RGBA) -> Seq<u8> {
    Seq::new(8, |k: int| spec_path_index(c, k))
}

/// Internal coherence of the iterator: `state` holds the still-unvisited
/// bits of each channel, shifted to the top of its byte.
pub open spec fn path_wf(p: OcTreePath) -> bool {
    let k = (8 - p.length) as u8;
    &&& p.length <= 8
    &&& p.state == ((((p.rgba.r << k) & 0xff) as u32) << 16) | ((((p.rgba.g << k) & 0xff)
        as u32) << 8) | (((p.rgba.b << k) & 0xff) as u32)
}

impl OcTreePath {
    /// Start the path of `rgba`.
    pub fn new(rgba: RGBA) -> (p: OcTreePath)
        ensures
            path_wf(p),
            p.rgba == rgba,
            p.length == 8,
    {
        let state: u32 = ((rgba.r as u32) << 16) | ((rgba.g as u32) << 8) | (rgba.b as u32);
        proof {
            let r = rgba.r;
            let g = rgba.g;
            let b = rgba.b;
            assert(((r as u32) << 16) | ((g as u32) << 8) | (b as u32) == ((((r << 0) & 0xff)
                as u32) << 16) | ((((g << 0) & 0xff) as u32) << 8) | (((b << 0) & 0xff) as u32))
                by (bit_vector);
        }
        OcTreePath { rgba, state, length: 8 }
    }

    /// The color this path was built from.
    pub fn rgba(&self) -> (c: RGBA)
        ensures
            c == self.rgba,
    {
        self.rgba
    }

    /// Next 3-bit child index, or `None` after eight steps.
    pub fn next(&mut self) -> (r: Option<usize>)
        requires
            path_wf(*old(self)),
        ensures
            path_wf(*final(self)),
            final(self).rgba == old(self).rgba,
            old(self).length == 0 ==> r is None && *final(self) == *old(self),
            old(self).length > 0 ==> {
                &&& r == Some(spec_path_index(old(self).rgba, 8 - old(self).length as int)
                    as usize)
                &&& r->Some_0 < 8
                &&& final(self).length == old(self).length - 1
            },
    {
        if self.length == 0 {
            return None;
        }
        let ghost len0 = self.length;
        let ghost st0 = self.state;
        self.length = self.length - 1;
        let bits = self.state & 0x0080_8080;
        self.state = (self.state << 1u32) & 0x00fe_fefe;
        let value = ((bits >> 21u32) | (bits >> 14u32) | (bits >> 7u32)) & 0b111;
        proof {
            let r = self.rgba.r;
            let g = self.rgba.g;
            let b = self.rgba.b;
            let k0 = (8 - len0) as u8;
            assert(st0 == ((((r << k0) & 0xff) as u32) << 16) | ((((g << k0) & 0xff) as u32)
                << 8) | (((b << k0) & 0xff) as u32));
            assert(((st0 << 1u32) & 0x00fe_fefe) == ((((r << ((k0 + 1) as u8)) & 0xff) as u32)
                << 16) | ((((g << ((k0 + 1) as u8)) & 0xff) as u32) << 8) | (((b << ((k0 + 1)
                as u8)) & 0xff) as u32)) by (bit_vector)
                requires
                    k0 <= 7,
                    st0 == ((((r << k0) & 0xff) as u32) << 16) | ((((g << k0) & 0xff) as u32)
                        << 8) | (((b << k0) & 0xff) as u32),
            ;
            assert((((st0 & 0x0080_8080u32) >> 21u32) | ((st0 & 0x0080_8080u32) >> 14u32) | ((
            st0 & 0x0080_8080u32) >> 7u32)) & 0b111 == (4 * ((r >> ((7 - k0) as u8)) & 1) + 2 * (
            (g >> ((7 - k0) as u8)) & 1) + ((b >> ((7 - k0) as u8)) & 1)) as u32) by (bit_vector)
                requires
                    k0 <= 7,
                    st0 == ((((r << k0) & 0xff) as u32) << 16) | ((((g << k0) & 0xff) as u32)
                        << 8) | (((b << k0) & 0xff) as u32),
            ;
            assert((7 - k0) as u8 == (7 - (8 - len0 as int)) as u8);
            assert((8 - final(self).length) as u8 == (k0 + 1) as u8);
            let sh = (7 - k0) as u8;
            assert(((4 * ((r >> sh) & 1) + 2 * ((g >> sh) & 1) + ((b >> sh) & 1)) as u8) as u32
                == (4 * ((r >> sh) & 1) + 2 * ((g >> sh) & 1) + ((b >> sh) & 1)) as u32)
                by (bit_vector);
            assert(((4 * ((r >> sh) & 1) + 2 * ((g >> sh) & 1) + ((b >> sh) & 1)) as u32) < 8)
                by (bit_vector);
        }
        Some(value as usize)
    }
}

// ---------------------------------------------------------------------------
// Depth discipline
// ---------------------------------------------------------------------------

/// A node sitting at depth `d` never grows subtrees past depth 8, the
/// length of a color path.
pub open spec fn node_depth_ok(n: OcTreeNode, d: int) -> bool
    decreases n,
{
    match n {
        OcTreeNode::Empty => true,
        OcTreeNode::Leaf(_) => true,
        OcTreeNode::Tree(t) => d < 8 && children_depth_ok(t.children@, d + 1),
    }
}

/// All nodes of the sequence respect the depth bound at depth `d`.
pub open spec fn children_depth_ok(cs: Seq<OcTreeNode>, d: int) -> bool
    decreases cs,
{
    if cs.len() == 0 {
        true
    } else {
        children_depth_ok(cs.subrange(0, cs.len() - 1), d) && node_depth_ok(cs[cs.len() - 1], d)
    }
}

/// Full well-formedness of a tree used as a root: structure plus depth.
pub open spec fn octree_wf(t: OcTree) -> bool {
    &&& tree_wf(t)
    &&& children_depth_ok(t.children@, 1)
}

/// Depth-boundedness of one element follows from the sequence's.
pub proof fn lemma_children_depth_elem(cs: Seq<OcTreeNode>, i: int, d: int)
    requires
        children_depth_ok(cs, d),
        0 <= i < cs.len(),
    ensures
        node_depth_ok(cs[i], d),
    decreases cs,
{
    if i < cs.len() - 1 {
        lemma_children_depth_elem(cs.subrange(0, cs.len() - 1), i, d);
    }
}

/// Depth-boundedness survives replacing one element by a bounded one.
pub proof fn lemma_children_depth_update(cs: Seq<OcTreeNode>, i: int, v: OcTreeNode, d: int)
    requires
        children_depth_ok(cs, d),
        node_depth_ok(v, d),
        0 <= i < cs.len(),
    ensures
        children_depth_ok(cs.update(i, v), d),
    decreases cs,
{
    let up = cs.update(i, v);
    let pre = cs.subrange(0, cs.len() - 1);
    if i == cs.len() - 1 {
        assert(up.subrange(0, up.len() - 1) =~= pre);
    } else {
        lemma_children_depth_update(pre, i, v, d);
        assert(up.subrange(0, up.len() - 1) =~= pre.update(i, v));
    }
}

/// How the joined summary, total and size change when one child is
/// replaced.
pub proof fn lemma_children_update(cs: Seq<OcTreeNode>, i: int, v: OcTreeNode)
    requires
        forall|j: int| 0 <= j < cs.len() ==> node_wf(#[trigger] cs[j]),
        node_wf(v),
        cs.len() <= 8,
        0 <= i < cs.len(),
    ensures
        infos_join(cs.update(i, v)).color_count as int == infos_join(cs).color_count
            - node_info(cs[i]).color_count + node_info(v).color_count,
        infos_join(cs.update(i, v)).leaf_count as int == infos_join(cs).leaf_count - node_info(
            cs[i],
        ).leaf_count + node_info(v).leaf_count,
        children_total(cs.update(i, v)) == children_total(cs) - node_total(cs[i]) + node_total(
            v,
        ),
        children_size(cs.update(i, v)) == children_size(cs) - node_size(cs[i]) + node_size(v),
    decreases cs,
{
    let up = cs.update(i, v);
    let pre = cs.subrange(0, cs.len() - 1);
    assert(forall|j: int| 0 <= j < pre.len() ==> node_wf(#[trigger] pre[j]));
    lemma_children_counts(cs);
    lemma_children_counts(pre);
    lemma_node_counts(cs[cs.len() - 1]);
    lemma_node_counts(v);
    assert(pre =~= cs.drop_last());
    assert(cs[cs.len() - 1] == cs.last());
    if i == cs.len() - 1 {
        assert(up.subrange(0, up.len() - 1) =~= pre);
        assert(up[up.len() - 1] == v);
        assert(up.drop_last() =~= pre);
        assert(up.last() == v);
    } else {
        lemma_children_update(pre, i, v);
        assert(forall|j: int| 0 <= j < pre.update(i, v).len() ==> node_wf(
            #[trigger] pre.update(i, v)[j],
        ));
        lemma_children_counts(pre.update(i, v));
        assert(up.subrange(0, up.len() - 1) =~= pre.update(i, v));
        assert(up[up.len() - 1] == cs.last());
        assert(up.drop_last() =~= pre.update(i, v));
        assert(up.last() == cs.last());
    }
}

/// A sequence of empty nodes contributes nothing.
pub proof fn lemma_empty_children(cs: Seq<OcTreeNode>, d: int)
    requires
        forall|i: int| 0 <= i < cs.len() ==> (#[trigger] cs[i]) is Empty,
    ensures
        infos_join(cs) == spec_empty_info(),
        children_total(cs) == 0,
        children_leaves(cs) =~= Seq::<OcTreeLeaf>::empty(),
        children_size(cs) == 0,
        children_depth_ok(cs, d),
        forall|i: int| 0 <= i < cs.len() ==> node_wf(#[trigger] cs[i]),
    decreases cs,
{
    if cs.len() > 0 {
        let pre = cs.subrange(0, cs.len() - 1);
        lemma_empty_children(pre, d);
        assert(pre =~= cs.drop_last());
        assert(cs[cs.len() - 1] == cs.last());
        assert(cs.last() is Empty);
        assert(infos_join(cs.drop_last()) == spec_empty_info());
        assert(node_info(cs.last()) == spec_empty_info());
        assert(infos_join(cs) == spec_join(infos_join(cs.drop_last()), node_info(cs.last())));
        assert(spec_join(spec_empty_info(), spec_empty_info()) == spec_empty_info());
        assert(children_total(pre) == 0);
        assert(node_total(cs[cs.len() - 1]) == 0);
        assert(children_total(cs) == children_total(cs.subrange(0, cs.len() - 1)) + node_total(
            cs[cs.len() - 1],
        ));
        assert(children_total(cs) == 0);
        assert(node_leaves(cs[cs.len() - 1]) =~= Seq::<OcTreeLeaf>::empty());
        assert(children_leaves(cs) == children_leaves(cs.subrange(0, cs.len() - 1))
            + node_leaves(cs[cs.len() - 1]));
        assert(children_leaves(cs) =~= Seq::<OcTreeLeaf>::empty());
        assert(node_size(cs[cs.len() - 1]) == 0);
        assert(children_size(cs) == children_size(cs.subrange(0, cs.len() - 1)) + node_size(
            cs[cs.len() - 1],
        ));
        assert(node_depth_ok(cs[cs.len() - 1], d));
        assert(children_depth_ok(cs, d) == (children_depth_ok(cs.subrange(0, cs.len() - 1), d)
            && node_depth_ok(cs[cs.len() - 1], d)));
    } else {
        assert(children_total(cs) == 0);
        assert(children_leaves(cs) =~= Seq::<OcTreeLeaf>::empty());
    }
}

/// Depth-boundedness of a sequence is exactly depth-boundedness of all
/// its elements.
pub proof fn lemma_children_depth_iff(cs: Seq<OcTreeNode>, d: int)
    ensures
        children_depth_ok(cs, d) <==> (forall|i: int|
            0 <= i < cs.len() ==> node_depth_ok(#[trigger] cs[i], d)),
    decreases cs,
{
    if cs.len() > 0 {
        let pre = cs.subrange(0, cs.len() - 1);
        lemma_children_depth_iff(pre, d);
        assert(forall|i: int| 0 <= i < pre.len() ==> pre[i] == cs[i]);
        if children_depth_ok(cs, d) {
            assert(forall|i: int|
                0 <= i < cs.len() - 1 ==> node_depth_ok(#[trigger] cs[i], d));
        }
        if forall|i: int| 0 <= i < cs.len() ==> node_depth_ok(#[trigger] cs[i], d) {
            assert(children_depth_ok(pre, d));
            assert(node_depth_ok(cs[cs.len() - 1], d));
        }
    }
}

/// Two child sequences with pointwise equal summaries and totals have
/// equal joined summaries and totals.
pub proof fn lemma_children_congruent(cs1: Seq<OcTreeNode>, cs2: Seq<OcTreeNode>)
    requires
        cs1.len() == cs2.len(),
        forall|i: int|
            0 <= i < cs1.len() ==> node_info(#[trigger] cs2[i]) == node_info(cs1[i])
                && node_total(cs2[i]) == node_total(cs1[i]),
    ensures
        infos_join(cs2) == infos_join(cs1),
        children_total(cs2) == children_total(cs1),
    decreases cs1,
{
    if cs1.len() > 0 {
        let p1 = cs1.subrange(0, cs1.len() - 1);
        let p2 = cs2.subrange(0, cs2.len() - 1);
        assert(forall|i: int| 0 <= i < p1.len() ==> p1[i] == cs1[i] && p2[i] == cs2[i]);
        lemma_children_congruent(p1, p2);
        assert(p1 =~= cs1.drop_last());
        assert(p2 =~= cs2.drop_last());
        assert(cs1[cs1.len() - 1] == cs1.last());
        assert(cs2[cs2.len() - 1] == cs2.last());
        assert(children_total(cs1) == children_total(p1) + node_total(cs1[cs1.len() - 1]));
        assert(children_total(cs2) == children_total(p2) + node_total(cs2[cs2.len() - 1]));
    }
}

/// The prefix decomposition of the leaf sequence of a child list.
pub proof fn lemma_children_leaves_step(cs: Seq<OcTreeNode>, i: int)
    requires
        0 <= i < cs.len(),
    ensures
        children_leaves(cs.subrange(0, i + 1)) == children_leaves(cs.subrange(0, i))
            + node_leaves(cs[i]),
    decreases cs,
{
    let ext = cs.subrange(0, i + 1);
    assert(ext.subrange(0, ext.len() - 1) =~= cs.subrange(0, i));
    assert(ext[ext.len() - 1] == cs[i]);
    assert(children_leaves(ext) == children_leaves(ext.subrange(0, ext.len() - 1))
        + node_leaves(ext[ext.len() - 1]));
}

// ---------------------------------------------------------------------------
// Tree operations
// ---------------------------------------------------------------------------

impl OcTree {
    /// An octree with no colors.
    pub fn new() -> (t: OcTree)
        ensures
            octree_wf(t),
            t.info == spec_empty_info(),
            tree_total(t) == 0,
            tree_leaves(t) == Seq::<OcTreeLeaf>::empty(),
            t.removed == (OcTreeLeaf {
                red_acc: 0,
                green_acc: 0,
                blue_acc: 0,
                color_count: 0,
                index: 0,
            }),
            forall|i: int| 0 <= i < 8 ==> (#[trigger] t.children@[i]) is Empty,
            forall|lo: RGBA, hi: RGBA| #[trigger] tree_boxed(t, lo, hi),
    {
        let mut children: Vec<OcTreeNode> = Vec::new();
        let mut i: usize = 0;
        while i < 8
            invariant
                0 <= i <= 8,
                children@.len() == i,
                forall|j: int| 0 <= j < i ==> (#[trigger] children@[j]) is Empty,
            decreases 8 - i,
        {
            children.push(OcTreeNode::Empty);
            i = i + 1;
        }
        proof {
            lemma_empty_children(children@, 1);
        }
        let t = OcTree { info: OcTreeInfo::empty(), removed: OcTreeLeaf::new(), children };
        proof {
            assert forall|lo: RGBA, hi: RGBA| #[trigger] tree_boxed(t, lo, hi) by {
                lemma_children_boxed_iff(t.children@, lo, hi);
                assert(leaf_boxed(t.removed, lo, hi));
            }
        }
        t
    }

    /// Recompute the rolling summary from the eight children.
    fn recompute_info(&mut self)
        requires
            old(self).children@.len() == 8,
            forall|i: int| 0 <= i < 8 ==> node_wf(#[trigger] old(self).children@[i]),
        ensures
            *final(self) == (OcTree {
                info: infos_join(old(self).children@),
                ..*old(self)
            }),
    {
        let ghost cs = self.children@;
        let mut acc = OcTreeInfo::empty();
        let mut i: usize = 0;
        proof {
            assert(cs.subrange(0, 0) =~= Seq::<OcTreeNode>::empty());
        }
        while i < 8
            invariant
                0 <= i <= 8,
                self == old(self),
                cs == self.children@,
                cs.len() == 8,
                forall|j: int| 0 <= j < 8 ==> node_wf(#[trigger] cs[j]),
                acc == infos_join(cs.subrange(0, i as int)),
            decreases 8 - i,
        {
            proof {
                lemma_children_counts(cs.subrange(0, i as int));
                lemma_children_counts(cs.subrange(0, i as int + 1));
                lemma_node_counts(cs[i as int]);
                assert(cs.subrange(0, i as int + 1).drop_last() =~= cs.subrange(0, i as int));
                assert(cs.subrange(0, i as int + 1).last() == cs[i as int]);
            }
            let info = self.children[i].info();
            acc = acc.join(info);
            i = i + 1;
        }
        proof {
            assert(cs.subrange(0, 8) =~= cs);
        }
        self.info = acc;
    }

    /// Replace the child at `index` and refresh the summary.
    pub fn node_update(&mut self, index: usize, node: OcTreeNode)
        requires
            octree_wf(*old(self)),
            index < 8,
            node_wf(node),
            node_depth_ok(node, 1),
            tree_total(*old(self)) - node_total(old(self).children@[index as int]) + node_total(
                node,
            ) <= COUNT_LIMIT,
        ensures
            octree_wf(*final(self)),
            final(self).children@ == old(self).children@.update(index as int, node),
            final(self).removed == old(self).removed,
            tree_total(*final(self)) == tree_total(*old(self)) - node_total(
                old(self).children@[index as int],
            ) + node_total(node),
            final(self).info.color_count as int == old(self).info.color_count - node_info(
                old(self).children@[index as int],
            ).color_count + node_info(node).color_count,
            final(self).info.leaf_count as int == old(self).info.leaf_count - node_info(
                old(self).children@[index as int],
            ).leaf_count + node_info(node).leaf_count,
    {
        let ghost cs0 = self.children@;
        proof {
            lemma_children_update(cs0, index as int, node);
            lemma_children_depth_update(cs0, index as int, node, 1);
        }
        let old_child = self.children.remove(index);
        self.children.insert(index, node);
        proof {
            assert(self.children@ =~= cs0.update(index as int, node));
        }
        self.recompute_info();
    }

    /// Insert one color along its bit-interleaved path; an existing leaf
    /// met on the way absorbs the color early, so inserting a color whose
    /// walk already meets a leaf leaves the leaf count unchanged, and a
    /// walk into an empty slot adds exactly one leaf holding the color
    /// alone.
    pub fn insert(&mut self, color: RGBA)
        requires
            octree_wf(*old(self)),
            tree_total(*old(self)) < COUNT_LIMIT,
        ensures
            octree_wf(*final(self)),
            tree_total(*final(self)) == tree_total(*old(self)) + 1,
            final(self).info.color_count as int == old(self).info.color_count + 1,
            old(self).info.leaf_count <= final(self).info.leaf_count,
            final(self).info.leaf_count as int <= old(self).info.leaf_count + 1,
            final(self).info.leaf_count >= 1,
            final(self).removed == old(self).removed,
            spec_octree_find(*final(self), color, 0) is Some,
            spec_octree_leaf_at(*old(self), color, 0) is None ==> spec_octree_leaf_at(
                *final(self),
                color,
                0,
            ) == Some(spec_leaf_of(color)) && final(self).info.leaf_count as int == old(
                self,
            ).info.leaf_count + 1,
            spec_octree_leaf_at(*old(self), color, 0) matches Some(l) ==> spec_octree_leaf_at(
                *final(self),
                color,
                0,
            ) == Some(spec_leaf_add(l, color)) && final(self).info.leaf_count == old(
                self,
            ).info.leaf_count,
            forall|ch: int| #[trigger] tree_sum(*final(self), ch) == tree_sum(*old(self), ch)
                + rgba_channel(color, ch),
            forall|lo: RGBA, hi: RGBA|
                #![trigger tree_boxed(*final(self), lo, hi)]
                tree_boxed(*old(self), lo, hi) && rgba_in_box(color, lo, hi) ==> tree_boxed(
                    *final(self),
                    lo,
                    hi,
                ),
            forall|d: RGBA|
                #![trigger spec_octree_leaf_at(*final(self), d, 0)]
                spec_octree_leaf_at(*final(self), d, 0) == spec_octree_leaf_at(*old(self), d, 0)
                    || (spec_octree_leaf_at(*old(self), d, 0) is Some && spec_octree_leaf_at(
                    *old(self),
                    d,
                    0,
                ) == spec_octree_leaf_at(*old(self), color, 0) && spec_octree_leaf_at(
                    *final(self),
                    d,
                    0,
                ) == spec_octree_leaf_at(*final(self), color, 0)) || (spec_octree_leaf_at(
                    *old(self),
                    d,
                    0,
                ) is None && spec_path_seq(d) == spec_path_seq(color) && spec_octree_leaf_at(
                    *final(self),
                    d,
                    0,
                ) == spec_octree_leaf_at(*final(self), color, 0)),
    {
        let mut path = OcTreePath::new(color);
        let ghost cs0 = self.children@;
        let step = path.next();
        match step {
            Some(index) => {
                proof {
                    lemma_children_counts(cs0);
                    lemma_child_le_children(cs0, index as int);
                    lemma_children_depth_elem(cs0, index as int, 1);
                    lemma_node_counts(cs0[index as int]);
                }
                let old_child = self.children.remove(index);
                let new_child = insert_rec(old_child, path);
                self.children.insert(index, new_child);
                proof {
                    assert(self.children@ =~= cs0.update(index as int, new_child));
                    lemma_children_update(cs0, index as int, new_child);
                    lemma_children_depth_update(cs0, index as int, new_child, 1);
                    lemma_node_counts(new_child);
                }
                self.recompute_info();
                proof {
                    lemma_children_counts(self.children@);
                    assert(index == spec_path_index(color, 0));
                    assert(self.children@[spec_path_index(color, 0) as int] == new_child);
                    let placed = self.children@[spec_path_index(color, 0) as int];
                    if placed is Tree {
                        lemma_node_find_is_octree_find(placed, color, 1);
                    }
                    assert(spec_octree_leaf_at(*old(self), color, 0) == spec_node_leaf_at(
                        cs0[index as int],
                        color,
                        1,
                    ));
                    assert(spec_octree_leaf_at(*self, color, 0) == spec_node_leaf_at(
                        new_child,
                        color,
                        1,
                    ));
                    assert forall|ch: int| #[trigger] tree_sum(*self, ch) == tree_sum(
                        *old(self),
                        ch,
                    ) + rgba_channel(color, ch) by {
                        lemma_children_sum_update(cs0, index as int, new_child, ch);
                        assert(node_sum(new_child, ch) == node_sum(cs0[index as int], ch)
                            + rgba_channel(color, ch));
                    }
                    assert forall|lo: RGBA, hi: RGBA|
                        tree_boxed(*old(self), lo, hi) && rgba_in_box(color, lo, hi)
                        implies #[trigger] tree_boxed(*self, lo, hi) by {
                        lemma_children_boxed_iff(cs0, lo, hi);
                        lemma_children_boxed_iff(self.children@, lo, hi);
                        assert(node_boxed(cs0[index as int], lo, hi));
                        assert(node_boxed(new_child, lo, hi));
                        assert(tree_boxed(*self, lo, hi) == (leaf_boxed(self.removed, lo, hi)
                            && children_boxed(self.children@, lo, hi)));
                    }
                    assert forall|d: RGBA|
                        #![trigger spec_octree_leaf_at(*self, d, 0)]
                        spec_octree_leaf_at(*self, d, 0) == spec_octree_leaf_at(*old(self), d, 0)
                            || (spec_octree_leaf_at(*old(self), d, 0) is Some
                            && spec_octree_leaf_at(*old(self), d, 0) == spec_octree_leaf_at(
                            *old(self),
                            color,
                            0,
                        ) && spec_octree_leaf_at(*self, d, 0) == spec_octree_leaf_at(
                            *self,
                            color,
                            0,
                        )) || (spec_octree_leaf_at(*old(self), d, 0) is None && spec_path_seq(d)
                            == spec_path_seq(color) && spec_octree_leaf_at(*self, d, 0)
                            == spec_octree_leaf_at(*self, color, 0)) by {
                        lemma_path_index_bound(d, 0);
                        assert(self.children@ == cs0.update(index as int, new_child));
                        assert(spec_octree_leaf_at(*self, color, 0) == spec_node_leaf_at(
                            new_child,
                            color,
                            1,
                        ));
                        assert(spec_octree_leaf_at(*old(self), color, 0) == spec_node_leaf_at(
                            cs0[index as int],
                            color,
                            1,
                        ));
                        if spec_path_index(d, 0) as int != index as int {
                            assert(self.children@[spec_path_index(d, 0) as int]
                                == cs0[spec_path_index(d, 0) as int]);
                            assert(spec_octree_leaf_at(*self, d, 0) == spec_node_leaf_at(
                                cs0[spec_path_index(d, 0) as int],
                                d,
                                1,
                            ));
                            assert(spec_octree_leaf_at(*old(self), d, 0) == spec_node_leaf_at(
                                cs0[spec_path_index(d, 0) as int],
                                d,
                                1,
                            ));
                        } else {
                            assert(spec_octree_leaf_at(*self, d, 0) == spec_node_leaf_at(
                                new_child,
                                d,
                                1,
                            ));
                            assert(spec_octree_leaf_at(*old(self), d, 0) == spec_node_leaf_at(
                                cs0[index as int],
                                d,
                                1,
                            ));
                            if spec_node_leaf_at(cs0[index as int], d, 1) is None && (forall|
                                m: int,
                            |
                                1 <= m < 8 ==> spec_path_index(d, m) == spec_path_index(
                                    color,
                                    m,
                                )) && spec_node_leaf_at(new_child, d, 1) == spec_node_leaf_at(
                                new_child,
                                color,
                                1,
                            ) {
                                assert forall|m: int|
                                    0 <= m < 8 implies spec_path_index(d, m) == spec_path_index(
                                    color,
                                    m,
                                ) by {
                                    if m == 0 {
                                        assert(spec_path_index(d, 0) == spec_path_index(
                                            color,
                                            0,
                                        ));
                                    }
                                }
                                assert(spec_path_seq(d) =~= spec_path_seq(color));
                            }
                        }
                    }
                }
            },
            None => {
                proof {
                    assert(false);
                }
            },
        }
    }

    /// Walk the path of `color` until a leaf or an empty slot is met;
    /// a leaf answers with its palette index and average color. This is a
    /// spatial approximation: exact nearest-neighbor search is the
    /// palette's job.
    pub fn find(&self, color: RGBA) -> (r: Option<(usize, RGBA)>)
        requires
            octree_wf(*self),
        ensures
            r == spec_octree_find(*self, color, 0),
    {
        let path = OcTreePath::new(color);
        find_rec(self, path)
    }
}

/// What `OcTree::find` returns below a node reached after `k` path steps.
pub open spec fn spec_octree_find(t: OcTree, c: RGBA, k: int) -> Option<(usize, RGBA)>
    decreases 8 - k,
{
    if k >= 8 {
        None
    } else {
        match t.children@[spec_path_index(c, k) as int] {
            OcTreeNode::Empty => None,
            OcTreeNode::Leaf(l) => Some((l.index, spec_leaf_rgba(l))),
            OcTreeNode::Tree(sub) => spec_octree_find(*sub, c, k + 1),
        }
    }
}

/// What a find starting at an arbitrary node, `k` path steps deep,
/// would answer.
pub open spec fn spec_node_find(n: OcTreeNode, c: RGBA, k: int) -> Option<(usize, RGBA)>
    decreases 8 - k,
{
    match n {
        OcTreeNode::Empty => None,
        OcTreeNode::Leaf(l) => Some((l.index, spec_leaf_rgba(l))),
        OcTreeNode::Tree(t) => if k >= 8 {
            None
        } else {
            spec_node_find(t.children@[spec_path_index(c, k) as int], c, k + 1)
        },
    }
}

/// On a subtree node, the node-level find answers exactly what
/// `OcTree::find` answers below that subtree.
pub proof fn lemma_node_find_is_octree_find(n: OcTreeNode, c: RGBA, k: int)
    requires
        n is Tree,
    ensures
        spec_node_find(n, c, k) == spec_octree_find(*n->Tree_0, c, k),
    decreases 8 - k,
{
    if k < 8 {
        let child = n->Tree_0.children@[spec_path_index(c, k) as int];
        match child {
            OcTreeNode::Tree(sub) => {
                lemma_node_find_is_octree_find(child, c, k + 1);
            },
            _ => {},
        }
    }
}

/// The accumulator a single inserted color creates.
pub open spec fn spec_leaf_of(c: RGBA) -> OcTreeLeaf {
    OcTreeLeaf {
        red_acc: c.r as u64,
        green_acc: c.g as u64,
        blue_acc: c.b as u64,
        color_count: 1,
        index: 0,
    }
}

/// A leaf accumulator after absorbing one more color; the palette slot
/// is kept.
pub open spec fn spec_leaf_add(l: OcTreeLeaf, c: RGBA) -> OcTreeLeaf {
    OcTreeLeaf {
        red_acc: (l.red_acc + c.r) as u64,
        green_acc: (l.green_acc + c.g) as u64,
        blue_acc: (l.blue_acc + c.b) as u64,
        color_count: (l.color_count + 1) as u64,
        index: l.index,
    }
}

/// The leaf the walk of `c`'s path meets below node `n`, reached after
/// `k` path steps; `None` when the walk runs into an empty slot.
pub open spec fn spec_node_leaf_at(n: OcTreeNode, c: RGBA, k: int) -> Option<OcTreeLeaf>
    decreases 8 - k,
{
    match n {
        OcTreeNode::Empty => None,
        OcTreeNode::Leaf(l) => Some(l),
        OcTreeNode::Tree(t) => if k >= 8 {
            None
        } else {
            spec_node_leaf_at(t.children@[spec_path_index(c, k) as int], c, k + 1)
        },
    }
}

/// The leaf the walk of `c`'s path meets in a tree sitting `k` path
/// steps deep.
pub open spec fn spec_octree_leaf_at(t: OcTree, c: RGBA, k: int) -> Option<OcTreeLeaf>
    decreases 8 - k,
{
    if k >= 8 {
        None
    } else {
        spec_node_leaf_at(t.children@[spec_path_index(c, k) as int], c, k + 1)
    }
}

/// What a find answers is exactly the met leaf's palette slot and
/// average color.
pub proof fn lemma_find_is_leaf_at(t: OcTree, c: RGBA, k: int)
    ensures
        spec_octree_find(t, c, k) == (match spec_octree_leaf_at(t, c, k) {
            Some(l) => Some((l.index, spec_leaf_rgba(l))),
            None => None::<(usize, RGBA)>,
        }),
    decreases 8 - k,
{
    if k < 8 {
        match t.children@[spec_path_index(c, k) as int] {
            OcTreeNode::Tree(sub) => {
                lemma_find_is_leaf_at(*sub, c, k + 1);
            },
            _ => {},
        }
    }
}

/// A leaf below one child is a leaf of the whole child list.
pub proof fn lemma_children_leaves_contains(cs: Seq<OcTreeNode>, i: int, l: OcTreeLeaf)
    requires
        0 <= i < cs.len(),
        node_leaves(cs[i]).contains(l),
    ensures
        children_leaves(cs).contains(l),
    decreases cs,
{
    let pre = cs.subrange(0, cs.len() - 1);
    if i == cs.len() - 1 {
        let j = choose|j: int| 0 <= j < node_leaves(cs[i]).len() && node_leaves(cs[i])[j] == l;
        assert(children_leaves(cs)[children_leaves(pre).len() + j] == l);
    } else {
        lemma_children_leaves_contains(pre, i, l);
        let j = choose|j: int| 0 <= j < children_leaves(pre).len() && children_leaves(pre)[j] == l;
        assert(children_leaves(cs)[j] == l);
    }
}

/// A path step always lands in one of the eight child slots.
pub proof fn lemma_path_index_bound(c: RGBA, k: int)
    ensures
        spec_path_index(c, k) < 8,
{
    let r = c.r;
    let g = c.g;
    let b = c.b;
    let sh = (7 - k) as u8;
    assert(((4 * ((r >> sh) & 1) + 2 * ((g >> sh) & 1) + ((b >> sh) & 1)) as u8) < 8)
        by (bit_vector);
}

/// The leaf a walk meets is one of the node's leaves.
pub proof fn lemma_node_leaf_at_in_leaves(n: OcTreeNode, c: RGBA, k: int)
    requires
        node_wf(n),
    ensures
        spec_node_leaf_at(n, c, k) matches Some(l) ==> node_leaves(n).contains(l),
    decreases 8 - k,
{
    match n {
        OcTreeNode::Empty => {},
        OcTreeNode::Leaf(l) => {
            assert(node_leaves(n)[0] == l);
        },
        OcTreeNode::Tree(t) => {
            if k < 8 {
                lemma_path_index_bound(c, k);
                let i = spec_path_index(c, k) as int;
                lemma_node_leaf_at_in_leaves(t.children@[i], c, k + 1);
                if spec_node_leaf_at(n, c, k) is Some {
                    let l = spec_node_leaf_at(n, c, k)->Some_0;
                    lemma_children_leaves_contains(t.children@, i, l);
                }
            }
        },
    }
}

/// The leaf a tree-level walk meets is one of the tree's leaves.
pub proof fn lemma_octree_leaf_at_in_leaves(t: OcTree, c: RGBA)
    requires
        tree_wf(t),
    ensures
        spec_octree_leaf_at(t, c, 0) matches Some(l) ==> tree_leaves(t).contains(l),
{
    if spec_octree_leaf_at(t, c, 0) is Some {
        let l = spec_octree_leaf_at(t, c, 0)->Some_0;
        lemma_path_index_bound(c, 0);
        let i = spec_path_index(c, 0) as int;
        lemma_node_leaf_at_in_leaves(t.children@[i], c, 1);
        lemma_children_leaves_contains(t.children@, i, l);
    }
}

/// When every leaf of a tree carries a palette slot below the leaf
/// count — as `build_palette` leaves them — a find's returned index is
/// below the leaf count.
pub proof fn lemma_find_index_below(t: OcTree, c: RGBA)
    requires
        tree_wf(t),
        forall|k: int|
            0 <= k < tree_leaves(t).len() ==> ((#[trigger] tree_leaves(t)[k]).index as int)
                < tree_leaves(t).len(),
    ensures
        spec_octree_find(t, c, 0) matches Some(p) ==> (p.0 as int) < tree_leaves(t).len(),
{
    lemma_find_is_leaf_at(t, c, 0);
    if spec_octree_leaf_at(t, c, 0) is Some {
        let l = spec_octree_leaf_at(t, c, 0)->Some_0;
        lemma_path_index_bound(c, 0);
        let i = spec_path_index(c, 0) as int;
        lemma_node_leaf_at_in_leaves(t.children@[i], c, 1);
        lemma_children_leaves_contains(t.children@, i, l);
        let k = choose|k: int| 0 <= k < tree_leaves(t).len() && tree_leaves(t)[k] == l;
        assert((tree_leaves(t)[k].index as int) < tree_leaves(t).len());
    }
}

/// A node summarizing exactly one leaf has that leaf's count as both
/// its color count and its minimum.
proof fn lemma_node_single_leaf(n: OcTreeNode)
    requires
        node_wf(n),
        node_info(n).leaf_count == 1,
    ensures
        node_info(n).min_color_count == Some(node_info(n).color_count),
    decreases n,
{
    match n {
        OcTreeNode::Empty => {},
        OcTreeNode::Leaf(_) => {},
        OcTreeNode::Tree(t) => {
            lemma_children_single_leaf(t.children@);
        },
    }
}

/// `lemma_node_single_leaf` over a child list.
proof fn lemma_children_single_leaf(cs: Seq<OcTreeNode>)
    requires
        forall|i: int| 0 <= i < cs.len() ==> node_wf(#[trigger] cs[i]),
        cs.len() <= 8,
        infos_join(cs).leaf_count == 1,
    ensures
        infos_join(cs).min_color_count == Some(infos_join(cs).color_count),
    decreases cs,
{
    if cs.len() > 0 {
        let pre = cs.subrange(0, cs.len() - 1);
        assert(forall|i: int| 0 <= i < pre.len() ==> node_wf(#[trigger] pre[i]));
        assert(pre =~= cs.drop_last());
        assert(cs[cs.len() - 1] == cs.last());
        lemma_children_counts(pre);
        lemma_node_counts(cs.last());
        if node_info(cs.last()).leaf_count == 1 {
            lemma_node_single_leaf(cs.last());
            lemma_all_children_empty(pre);
            lemma_empty_children(pre, 0);
        } else {
            assert(node_info(cs.last()).leaf_count == 0);
            match cs.last() {
                OcTreeNode::Empty => {},
                OcTreeNode::Leaf(_) => {
                    assert(false);
                },
                OcTreeNode::Tree(t) => {
                    assert(false);
                },
            }
            lemma_children_single_leaf(pre);
        }
    }
}

/// A tree summarizing exactly one leaf has that leaf's count as both
/// its color count and its minimum.
pub proof fn lemma_single_leaf_info(t: OcTree)
    requires
        tree_wf(t),
        t.info.leaf_count == 1,
    ensures
        t.info.min_color_count == Some(t.info.color_count),
{
    lemma_children_single_leaf(t.children@);
}

/// Recursive worker of `OcTree::find`.
fn find_rec(tree: &OcTree, path: OcTreePath) -> (r: Option<(usize, RGBA)>)
    requires
        tree_wf(*tree),
        path_wf(path),
    ensures
        r == spec_octree_find(*tree, path.rgba, 8 - path.length as int),
    decreases path.length,
{
    let mut path = path;
    let ghost len0 = path.length;
    let step = path.next();
    match step {
        None => None,
        Some(index) => {
            proof {
                assert(len0 >= 1);
            }
            match &tree.children[index] {
                OcTreeNode::Empty => None,
                OcTreeNode::Leaf(leaf) => Some((leaf.index, leaf.to_rgba())),
                OcTreeNode::Tree(next_tree) => {
                    proof {
                        assert(node_wf(tree.children@[index as int]));
                    }
                    find_rec(next_tree, path)
                },
            }
        },
    }
}

/// Recursive worker of `OcTree::insert`: `path` still carries the steps
/// that remain below this node.
fn insert_rec(node: OcTreeNode, path: OcTreePath) -> (r: OcTreeNode)
    requires
        node_wf(node),
        path_wf(path),
        node_depth_ok(node, 8 - path.length as int),
        node_total(node) + 1 <= COUNT_LIMIT,
    ensures
        node_wf(r),
        node_depth_ok(r, 8 - path.length as int),
        node_total(r) == node_total(node) + 1,
        node_info(r).color_count as int == node_info(node).color_count + 1,
        node_info(node).leaf_count <= node_info(r).leaf_count,
        node_info(r).leaf_count as int <= node_info(node).leaf_count + 1,
        node_info(r).leaf_count >= 1,
        spec_node_find(r, path.rgba, 8 - path.length as int) is Some,
        spec_node_leaf_at(node, path.rgba, 8 - path.length as int) is None ==> spec_node_leaf_at(
            r,
            path.rgba,
            8 - path.length as int,
        ) == Some(spec_leaf_of(path.rgba)) && node_info(r).leaf_count as int == node_info(
            node,
        ).leaf_count + 1,
        spec_node_leaf_at(node, path.rgba, 8 - path.length as int) matches Some(l)
            ==> spec_node_leaf_at(r, path.rgba, 8 - path.length as int) == Some(
            spec_leaf_add(l, path.rgba),
        ) && node_info(r).leaf_count == node_info(node).leaf_count,
        forall|ch: int| #[trigger] node_sum(r, ch) == node_sum(node, ch) + rgba_channel(
            path.rgba,
            ch,
        ),
        forall|lo: RGBA, hi: RGBA|
            #![trigger node_boxed(r, lo, hi)]
            node_boxed(node, lo, hi) && rgba_in_box(path.rgba, lo, hi) ==> node_boxed(r, lo, hi),
        forall|d: RGBA|
            #![trigger spec_node_leaf_at(r, d, 8 - path.length as int)]
            spec_node_leaf_at(r, d, 8 - path.length as int) == spec_node_leaf_at(
                node,
                d,
                8 - path.length as int,
            ) || (spec_node_leaf_at(node, d, 8 - path.length as int) is Some
                && spec_node_leaf_at(node, d, 8 - path.length as int) == spec_node_leaf_at(
                node,
                path.rgba,
                8 - path.length as int,
            ) && spec_node_leaf_at(r, d, 8 - path.length as int) == spec_node_leaf_at(
                r,
                path.rgba,
                8 - path.length as int,
            )) || (spec_node_leaf_at(node, d, 8 - path.length as int) is None && (forall|m: int|
                8 - path.length as int <= m < 8 ==> spec_path_index(d, m) == spec_path_index(
                    path.rgba,
                    m,
                )) && spec_node_leaf_at(r, d, 8 - path.length as int) == spec_node_leaf_at(
                r,
                path.rgba,
                8 - path.length as int,
            )),
    decreases path.length,
{
    let mut path = path;
    let ghost len0 = path.length;
    let color = path.rgba();
    let step = path.next();
    proof {
        lemma_node_counts(node);
    }
    match step {
        Some(index) => {
            match node {
                OcTreeNode::Empty => {
                    let mut tree = OcTree::new();
                    let child = insert_rec(OcTreeNode::Empty, path);
                    proof {
                        lemma_empty_children(tree.children@, 8 - len0 as int + 1);
                        lemma_children_update(tree.children@, index as int, child);
                        lemma_children_depth_update(
                            tree.children@,
                            index as int,
                            child,
                            8 - len0 as int + 1,
                        );
                        lemma_node_counts(child);
                    }
                    let ghost cs0 = tree.children@;
                    let ghost removed0 = tree.removed;
                    let removed = self_replace_child(&mut tree, index, child);
                    proof {
                        assert(cs0[index as int] is Empty);
                        assert(tree.children@ =~= cs0.update(index as int, child));
                    }
                    tree.recompute_info();
                    proof {
                        lemma_children_counts(tree.children@);
                        assert(index == spec_path_index(path.rgba, 8 - len0 as int));
                        assert(tree.children@[spec_path_index(path.rgba, 8 - len0 as int)
                            as int] == child);
                    }
                    let result = OcTreeNode::Tree(Box::new(tree));
                    proof {
                        assert forall|ch: int| #[trigger] node_sum(result, ch) == node_sum(
                            node,
                            ch,
                        ) + rgba_channel(path.rgba, ch) by {
                            lemma_empty_children_sum(cs0, ch);
                            lemma_children_sum_update(cs0, index as int, child, ch);
                            assert(leaf_sum(removed0, ch) == 0);
                            assert(node_sum(child, ch) == rgba_channel(path.rgba, ch));
                            assert(tree.children@ == cs0.update(index as int, child));
                            assert(node_sum(result, ch) == leaf_sum(tree.removed, ch)
                                + children_sum(tree.children@, ch));
                        }
                        assert forall|lo: RGBA, hi: RGBA|
                            node_boxed(node, lo, hi) && rgba_in_box(path.rgba, lo, hi)
                            implies #[trigger] node_boxed(result, lo, hi) by {
                            lemma_children_boxed_iff(tree.children@, lo, hi);
                            assert(node_boxed(OcTreeNode::Empty, lo, hi));
                            assert(node_boxed(child, lo, hi));
                            assert(leaf_boxed(tree.removed, lo, hi));
                            assert(node_boxed(result, lo, hi) == (leaf_boxed(tree.removed, lo, hi)
                                && children_boxed(tree.children@, lo, hi)));
                        }
                        let k = 8 - len0 as int;
                        assert forall|d: RGBA|
                            #![trigger spec_node_leaf_at(result, d, k)]
                            spec_node_leaf_at(result, d, k) == spec_node_leaf_at(node, d, k) || (
                            spec_node_leaf_at(node, d, k) is Some && spec_node_leaf_at(node, d, k)
                                == spec_node_leaf_at(node, path.rgba, k) && spec_node_leaf_at(
                                result,
                                d,
                                k,
                            ) == spec_node_leaf_at(result, path.rgba, k)) || (spec_node_leaf_at(
                            node,
                            d,
                            k,
                        ) is None && (forall|m: int|
                            k <= m < 8 ==> spec_path_index(d, m) == spec_path_index(
                                path.rgba,
                                m,
                            )) && spec_node_leaf_at(result, d, k) == spec_node_leaf_at(
                            result,
                            path.rgba,
                            k,
                        )) by {
                            lemma_path_index_bound(d, k);
                            assert(tree.children@ == cs0.update(index as int, child));
                            assert(spec_node_leaf_at(result, path.rgba, k) == spec_node_leaf_at(
                                child,
                                path.rgba,
                                k + 1,
                            ));
                            if spec_path_index(d, k) as int != index as int {
                                assert(tree.children@[spec_path_index(d, k) as int] is Empty);
                                assert(spec_node_leaf_at(result, d, k) is None);
                            } else {
                                assert(spec_node_leaf_at(result, d, k) == spec_node_leaf_at(
                                    child,
                                    d,
                                    k + 1,
                                ));
                                assert(spec_node_leaf_at(OcTreeNode::Empty, d, k + 1) is None);
                                if spec_node_leaf_at(child, d, k + 1) == spec_node_leaf_at(
                                    OcTreeNode::Empty,
                                    d,
                                    k + 1,
                                ) {
                                } else {
                                    assert(forall|m: int|
                                        k + 1 <= m < 8 ==> spec_path_index(d, m)
                                            == spec_path_index(path.rgba, m));
                                    assert forall|m: int|
                                        k <= m < 8 implies spec_path_index(d, m)
                                        == spec_path_index(path.rgba, m) by {
                                        if m == k {
                                            assert(spec_path_index(d, k) == spec_path_index(
                                                path.rgba,
                                                k,
                                            ));
                                        }
                                    }
                                }
                            }
                        }
                    }
                    result
                },
                OcTreeNode::Leaf(leaf) => {
                    let mut leaf = leaf;
                    let ghost l0 = leaf;
                    leaf.add_color(color);
                    proof {
                        assert(255 * l0.color_count + 255 <= 255 * COUNT_LIMIT)
                            by (nonlinear_arith)
                            requires l0.color_count + 1 <= COUNT_LIMIT;
                        assert(leaf == spec_leaf_add(l0, path.rgba));
                        assert forall|ch: int| #[trigger] leaf_sum(leaf, ch) == leaf_sum(l0, ch)
                            + rgba_channel(path.rgba, ch) by {}
                        assert forall|lo: RGBA, hi: RGBA|
                            leaf_boxed(l0, lo, hi) && rgba_in_box(path.rgba, lo, hi)
                            implies #[trigger] leaf_boxed(leaf, lo, hi) by {
                            lemma_leaf_boxed_add(l0, path.rgba, lo, hi);
                        }
                    }
                    OcTreeNode::Leaf(leaf)
                },
                OcTreeNode::Tree(tree) => {
                    let mut tree = tree;
                    let ghost cs0 = tree.children@;
                    let ghost removed0 = tree.removed;
                    proof {
                        lemma_children_counts(cs0);
                        lemma_child_le_children(cs0, index as int);
                        lemma_children_depth_elem(cs0, index as int, 8 - len0 as int + 1);
                        lemma_node_counts(cs0[index as int]);
                    }
                    let old_child = tree.children.remove(index);
                    let new_child = insert_rec(old_child, path);
                    tree.children.insert(index, new_child);
                    proof {
                        assert(tree.children@ =~= cs0.update(index as int, new_child));
                        lemma_children_update(cs0, index as int, new_child);
                        lemma_children_depth_update(
                            cs0,
                            index as int,
                            new_child,
                            8 - len0 as int + 1,
                        );
                        lemma_node_counts(new_child);
                    }
                    tree.recompute_info();
                    proof {
                        lemma_children_counts(tree.children@);
                        assert(index == spec_path_index(path.rgba, 8 - len0 as int));
                        assert(tree.children@[spec_path_index(path.rgba, 8 - len0 as int)
                            as int] == new_child);
                    }
                    let result = OcTreeNode::Tree(tree);
                    proof {
                        assert forall|ch: int| #[trigger] node_sum(result, ch) == node_sum(
                            node,
                            ch,
                        ) + rgba_channel(path.rgba, ch) by {
                            lemma_children_sum_update(cs0, index as int, new_child, ch);
                            assert(node_sum(new_child, ch) == node_sum(cs0[index as int], ch)
                                + rgba_channel(path.rgba, ch));
                            assert(node_sum(node, ch) == leaf_sum(removed0, ch) + children_sum(
                                cs0,
                                ch,
                            ));
                            assert(node_sum(result, ch) == leaf_sum(removed0, ch)
                                + children_sum(cs0.update(index as int, new_child), ch));
                        }
                        assert forall|lo: RGBA, hi: RGBA|
                            node_boxed(node, lo, hi) && rgba_in_box(path.rgba, lo, hi)
                            implies #[trigger] node_boxed(result, lo, hi) by {
                            lemma_children_boxed_iff(cs0, lo, hi);
                            lemma_children_boxed_iff(tree.children@, lo, hi);
                            assert(node_boxed(node, lo, hi) == (leaf_boxed(removed0, lo, hi)
                                && children_boxed(cs0, lo, hi)));
                            assert(node_boxed(cs0[index as int], lo, hi));
                            assert(node_boxed(new_child, lo, hi));
                            assert(node_boxed(result, lo, hi) == (leaf_boxed(tree.removed, lo, hi)
                                && children_boxed(tree.children@, lo, hi)));
                        }
                        let k = 8 - len0 as int;
                        assert forall|d: RGBA|
                            #![trigger spec_node_leaf_at(result, d, k)]
                            spec_node_leaf_at(result, d, k) == spec_node_leaf_at(node, d, k) || (
                            spec_node_leaf_at(node, d, k) is Some && spec_node_leaf_at(node, d, k)
                                == spec_node_leaf_at(node, path.rgba, k) && spec_node_leaf_at(
                                result,
                                d,
                                k,
                            ) == spec_node_leaf_at(result, path.rgba, k)) || (spec_node_leaf_at(
                            node,
                            d,
                            k,
                        ) is None && (forall|m: int|
                            k <= m < 8 ==> spec_path_index(d, m) == spec_path_index(
                                path.rgba,
                                m,
                            )) && spec_node_leaf_at(result, d, k) == spec_node_leaf_at(
                            result,
                            path.rgba,
                            k,
                        )) by {
                            lemma_path_index_bound(d, k);
                            assert(tree.children@ == cs0.update(index as int, new_child));
                            assert(spec_node_leaf_at(result, path.rgba, k) == spec_node_leaf_at(
                                new_child,
                                path.rgba,
                                k + 1,
                            ));
                            assert(spec_node_leaf_at(node, path.rgba, k) == spec_node_leaf_at(
                                cs0[index as int],
                                path.rgba,
                                k + 1,
                            ));
                            if spec_path_index(d, k) as int != index as int {
                                assert(tree.children@[spec_path_index(d, k) as int]
                                    == cs0[spec_path_index(d, k) as int]);
                                assert(spec_node_leaf_at(result, d, k) == spec_node_leaf_at(
                                    cs0[spec_path_index(d, k) as int],
                                    d,
                                    k + 1,
                                ));
                                assert(spec_node_leaf_at(node, d, k) == spec_node_leaf_at(
                                    cs0[spec_path_index(d, k) as int],
                                    d,
                                    k + 1,
                                ));
                            } else {
                                assert(spec_node_leaf_at(result, d, k) == spec_node_leaf_at(
                                    new_child,
                                    d,
                                    k + 1,
                                ));
                                assert(spec_node_leaf_at(node, d, k) == spec_node_leaf_at(
                                    cs0[index as int],
                                    d,
                                    k + 1,
                                ));
                                if spec_node_leaf_at(cs0[index as int], d, k + 1) is None && (
                                forall|m: int|
                                    k + 1 <= m < 8 ==> spec_path_index(d, m) == spec_path_index(
                                        path.rgba,
                                        m,
                                    )) && spec_node_leaf_at(new_child, d, k + 1)
                                    == spec_node_leaf_at(new_child, path.rgba, k + 1) {
                                    assert forall|m: int|
                                        k <= m < 8 implies spec_path_index(d, m)
                                        == spec_path_index(path.rgba, m) by {
                                        if m == k {
                                            assert(spec_path_index(d, k) == spec_path_index(
                                                path.rgba,
                                                k,
                                            ));
                                        }
                                    }
                                }
                            }
                        }
                    }
                    result
                },
            }
        },
        None => {
            match node {
                OcTreeNode::Empty => OcTreeNode::Leaf(OcTreeLeaf::from_rgba(color)),
                OcTreeNode::Leaf(leaf) => {
                    let mut leaf = leaf;
                    let ghost l0 = leaf;
                    leaf.add_color(color);
                    proof {
                        assert(255 * l0.color_count + 255 <= 255 * COUNT_LIMIT)
                            by (nonlinear_arith)
                            requires l0.color_count + 1 <= COUNT_LIMIT;
                        assert(leaf == spec_leaf_add(l0, path.rgba));
                        assert forall|ch: int| #[trigger] leaf_sum(leaf, ch) == leaf_sum(l0, ch)
                            + rgba_channel(path.rgba, ch) by {}
                        assert forall|lo: RGBA, hi: RGBA|
                            leaf_boxed(l0, lo, hi) && rgba_in_box(path.rgba, lo, hi)
                            implies #[trigger] leaf_boxed(leaf, lo, hi) by {
                            lemma_leaf_boxed_add(l0, path.rgba, lo, hi);
                        }
                    }
                    OcTreeNode::Leaf(leaf)
                },
                OcTreeNode::Tree(tree) => {
                    proof {
                        assert(node_depth_ok(OcTreeNode::Tree(tree), 8));
                        assert(false);
                    }
                    OcTreeNode::Empty
                },
            }
        },
    }
}

/// Swap the child at `index` for `node`, handing the old child back.
fn self_replace_child(tree: &mut OcTree, index: usize, node: OcTreeNode) -> (r: OcTreeNode)
    requires
        old(tree).children@.len() == 8,
        index < 8,
    ensures
        r == old(tree).children@[index as int],
        final(tree).children@ == old(tree).children@.update(index as int, node),
        final(tree).info == old(tree).info,
        final(tree).removed == old(tree).removed,
{
    let old_child = tree.children.remove(index);
    tree.children.insert(index, node);
    proof {
        assert(tree.children@ =~= old(tree).children@.update(index as int, node));
    }
    old_child
}

// ---------------------------------------------------------------------------
// Pruning and palette emission
// ---------------------------------------------------------------------------

impl OcTree {
    /// The rolling summary of the whole tree.
    pub fn info(&self) -> (r: OcTreeInfo)
        ensures
            r == self.info,
    {
        self.info
    }

    /// Remove the leaf with the smallest color count; the freed colors
    /// are folded into the owning node's `removed` accumulator, so both
    /// the total color count and every channel total are conserved, and
    /// at most `min_color_count` colors leave the live summary.
    pub fn prune(&mut self)
        requires
            octree_wf(*old(self)),
        ensures
            octree_wf(*final(self)),
            tree_total(*final(self)) == tree_total(*old(self)),
            final(self).info.leaf_count <= old(self).info.leaf_count,
            final(self).info.leaf_count as int >= old(self).info.leaf_count - 1,
            old(self).info.leaf_count >= 1 ==> final(self).info.leaf_count as int + tree_size(
                *final(self),
            ) < old(self).info.leaf_count as int + tree_size(*old(self)),
            forall|ch: int| #[trigger] tree_sum(*final(self), ch) == tree_sum(*old(self), ch),
            old(self).info.leaf_count >= 1 ==> final(self).info.color_count as int >= old(
                self,
            ).info.color_count - old(self).info.min_color_count->Some_0,
            forall|lo: RGBA, hi: RGBA|
                #![trigger tree_boxed(*final(self), lo, hi)]
                tree_boxed(*old(self), lo, hi) ==> tree_boxed(*final(self), lo, hi),
    {
        let choice = argmin_color_count(self);
        match choice {
            None => {
                proof {
                    lemma_children_counts(self.children@);
                }
            },
            Some(index) => {
                let ghost cs0 = self.children@;
                proof {
                    lemma_children_counts(cs0);
                    lemma_child_le_children(cs0, index as int);
                    lemma_node_counts(cs0[index as int]);
                    lemma_children_depth_elem(cs0, index as int, 1);
                }
                let child = self_replace_child(self, index, OcTreeNode::Empty);
                proof {
                    lemma_children_update(cs0, index as int, OcTreeNode::Empty);
                    lemma_children_depth_update(cs0, index as int, OcTreeNode::Empty, 1);
                }
                let ghost removed0 = self.removed;
                match child {
                    OcTreeNode::Empty => {
                        proof {
                            assert(false);
                        }
                    },
                    OcTreeNode::Leaf(leaf) => {
                        self.removed.add_leaf(leaf);
                        self.recompute_info();
                        proof {
                            lemma_children_counts(self.children@);
                            assert forall|ch: int| #[trigger] tree_sum(*self, ch) == tree_sum(
                                *old(self),
                                ch,
                            ) by {
                                lemma_children_sum_update(
                                    cs0,
                                    index as int,
                                    OcTreeNode::Empty,
                                    ch,
                                );
                                assert(255 * removed0.color_count + 255 * leaf.color_count
                                    <= 255 * COUNT_LIMIT) by (nonlinear_arith)
                                    requires
                                        removed0.color_count + leaf.color_count <= COUNT_LIMIT,
                                ;
                                assert(leaf_sum(self.removed, ch) == leaf_sum(removed0, ch)
                                    + leaf_sum(leaf, ch));
                                assert(tree_sum(*self, ch) == leaf_sum(self.removed, ch)
                                    + children_sum(self.children@, ch));
                                assert(tree_sum(*old(self), ch) == leaf_sum(removed0, ch)
                                    + children_sum(cs0, ch));
                            }
                            assert forall|lo: RGBA, hi: RGBA|
                                tree_boxed(*old(self), lo, hi) implies #[trigger] tree_boxed(
                                *self,
                                lo,
                                hi,
                            ) by {
                                lemma_children_boxed_iff(cs0, lo, hi);
                                lemma_children_boxed_iff(self.children@, lo, hi);
                                assert(tree_boxed(*old(self), lo, hi) == (leaf_boxed(
                                    removed0,
                                    lo,
                                    hi,
                                ) && children_boxed(cs0, lo, hi)));
                                assert(node_boxed(cs0[index as int], lo, hi));
                                lemma_leaf_boxed_merge(removed0, leaf, lo, hi);
                                assert(tree_boxed(*self, lo, hi) == (leaf_boxed(
                                    self.removed,
                                    lo,
                                    hi,
                                ) && children_boxed(self.children@, lo, hi)));
                            }
                        }
                    },
                    OcTreeNode::Tree(child_tree) => {
                        let new_child = prune_rec(child_tree, Ghost(1));
                        let ghost cs1 = self.children@;
                        let placeholder = self_replace_child(self, index, new_child);
                        proof {
                            assert(cs1 =~= cs0.update(index as int, OcTreeNode::Empty));
                            assert(cs1.update(index as int, new_child) =~= cs0.update(
                                index as int,
                                new_child,
                            ));
                            lemma_children_update(cs0, index as int, new_child);
                            lemma_children_depth_update(cs0, index as int, new_child, 1);
                            lemma_node_counts(new_child);
                        }
                        self.recompute_info();
                        proof {
                            lemma_children_counts(self.children@);
                            assert forall|ch: int| #[trigger] tree_sum(*self, ch) == tree_sum(
                                *old(self),
                                ch,
                            ) by {
                                lemma_children_sum_update(cs0, index as int, new_child, ch);
                                assert(node_sum(new_child, ch) == node_sum(
                                    cs0[index as int],
                                    ch,
                                ));
                                assert(tree_sum(*self, ch) == leaf_sum(removed0, ch)
                                    + children_sum(self.children@, ch));
                                assert(tree_sum(*old(self), ch) == leaf_sum(removed0, ch)
                                    + children_sum(cs0, ch));
                            }
                            assert(self.info.color_count as int >= old(self).info.color_count
                                - old(self).info.min_color_count->Some_0);
                            assert forall|lo: RGBA, hi: RGBA|
                                tree_boxed(*old(self), lo, hi) implies #[trigger] tree_boxed(
                                *self,
                                lo,
                                hi,
                            ) by {
                                lemma_children_boxed_iff(cs0, lo, hi);
                                lemma_children_boxed_iff(self.children@, lo, hi);
                                assert(tree_boxed(*old(self), lo, hi) == (leaf_boxed(
                                    removed0,
                                    lo,
                                    hi,
                                ) && children_boxed(cs0, lo, hi)));
                                assert(node_boxed(cs0[index as int], lo, hi));
                                assert(node_boxed(new_child, lo, hi));
                                assert(tree_boxed(*self, lo, hi) == (leaf_boxed(
                                    self.removed,
                                    lo,
                                    hi,
                                ) && children_boxed(self.children@, lo, hi)));
                            }
                        }
                    },
                }
            },
        }
    }

    /// Prune until at most `max(color_count, 8)` leaves remain; a tree
    /// already within the bound is left untouched, and both the total
    /// color count and every channel total are conserved.
    pub fn prune_until(&mut self, color_count: usize)
        requires
            octree_wf(*old(self)),
        ensures
            octree_wf(*final(self)),
            tree_total(*final(self)) == tree_total(*old(self)),
            final(self).info.leaf_count <= (if color_count >= 8 {
                color_count as u64
            } else {
                8u64
            }),
            old(self).info.leaf_count >= 1 ==> final(self).info.leaf_count >= 1,
            old(self).info.leaf_count <= (if color_count >= 8 {
                color_count as u64
            } else {
                8u64
            }) ==> *final(self) == *old(self),
            forall|ch: int| #[trigger] tree_sum(*final(self), ch) == tree_sum(*old(self), ch),
            forall|lo: RGBA, hi: RGBA|
                #![trigger tree_boxed(*final(self), lo, hi)]
                tree_boxed(*old(self), lo, hi) ==> tree_boxed(*final(self), lo, hi),
    {
        let prune_count: u64 = if color_count >= 8 {
            color_count as u64
        } else {
            8
        };
        proof {
            lemma_children_counts(self.children@);
        }
        while self.info.leaf_count > prune_count
            invariant
                octree_wf(*self),
                tree_total(*self) == tree_total(*old(self)),
                tree_size(*self) >= 0,
                prune_count >= 8,
                old(self).info.leaf_count >= 1 ==> self.info.leaf_count >= 1,
                old(self).info.leaf_count <= prune_count ==> *self == *old(self),
                forall|ch: int| #[trigger] tree_sum(*self, ch) == tree_sum(*old(self), ch),
                forall|lo: RGBA, hi: RGBA|
                    #![trigger tree_boxed(*self, lo, hi)]
                    tree_boxed(*old(self), lo, hi) ==> tree_boxed(*self, lo, hi),
            decreases self.info.leaf_count + tree_size(*self),
        {
            self.prune();
            proof {
                lemma_children_counts(self.children@);
            }
        }
    }

    /// Emit every leaf's average color in post-order; each visited leaf
    /// is stamped with the palette slot it got. The returned vector is
    /// exactly the tree's leaf sequence, averaged.
    pub fn build_palette(&mut self) -> (palette: Vec<RGBA>)
        requires
            octree_wf(*old(self)),
        ensures
            octree_wf(*final(self)),
            palette@ == tree_leaves(*old(self)).map_values(|l: OcTreeLeaf| spec_leaf_rgba(l)),
            palette@.len() == old(self).info.leaf_count,
            final(self).info == old(self).info,
            final(self).removed == old(self).removed,
            tree_total(*final(self)) == tree_total(*old(self)),
            tree_leaves(*final(self)).len() == tree_leaves(*old(self)).len(),
            forall|k: int|
                0 <= k < tree_leaves(*old(self)).len() ==> tree_leaves(*final(self))[k] == (
                OcTreeLeaf { index: k as usize, ..tree_leaves(*old(self))[k] }),
    {
        let mut palette: Vec<RGBA> = Vec::new();
        let ghost cs0 = self.children@;
        let mut i: usize = 0;
        proof {
            assert(children_leaves(cs0.subrange(0, 0)) =~= Seq::<OcTreeLeaf>::empty());
            assert(palette@ =~= children_leaves(cs0.subrange(0, 0)).map_values(
                |l: OcTreeLeaf| spec_leaf_rgba(l),
            ));
            lemma_children_depth_iff(cs0, 1);
        }
        while i < 8
            invariant
                0 <= i <= 8,
                self.children@.len() == 8,
                self.info == old(self).info,
                self.removed == old(self).removed,
                cs0 == old(self).children@,
                cs0.len() == 8,
                forall|j: int| 0 <= j < 8 ==> node_wf(#[trigger] cs0[j]),
                forall|j: int| 0 <= j < 8 ==> node_depth_ok(#[trigger] cs0[j], 1),
                forall|j: int| i <= j < 8 ==> self.children@[j] == cs0[j],
                forall|j: int|
                    0 <= j < i ==> node_wf(#[trigger] self.children@[j]) && node_info(
                        self.children@[j],
                    ) == node_info(cs0[j]) && node_total(self.children@[j]) == node_total(
                        cs0[j],
                    ) && node_depth_ok(self.children@[j], 1),
                palette@ == children_leaves(cs0.subrange(0, i as int)).map_values(
                    |l: OcTreeLeaf| spec_leaf_rgba(l),
                ),
                children_leaves(self.children@.subrange(0, i as int)).len() == children_leaves(
                    cs0.subrange(0, i as int),
                ).len(),
                forall|j: int|
                    0 <= j < children_leaves(cs0.subrange(0, i as int)).len()
                        ==> children_leaves(self.children@.subrange(0, i as int))[j] == (
                    OcTreeLeaf {
                        index: j as usize,
                        ..children_leaves(cs0.subrange(0, i as int))[j]
                    }),
            decreases 8 - i,
        {
            let ghost pcs = self.children@;
            let ghost plen = children_leaves(cs0.subrange(0, i as int)).len();
            let child = self_replace_child(self, i, OcTreeNode::Empty);
            proof {
                assert(child == cs0[i as int]);
            }
            let ghost pal0 = palette@;
            let new_child = palette_rec(child, &mut palette);
            let placeholder = self_replace_child(self, i, new_child);
            proof {
                lemma_children_leaves_step(cs0, i as int);
                let f = |l: OcTreeLeaf| spec_leaf_rgba(l);
                let a = children_leaves(cs0.subrange(0, i as int));
                let b = node_leaves(cs0[i as int]);
                assert((a + b).map_values(f) =~= a.map_values(f) + b.map_values(f));
                let ncs = self.children@;
                assert(ncs.subrange(0, i as int) =~= pcs.subrange(0, i as int));
                assert(ncs[i as int] == new_child);
                lemma_children_leaves_step(ncs, i as int);
                assert(pal0.len() == plen);
                assert forall|j: int|
                    #![trigger children_leaves(ncs.subrange(0, i as int + 1))[j]]
                    0 <= j < children_leaves(cs0.subrange(0, i as int + 1)).len()
                        implies children_leaves(ncs.subrange(0, i as int + 1))[j] == (
                OcTreeLeaf {
                    index: j as usize,
                    ..children_leaves(cs0.subrange(0, i as int + 1))[j]
                }) by {
                    let na = children_leaves(ncs.subrange(0, i as int));
                    let nb = node_leaves(new_child);
                    if j < plen {
                        assert(children_leaves(ncs.subrange(0, i as int + 1))[j] == na[j]);
                        assert(children_leaves(cs0.subrange(0, i as int + 1))[j] == a[j]);
                    } else {
                        assert(children_leaves(ncs.subrange(0, i as int + 1))[j] == nb[j
                            - plen]);
                        assert(children_leaves(cs0.subrange(0, i as int + 1))[j] == b[j
                            - plen]);
                        assert(nb[j - plen] == (OcTreeLeaf {
                            index: (pal0.len() + (j - plen)) as usize,
                            ..b[j - plen]
                        }));
                    }
                }
            }
            i = i + 1;
        }
        proof {
            assert(cs0.subrange(0, 8) =~= cs0);
            let cs1 = self.children@;
            assert(cs1.subrange(0, 8) =~= cs1);
            lemma_children_congruent(cs0, cs1);
            lemma_children_depth_iff(cs1, 1);
            lemma_children_counts(cs0);
        }
        palette
    }
}

/// Index of the child holding the subtree with the smallest color count,
/// or `None` when the tree has no leaves at all.
fn argmin_color_count(tree: &OcTree) -> (r: Option<usize>)
    requires
        tree_wf(*tree),
    ensures
        r is None <==> tree.info.leaf_count == 0,
        r matches Some(i) ==> i < 8 && node_info(tree.children@[i as int]).min_color_count
            == tree.info.min_color_count && node_info(
            tree.children@[i as int],
        ).min_color_count is Some,
{
    let ghost cs = tree.children@;
    let mut best: Option<(usize, u64)> = None;
    let mut j: usize = 0;
    proof {
        assert(cs.subrange(0, 0) =~= Seq::<OcTreeNode>::empty());
    }
    while j < 8
        invariant
            0 <= j <= 8,
            cs == tree.children@,
            cs.len() == 8,
            tree_wf(*tree),
            match best {
                None => infos_join(cs.subrange(0, j as int)).min_color_count is None,
                Some((bi, bv)) => bi < j && node_info(cs[bi as int]).min_color_count == Some(bv)
                    && infos_join(cs.subrange(0, j as int)).min_color_count == Some(bv),
            },
        decreases 8 - j,
    {
        let info = tree.children[j].info();
        proof {
            assert(cs.subrange(0, j as int + 1).drop_last() =~= cs.subrange(0, j as int));
            assert(cs.subrange(0, j as int + 1).last() == cs[j as int]);
        }
        match info.min_color_count {
            Some(v) => {
                match best {
                    None => {
                        best = Some((j, v));
                    },
                    Some((_bi, bv)) => {
                        if v < bv {
                            best = Some((j, v));
                        }
                    },
                }
            },
            None => {},
        }
        j = j + 1;
    }
    proof {
        assert(cs.subrange(0, 8) =~= cs);
        lemma_children_counts(cs);
    }
    match best {
        Some((bi, _bv)) => Some(bi),
        None => None,
    }
}

/// Recursive worker of `OcTree::prune`, for a subtree sitting at depth
/// `d`: removes the least-used leaf below it, collapsing emptied nodes
/// into leaves that carry the accumulated `removed` colors.
fn prune_rec(tree: Box<OcTree>, Ghost(d): Ghost<int>) -> (r: OcTreeNode)
    requires
        tree_wf(*tree),
        tree.info.leaf_count >= 1,
        node_depth_ok(OcTreeNode::Tree(tree), d),
    ensures
        node_wf(r),
        node_depth_ok(r, d),
        node_total(r) == tree_total(*tree),
        node_info(r).leaf_count >= 1,
        node_info(r).leaf_count as int >= tree.info.leaf_count - 1,
        node_info(r).leaf_count <= tree.info.leaf_count,
        node_info(r).leaf_count as int + node_size(r) < tree.info.leaf_count as int + tree_size(
            *tree,
        ),
        forall|ch: int| #[trigger] node_sum(r, ch) == tree_sum(*tree, ch),
        node_info(r).color_count as int >= tree.info.color_count
            - tree.info.min_color_count->Some_0,
        forall|lo: RGBA, hi: RGBA|
            #![trigger node_boxed(r, lo, hi)]
            tree_boxed(*tree, lo, hi) ==> node_boxed(r, lo, hi),
    decreases tree_size(*tree),
{
    let mut tree = tree;
    let ghost t0 = *tree;
    let ghost removed0 = tree.removed;
    let choice = argmin_color_count(&tree);
    proof {
        lemma_children_counts(tree.children@);
    }
    match choice {
        None => {
            proof {
                assert(false);
            }
            OcTreeNode::Empty
        },
        Some(index) => {
            let ghost cs0 = tree.children@;
            proof {
                lemma_child_le_children(cs0, index as int);
                lemma_node_counts(cs0[index as int]);
                lemma_children_depth_elem(cs0, index as int, d + 1);
            }
            let child = self_replace_child(&mut tree, index, OcTreeNode::Empty);
            proof {
                lemma_children_update(cs0, index as int, OcTreeNode::Empty);
                lemma_children_depth_update(cs0, index as int, OcTreeNode::Empty, d + 1);
            }
            match child {
                OcTreeNode::Empty => {
                    proof {
                        assert(false);
                    }
                    OcTreeNode::Empty
                },
                OcTreeNode::Leaf(leaf) => {
                    tree.removed.add_leaf(leaf);
                    tree.recompute_info();
                    proof {
                        lemma_children_counts(tree.children@);
                    }
                    if tree.info.leaf_count == 0 {
                        proof {
                            lemma_all_children_empty(tree.children@);
                            lemma_empty_children(tree.children@, d + 1);
                            assert(node_wf(OcTreeNode::Leaf(tree.removed)));
                            assert forall|ch: int| #[trigger] leaf_sum(tree.removed, ch)
                                == tree_sum(t0, ch) by {
                                assert(255 * removed0.color_count + 255 * leaf.color_count
                                    <= 255 * COUNT_LIMIT) by (nonlinear_arith)
                                    requires
                                        removed0.color_count + leaf.color_count <= COUNT_LIMIT,
                                ;
                                lemma_children_sum_update(
                                    cs0,
                                    index as int,
                                    OcTreeNode::Empty,
                                    ch,
                                );
                                lemma_empty_children_sum(tree.children@, ch);
                                assert(leaf_sum(tree.removed, ch) == leaf_sum(removed0, ch)
                                    + leaf_sum(leaf, ch));
                                assert(children_sum(cs0, ch) == leaf_sum(leaf, ch));
                                assert(tree_sum(t0, ch) == leaf_sum(removed0, ch)
                                    + children_sum(cs0, ch));
                            }
                            assert forall|ch: int| #[trigger] node_sum(
                                OcTreeNode::Leaf(tree.removed),
                                ch,
                            ) == tree_sum(t0, ch) by {}
                            assert forall|lo: RGBA, hi: RGBA|
                                tree_boxed(t0, lo, hi) implies #[trigger] node_boxed(
                                OcTreeNode::Leaf(tree.removed),
                                lo,
                                hi,
                            ) by {
                                reveal_with_fuel(node_boxed, 2);
                                assert(node_boxed(OcTreeNode::Leaf(tree.removed), lo, hi)
                                    == leaf_boxed(tree.removed, lo, hi));
                                lemma_children_boxed_iff(cs0, lo, hi);
                                assert(tree_boxed(t0, lo, hi) == (leaf_boxed(removed0, lo, hi)
                                    && children_boxed(cs0, lo, hi)));
                                assert(node_boxed(cs0[index as int], lo, hi));
                                lemma_leaf_boxed_merge(removed0, leaf, lo, hi);
                            }
                        }
                        OcTreeNode::Leaf(tree.removed)
                    } else {
                        proof {
                            assert(tree_wf(*tree));
                            assert(node_wf(OcTreeNode::Tree(tree)));
                            assert forall|ch: int| #[trigger] tree_sum(*tree, ch) == tree_sum(
                                t0,
                                ch,
                            ) by {
                                assert(255 * removed0.color_count + 255 * leaf.color_count
                                    <= 255 * COUNT_LIMIT) by (nonlinear_arith)
                                    requires
                                        removed0.color_count + leaf.color_count <= COUNT_LIMIT,
                                ;
                                lemma_children_sum_update(
                                    cs0,
                                    index as int,
                                    OcTreeNode::Empty,
                                    ch,
                                );
                                assert(leaf_sum(tree.removed, ch) == leaf_sum(removed0, ch)
                                    + leaf_sum(leaf, ch));
                                assert(tree_sum(*tree, ch) == leaf_sum(tree.removed, ch)
                                    + children_sum(tree.children@, ch));
                                assert(tree_sum(t0, ch) == leaf_sum(removed0, ch)
                                    + children_sum(cs0, ch));
                            }
                            assert forall|ch: int| #[trigger] node_sum(
                                OcTreeNode::Tree(tree),
                                ch,
                            ) == tree_sum(t0, ch) by {
                                reveal_with_fuel(node_sum, 2);
                                assert(node_sum(OcTreeNode::Tree(tree), ch) == tree_sum(*tree, ch));
                            }
                            assert forall|lo: RGBA, hi: RGBA|
                                tree_boxed(t0, lo, hi) implies #[trigger] node_boxed(
                                OcTreeNode::Tree(tree),
                                lo,
                                hi,
                            ) by {
                                reveal_with_fuel(node_boxed, 2);
                                assert(node_boxed(OcTreeNode::Tree(tree), lo, hi) == tree_boxed(
                                    *tree,
                                    lo,
                                    hi,
                                ));
                                lemma_children_boxed_iff(cs0, lo, hi);
                                lemma_children_boxed_iff(tree.children@, lo, hi);
                                assert(tree_boxed(t0, lo, hi) == (leaf_boxed(removed0, lo, hi)
                                    && children_boxed(cs0, lo, hi)));
                                assert(node_boxed(cs0[index as int], lo, hi));
                                lemma_leaf_boxed_merge(removed0, leaf, lo, hi);
                                assert(tree_boxed(*tree, lo, hi) == (leaf_boxed(
                                    tree.removed,
                                    lo,
                                    hi,
                                ) && children_boxed(tree.children@, lo, hi)));
                            }
                        }
                        OcTreeNode::Tree(tree)
                    }
                },
                OcTreeNode::Tree(child_tree) => {
                    proof {
                        assert(node_size(cs0[index as int]) == tree_size(*child_tree));
                    }
                    let new_child = prune_rec(child_tree, Ghost(d + 1));
                    let ghost cs1 = tree.children@;
                    let placeholder = self_replace_child(&mut tree, index, new_child);
                    proof {
                        assert(cs1.update(index as int, new_child) =~= cs0.update(
                            index as int,
                            new_child,
                        ));
                        lemma_children_update(cs0, index as int, new_child);
                        lemma_children_depth_update(cs0, index as int, new_child, d + 1);
                        lemma_node_counts(new_child);
                    }
                    tree.recompute_info();
                    proof {
                        lemma_children_counts(tree.children@);
                        assert forall|ch: int| #[trigger] children_sum(tree.children@, ch)
                            == children_sum(cs0, ch) by {
                            lemma_children_sum_update(cs0, index as int, new_child, ch);
                            assert(node_sum(new_child, ch) == node_sum(cs0[index as int], ch));
                        }
                        assert(tree.info.color_count as int >= t0.info.color_count
                            - t0.info.min_color_count->Some_0);
                    }
                    match &tree.children[index] {
                        OcTreeNode::Leaf(leaf_ref) => {
                            if tree.info.leaf_count == 1 {
                                let leaf = *leaf_ref;
                                let ghost info1 = tree.info;
                                let placeholder2 = self_replace_child(
                                    &mut tree,
                                    index,
                                    OcTreeNode::Empty,
                                );
                                proof {
                                    let cs2 = cs0.update(index as int, new_child);
                                    assert(forall|j: int|
                                        0 <= j < cs2.len() ==> node_wf(#[trigger] cs2[j]));
                                    assert(tree.children@ =~= cs2.update(
                                        index as int,
                                        OcTreeNode::Empty,
                                    ));
                                    lemma_children_update(cs2, index as int, OcTreeNode::Empty);
                                }
                                tree.recompute_info();
                                proof {
                                    lemma_children_counts(tree.children@);
                                    lemma_all_children_empty(tree.children@);
                                    lemma_empty_children(tree.children@, d + 1);
                                    assert(info1.color_count == leaf.color_count);
                                }
                                tree.removed.add_leaf(leaf);
                                proof {
                                    assert(node_wf(OcTreeNode::Leaf(tree.removed)));
                                    assert forall|ch: int| #[trigger] leaf_sum(tree.removed, ch)
                                        == tree_sum(t0, ch) by {
                                        assert(255 * removed0.color_count + 255
                                            * leaf.color_count <= 255 * COUNT_LIMIT)
                                            by (nonlinear_arith)
                                            requires
                                                removed0.color_count + leaf.color_count
                                                    <= COUNT_LIMIT,
                                        ;
                                        let cs2 = cs0.update(index as int, new_child);
                                        lemma_children_sum_update(cs0, index as int, new_child, ch);
                                        assert(node_sum(new_child, ch) == node_sum(
                                            cs0[index as int],
                                            ch,
                                        ));
                                        lemma_children_sum_update(
                                            cs2,
                                            index as int,
                                            OcTreeNode::Empty,
                                            ch,
                                        );
                                        lemma_empty_children_sum(tree.children@, ch);
                                        assert(tree.children@ == cs2.update(
                                            index as int,
                                            OcTreeNode::Empty,
                                        ));
                                        assert(node_sum(cs2[index as int], ch) == leaf_sum(
                                            leaf,
                                            ch,
                                        ));
                                        assert(children_sum(cs0, ch) == leaf_sum(leaf, ch));
                                        assert(leaf_sum(tree.removed, ch) == leaf_sum(
                                            removed0,
                                            ch,
                                        ) + leaf_sum(leaf, ch));
                                        assert(tree_sum(t0, ch) == leaf_sum(removed0, ch)
                                            + children_sum(cs0, ch));
                                    }
                                    assert forall|ch: int| #[trigger] node_sum(
                                        OcTreeNode::Leaf(tree.removed),
                                        ch,
                                    ) == tree_sum(t0, ch) by {}
                                    assert forall|lo: RGBA, hi: RGBA|
                                        tree_boxed(t0, lo, hi) implies #[trigger] node_boxed(
                                        OcTreeNode::Leaf(tree.removed),
                                        lo,
                                        hi,
                                    ) by {
                                        reveal_with_fuel(node_boxed, 2);
                                        assert(node_boxed(OcTreeNode::Leaf(tree.removed), lo, hi) == leaf_boxed(
                                            tree.removed,
                                            lo,
                                            hi,
                                        ));
                                        lemma_children_boxed_iff(cs0, lo, hi);
                                        assert(tree_boxed(t0, lo, hi) == (leaf_boxed(
                                            removed0,
                                            lo,
                                            hi,
                                        ) && children_boxed(cs0, lo, hi)));
                                        assert(node_boxed(cs0[index as int], lo, hi));
                                        assert(node_boxed(new_child, lo, hi));
                                        assert(leaf_boxed(leaf, lo, hi));
                                        lemma_leaf_boxed_merge(removed0, leaf, lo, hi);
                                    }
                                }
                                OcTreeNode::Leaf(tree.removed)
                            } else {
                                proof {
                                    assert(tree_wf(*tree));
                                    assert(node_wf(OcTreeNode::Tree(tree)));
                                    assert forall|ch: int| #[trigger] tree_sum(*tree, ch)
                                        == tree_sum(t0, ch) by {
                                        lemma_children_sum_update(cs0, index as int, new_child, ch);
                                        assert(node_sum(new_child, ch) == node_sum(
                                            cs0[index as int],
                                            ch,
                                        ));
                                        assert(tree.children@ == cs0.update(
                                            index as int,
                                            new_child,
                                        ));
                                        assert(tree_sum(*tree, ch) == leaf_sum(removed0, ch)
                                            + children_sum(tree.children@, ch));
                                        assert(tree_sum(t0, ch) == leaf_sum(removed0, ch)
                                            + children_sum(cs0, ch));
                                    }
                                    assert forall|ch: int| #[trigger] node_sum(
                                        OcTreeNode::Tree(tree),
                                        ch,
                                    ) == tree_sum(t0, ch) by {
                                        reveal_with_fuel(node_sum, 2);
                                        assert(node_sum(OcTreeNode::Tree(tree), ch) == tree_sum(*tree, ch));
                                    }
                                    assert forall|lo: RGBA, hi: RGBA|
                                        tree_boxed(t0, lo, hi) implies #[trigger] node_boxed(
                                        OcTreeNode::Tree(tree),
                                        lo,
                                        hi,
                                    ) by {
                                        reveal_with_fuel(node_boxed, 2);
                                        assert(node_boxed(OcTreeNode::Tree(tree), lo, hi) == tree_boxed(
                                            *tree,
                                            lo,
                                            hi,
                                        ));
                                        lemma_children_boxed_iff(cs0, lo, hi);
                                        lemma_children_boxed_iff(tree.children@, lo, hi);
                                        assert(tree_boxed(t0, lo, hi) == (leaf_boxed(
                                            removed0,
                                            lo,
                                            hi,
                                        ) && children_boxed(cs0, lo, hi)));
                                        assert(node_boxed(cs0[index as int], lo, hi));
                                        assert(node_boxed(new_child, lo, hi));
                                        assert(tree_boxed(*tree, lo, hi) == (leaf_boxed(
                                            removed0,
                                            lo,
                                            hi,
                                        ) && children_boxed(tree.children@, lo, hi)));
                                    }
                                }
                                OcTreeNode::Tree(tree)
                            }
                        },
                        _ => {
                            proof {
                                assert(tree_wf(*tree));
                                assert(node_wf(OcTreeNode::Tree(tree)));
                                assert forall|ch: int| #[trigger] tree_sum(*tree, ch)
                                    == tree_sum(t0, ch) by {
                                    lemma_children_sum_update(cs0, index as int, new_child, ch);
                                    assert(node_sum(new_child, ch) == node_sum(
                                        cs0[index as int],
                                        ch,
                                    ));
                                    assert(tree.children@ == cs0.update(index as int, new_child));
                                    assert(tree_sum(*tree, ch) == leaf_sum(removed0, ch)
                                        + children_sum(tree.children@, ch));
                                    assert(tree_sum(t0, ch) == leaf_sum(removed0, ch)
                                        + children_sum(cs0, ch));
                                }
                                assert forall|ch: int| #[trigger] node_sum(
                                    OcTreeNode::Tree(tree),
                                    ch,
                                ) == tree_sum(t0, ch) by {
                                    reveal_with_fuel(node_sum, 2);
                                    assert(node_sum(OcTreeNode::Tree(tree), ch) == tree_sum(*tree, ch));
                                }
                                assert forall|lo: RGBA, hi: RGBA|
                                    tree_boxed(t0, lo, hi) implies #[trigger] node_boxed(
                                    OcTreeNode::Tree(tree),
                                    lo,
                                    hi,
                                ) by {
                                    reveal_with_fuel(node_boxed, 2);
                                    assert(node_boxed(OcTreeNode::Tree(tree), lo, hi) == tree_boxed(
                                        *tree,
                                        lo,
                                        hi,
                                    ));
                                    lemma_children_boxed_iff(cs0, lo, hi);
                                    lemma_children_boxed_iff(tree.children@, lo, hi);
                                    assert(tree_boxed(t0, lo, hi) == (leaf_boxed(
                                        removed0,
                                        lo,
                                        hi,
                                    ) && children_boxed(cs0, lo, hi)));
                                    assert(node_boxed(cs0[index as int], lo, hi));
                                    assert(node_boxed(new_child, lo, hi));
                                    assert(tree_boxed(*tree, lo, hi) == (leaf_boxed(
                                        removed0,
                                        lo,
                                        hi,
                                    ) && children_boxed(tree.children@, lo, hi)));
                                }
                            }
                            OcTreeNode::Tree(tree)
                        },
                    }
                },
            }
        },
    }
}

/// A well-formed child list with no leaves holds only empty slots.
pub proof fn lemma_all_children_empty(cs: Seq<OcTreeNode>)
    requires
        forall|i: int| 0 <= i < cs.len() ==> node_wf(#[trigger] cs[i]),
        cs.len() <= 8,
        infos_join(cs).leaf_count == 0,
    ensures
        forall|i: int| 0 <= i < cs.len() ==> (#[trigger] cs[i]) is Empty,
{
    assert forall|i: int| 0 <= i < cs.len() implies (#[trigger] cs[i]) is Empty by {
        lemma_child_le_children(cs, i);
        lemma_node_counts(cs[i]);
        match cs[i] {
            OcTreeNode::Empty => {},
            OcTreeNode::Leaf(l) => {
                assert(node_info(cs[i]).leaf_count == 1);
            },
            OcTreeNode::Tree(t) => {
                assert(node_info(cs[i]).leaf_count >= 1);
            },
        }
    }
}

/// Recursive worker of `OcTree::build_palette`: stamps each leaf below
/// `node` with its palette slot and appends its average color.
fn palette_rec(node: OcTreeNode, palette: &mut Vec<RGBA>) -> (r: OcTreeNode)
    requires
        node_wf(node),
    ensures
        node_wf(r),
        node_info(r) == node_info(node),
        node_total(r) == node_total(node),
        forall|d: int| node_depth_ok(node, d) ==> node_depth_ok(r, d),
        final(palette)@ == old(palette)@ + node_leaves(node).map_values(
            |l: OcTreeLeaf| spec_leaf_rgba(l),
        ),
        node_leaves(r).len() == node_leaves(node).len(),
        forall|j: int|
            0 <= j < node_leaves(node).len() ==> node_leaves(r)[j] == (OcTreeLeaf {
                index: (old(palette)@.len() + j) as usize,
                ..node_leaves(node)[j]
            }),
    decreases node_size(node) + 1,
{
    proof {
        lemma_node_counts(node);
    }
    match node {
        OcTreeNode::Empty => {
            proof {
                assert(node_leaves(OcTreeNode::Empty).map_values(
                    |l: OcTreeLeaf| spec_leaf_rgba(l),
                ) =~= Seq::<RGBA>::empty());
                assert(palette@ =~= palette@ + Seq::<RGBA>::empty());
            }
            OcTreeNode::Empty
        },
        OcTreeNode::Leaf(mut leaf) => {
            let color = leaf.to_rgba();
            leaf.index = palette.len();
            palette.push(color);
            proof {
                let l0 = node_leaves(node);
                assert(l0 =~= seq![node->Leaf_0]);
                assert(palette@ =~= old(palette)@ + l0.map_values(
                    |l: OcTreeLeaf| spec_leaf_rgba(l),
                ));
                assert(node_leaves(OcTreeNode::Leaf(leaf)) =~= seq![leaf]);
                assert(leaf == (OcTreeLeaf {
                    index: (old(palette)@.len() + 0) as usize,
                    ..node_leaves(node)[0]
                }));
            }
            OcTreeNode::Leaf(leaf)
        },
        OcTreeNode::Tree(tree) => {
            let mut tree = tree;
            let ghost cs0 = tree.children@;
            let ghost info0 = tree.info;
            let ghost removed0 = tree.removed;
            let ghost size0 = node_size(node);
            let ghost base = palette@;
            let mut i: usize = 0;
            proof {
                lemma_children_depth_iff(cs0, 0);
                assert(children_leaves(cs0.subrange(0, 0)) =~= Seq::<OcTreeLeaf>::empty());
                assert(palette@ =~= base + children_leaves(cs0.subrange(0, 0)).map_values(
                    |l: OcTreeLeaf| spec_leaf_rgba(l),
                ));
                assert(size0 == 1 + children_size(cs0));
            }
            while i < 8
                invariant
                    0 <= i <= 8,
                    tree.children@.len() == 8,
                    tree.info == info0,
                    tree.removed == removed0,
                    size0 == 1 + children_size(cs0),
                    size0 == node_size(node),
                    cs0.len() == 8,
                    forall|j: int| 0 <= j < 8 ==> node_wf(#[trigger] cs0[j]),
                    forall|j: int| i <= j < 8 ==> tree.children@[j] == cs0[j],
                    forall|j: int|
                        0 <= j < i ==> node_wf(#[trigger] tree.children@[j]) && node_info(
                            tree.children@[j],
                        ) == node_info(cs0[j]) && node_total(tree.children@[j]) == node_total(
                            cs0[j],
                        ) && (forall|d: int|
                            node_depth_ok(cs0[j], d) ==> node_depth_ok(
                                #[trigger] tree.children@[j],
                                d,
                            )),
                    palette@ == base + children_leaves(cs0.subrange(0, i as int)).map_values(
                        |l: OcTreeLeaf| spec_leaf_rgba(l),
                    ),
                    children_leaves(tree.children@.subrange(0, i as int)).len()
                        == children_leaves(cs0.subrange(0, i as int)).len(),
                    forall|j: int|
                        0 <= j < children_leaves(cs0.subrange(0, i as int)).len()
                            ==> children_leaves(tree.children@.subrange(0, i as int))[j] == (
                        OcTreeLeaf {
                            index: (base.len() + j) as usize,
                            ..children_leaves(cs0.subrange(0, i as int))[j]
                        }),
                decreases 8 - i,
            {
                let ghost pcs = tree.children@;
                let ghost plen = children_leaves(cs0.subrange(0, i as int)).len();
                let child = self_replace_child(&mut tree, i, OcTreeNode::Empty);
                proof {
                    assert(child == cs0[i as int]);
                    lemma_child_le_children(cs0, i as int);
                    lemma_node_counts(cs0[i as int]);
                    lemma_children_counts(cs0);
                    assert(node_size(child) < size0);
                }
                let ghost pal0 = palette@;
                let new_child = palette_rec(child, palette);
                let placeholder = self_replace_child(&mut tree, i, new_child);
                proof {
                    lemma_children_leaves_step(cs0, i as int);
                    let f = |l: OcTreeLeaf| spec_leaf_rgba(l);
                    let a = children_leaves(cs0.subrange(0, i as int));
                    let b = node_leaves(cs0[i as int]);
                    assert((a + b).map_values(f) =~= a.map_values(f) + b.map_values(f));
                    // the stamped prefix extends by the freshly stamped leaves
                    let ncs = tree.children@;
                    assert(ncs.subrange(0, i as int) =~= pcs.subrange(0, i as int));
                    assert(ncs[i as int] == new_child);
                    lemma_children_leaves_step(ncs, i as int);
                    assert(pal0.len() == base.len() + plen);
                    assert forall|j: int|
                        #![trigger children_leaves(ncs.subrange(0, i as int + 1))[j]]
                        0 <= j < children_leaves(cs0.subrange(0, i as int + 1)).len()
                            implies children_leaves(ncs.subrange(0, i as int + 1))[j] == (
                    OcTreeLeaf {
                        index: (base.len() + j) as usize,
                        ..children_leaves(cs0.subrange(0, i as int + 1))[j]
                    }) by {
                        let na = children_leaves(ncs.subrange(0, i as int));
                        let nb = node_leaves(new_child);
                        if j < plen {
                            assert(children_leaves(ncs.subrange(0, i as int + 1))[j] == na[j]);
                            assert(children_leaves(cs0.subrange(0, i as int + 1))[j] == a[j]);
                        } else {
                            assert(children_leaves(ncs.subrange(0, i as int + 1))[j] == nb[j
                                - plen]);
                            assert(children_leaves(cs0.subrange(0, i as int + 1))[j] == b[j
                                - plen]);
                            assert(nb[j - plen] == (OcTreeLeaf {
                                index: (pal0.len() + (j - plen)) as usize,
                                ..b[j - plen]
                            }));
                        }
                    }
                }
                i = i + 1;
            }
            proof {
                assert(cs0.subrange(0, 8) =~= cs0);
                let cs1 = tree.children@;
                assert(cs1.subrange(0, 8) =~= cs1);
                lemma_children_congruent(cs0, cs1);
                assert forall|d: int|
                    node_depth_ok(node, d) implies node_depth_ok(
                    OcTreeNode::Tree(tree),
                    d,
                ) by {
                    if node_depth_ok(node, d) {
                        lemma_children_depth_iff(cs0, d + 1);
                        lemma_children_depth_iff(cs1, d + 1);
                        assert(forall|j: int|
                            0 <= j < 8 ==> node_depth_ok(#[trigger] cs1[j], d + 1));
                    }
                }
            }
            OcTreeNode::Tree(tree)
        },
    }
}

/// The octree summary is a monoid fold: at every well-formed tree the
/// stored `info` equals the monoidal join of the children's summaries,
/// and the same holds below every `Tree` child.
pub proof fn lemma_octree_info_monoid(t: OcTree)
    requires
        tree_wf(t),
    ensures
        t.info == infos_join(t.children@),
        forall|i: int|
            0 <= i < 8 && (#[trigger] t.children@[i]) is Tree ==> t.children@[i]->Tree_0.info
                == infos_join(t.children@[i]->Tree_0.children@),
{
    assert forall|i: int|
        0 <= i < 8 && (#[trigger] t.children@[i]) is Tree implies t.children@[i]->Tree_0.info
        == infos_join(t.children@[i]->Tree_0.children@) by {
        assert(node_wf(t.children@[i]));
    }
}

/// Channel reconstruction from a path: for each step, shift in the path
/// bit selected by `shift` (2 for red, 1 for green, 0 for blue).
pub open spec fn rebuild_channel(p: Seq<u8>, i: int, shift: u8) -> int
    decreases i,
{
    if i <= 0 {
        0
    } else {
        2 * rebuild_channel(p, i - 1, shift) + (((p[i - 1] >> shift) & 1) as int)
    }
}

/// The color written by a full eight-entry path.
pub open spec fn spec_color_from_path(p: Seq<u8>) -> RGBA
    recommends
        p.len() == 8,
{
    RGBA {
        r: rebuild_channel(p, 8, 2) as u8,
        g: rebuild_channel(p, 8, 1) as u8,
        b: rebuild_channel(p, 8, 0) as u8,
        a: 255,
    }
}

/// The eight-index path of a color reconstructs that color exactly
/// (alpha is not part of the path and comes back opaque).
pub proof fn lemma_path_roundtrip(c: RGBA)
    ensures
        spec_color_from_path(spec_path_seq(c)) == (RGBA { r: c.r, g: c.g, b: c.b, a: 255 }),
{
    let p = spec_path_seq(c);
    let i0 = spec_path_index(c, 0);
    let i1 = spec_path_index(c, 1);
    let i2 = spec_path_index(c, 2);
    let i3 = spec_path_index(c, 3);
    let i4 = spec_path_index(c, 4);
    let i5 = spec_path_index(c, 5);
    let i6 = spec_path_index(c, 6);
    let i7 = spec_path_index(c, 7);
    assert(rebuild_channel(p, 8, 2) == 128 * (((i0 >> 2) & 1) as int) + 64 * (((i1 >> 2) & 1)
        as int) + 32 * (((i2 >> 2) & 1) as int) + 16 * (((i3 >> 2) & 1) as int) + 8 * (((i4 >> 2)
        & 1) as int) + 4 * (((i5 >> 2) & 1) as int) + 2 * (((i6 >> 2) & 1) as int) + (((i7 >> 2)
        & 1) as int)) by {
        reveal_with_fuel(rebuild_channel, 9);
    }
    assert(rebuild_channel(p, 8, 1) == 128 * (((i0 >> 1) & 1) as int) + 64 * (((i1 >> 1) & 1)
        as int) + 32 * (((i2 >> 1) & 1) as int) + 16 * (((i3 >> 1) & 1) as int) + 8 * (((i4 >> 1)
        & 1) as int) + 4 * (((i5 >> 1) & 1) as int) + 2 * (((i6 >> 1) & 1) as int) + (((i7 >> 1)
        & 1) as int)) by {
        reveal_with_fuel(rebuild_channel, 9);
    }
    assert(rebuild_channel(p, 8, 0) == 128 * (((i0 >> 0) & 1) as int) + 64 * (((i1 >> 0) & 1)
        as int) + 32 * (((i2 >> 0) & 1) as int) + 16 * (((i3 >> 0) & 1) as int) + 8 * (((i4 >> 0)
        & 1) as int) + 4 * (((i5 >> 0) & 1) as int) + 2 * (((i6 >> 0) & 1) as int) + (((i7 >> 0)
        & 1) as int)) by {
        reveal_with_fuel(rebuild_channel, 9);
    }
    lemma_channel_bits(c.r, c.g, c.b, 2);
    lemma_channel_bits(c.r, c.g, c.b, 1);
    lemma_channel_bits(c.r, c.g, c.b, 0);
}

/// One channel equals the weighted sum of its bits as they appear in the
/// path indices.
proof fn lemma_channel_bits(r: u8, g: u8, b: u8, shift: u8)
    requires
        shift == 2 || shift == 1 || shift == 0,
    ensures
        forall|c: RGBA|
            c.r == r && c.g == g && c.b == b ==> (if shift == 2 {
                r
            } else if shift == 1 {
                g
            } else {
                b
            }) as int == 128 * (((#[trigger] spec_path_index(c, 0) >> shift) & 1) as int) + 64 * ((
            (spec_path_index(c, 1) >> shift) & 1) as int) + 32 * (((spec_path_index(c, 2)
                >> shift) & 1) as int) + 16 * (((spec_path_index(c, 3) >> shift) & 1) as int) + 8
                * (((spec_path_index(c, 4) >> shift) & 1) as int) + 4 * (((spec_path_index(c, 5)
                >> shift) & 1) as int) + 2 * (((spec_path_index(c, 6) >> shift) & 1) as int) + ((
            (spec_path_index(c, 7) >> shift) & 1) as int),
{
    assert forall|c: RGBA| c.r == r && c.g == g && c.b == b implies (if shift == 2 {
        r
    } else if shift == 1 {
        g
    } else {
        b
    }) as int == 128 * (((#[trigger] spec_path_index(c, 0) >> shift) & 1) as int) + 64 * (((
    spec_path_index(c, 1) >> shift) & 1) as int) + 32 * (((spec_path_index(c, 2) >> shift) & 1)
        as int) + 16 * (((spec_path_index(c, 3) >> shift) & 1) as int) + 8 * (((spec_path_index(
        c,
        4,
    ) >> shift) & 1) as int) + 4 * (((spec_path_index(c, 5) >> shift) & 1) as int) + 2 * (((
    spec_path_index(c, 6) >> shift) & 1) as int) + (((spec_path_index(c, 7) >> shift) & 1)
        as int) by {
        let x0 = spec_path_index(c, 0);
        let x1 = spec_path_index(c, 1);
        let x2 = spec_path_index(c, 2);
        let x3 = spec_path_index(c, 3);
        let x4 = spec_path_index(c, 4);
        let x5 = spec_path_index(c, 5);
        let x6 = spec_path_index(c, 6);
        let x7 = spec_path_index(c, 7);
        assert((if shift == 2 {
            r
        } else if shift == 1 {
            g
        } else {
            b
        }) as u32 == 128 * (((x0 >> shift) & 1) as u32) + 64 * (((x1 >> shift) & 1) as u32) + 32
            * (((x2 >> shift) & 1) as u32) + 16 * (((x3 >> shift) & 1) as u32) + 8 * (((x4
            >> shift) & 1) as u32) + 4 * (((x5 >> shift) & 1) as u32) + 2 * (((x6 >> shift) & 1)
            as u32) + (((x7 >> shift) & 1) as u32)) by (bit_vector)
            requires
                shift == 2 || shift == 1 || shift == 0,
                x0 == (4 * ((r >> 7u8) & 1) + 2 * ((g >> 7u8) & 1) + ((b >> 7u8) & 1)) as u8,
                x1 == (4 * ((r >> 6u8) & 1) + 2 * ((g >> 6u8) & 1) + ((b >> 6u8) & 1)) as u8,
                x2 == (4 * ((r >> 5u8) & 1) + 2 * ((g >> 5u8) & 1) + ((b >> 5u8) & 1)) as u8,
                x3 == (4 * ((r >> 4u8) & 1) + 2 * ((g >> 4u8) & 1) + ((b >> 4u8) & 1)) as u8,
                x4 == (4 * ((r >> 3u8) & 1) + 2 * ((g >> 3u8) & 1) + ((b >> 3u8) & 1)) as u8,
                x5 == (4 * ((r >> 2u8) & 1) + 2 * ((g >> 2u8) & 1) + ((b >> 2u8) & 1)) as u8,
                x6 == (4 * ((r >> 1u8) & 1) + 2 * ((g >> 1u8) & 1) + ((b >> 1u8) & 1)) as u8,
                x7 == (4 * ((r >> 0u8) & 1) + 2 * ((g >> 0u8) & 1) + ((b >> 0u8) & 1)) as u8,
        ;
    }
}

} // verus!
