//! Octree path, summary and pruning behavior.
use termimg::color::RGBA;
use termimg::error::Error;
use termimg::octree::{OcTree, OcTreeInfo, OcTreeLeaf, OcTreeNode, OcTreePath};

/// Convert a path of 3-bit indices back to the color it encodes.
fn color_from_path(path: &Vec<usize>) -> RGBA {
    let mut r: u8 = 0;
    let mut g: u8 = 0;
    let mut b: u8 = 0;
    for index in 0..8 {
        r <<= 1;
        g <<= 1;
        b <<= 1;
        let bits = path.get(index).unwrap_or(&0);
        if bits & 0b100 != 0 {
            r |= 1;
        }
        if bits & 0b010 != 0 {
            g |= 1;
        }
        if bits & 0b001 != 0 {
            b |= 1;
        }
    }
    RGBA::new(r, g, b, 255)
}

/// Walk the whole path of a color.
fn collect_path(color: RGBA) -> Vec<usize> {
    let mut path = OcTreePath::new(color);
    let mut out = Vec::new();
    while let Some(index) = path.next() {
        out.push(index);
    }
    out
}

#[test]
fn test_octree_path() -> Result<(), Error> {
    let c0 = "#5a719d".parse::<RGBA>()?;
    let path = collect_path(c0);
    assert_eq!(path, vec![1, 6, 2, 7, 5, 1, 4, 3]);
    assert_eq!(c0, color_from_path(&path));

    let c1 = "#808080".parse::<RGBA>()?;
    let path = collect_path(c1);
    assert_eq!(path, vec![7, 0, 0, 0, 0, 0, 0, 0]);
    assert_eq!(c1, color_from_path(&vec![7]));

    let c2 = "#d3869b".parse::<RGBA>()?;
    let path = collect_path(c2);
    assert_eq!(path, vec![7, 4, 0, 5, 1, 2, 7, 5]);
    assert_eq!(c2, color_from_path(&path));

    Ok(())
}

#[test]
fn test_octree_info() {
    let mut tree = OcTree::new();
    tree.node_update(
        1,
        OcTreeNode::Leaf(OcTreeLeaf {
            red_acc: 1,
            green_acc: 2,
            blue_acc: 3,
            color_count: 4,
            index: 0,
        }),
    );
    assert_eq!(
        tree.info(),
        OcTreeInfo {
            leaf_count: 1,
            color_count: 4,
            min_color_count: Some(4),
        }
    );
}

#[test]
fn test_octree() -> Result<(), Error> {
    let c0 = "#5a719d".parse::<RGBA>()?;
    let c1 = "#d3869b".parse::<RGBA>()?;

    let mut tree = OcTree::new();

    tree.insert(c0);
    tree.insert(c0);
    assert_eq!(
        tree.info(),
        OcTreeInfo {
            color_count: 2,
            leaf_count: 1,
            min_color_count: Some(2),
        }
    );
    assert_eq!(tree.find(c0), Some((0, c0)));

    tree.insert(c1);
    assert_eq!(
        tree.info(),
        OcTreeInfo {
            color_count: 3,
            leaf_count: 2,
            min_color_count: Some(1),
        }
    );
    assert_eq!(tree.find(c1), Some((0, c1)));

    Ok(())
}

#[test]
fn prune_until_bounds_leaf_count() {
    // many distinct colors, then prune down to the floor of eight
    let mut tree = OcTree::new();
    let mut gen = RGBA::random();
    for _ in 0..500 {
        tree.insert(gen.next_color());
    }
    assert!(tree.info().leaf_count > 8);
    tree.prune_until(0);
    assert!(tree.info().leaf_count <= 8);
    assert!(tree.info().leaf_count >= 1);

    // a larger target keeps more colors
    let mut tree = OcTree::new();
    let mut gen = RGBA::random();
    for _ in 0..500 {
        tree.insert(gen.next_color());
    }
    tree.prune_until(64);
    assert!(tree.info().leaf_count <= 64);
}

#[test]
fn build_palette_averages_leaves() {
    let mut tree = OcTree::new();
    tree.insert(RGBA::new(10, 20, 30, 255));
    tree.insert(RGBA::new(10, 20, 30, 255));
    let palette = tree.build_palette();
    assert_eq!(palette, vec![RGBA::new(10, 20, 30, 255)]);
}
