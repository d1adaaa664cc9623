use shape_mesh::octree::Octree;
use shape_mesh::span::{Point3, Span};

fn p(x: i64, y: i64, z: i64) -> Point3 {
    Point3 { x, y, z }
}

fn span(a: Point3, b: Point3) -> Span {
    Span { start: a, end: b }
}

fn tree() -> Octree<u32> {
    Octree::spanning(span(p(-4, -4, -4), p(4, 4, 4)))
}

#[test]
fn boxes_are_cut_in_the_middle() {
    let s = span(p(0, 0, 0), p(5, 4, 2));
    assert_eq!(s.center(), p(2, 2, 1));
    assert_eq!(s.get_octant(0), span(p(0, 0, 0), p(2, 2, 1)));
    assert_eq!(s.get_octant(5), span(p(2, 0, 1), p(5, 2, 2)));
    assert_eq!(s.find_octant(p(2, 1, 1)), 5);
    assert!(s.is_divisible());
    assert!(!span(p(0, 0, 0), p(1, 2, 2)).is_divisible());
    assert!(s.contains(p(4, 3, 1)));
    assert!(!s.contains(p(5, 3, 1)));
}

#[test]
fn a_new_tree_is_one_empty_leaf() {
    let tree = tree();
    assert_eq!(tree.iter().len(), 1);
    assert_eq!(tree.leaf_around(p(0, 0, 0)), (span(p(-4, -4, -4), p(4, 4, 4)), &None));
}

#[test]
fn a_cut_gives_eight_empty_leaves_in_place() {
    let mut tree = tree();
    tree.set_leaf_around(p(0, 0, 0), Some(1));
    tree.split_leaf_around(p(0, 0, 0));
    assert_eq!(tree.iter().len(), 8);
    assert!(tree.iter().iter().all(|leaf| leaf.1.is_none()));
    tree.split_leaf_around(p(-1, -1, 3));
    let leaves = tree.iter();
    assert_eq!(leaves.len(), 15);
    assert_eq!(leaves[0].0, span(p(-4, -4, -4), p(0, 0, 0)));
    assert_eq!(leaves[1].0, span(p(-4, -4, 0), p(-2, -2, 2)));
    assert_eq!(leaves[8].0, span(p(-2, -2, 2), p(0, 0, 4)));
    assert_eq!(leaves[9].0, span(p(-4, 0, -4), p(0, 4, 0)));
}

#[test]
fn every_point_has_exactly_one_leaf() {
    let mut tree = tree();
    tree.split_leaf_around(p(0, 0, 0));
    tree.split_leaf_around(p(3, 3, 3));
    tree.split_leaf_around(p(-3, 0, 3));
    for x in -4..4 {
        for y in -4..4 {
            for z in -4..4 {
                let q = p(x, y, z);
                let around = tree.leaf_around(q).0;
                let holding: Vec<_> =
                    tree.iter().iter().map(|leaf| leaf.0).filter(|s| s.contains(q)).collect();
                assert_eq!(holding, vec![around]);
            }
        }
    }
}

#[test]
fn points_outside_lead_to_the_nearest_leaf() {
    let mut tree = tree();
    tree.split_leaf_around(p(0, 0, 0));
    let around = tree.leaf_around(p(100, -100, 1)).0;
    assert_eq!(around, span(p(0, -4, 0), p(4, 0, 4)));
    assert!(around.contains(p(3, -4, 1)));
}

#[test]
fn the_center_of_a_leaf_leads_back_to_it() {
    let mut tree = tree();
    tree.split_leaf_around(p(0, 0, 0));
    tree.split_leaf_around(p(1, 1, 1));
    for leaf in tree.iter() {
        assert_eq!(tree.leaf_around(leaf.0.center()).0, leaf.0);
    }
}

#[test]
fn only_empty_leaves_are_filled() {
    let mut tree = tree();
    tree.split_leaf_around(p(0, 0, 0));
    tree.set_leaf_around(p(0, 0, 0), Some(70));
    let filled = tree.fill_empty_leaves(|s| s.start.x as u32);
    assert_eq!(filled.len(), 7);
    assert_eq!(filled[1], span(p(-4, -4, 0), p(0, 0, 4)));
    assert_eq!(*tree.leaf_around(p(0, 0, 0)).1, Some(70));
    assert_eq!(*tree.leaf_around(p(0, 0, -1)).1, Some(0));
    assert!(tree.fill_empty_leaves(|_| 1).is_empty());
}
