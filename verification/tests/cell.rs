use shape_mesh::cell::{
    corner_offset, find_crossings, find_on_surface, is_partially_in, Crossing, Weight, EDGES,
};
use shape_mesh::single::Single;

fn singles(d: [f32; 8]) -> [Single; 8] {
    d.map(single)
}

fn single(f: f32) -> Single {
    Single { bits: f.to_bits() }
}

#[test]
fn cells_on_one_side_are_not_partial() {
    assert!(!is_partially_in(&singles([1.0; 8])));
    assert!(!is_partially_in(&singles([-1.0; 8])));
    assert!(find_crossings(&singles([1.0; 8])).is_empty());
}

#[test]
fn one_corner_on_the_other_side_gives_three_crossings() {
    let mut d = [2.0; 8];
    d[0] = -1.0;
    assert!(is_partially_in(&singles(d)));
    let weight = Weight::Distances { from: single(-1.0), to: single(2.0) };
    let expected = vec![
        Crossing { from: 0, to: 4, weight },
        Crossing { from: 0, to: 2, weight },
        Crossing { from: 0, to: 1, weight },
    ];
    assert_eq!(find_crossings(&singles(d)), expected);
}

#[test]
fn distances_are_turned_so_that_the_first_is_negative() {
    let mut d = [2.0; 8];
    d[7] = -3.0;
    let weight = Weight::Distances { from: single(-2.0), to: single(3.0) };
    let expected = vec![
        Crossing { from: 3, to: 7, weight },
        Crossing { from: 5, to: 7, weight },
        Crossing { from: 6, to: 7, weight },
    ];
    assert_eq!(find_crossings(&singles(d)), expected);
}

#[test]
fn a_cell_that_is_only_touched_has_corners_on_the_surface() {
    let mut d = [1.0; 8];
    assert!(find_on_surface(&singles(d)).is_empty());
    d[5] = 0.0;
    assert!(is_partially_in(&singles(d)));
    assert!(find_crossings(&singles(d)).is_empty());
    assert_eq!(find_on_surface(&singles(d)), vec![5]);
    assert!(is_partially_in(&singles([0.0; 8])));
    assert!(find_crossings(&singles([0.0; 8])).is_empty());
    assert_eq!(find_on_surface(&singles([0.0; 8])), vec![0, 1, 2, 3, 4, 5, 6, 7]);
    d = [-2.0; 8];
    d[3] = -0.0;
    d[6] = -0.0;
    assert!(find_crossings(&singles(d)).is_empty());
    assert_eq!(find_on_surface(&singles(d)), vec![3, 6]);
    d[6] = 0.0;
    assert_eq!(find_crossings(&singles(d)).len(), 3);
}

#[test]
fn ends_on_the_surface_count_the_same() {
    let mut d = [0.0; 8];
    d[0] = -0.0;
    let found = find_crossings(&singles(d));
    assert_eq!(found.len(), 3);
    assert!(found.iter().all(|c| c.weight == Weight::Even));
}

#[test]
fn the_negative_zero_is_turned_the_other_way() {
    let mut d = [1.0; 8];
    d[0] = -0.0;
    let weight = Weight::Distances { from: single(0.0), to: single(-1.0) };
    assert_eq!(find_crossings(&singles(d))[0], Crossing { from: 0, to: 4, weight });
}

#[test]
fn a_corner_without_a_distance_is_crossed_on_all_sides() {
    let mut d = [1.0; 8];
    d[2] = f32::NAN;
    assert!(is_partially_in(&singles(d)));
    let ends: Vec<_> = find_crossings(&singles(d)).iter().map(|c| (c.from, c.to)).collect();
    assert_eq!(ends, vec![(2, 6), (0, 2), (2, 3)]);
}

#[test]
fn edges_join_corners_one_step_apart() {
    for (from, to) in EDGES {
        let (a, b) = (corner_offset(from), corner_offset(to));
        assert_eq!((b.0 - a.0) + (b.1 - a.1) + (b.2 - a.2), 1);
    }
    assert_eq!(corner_offset(6), (1, 1, 0));
}

#[test]
fn a_share_lies_between_zero_and_one() {
    for (a, b) in [(-1.0f32, 2.0f32), (3.0, -1.0), (0.0, -1.0), (-1.0, 0.0), (-0.0, 1.0)] {
        let mut d = [b; 8];
        d[0] = a;
        match find_crossings(&singles(d))[0].weight {
            Weight::Even => panic!("the ends differ"),
            Weight::Distances { from, to } => {
                let (from, to) = (f32::from_bits(from.bits), f32::from_bits(to.bits));
                let delta = to - from;
                let share = (from + delta) / delta;
                assert!((0.0..=1.0).contains(&share), "{} {} {}", a, b, share);
                assert!(a != 0.0 || share == 1.0);
                assert!(b != 0.0 || share == 0.0);
            }
        }
    }
}

#[test]
fn a_cell_turned_inside_out_keeps_its_crossings() {
    let d = [1.0, -2.0, 0.5, -0.25, 3.0, -1.5, -4.0, 0.75];
    let found = find_crossings(&singles(d));
    assert!(!found.is_empty());
    assert_eq!(find_crossings(&singles(d.map(|d| -d))), found);
}

#[test]
fn zeros_turned_inside_out_or_scaled_leave_the_shares_as_they_are() {
    let d = [1.0, -2.0, 0.0, -0.0, 3.0, -1.5, -4.0, 0.75];
    same_places(d, d.map(|d| 2.0 * d));
    same_places(d, d.map(|d| -d));
    let mut touched = [1.0; 8];
    touched[2] = 0.0;
    let turned = touched.map(|d| -d);
    assert_eq!(find_on_surface(&singles(turned)), find_on_surface(&singles(touched)));
    same_places(touched, turned);
}

fn same_places(d: [f32; 8], e: [f32; 8]) {
    let share = |c: &Crossing| match c.weight {
        Weight::Even => 0.5,
        Weight::Distances { from, to } => {
            let (from, to) = (f32::from_bits(from.bits), f32::from_bits(to.bits));
            (from + (to - from)) / (to - from)
        }
    };
    let found = find_crossings(&singles(d));
    let scaled = find_crossings(&singles(e));
    let ends = |c: &Crossing| (c.from, c.to);
    assert_eq!(scaled.len(), found.len());
    for (a, b) in found.iter().zip(&scaled) {
        assert_eq!(ends(a), ends(b));
        assert_eq!(share(a), share(b));
    }
}
