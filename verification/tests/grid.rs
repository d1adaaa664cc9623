use shape_mesh::grid::{cube, GridTable};

#[test]
fn a_cube_is_walked_with_z_fastest() {
    let mut walk = cube(2);
    let mut points = Vec::new();
    while let Some(p) = walk.next() {
        points.push(p);
    }
    let expected = vec![
        (0, 0, 0),
        (0, 0, 1),
        (0, 1, 0),
        (0, 1, 1),
        (1, 0, 0),
        (1, 0, 1),
        (1, 1, 0),
        (1, 1, 1),
    ];
    assert_eq!(points, expected);
    assert_eq!(walk.next(), None);
}

#[test]
fn an_empty_cube_has_no_points() {
    assert_eq!(cube(0).next(), None);
}

#[test]
fn a_table_gives_back_what_it_was_filled_with() {
    let table = GridTable::fill_with(3, |x, y, z| 100 * x + 10 * y + z);
    for x in 0..3 {
        for y in 0..3 {
            for z in 0..3 {
                assert_eq!(*table.get(x, y, z), 100 * x + 10 * y + z);
            }
        }
    }
}

#[test]
fn entries_are_in_the_order_of_the_walk() {
    let table = GridTable::from_entries(2, vec![0, 1, 2, 3, 4, 5, 6, 7]);
    assert_eq!(*table.get(0, 0, 1), 1);
    assert_eq!(*table.get(0, 1, 0), 2);
    assert_eq!(*table.get(1, 0, 0), 4);
    assert_eq!(*table.get(1, 1, 1), 7);
}
