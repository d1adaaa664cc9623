use shape_mesh::buffer::{MeshBuffer, Vertex};
use shape_mesh::cell::Cell;
use shape_mesh::grid::GridTable;
use shape_mesh::mesh::generate_mesh;
use shape_mesh::nets::{find_cells, find_faces};
use shape_mesh::single::Single;
use shape_mesh::span::{Point3, Span};

fn single(f: f32) -> Single {
    Single { bits: f.to_bits() }
}

fn unit() -> Span {
    Span { start: Point3 { x: 0, y: 0, z: 0 }, end: Point3 { x: 8, y: 8, z: 8 } }
}

fn marked(cell: &Cell) -> Vertex {
    let zero = single(0.0);
    Vertex {
        position: [single(cell.x as f32), single(cell.y as f32), single(cell.z as f32)],
        normal: [zero; 3],
        distance_from_surface: single(cell.crossings.len() as f32),
    }
}

fn mesh_of(resolution: u32, distance: impl Fn(u32, u32, u32) -> f32) -> MeshBuffer {
    let sample = |_: Span, x: u32, y: u32, z: u32| single(distance(x, y, z));
    let vertex = |_: Span, cell: &Cell| marked(cell);
    MeshBuffer::generate_for_box(&unit(), sample, vertex, resolution)
}

fn places(mesh: &MeshBuffer) -> Vec<[u32; 3]> {
    let place = |v: &Vertex| v.position.map(|c| f32::from_bits(c.bits) as u32);
    mesh.raw_vbuf().iter().map(place).collect()
}

#[test]
fn a_plane_across_z_gives_one_face() {
    let mesh = mesh_of(2, |_, _, z| if z < 2 { -1.0 } else { 1.0 });
    assert_eq!(places(&mesh), vec![[0, 0, 1], [0, 1, 1], [1, 0, 1], [1, 1, 1]]);
    assert_eq!(mesh.raw_ibuf(), &[0, 1, 2, 1, 2, 3]);
    assert!(mesh.raw_vbuf().iter().all(|v| v.distance_from_surface == single(4.0)));
}

#[test]
fn a_plane_across_y_gives_one_face() {
    let mesh = mesh_of(2, |_, y, _| if y < 1 { 1.0 } else { -1.0 });
    assert_eq!(places(&mesh), vec![[0, 0, 0], [0, 0, 1], [1, 0, 0], [1, 0, 1]]);
    assert_eq!(mesh.raw_ibuf(), &[0, 1, 2, 1, 2, 3]);
}

#[test]
fn a_plane_across_x_gives_one_face() {
    let mesh = mesh_of(2, |x, _, _| if x < 1 { -1.0 } else { 1.0 });
    assert_eq!(places(&mesh), vec![[0, 0, 0], [0, 0, 1], [0, 1, 0], [0, 1, 1]]);
    assert_eq!(mesh.raw_ibuf(), &[0, 1, 2, 1, 2, 3]);
}

#[test]
fn a_single_corner_gives_three_edges_that_lead_on_and_three_that_lead_back() {
    // The corner in the middle lies inside: six edges are crossed, eight cells.
    let mesh = mesh_of(2, |x, y, z| if (x, y, z) == (1, 1, 1) { -1.0 } else { 1.0 });
    assert_eq!(mesh.raw_vbuf().len(), 8);
    let expected = [
        // From (0, 1, 1) along x, (1, 0, 1) along y and (1, 1, 0) along z.
        0, 1, 2, 1, 2, 3, 0, 1, 4, 1, 4, 5, 0, 2, 4, 2, 4, 6,
        // From (1, 1, 1) along x, y and z.
        4, 5, 6, 5, 6, 7, 2, 3, 6, 3, 6, 7, 1, 3, 5, 3, 5, 7,
    ];
    assert_eq!(mesh.raw_ibuf(), &expected);
}

#[test]
fn an_empty_box_gives_an_empty_mesh() {
    let mesh = mesh_of(3, |_, _, _| 1.0);
    assert!(mesh.raw_vbuf().is_empty());
    assert!(mesh.raw_ibuf().is_empty());
    let mesh = mesh_of(1, |x, _, _| if x == 0 { -1.0 } else { 1.0 });
    assert_eq!(mesh.raw_vbuf().len(), 1);
    assert!(mesh.raw_ibuf().is_empty());
}

#[test]
fn every_inner_crossed_edge_gets_a_face_of_known_vertices() {
    let d = |x: u32, y: u32, z: u32| {
        let c = |c: u32| c as f32 - 3.1;
        (c(x) * c(x) + c(y) * c(y) + c(z) * c(z)).sqrt() - 2.2
    };
    let r = 6;
    let mesh = mesh_of(r, d);
    let mut edges = 0;
    for x in 0..r {
        for y in 0..r {
            for z in 0..r {
                let here = d(x, y, z).signum();
                edges += usize::from(y > 0 && z > 0 && here != d(x + 1, y, z).signum());
                edges += usize::from(x > 0 && z > 0 && here != d(x, y + 1, z).signum());
                edges += usize::from(x > 0 && y > 0 && here != d(x, y, z + 1).signum());
            }
        }
    }
    assert!(edges > 0);
    assert_eq!(mesh.raw_ibuf().len(), 6 * edges);
    assert!(mesh.raw_ibuf().iter().all(|&i| (i as usize) < mesh.raw_vbuf().len()));
}

#[test]
fn zeros_and_missing_distances_do_no_harm() {
    let d = |x: u32, y: u32, z: u32| match (x + 2 * y + 3 * z) % 5 {
        0 => 0.0,
        1 => -0.0,
        2 => f32::NAN,
        3 => -1.0,
        _ => 1.0,
    };
    let mesh = mesh_of(4, d);
    assert_eq!(mesh.raw_vbuf().len(), 64);
    assert!(mesh.raw_ibuf().iter().all(|&i| i < 64));
    assert!(!mesh.raw_ibuf().is_empty());
}

#[test]
fn cells_are_numbered_in_the_order_of_the_walk() {
    let table = GridTable::fill_with(3, |_, _, z| single(if z < 2 { -1.0 } else { 1.0 }));
    let (points, cells) = find_cells(&table, 2);
    assert_eq!(*points.get(0, 0, 0), None);
    assert_eq!(*points.get(0, 1, 1), Some(1));
    assert_eq!(*points.get(1, 1, 1), Some(3));
    assert_eq!(cells.len(), 4);
    assert_eq!((cells[2].x, cells[2].y, cells[2].z), (1, 0, 1));
    assert_eq!(find_faces(&table, &points, 2), vec![0, 1, 2, 1, 2, 3]);
}

#[test]
fn distances_are_asked_for_the_box_and_its_corners() {
    let span = Span { start: Point3 { x: 5, y: 0, z: 0 }, end: Point3 { x: 9, y: 2, z: 2 } };
    let sample = |s: Span, x: u32, _: u32, _: u32| single(s.start.x as f32 + x as f32 - 5.5);
    let vertex = |s: Span, cell: &Cell| {
        let mut v = marked(cell);
        v.normal[0] = single(s.end.x as f32);
        v
    };
    let mesh = MeshBuffer::generate_for_box(&span, sample, vertex, 2);
    assert_eq!(places(&mesh), vec![[0, 0, 0], [0, 0, 1], [0, 1, 0], [0, 1, 1]]);
    assert!(mesh.raw_vbuf().iter().all(|v| v.normal[0] == single(9.0)));
}

#[test]
fn a_requested_mesh_is_named_by_the_center_of_its_box() {
    let sample = |_: Span, _: u32, _: u32, z: u32| single(z as f32 - 0.5);
    let vertex = |_: Span, cell: &Cell| marked(cell);
    let (center, mesh) = generate_mesh(&unit(), sample, vertex);
    assert_eq!(center, Point3 { x: 4, y: 4, z: 4 });
    assert_eq!(mesh.raw_vbuf().len(), 60 * 60);
    assert_eq!(mesh.raw_ibuf().len(), 6 * 59 * 59);
}

fn bumpy(x: u32, y: u32, z: u32) -> f32 {
    let c = |c: u32, m: f32| (c as f32 - m) * (c as f32 - m);
    (c(x, 2.3) + 2.0 * c(y, 1.9) + 0.5 * c(z, 2.6)).sqrt() - 1.7
}

#[test]
fn a_shape_turned_inside_out_has_the_same_mesh() {
    let mesh = mesh_of(5, bumpy);
    let turned = mesh_of(5, |x, y, z| -bumpy(x, y, z));
    assert!(!mesh.raw_ibuf().is_empty());
    assert_eq!(turned.raw_vbuf(), mesh.raw_vbuf());
    assert_eq!(turned.raw_ibuf(), mesh.raw_ibuf());
}

#[test]
fn doubled_distances_give_the_same_mesh() {
    let mesh = mesh_of(5, bumpy);
    let doubled = mesh_of(5, |x, y, z| 2.0 * bumpy(x, y, z));
    assert_eq!(doubled.raw_vbuf(), mesh.raw_vbuf());
    assert_eq!(doubled.raw_ibuf(), mesh.raw_ibuf());
}

fn triangles(mesh: &MeshBuffer, exchange: impl Fn([u32; 3]) -> [u32; 3]) -> Vec<Vec<[u32; 3]>> {
    let places = places(mesh);
    let mut all: Vec<_> = mesh
        .raw_ibuf()
        .chunks(3)
        .map(|t| {
            let mut cells: Vec<_> = t.iter().map(|&i| exchange(places[i as usize])).collect();
            cells.sort();
            cells
        })
        .collect();
    all.sort();
    all
}

#[test]
fn exchanged_axes_give_the_exchanged_mesh() {
    let mesh = mesh_of(5, bumpy);
    let same = |p: [u32; 3]| p;
    let xy = mesh_of(5, |x, y, z| bumpy(y, x, z));
    let xz = mesh_of(5, |x, y, z| bumpy(z, y, x));
    let yz = mesh_of(5, |x, y, z| bumpy(x, z, y));
    for other in [&xy, &xz, &yz] {
        assert_eq!(other.raw_vbuf().len(), mesh.raw_vbuf().len());
        assert_eq!(other.raw_ibuf().len(), mesh.raw_ibuf().len());
        assert_ne!(places(other), places(&mesh));
    }
    assert_eq!(triangles(&xy, same), triangles(&mesh, |[x, y, z]| [y, x, z]));
    assert_eq!(triangles(&xz, same), triangles(&mesh, |[x, y, z]| [z, y, x]));
    assert_eq!(triangles(&yz, same), triangles(&mesh, |[x, y, z]| [x, z, y]));
}

#[test]
fn a_plane_through_corners_gives_vertices_that_can_be_placed() {
    // The distance is zero on the lower side of the box and above zero elsewhere.
    let sample = |x: u32, _: u32, _: u32| single(2.0 * x as f32);
    let table = GridTable::fill_with(3, sample);
    let (points, cells) = find_cells(&table, 2);
    assert_eq!(cells.len(), 4);
    for cell in &cells {
        assert_eq!(cell.x, 0);
        assert!(cell.crossings.is_empty());
        assert_eq!(cell.touched, vec![0, 1, 2, 3]);
    }
    // No face joins the vertex of a cell that is only touched.
    assert!(find_faces(&table, &points, 2).is_empty());
}

#[test]
fn every_vertex_has_something_to_be_placed_by() {
    let d = |x: u32, y: u32, z: u32| match (3 * x + 5 * y + 7 * z) % 11 {
        0..=3 => 0.0,
        4 => -1.0,
        _ => 1.0,
    };
    let table = GridTable::fill_with(6, |x, y, z| single(d(x, y, z)));
    let (points, cells) = find_cells(&table, 5);
    assert!(cells.iter().any(|cell| cell.crossings.is_empty()));
    assert!(cells.iter().any(|cell| cell.touched.is_empty()));
    assert!(cells.iter().all(|cell| cell.crossings.is_empty() != cell.touched.is_empty()));
    let faces = find_faces(&table, &points, 5);
    assert!(!faces.is_empty());
    assert!(faces.iter().all(|&i| !cells[i as usize].crossings.is_empty()));
}
