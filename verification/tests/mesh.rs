use shape_mesh::event::{ElementState, Event, EventResponse, MouseButton, VirtualKeyCode};
use shape_mesh::mesh::{request, MeshStatus, ShapeMesh, HALF_SIDE};
use shape_mesh::single::Single;
use shape_mesh::span::{Point3, Span};

type Mesh = ShapeMesh<&'static str, u32>;
type Arrivals = Vec<(Point3, Result<u32, &'static str>)>;

const CLICK: Event = Event::MouseInput(ElementState::Released, MouseButton::Left);
const KEY_G: Event = Event::KeyboardInput(ElementState::Released, Some(VirtualKeyCode::G));

fn p(x: i64, y: i64, z: i64) -> Point3 {
    Point3 { x, y, z }
}

fn origin() -> Point3 {
    p(0, 0, 0)
}

fn none() -> Arrivals {
    Vec::new()
}

fn arrivals(boxes: &[Span], from: u32) -> Arrivals {
    boxes.iter().zip(from..).map(|(b, view)| (b.center(), Ok(view))).collect()
}

fn views(mesh: &Mesh) -> Vec<u32> {
    mesh.draw(origin()).iter().map(|call| *call.view).collect()
}

#[test]
fn a_new_mesh_has_sixty_four_boxes_and_all_processors() {
    let mesh: Mesh = ShapeMesh::new("ball");
    assert_eq!(*mesh.shape(), "ball");
    assert_eq!(mesh.num_threads(), num_cpus::get());
    assert!(mesh.num_threads() >= 1);
    assert_eq!(mesh.leaf_count(), 64);
    assert_eq!(mesh.active_jobs(), 0);
    assert!(!mesh.split_pending());
    assert!(mesh.draw(origin()).is_empty());
    let corner = p(-HALF_SIDE, -HALF_SIDE, -HALF_SIDE);
    let quarter = HALF_SIDE / 2;
    let expected = Span { start: corner, end: p(-quarter, -quarter, -quarter) };
    assert_eq!(mesh.box_around(corner), expected);
}

#[test]
fn the_number_of_threads_can_be_given() {
    let mesh: Mesh = ShapeMesh::with_threads("ball", 3);
    assert_eq!(mesh.num_threads(), 3);
    assert_eq!(mesh.leaf_count(), 64);
}

#[test]
fn every_empty_box_is_requested_once() {
    let mut mesh: Mesh = ShapeMesh::with_threads("ball", 1);
    let boxes = mesh.update(None, none()).unwrap();
    assert_eq!(boxes.len(), 64);
    assert_eq!(mesh.active_jobs(), 64);
    for b in &boxes {
        assert_eq!(mesh.box_around(b.center()), *b);
    }
    assert!(mesh.update(None, none()).unwrap().is_empty());
    assert_eq!(mesh.active_jobs(), 64);
    assert!(mesh.draw(origin()).is_empty());
}

#[test]
fn meshes_arrive_in_their_boxes() {
    let mut mesh: Mesh = ShapeMesh::with_threads("ball", 1);
    let boxes = mesh.update(None, none()).unwrap();
    assert!(mesh.update(None, arrivals(&boxes[10..12], 500)).unwrap().is_empty());
    assert_eq!(mesh.active_jobs(), 62);
    assert_eq!(views(&mesh), vec![500, 501]);
    let calls = mesh.draw(boxes[11].center());
    assert_eq!(calls[0].outline, Some((boxes[10], false)));
    assert_eq!(calls[1].outline, Some((boxes[11], true)));
}

#[test]
fn once_all_jobs_are_answered_everything_is_shown() {
    let mut mesh: Mesh = ShapeMesh::with_threads("ball", 1);
    let boxes = mesh.update(None, none()).unwrap();
    assert!(mesh.update(None, arrivals(&boxes, 0)).unwrap().is_empty());
    assert_eq!(mesh.active_jobs(), 0);
    assert_eq!(views(&mesh), (0..64).collect::<Vec<_>>());
    let highlighted = mesh.draw(p(7, -9, 12));
    assert_eq!(highlighted.iter().filter(|c| c.outline.unwrap().1).count(), 1);
    let outside = mesh.draw(p(0, 0, HALF_SIDE));
    assert!(outside.iter().all(|c| !c.outline.unwrap().1));
}

#[test]
fn an_update_ends_with_the_first_mesh_that_cannot_be_shown() {
    let mut mesh: Mesh = ShapeMesh::with_threads("ball", 1);
    let boxes = mesh.update(None, none()).unwrap();
    mesh.handle_event(&CLICK);
    let meshes = vec![
        (boxes[0].center(), Ok(1)),
        (boxes[1].center(), Err("no memory")),
        (boxes[2].center(), Ok(3)),
    ];
    assert_eq!(mesh.update(Some(boxes[5].center()), meshes), Err("no memory"));
    assert_eq!(mesh.active_jobs(), 62);
    assert_eq!(views(&mesh), vec![1]);
    assert!(!mesh.split_pending());
    assert_eq!(mesh.leaf_count(), 71);
    assert_eq!(mesh.update(None, none()).unwrap().len(), 8);
    assert_eq!(mesh.active_jobs(), 70);
}

#[test]
fn a_mesh_is_accepted_or_refused_alone() {
    let mut mesh: Mesh = ShapeMesh::with_threads("ball", 1);
    let boxes = mesh.request_meshes();
    assert_eq!(mesh.accept_mesh(boxes[3].center(), Err("gone")), Err("gone"));
    assert!(views(&mesh).is_empty());
    assert_eq!(mesh.accept_mesh::<()>(boxes[3].center(), Ok(9)), Ok(()));
    assert_eq!(views(&mesh), vec![9]);
    assert_eq!(mesh.active_jobs(), 62);
}

#[test]
fn a_click_cuts_the_box_in_focus() {
    let mut mesh: Mesh = ShapeMesh::with_threads("ball", 1);
    let boxes = mesh.update(None, none()).unwrap();
    mesh.update(None, arrivals(&boxes, 0)).unwrap();
    assert_eq!(mesh.handle_event(&CLICK), EventResponse::Continue);
    assert_eq!(mesh.handle_event(&CLICK), EventResponse::Continue);
    assert!(mesh.split_pending());
    let cut = mesh.box_around(origin());
    assert!(cut.is_divisible());
    assert!(mesh.can_cut_around(origin()));
    let requests = mesh.update(Some(origin()), none()).unwrap();
    let octants: Vec<_> = (0..8).map(|k| cut.get_octant(k)).collect();
    assert_eq!(requests, octants);
    assert!(!mesh.split_pending());
    assert_eq!(mesh.leaf_count(), 71);
    assert_eq!(views(&mesh).len(), 63);
    assert!(mesh.update(None, none()).unwrap().is_empty());
}

#[test]
fn a_late_mesh_is_shown_in_the_last_octant() {
    let mut mesh: Mesh = ShapeMesh::with_threads("ball", 1);
    let boxes = mesh.update(None, none()).unwrap();
    let cut = boxes[20];
    mesh.handle_event(&CLICK);
    let requests = mesh.update(Some(cut.center()), vec![(cut.center(), Ok::<u32, ()>(7))]).unwrap();
    assert_eq!(requests.len(), 7);
    assert_eq!(mesh.active_jobs(), 70);
    assert_eq!(mesh.draw(origin())[0].outline.unwrap().0, cut.get_octant(7));
}

#[test]
fn the_key_turns_outlines_off_and_on() {
    let mut mesh: Mesh = ShapeMesh::with_threads("ball", 1);
    let boxes = mesh.update(None, none()).unwrap();
    mesh.update(None, arrivals(&boxes[..1], 4)).unwrap();
    assert!(mesh.draw(origin())[0].outline.is_some());
    assert_eq!(mesh.handle_event(&KEY_G), EventResponse::Continue);
    assert!(mesh.draw(origin())[0].outline.is_none());
    mesh.handle_event(&CLICK);
    assert_eq!(mesh.handle_event(&KEY_G), EventResponse::Continue);
    assert!(mesh.draw(origin())[0].outline.is_some());
    assert!(mesh.split_pending());
}

#[test]
fn other_events_are_not_handled() {
    let mut mesh: Mesh = ShapeMesh::with_threads("ball", 1);
    for e in [
        Event::MouseInput(ElementState::Pressed, MouseButton::Left),
        Event::MouseInput(ElementState::Released, MouseButton::Right),
        Event::KeyboardInput(ElementState::Pressed, Some(VirtualKeyCode::G)),
        Event::KeyboardInput(ElementState::Released, Some(VirtualKeyCode::Other)),
        Event::KeyboardInput(ElementState::Released, None),
        Event::Other,
    ] {
        assert_eq!(mesh.handle_event(&e), EventResponse::NotHandled);
        assert!(!mesh.split_pending());
    }
}

#[test]
fn a_request_keeps_the_mesh_that_was_shown() {
    match request(Some(MeshStatus::Ready(5))) {
        MeshStatus::Requested { old_view } => assert_eq!(old_view, Some(5)),
        MeshStatus::Ready(_) => panic!("not requested"),
    }
    match request::<u32>(None) {
        MeshStatus::Requested { old_view } => assert_eq!(old_view, None),
        MeshStatus::Ready(_) => panic!("not requested"),
    }
    match request(Some(MeshStatus::Requested { old_view: Some(5) })) {
        MeshStatus::Requested { old_view } => assert_eq!(old_view, Some(5)),
        MeshStatus::Ready(_) => panic!("not requested"),
    }
    match request::<u32>(Some(MeshStatus::Requested { old_view: None })) {
        MeshStatus::Requested { old_view } => assert_eq!(old_view, None),
        MeshStatus::Ready(_) => panic!("not requested"),
    }
}

#[test]
fn without_a_click_the_focus_makes_no_difference() {
    let mut a: Mesh = ShapeMesh::with_threads("ball", 1);
    let mut b: Mesh = ShapeMesh::with_threads("ball", 1);
    let first = a.update(None, none()).unwrap();
    assert_eq!(b.update(Some(p(3, 4, 5)), none()).unwrap(), first);
    for mesh in [&mut a, &mut b] {
        assert_eq!(mesh.leaf_count(), 64);
        assert_eq!(mesh.active_jobs(), 64);
    }
    let failed = |k: usize| vec![(first[k].center(), Ok(1)), (first[0].center(), Err("gone"))];
    assert_eq!(a.update(Some(first[9].center()), failed(7)), Err("gone"));
    assert_eq!(b.update(Some(first[2].center()), failed(7)), Err("gone"));
    assert_eq!(a.active_jobs(), b.active_jobs());
    assert_eq!(a.draw(origin())[0].outline, b.draw(origin())[0].outline);
    assert_eq!((a.leaf_count(), b.leaf_count()), (64, 64));
}

#[test]
fn an_update_after_an_update_changes_nothing() {
    let mut mesh: Mesh = ShapeMesh::with_threads("ball", 1);
    let boxes = mesh.update(None, none()).unwrap();
    mesh.handle_event(&CLICK);
    assert_eq!(mesh.update(Some(boxes[40].center()), arrivals(&boxes[..9], 70)).unwrap().len(), 8);
    let (jobs, shown) = (mesh.active_jobs(), views(&mesh));
    assert_eq!((jobs, shown.len()), (63, 9));
    assert!(mesh.update(Some(boxes[3].center()), none()).unwrap().is_empty());
    assert_eq!(mesh.active_jobs(), jobs);
    assert_eq!(views(&mesh), shown);
    assert_eq!(mesh.leaf_count(), 71);
}

#[test]
fn many_clicks_request_the_octants_of_one_box() {
    let mut mesh: Mesh = ShapeMesh::with_threads("ball", 1);
    let boxes = mesh.update(None, none()).unwrap();
    mesh.update(None, arrivals(&boxes[..30], 0)).unwrap();
    for _ in 0..5 {
        mesh.handle_event(&CLICK);
    }
    assert_eq!((mesh.leaf_count(), mesh.active_jobs()), (64, 34));
    let requests = mesh.update(Some(boxes[12].center()), none()).unwrap();
    assert_eq!(requests, (0..8).map(|k| boxes[12].get_octant(k)).collect::<Vec<_>>());
    assert_eq!((mesh.leaf_count(), mesh.active_jobs()), (71, 42));
}

#[test]
fn as_many_boxes_wait_as_jobs_are_under_way() {
    let mut mesh: Mesh = ShapeMesh::with_threads("ball", 1);
    let waiting = |mesh: &Mesh| (mesh.leaf_count() - views(mesh).len()) as u64;
    let boxes = mesh.update(None, none()).unwrap();
    assert_eq!(waiting(&mesh), mesh.active_jobs());
    mesh.update(None, arrivals(&boxes[..20], 0)).unwrap();
    assert_eq!((waiting(&mesh), mesh.active_jobs()), (44, 44));
    // A box that has its mesh is cut.
    mesh.handle_event(&CLICK);
    mesh.update(Some(boxes[4].center()), arrivals(&boxes[20..25], 20)).unwrap();
    assert_eq!((waiting(&mesh), mesh.active_jobs()), (47, 47));
    // A box that waits for its mesh is cut: its job is under way in vain.
    mesh.handle_event(&CLICK);
    mesh.update(Some(boxes[50].center()), none()).unwrap();
    assert_eq!((waiting(&mesh), mesh.active_jobs()), (54, 55));
}

fn step(start: f32, distance: f32) -> (f32, bool) {
    let single = |f: f32| Single { bits: f.to_bits() };
    let (length, reached) = Mesh::focus_step(single(start), single(distance));
    (f32::from_bits(length.bits), reached)
}

#[test]
fn from_outside_the_surface_is_reached_below_one_millionth() {
    for d in [0.0, -0.5, 0.000_000_9, 0.000_001, 0.000_001_1, 1.0, f32::INFINITY] {
        assert_eq!(step(1.0, d), (d, d < 0.000_001), "{}", d);
    }
    assert!(!step(1.0, f32::NAN).1);
}

#[test]
fn from_inside_the_walk_goes_on_to_the_surface_ahead() {
    for d in [-1.0, -0.25, -0.000_001_1, -0.000_001, -0.000_000_9, 0.0, 0.5] {
        assert_eq!(step(-1.0, d), (-d, -d < 0.000_001), "{}", d);
    }
    assert!(!step(-1.0, f32::NAN).1);
}

#[test]
fn the_focus_is_on_the_surface_of_a_ball() {
    // Along the axis of sight: a ball of radius one around zero.
    for start in [-3.0f32, -0.5, 0.25] {
        let distance = |x: f32| x.abs() - 1.0;
        let mut x = start;
        for _ in 0..100 {
            let (length, reached) = step(distance(start), distance(x));
            x += length;
            if reached {
                break;
            }
        }
        assert!(distance(x).abs() < 0.000_001, "{} {}", start, x);
        assert_eq!(x, if start < -1.0 { -1.0 } else { 1.0 });
    }
}

#[test]
fn a_box_of_one_unit_cannot_be_cut() {
    let mut mesh: Mesh = ShapeMesh::with_threads("ball", 1);
    let mut cuts = 0;
    while mesh.can_cut_around(origin()) {
        mesh.handle_event(&CLICK);
        mesh.update(Some(origin()), none()).unwrap();
        cuts += 1;
    }
    // The boxes at the start are half as wide as half the side.
    assert_eq!(cuts, 39);
    assert!(!mesh.box_around(origin()).is_divisible());
    assert_eq!(mesh.leaf_count(), 64 + 7 * 39);
    assert_eq!(mesh.active_jobs(), 64 + 8 * 39 - 1);
}
