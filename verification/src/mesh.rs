//! The mesh of a shape: an octree of meshes that are generated piece by piece.

use crate::buffer::{MeshBuffer, Vertex};
use crate::cell::Cell;
use crate::event::{ElementState, Event, EventResponse, MouseButton, VirtualKeyCode};
use crate::grid::in_cube;
use crate::nets::{gets_vertex, in_range};
use crate::octree::{
    empty_octants, empty_spans, index_around, lemma_empty_spans_add, lemma_index_around,
    lemma_index_around_center, lemma_same_spans, leaf_holds, listed, splice, tiles, Leaf, Octree,
};
use crate::single::{lemma_bits, lemma_magnitudes_in_order, lemma_negative, Single};
use crate::span::{lemma_octant, Point3, Span};
use crate::threads::available_processors;
use vstd::prelude::*;

verus! {

/// Half the side of the box in which shapes are meshed.
pub const HALF_SIDE: i64 = 0x100_0000_0000;

/// The number of cells along each axis of a box for which a mesh is generated.
pub const RESOLUTION: u32 = 60;

/// The number of boxes into which space can be cut. It leaves room to count the jobs.
pub const MAX_BOXES: u64 = 0x1000_0000_0000_0000;

/// The bit pattern of the distance below which a point counts as on the surface:
/// one millionth.
pub const EPSILON_BITS: u32 = 0x3586_37bd;

/// The box in which shapes are meshed.
pub open spec fn world() -> Span {
    Span {
        start: Point3 {
            x: (-HALF_SIDE) as i64,
            y: (-HALF_SIDE) as i64,
            z: (-HALF_SIDE) as i64,
        },
        end: Point3 { x: HALF_SIDE, y: HALF_SIDE, z: HALF_SIDE },
    }
}

/// The state of the mesh of one box.
#[derive(Debug)]
pub enum MeshStatus<V> {
    /// The mesh is being generated. Until it arrives the old one is shown.
    Requested { old_view: Option<V> },
    /// The mesh can be shown.
    Ready(V),
}

/// The mesh that is shown for a box: the one that is ready, or the old one while
/// another is being generated.
pub open spec fn shown<V>(data: Option<MeshStatus<V>>) -> Option<V> {
    match data {
        Some(MeshStatus::Ready(view)) => Some(view),
        Some(MeshStatus::Requested { old_view }) => old_view,
        None => None,
    }
}

/// The status of a box whose mesh is requested anew. The mesh that is shown, if
/// there is one, is kept until the new one arrives.
pub open spec fn requested<V>(data: Option<MeshStatus<V>>) -> MeshStatus<V> {
    MeshStatus::Requested { old_view: shown(data) }
}

/// The leaves with a request in place of nothing.
pub open spec fn requested_leaves<V>(leaves: Seq<Leaf<MeshStatus<V>>>) -> Seq<Leaf<MeshStatus<V>>> {
    leaves.map_values(
        |leaf: Leaf<MeshStatus<V>>|
            if leaf.data is None {
                Leaf { span: leaf.span, data: Some(requested(leaf.data)) }
            } else {
                leaf
            },
    )
}

/// The leaves once the leaf around a point is cut.
pub open spec fn split_leaves<V>(leaves: Seq<Leaf<MeshStatus<V>>>, p: Point3) -> Seq<
    Leaf<MeshStatus<V>>,
> {
    let i = index_around(leaves, world(), p);
    splice(leaves, i, empty_octants(leaves[i].span))
}

/// The leaves once a mesh has arrived for the box with the given center.
pub open spec fn arrived<V>(leaves: Seq<Leaf<MeshStatus<V>>>, center: Point3, view: V) -> Seq<
    Leaf<MeshStatus<V>>,
> {
    let i = index_around(leaves, world(), center);
    leaves.update(i, Leaf { span: leaves[i].span, data: Some(MeshStatus::Ready(view)) })
}

/// The leaves once the first `n` meshes have arrived. A mesh that cannot be shown
/// changes nothing.
pub open spec fn arrived_all<V, E>(
    leaves: Seq<Leaf<MeshStatus<V>>>,
    meshes: Seq<(Point3, Result<V, E>)>,
    n: int,
) -> Seq<Leaf<MeshStatus<V>>>
    decreases n,
{
    if n <= 0 {
        leaves
    } else {
        let before = arrived_all(leaves, meshes, n - 1);
        match meshes[n - 1].1 {
            Ok(view) => arrived(before, meshes[n - 1].0, view),
            Err(_) => before,
        }
    }
}

/// Decides how a box is marked whose mesh is requested anew.
pub fn request<V>(data: Option<MeshStatus<V>>) -> (status: MeshStatus<V>)
    ensures
        status == requested(data),
        match data {
            Some(MeshStatus::Ready(view)) => status == (MeshStatus::Requested {
                old_view: Some(view),
            }),
            Some(MeshStatus::Requested { old_view }) => status == (MeshStatus::Requested {
                old_view,
            }),
            None => status == (MeshStatus::Requested { old_view: None::<V> }),
        },
{
    let old_view = match data {
        Some(MeshStatus::Ready(view)) => Some(view),
        Some(MeshStatus::Requested { old_view }) => old_view,
        None => None,
    };
    MeshStatus::Requested { old_view }
}

/// Generates the mesh that is requested for a box, and names the box by its center.
///
/// `distance` and `vertex` are as for [`MeshBuffer::generate_for_box`].
pub fn generate_mesh<D: Fn(Span, u32, u32, u32) -> Single, P: Fn(Span, &Cell) -> Vertex>(
    span: &Span,
    distance: D,
    vertex: P,
) -> (mesh: (Point3, MeshBuffer))
    requires
        span.wf(),
        forall|x: u32, y: u32, z: u32|
            in_cube(RESOLUTION + 1, x as int, y as int, z as int) ==> call_requires(
                distance,
                (*span, x, y, z),
            ),
        forall|cell: Cell, distances: Seq<Single>, place: (int, int, int)|
            #[trigger] gets_vertex(cell, distances, RESOLUTION as int, place) ==> call_requires(
                vertex,
                (*span, &cell),
            ),
    ensures
        mesh.0 == span.midpoint(),
        mesh.1.generated(distance, vertex, *span, RESOLUTION),
        mesh.1.generated(distance, vertex, *span, 60),
        ({
            let c = mesh.0;
            &&& 0 <= (span.end.x - c.x) - (c.x - span.start.x) <= 1
            &&& 0 <= (span.end.y - c.y) - (c.y - span.start.y) <= 1
            &&& 0 <= (span.end.z - c.z) - (c.z - span.start.z) <= 1
        }),
        in_range(mesh.1.indices(), mesh.1.vertices().len() as int),
{
    let buffer = MeshBuffer::generate_for_box(span, distance, vertex, RESOLUTION);
    (span.center(), buffer)
}

/// Whether the boxes can be counted, and the jobs are no more than the boxes allow:
/// each cut makes eight boxes, each of which is requested once, out of one.
pub open spec fn bounded<V>(leaves: Seq<Leaf<MeshStatus<V>>>, jobs: int) -> bool {
    &&& leaves.len() <= MAX_BOXES
    &&& 7 * (jobs + empty_spans(leaves).len()) <= 8 * leaves.len()
}

/// The boxes without a mesh, where one box is replaced by others.
proof fn lemma_empty_spliced<V>(
    leaves: Seq<Leaf<MeshStatus<V>>>,
    i: int,
    replacement: Seq<Leaf<MeshStatus<V>>>,
)
    requires
        0 <= i < leaves.len(),
    ensures
        empty_spans(splice(leaves, i, replacement)).len() <= empty_spans(leaves).len()
            + empty_spans(replacement).len(),
        empty_spans(replacement).len() <= replacement.len(),
{
    let before = leaves.take(i);
    let here = seq![leaves[i]];
    let behind = leaves.skip(i + 1);
    lemma_empty_spans_add(before + replacement, behind);
    lemma_empty_spans_add(before, replacement);
    lemma_empty_spans_add(before + here, behind);
    lemma_empty_spans_add(before, here);
    assert(leaves =~= before + here + behind);
    replacement.lemma_filter_len(|leaf: Leaf<MeshStatus<V>>| leaf.data is None);
}

/// The mesh of a shape, and what is going on to complete it. `Sh` is the shape, and
/// `V` is a mesh that is ready to be shown.
#[derive(Debug)]
pub struct ShapeMesh<Sh, V> {
    tree: Octree<MeshStatus<V>>,
    shape: Sh,
    num_threads: usize,
    active_jobs: u64,
    split_next_time: bool,
    show_debug: bool,
}

impl<Sh, V> ShapeMesh<Sh, V> {
    pub closed spec fn wf(&self) -> bool {
        &&& self.tree.wf()
        &&& self.tree.span() == world()
        &&& self.num_threads >= 1
        &&& bounded(self.tree.leaves(), self.active_jobs as int)
    }

    /// The boxes into which space is cut, with the status of their meshes.
    pub closed spec fn leaves(&self) -> Seq<Leaf<MeshStatus<V>>> {
        self.tree.leaves()
    }

    /// The shape.
    pub closed spec fn the_shape(&self) -> Sh {
        self.shape
    }

    /// The number of threads that generate meshes.
    pub closed spec fn threads(&self) -> usize {
        self.num_threads
    }

    /// The number of meshes that are being generated.
    pub closed spec fn jobs(&self) -> u64 {
        self.active_jobs
    }

    /// Whether the box in focus is cut by the next update.
    pub closed spec fn splits_next(&self) -> bool {
        self.split_next_time
    }

    /// Whether the boxes are outlined.
    pub closed spec fn outlines(&self) -> bool {
        self.show_debug
    }

    /// The boxes fill the space in which shapes are meshed, without overlap.
    pub proof fn lemma_tiles(&self)
        requires
            self.wf(),
        ensures
            tiles(self.leaves(), world()),
    {
        self.tree.lemma_tiles();
    }

    /// A mesh is requested for each box at most once, so that the jobs are bounded by
    /// the boxes.
    pub proof fn lemma_bounded(&self)
        requires
            self.wf(),
        ensures
            bounded(self.leaves(), self.jobs() as int),
    {
    }

    /// Everything but the boxes, the jobs and whether a box is to be cut.
    pub open spec fn same_settings(&self, other: &Self) -> bool {
        &&& self.the_shape() == other.the_shape()
        &&& self.threads() == other.threads()
        &&& self.outlines() == other.outlines()
    }

    /// Starts the mesh of a shape. Meshes are generated by as many threads as there
    /// are processors.
    pub fn new(shape: Sh) -> (mesh: Self)
        ensures
            mesh.wf(),
            mesh.the_shape() == shape,
            mesh.threads() >= 1,
            mesh.jobs() == 0,
            !mesh.splits_next(),
            mesh.outlines(),
            mesh.leaves() == first_leaves::<V>(),
    {
        let num_threads = available_processors();
        Self::with_threads(shape, num_threads)
    }

    /// Starts the mesh of a shape, to be generated by the given number of threads.
    pub fn with_threads(shape: Sh, num_threads: usize) -> (mesh: Self)
        requires
            num_threads >= 1,
        ensures
            mesh.wf(),
            mesh.the_shape() == shape,
            mesh.threads() == num_threads,
            mesh.jobs() == 0,
            !mesh.splits_next(),
            mesh.outlines(),
            mesh.leaves() == first_leaves::<V>(),
    {
        let span = Span {
            start: Point3 { x: -HALF_SIDE, y: -HALF_SIDE, z: -HALF_SIDE },
            end: Point3 { x: HALF_SIDE, y: HALF_SIDE, z: HALF_SIDE },
        };
        let mut tree: Octree<MeshStatus<V>> = Octree::spanning(span);
        proof {
            tree.lemma_tiles();
            lemma_index_around_center(tree.leaves(), world(), 0);
        }
        tree.split_leaf_around(span.center());
        assert(tree.leaves() =~= empty_octants::<MeshStatus<V>>(world()));
        let mut k: usize = 0;
        while k < 8
            invariant
                k <= 8,
                span == world(),
                tree.wf(),
                tree.span() == world(),
                tree.leaves().len() == 8 + 7 * k,
                forall|i: int|
                    0 <= i < 8 * k ==> #[trigger] tree.leaves()[i] == first_leaves::<V>()[i],
                forall|i: int|
                    8 * k <= i < tree.leaves().len() ==> #[trigger] tree.leaves()[i] == (Leaf {
                        span: world().octant(i - 7 * k),
                        data: None::<MeshStatus<V>>,
                    }),
            decreases 8 - k,
        {
            let child = span.get_octant(k);
            proof {
                lemma_octant(world(), k as int);
                tree.lemma_tiles();
                assert(tree.leaves()[8 * k].span == child);
                lemma_index_around_center(tree.leaves(), world(), 8 * k as int);
            }
            tree.split_leaf_around(child.center());
            k += 1;
        }
        assert(tree.leaves() =~= first_leaves::<V>());
        proof {
            tree.leaves().lemma_filter_len(|leaf: Leaf<MeshStatus<V>>| leaf.data is None);
        }
        ShapeMesh {
            tree,
            shape,
            num_threads,
            active_jobs: 0,
            split_next_time: false,
            show_debug: true,
        }
    }

    /// The shape that the mesh represents.
    pub fn shape(&self) -> (shape: &Sh)
        ensures
            *shape == self.the_shape(),
    {
        &self.shape
    }

    /// The number of threads that generate meshes.
    pub fn num_threads(&self) -> (count: usize)
        requires
            self.wf(),
        ensures
            count == self.threads(),
            count >= 1,
    {
        self.num_threads
    }

    /// The number of meshes that are being generated.
    pub fn active_jobs(&self) -> (count: u64)
        ensures
            count == self.jobs(),
    {
        self.active_jobs
    }

    /// The number of boxes into which space is cut.
    pub fn leaf_count(&self) -> (count: usize)
        requires
            self.wf(),
        ensures
            count == self.leaves().len(),
    {
        let leaves = self.tree.iter();
        assert(listed(leaves@).len() == leaves@.len());
        leaves.len()
    }

    /// Whether the box in focus is cut by the next update.
    pub fn split_pending(&self) -> (pending: bool)
        ensures
            pending == self.splits_next(),
    {
        self.split_next_time
    }

    /// Finds the box around a point.
    pub fn box_around(&self, p: Point3) -> (span: Span)
        requires
            self.wf(),
        ensures
            span == self.leaves()[index_around(self.leaves(), world(), p)].span,
            span.wf(),
            -0x100_0000_0000 <= p.x < 0x100_0000_0000 && -0x100_0000_0000 <= p.y < 0x100_0000_0000
                && -0x100_0000_0000 <= p.z < 0x100_0000_0000 ==> span.start.x <= p.x < span.end.x
                && span.start.y <= p.y < span.end.y && span.start.z <= p.z < span.end.z,
    {
        proof {
            self.tree.lemma_tiles();
            lemma_index_around(self.leaves(), world(), p);
            assert(leaf_holds(
                self.leaves(),
                index_around(self.leaves(), world(), p),
                world().nearest_to(p),
            ));
        }
        self.tree.leaf_around(p).0
    }

    /// Whether the box around a point can be cut.
    pub fn can_cut_around(&self, p: Point3) -> (possible: bool)
        requires
            self.wf(),
        ensures
            possible == can_cut(self, p),
            possible <==> self.leaves().len() + 7 <= 0x1000_0000_0000_0000 && ({
                let s = self.leaves()[index_around(self.leaves(), world(), p)].span;
                s.end.x - s.start.x >= 2 && s.end.y - s.start.y >= 2 && s.end.z - s.start.z >= 2
            }),
    {
        self.box_around(p).is_divisible() && self.leaf_count() as u64 <= MAX_BOXES - 7
    }

    /// Takes note of a mesh that was generated for the box with the given center.
    /// Where the mesh cannot be shown, the reason is handed on.
    pub fn accept_mesh<E>(&mut self, center: Point3, view: Result<V, E>) -> (accepted: Result<
        (),
        E,
    >)
        requires
            old(self).wf(),
            old(self).jobs() > 0,
        ensures
            final(self).wf(),
            final(self).same_settings(old(self)),
            final(self).splits_next() == old(self).splits_next(),
            final(self).jobs() == old(self).jobs() - 1,
            match view {
                Ok(v) => accepted is Ok && final(self).leaves() == arrived(
                    old(self).leaves(),
                    center,
                    v,
                ),
                Err(e) => accepted == Err::<(), E>(e) && final(self).leaves()
                    == old(self).leaves(),
            },
    {
        self.active_jobs = self.active_jobs - 1;
        match view {
            Ok(v) => {
                proof {
                    let leaves = self.leaves();
                    let i = index_around(leaves, world(), center);
                    let ready = Leaf { span: leaves[i].span, data: Some(MeshStatus::Ready(v)) };
                    self.tree.lemma_tiles();
                    lemma_index_around(leaves, world(), center);
                    assert(arrived(leaves, center, v) =~= splice(leaves, i, seq![ready]));
                    lemma_empty_spliced(leaves, i, seq![ready]);
                    seq![ready].lemma_all_neg_filter_empty(
                        |leaf: Leaf<MeshStatus<V>>| leaf.data is None,
                    );
                }
                self.tree.set_leaf_around(center, Some(MeshStatus::Ready(v)));
                Ok(())
            },
            Err(e) => Err(e),
        }
    }

    /// Requests a mesh for each box that has none, and gives these boxes.
    pub fn request_meshes(&mut self) -> (boxes: Vec<Span>)
        requires
            old(self).wf(),
        ensures
            final(self).wf(),
            final(self).same_settings(old(self)),
            final(self).splits_next() == old(self).splits_next(),
            boxes@ == empty_spans(old(self).leaves()),
            final(self).leaves() == requested_leaves(old(self).leaves()),
            final(self).jobs() == old(self).jobs() + boxes@.len(),
    {
        let mark = |span: Span| -> (status: MeshStatus<V>)
            ensures
                status == requested(None::<MeshStatus<V>>),
        {
            request(None)
        };
        let boxes = self.tree.fill_empty_leaves(mark);
        proof {
            old(self).leaves().lemma_filter_len(|leaf: Leaf<MeshStatus<V>>| leaf.data is None);
            assert(self.tree.leaves() =~= requested_leaves(old(self).leaves()));
            self.tree.leaves().lemma_all_neg_filter_empty(
                |leaf: Leaf<MeshStatus<V>>| leaf.data is None,
            );
        }
        self.active_jobs = self.active_jobs + boxes.len() as u64;
        boxes
    }

    /// Brings the mesh up to date. Cuts the box around the focus if that was asked
    /// for, takes note of the meshes that have arrived, and requests a mesh for each
    /// box that has none. Gives the boxes whose meshes are now to be generated.
    ///
    /// The update ends with the first mesh that cannot be shown.
    pub fn update<E>(
        &mut self,
        focus: Option<Point3>,
        meshes: Vec<(Point3, Result<V, E>)>,
    ) -> (boxes: Result<Vec<Span>, E>)
        requires
            old(self).wf(),
            old(self).splits_next() ==> focus is Some && can_cut(old(self), focus->0),
            meshes@.len() <= old(self).jobs(),
        ensures
            final(self).wf(),
            answered(old(self), final(self), focus, meshes@, answer(boxes)),
            match boxes {
                Ok(requests) => answered(old(self), final(self), focus, meshes@, Ok(requests@)),
                Err(e) => answered(old(self), final(self), focus, meshes@, Err(e)),
            },
    {
        proof {
            self.tree.lemma_tiles();
            lemma_index_around(self.leaves(), world(), focus->0);
        }
        if self.split_next_time {
            if let Some(p) = focus {
                proof {
                    let i = index_around(self.leaves(), world(), p);
                    lemma_empty_spliced(
                        self.leaves(),
                        i,
                        empty_octants(self.leaves()[i].span),
                    );
                }
                self.tree.split_leaf_around(p);
            }
            self.split_next_time = false;
        }
        let ghost start = self.leaves();
        assert(start == leaves_after_split(old(self), focus));
        proof {
            self.tree.lemma_tiles();
        }
        let ghost all = meshes@;
        for mesh in it: meshes
            invariant
                all == meshes@,
                it.seq() == all,
                self.wf(),
                self.same_settings(old(self)),
                !self.splits_next(),
                all.len() <= old(self).jobs(),
                self.jobs() == old(self).jobs() - it.index(),
                self.leaves() == arrived_all(start, all, it.index() as int),
                start == leaves_after_split(old(self), focus),
                tiles(start, world()),
                forall|j: int| 0 <= j < it.index() ==> (#[trigger] all[j]).1 is Ok,
        {
            let ghost k = it.index() as int;
            match self.accept_mesh(mesh.0, mesh.1) {
                Ok(()) => {},
                Err(e) => {
                    assert(first_failure(all, k));
                    return Err(e);
                },
            }
        }
        proof {
            lemma_arrived_all(start, all, all.len() as int);
        }
        Ok(self.request_meshes())
    }

    /// Lists what is to be drawn: the mesh of each box that has one to show, and
    /// the outline of the box if boxes are outlined. The outline of the box with the
    /// focus is highlighted.
    pub fn draw(&self, focus: Point3) -> (calls: Vec<DrawCall<'_, V>>)
        requires
            self.wf(),
        ensures
            drawn(calls@) == shown_leaves(self.leaves()).map_values(
                |leaf: Leaf<MeshStatus<V>>|
                    (shown(leaf.data)->0, outline(leaf.span, self.outlines(), focus)),
            ),
            draws(self.leaves(), self.outlines(), focus, calls@),
    {
        let leaves = self.tree.iter();
        let mut calls: Vec<DrawCall<'_, V>> = Vec::new();
        let ghost all = self.leaves();
        let ghost to_call = |leaf: Leaf<MeshStatus<V>>|
            (shown(leaf.data)->0, outline(leaf.span, self.outlines(), focus));
        let mut i: usize = 0;
        proof {
            reveal(Seq::filter);
            assert(drawn(calls@) =~= shown_leaves(all.take(0)).map_values(to_call));
        }
        while i < leaves.len()
            invariant
                i <= leaves@.len(),
                all == listed(leaves@),
                to_call == (|leaf: Leaf<MeshStatus<V>>|
                    (shown(leaf.data)->0, outline(leaf.span, self.outlines(), focus))),
                drawn(calls@) == shown_leaves(all.take(i as int)).map_values(to_call),
            decreases leaves@.len() - i,
        {
            let (span, data) = leaves[i];
            proof {
                reveal(Seq::filter);
                assert(all.take(i + 1).drop_last() =~= all.take(i as int));
                assert(all.take(i + 1).last() == all[i as int]);
                assert(all[i as int] == (Leaf { span, data: *data }));
            }
            let view = match data {
                Some(MeshStatus::Ready(view)) => Some(view),
                Some(MeshStatus::Requested { old_view: Some(view) }) => Some(view),
                _ => None,
            };
            let ghost before = calls@;
            assert(shown(*data) == match view {
                Some(view) => Some(*view),
                None => None,
            });
            if let Some(view) = view {
                let boxed = if self.show_debug {
                    Some((span, span.contains(focus)))
                } else {
                    None
                };
                calls.push(DrawCall { view, outline: boxed });
                assert(drawn(calls@) =~= drawn(before).push(to_call(all[i as int])));
                assert(shown_leaves(all.take(i + 1)) == shown_leaves(all.take(i as int)).push(
                    all[i as int],
                ));
            } else {
                assert(shown_leaves(all.take(i + 1)) == shown_leaves(all.take(i as int)));
            }
            assert(drawn(calls@) =~= shown_leaves(all.take(i + 1)).map_values(to_call));
            i += 1;
        }
        assert(all.take(leaves@.len() as int) =~= all);
        assert(drawing(all, self.outlines(), focus) =~= shown_leaves(all).map_values(to_call));
        calls
    }

    /// Takes a step of the walk along the direction of sight that ends at the focus.
    /// `start` is the distance from the shape at the camera, where the walk begins,
    /// and `distance` is the one at the present point.
    ///
    /// Gives the length of the step, and whether the surface is reached once the
    /// step is made.
    pub fn focus_step(start: Single, distance: Single) -> (step: (Single, bool))
        ensures
            step.0 == ahead(start, distance),
            step.1 == ahead(start, distance).lt(Single { bits: EPSILON_BITS }),
            !start.below_zero() ==> step.0.bits == distance.bits,
            start.below_zero() ==> step.0.bits == distance.negative().bits,
            step.1 == step.0.lt(Single { bits: 0x3586_37bd }),
    {
        let length = if start.is_below_zero() {
            distance.negated()
        } else {
            distance
        };
        (length, length.less_than(Single { bits: EPSILON_BITS }))
    }

    /// Reacts to an event. A click asks for the box in focus to be cut, and the key
    /// `G` turns the outlines of the boxes on and off.
    pub fn handle_event(&mut self, e: &Event) -> (response: EventResponse)
        ensures
            old(self).wf() ==> final(self).wf(),
            reaction(old(self), final(self), *e),
            response == if asks_to_split(*e) || asks_for_outlines(*e) {
                EventResponse::Continue
            } else {
                EventResponse::NotHandled
            },
            match *e {
                Event::MouseInput(ElementState::Released, MouseButton::Left) => {
                    response is Continue && final(self).splits_next()
                },
                Event::KeyboardInput(ElementState::Released, Some(VirtualKeyCode::G)) => {
                    &&& response is Continue
                    &&& final(self).outlines() != old(self).outlines()
                    &&& final(self).splits_next() == old(self).splits_next()
                },
                _ => {
                    &&& response is NotHandled
                    &&& final(self).outlines() == old(self).outlines()
                    &&& final(self).splits_next() == old(self).splits_next()
                },
            },
    {
        match *e {
            Event::MouseInput(ElementState::Released, MouseButton::Left) => {
                self.split_next_time = true;
                EventResponse::Continue
            },
            Event::KeyboardInput(ElementState::Released, Some(VirtualKeyCode::G)) => {
                self.show_debug = !self.show_debug;
                EventResponse::Continue
            },
            _ => EventResponse::NotHandled,
        }
    }
}

/// The distance from the surface at a point of a walk that starts at the given
/// distance, counted so that it is above zero on the side where the walk starts.
pub open spec fn ahead(start: Single, distance: Single) -> Single {
    if start.below_zero() {
        distance.negative()
    } else {
        distance
    }
}

/// A walk to the surface first goes forward by the distance from it, whether it
/// starts outside the shape or inside of it.
pub proof fn lemma_first_step(start: Single)
    requires
        !start.is_nan(),
    ensures
        ahead(start, start).units() == if start.units() < 0 {
            -start.units()
        } else {
            start.units()
        },
{
    lemma_negative(start);
}

/// Where a walk ends without having passed the surface, the distance from the
/// surface is below one millionth, on whichever side of it.
pub proof fn lemma_focus_on_surface(start: Single, distance: Single)
    requires
        ahead(start, distance).lt(Single { bits: EPSILON_BITS }),
        !ahead(start, distance).below_zero(),
    ensures
        distance.lt(Single { bits: EPSILON_BITS }),
        distance.negative().lt(Single { bits: EPSILON_BITS }),
{
    lemma_negative(distance);
    lemma_magnitudes_in_order(0, EPSILON_BITS as nat);
}

/// Every step of a walk that starts outside the shape is as long as the distance at the
/// present point says, and every step of one that starts inside is as long as it
/// says with the other sign.
pub proof fn lemma_step_is_distance(start: Single, distance: Single)
    ensures
        start.bits <= 0x8000_0000 ==> ahead(start, distance).bits == distance.bits,
        0x8000_0000 < start.bits <= 0xff80_0000 && distance.bits < 0x8000_0000 ==> ahead(
            start,
            distance,
        ).bits == distance.bits + 0x8000_0000,
        0x8000_0000 < start.bits <= 0xff80_0000 && distance.bits >= 0x8000_0000 ==> ahead(
            start,
            distance,
        ).bits == distance.bits - 0x8000_0000,
        0xff80_0000 < start.bits ==> ahead(start, distance).bits == distance.bits,
{
    lemma_bits(start);
}

/// No step is longer than the distance from the surface, so that a walk does not pass
/// the surface. It is as long, and leads forward as long as the present point lies on
/// the side where the walk started.
pub proof fn lemma_step_within_distance(start: Single, distance: Single)
    ensures
        ({
            let length = ahead(start, distance).units();
            let away = if distance.units() < 0 {
                -distance.units()
            } else {
                distance.units()
            };
            -away <= length <= away
        }),
        ahead(start, distance).units() == distance.units() || ahead(start, distance).units()
            == -distance.units(),
        (start.units() < 0 && !start.is_nan()) == (distance.units() < 0) ==> ahead(
            start,
            distance,
        ).units() >= 0,
        ahead(start, distance).is_nan() == distance.is_nan(),
{
    lemma_negative(distance);
}

/// Of two walks that start on the same side the steps at a point are the same, however
/// far away the walks start. Of two that start on different sides the steps are
/// opposite.
pub proof fn lemma_steps_by_side(start: Single, other: Single, distance: Single)
    requires
        !start.is_nan(),
        !other.is_nan(),
    ensures
        (start.units() < 0) == (other.units() < 0) ==> ahead(start, distance) == ahead(
            other,
            distance,
        ),
        (start.units() < 0) != (other.units() < 0) ==> ahead(start, distance).units() == -ahead(
            other,
            distance,
        ).units(),
{
    lemma_negative(distance);
}

/// Something to be drawn: a mesh, and the outline of its box if there is one, with
/// whether it is highlighted.
#[derive(Debug)]
pub struct DrawCall<'a, V> {
    pub view: &'a V,
    pub outline: Option<(Span, bool)>,
}

/// What a list of draw calls stands for.
pub open spec fn drawn<V>(calls: Seq<DrawCall<'_, V>>) -> Seq<(V, Option<(Span, bool)>)> {
    calls.map_values(|call: DrawCall<'_, V>| (*call.view, call.outline))
}

/// The boxes that have a mesh to show.
pub open spec fn shown_leaves<V>(leaves: Seq<Leaf<MeshStatus<V>>>) -> Seq<Leaf<MeshStatus<V>>> {
    leaves.filter(|leaf: Leaf<MeshStatus<V>>| shown(leaf.data) is Some)
}

/// What is to be drawn for the boxes.
pub open spec fn drawing<V>(
    leaves: Seq<Leaf<MeshStatus<V>>>,
    outlines: bool,
    focus: Point3,
) -> Seq<(V, Option<(Span, bool)>)> {
    shown_leaves(leaves).map_values(
        |leaf: Leaf<MeshStatus<V>>| (shown(leaf.data)->0, outline(leaf.span, outlines, focus)),
    )
}

/// Whether the calls draw the boxes.
pub open spec fn draws<V>(
    leaves: Seq<Leaf<MeshStatus<V>>>,
    outlines: bool,
    focus: Point3,
    calls: Seq<DrawCall<'_, V>>,
) -> bool {
    drawn(calls) == drawing(leaves, outlines, focus)
}

/// The outline that is drawn for a box, with whether it is highlighted.
pub open spec fn outline(span: Span, outlines: bool, focus: Point3) -> Option<(Span, bool)> {
    if outlines {
        Some((span, span.holds(focus)))
    } else {
        None
    }
}

/// Whether `to` is `from` after the event.
pub open spec fn reaction<Sh, V>(
    from: &ShapeMesh<Sh, V>,
    to: &ShapeMesh<Sh, V>,
    e: Event,
) -> bool {
    &&& to.leaves() == from.leaves()
    &&& to.the_shape() == from.the_shape()
    &&& to.threads() == from.threads()
    &&& to.jobs() == from.jobs()
    &&& to.splits_next() == (from.splits_next() || asks_to_split(e))
    &&& to.outlines() == (from.outlines() != asks_for_outlines(e))
}

/// Whether the event is the end of a click.
pub open spec fn asks_to_split(e: Event) -> bool {
    e == Event::MouseInput(ElementState::Released, MouseButton::Left)
}

/// Whether the event is the release of the key `G`.
pub open spec fn asks_for_outlines(e: Event) -> bool {
    e == Event::KeyboardInput(ElementState::Released, Some(VirtualKeyCode::G))
}

/// A mesh that arrives leaves the boxes as they are.
pub proof fn lemma_arrived<V>(leaves: Seq<Leaf<MeshStatus<V>>>, center: Point3, view: V)
    requires
        tiles(leaves, world()),
    ensures
        tiles(arrived(leaves, center, view), world()),
        arrived(leaves, center, view).len() == leaves.len(),
        forall|i: int|
            0 <= i < leaves.len() ==> (#[trigger] arrived(leaves, center, view)[i]).span
                == leaves[i].span,
{
    lemma_index_around(leaves, world(), center);
    lemma_same_spans(leaves, arrived(leaves, center, view), world());
}

/// Meshes that arrive leave the boxes as they are.
pub proof fn lemma_arrived_all<V, E>(
    leaves: Seq<Leaf<MeshStatus<V>>>,
    meshes: Seq<(Point3, Result<V, E>)>,
    n: int,
)
    requires
        tiles(leaves, world()),
    ensures
        tiles(arrived_all(leaves, meshes, n), world()),
        arrived_all(leaves, meshes, n).len() == leaves.len(),
        forall|i: int|
            0 <= i < leaves.len() ==> (#[trigger] arrived_all(leaves, meshes, n)[i]).span
                == leaves[i].span,
    decreases n,
{
    if n > 0 {
        lemma_arrived_all(leaves, meshes, n - 1);
        let before = arrived_all(leaves, meshes, n - 1);
        if let Ok(view) = meshes[n - 1].1 {
            lemma_arrived(before, meshes[n - 1].0, view);
        }
    }
}

/// Whether every mesh can be shown.
pub open spec fn all_shown<V, E>(meshes: Seq<(Point3, Result<V, E>)>) -> bool {
    forall|j: int| 0 <= j < meshes.len() ==> (#[trigger] meshes[j]).1 is Ok
}

/// Whether mesh `k` is the first that cannot be shown.
pub open spec fn first_failure<V, E>(meshes: Seq<(Point3, Result<V, E>)>, k: int) -> bool {
    &&& 0 <= k < meshes.len()
    &&& meshes[k].1 is Err
    &&& forall|j: int| 0 <= j < k ==> (#[trigger] meshes[j]).1 is Ok
}

/// The first mesh that cannot be shown.
pub open spec fn failed_at<V, E>(meshes: Seq<(Point3, Result<V, E>)>) -> int {
    choose|k: int| first_failure(meshes, k)
}

/// The leaves once the box around the focus is cut, if that was asked for.
pub open spec fn leaves_after_split<Sh, V>(mesh: &ShapeMesh<Sh, V>, focus: Option<Point3>) -> Seq<
    Leaf<MeshStatus<V>>,
> {
    if mesh.splits_next() {
        split_leaves(mesh.leaves(), focus->0)
    } else {
        mesh.leaves()
    }
}

/// Whether `to` is `from` after an update in which every mesh can be shown, and
/// `requests` are the boxes whose meshes are then to be generated.
pub open spec fn updated<Sh, V, E>(
    from: &ShapeMesh<Sh, V>,
    to: &ShapeMesh<Sh, V>,
    focus: Option<Point3>,
    meshes: Seq<(Point3, Result<V, E>)>,
    requests: Seq<Span>,
) -> bool {
    let leaves = arrived_all(leaves_after_split(from, focus), meshes, meshes.len() as int);
    &&& to.same_settings(from)
    &&& !to.splits_next()
    &&& requests == empty_spans(leaves)
    &&& to.leaves() == requested_leaves(leaves)
    &&& to.jobs() == from.jobs() - meshes.len() + requests.len()
}

/// Whether `to` is `from` after an update that ended with the first mesh that
/// cannot be shown, and `e` is the reason why it cannot.
pub open spec fn interrupted<Sh, V, E>(
    from: &ShapeMesh<Sh, V>,
    to: &ShapeMesh<Sh, V>,
    focus: Option<Point3>,
    meshes: Seq<(Point3, Result<V, E>)>,
    e: E,
) -> bool {
    let k = failed_at(meshes);
    &&& to.same_settings(from)
    &&& !to.splits_next()
    &&& meshes[k].1 == Err::<V, E>(e)
    &&& to.leaves() == arrived_all(leaves_after_split(from, focus), meshes, k)
    &&& to.jobs() == from.jobs() - k - 1
}

/// Whether the box around a point can be cut: it is more than one unit wide, and there
/// is room for its octants.
pub open spec fn can_cut<Sh, V>(mesh: &ShapeMesh<Sh, V>, p: Point3) -> bool {
    &&& mesh.leaves()[index_around(mesh.leaves(), world(), p)].span.divisible()
    &&& mesh.leaves().len() + 7 <= MAX_BOXES
}

/// What an update returns.
pub open spec fn answer<E>(boxes: Result<Vec<Span>, E>) -> Result<Seq<Span>, E> {
    match boxes {
        Ok(requests) => Ok(requests@),
        Err(e) => Err(e),
    }
}

/// Whether `to` is `from` after an update, and `boxes` is what the update returns: the
/// boxes whose meshes are to be generated if every mesh can be shown, and else the
/// reason why one cannot.
pub open spec fn answered<Sh, V, E>(
    from: &ShapeMesh<Sh, V>,
    to: &ShapeMesh<Sh, V>,
    focus: Option<Point3>,
    meshes: Seq<(Point3, Result<V, E>)>,
    boxes: Result<Seq<Span>, E>,
) -> bool {
    match boxes {
        Ok(requests) => all_shown(meshes) && updated(from, to, focus, meshes, requests),
        Err(e) => !all_shown(meshes) && interrupted(from, to, focus, meshes, e),
    }
}

/// The boxes at the start: the whole box is cut twice, and no box has a mesh.
pub open spec fn first_leaves<V>() -> Seq<Leaf<MeshStatus<V>>> {
    Seq::new(
        64,
        |i: int| Leaf { span: world().octant(i / 8).octant(i % 8), data: None::<MeshStatus<V>> },
    )
}

} // verus!
