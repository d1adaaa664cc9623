//! What updates, requests and drawings come to, box by box and point by point.
//!
//! Space reaches along each axis from `-0x100_0000_0000` up to but without
//! `0x100_0000_0000`. A point beyond it counts as the nearest point of space.

use crate::event::{ElementState, Event, MouseButton, VirtualKeyCode};
use crate::laws::lemma_failed_at;
use crate::mesh::{
    all_shown, answered, arrived, arrived_all, drawing, draws, drawn, failed_at, first_failure,
    first_leaves, leaves_after_split, reaction, requested_leaves, shown, shown_leaves,
    split_leaves, world, DrawCall, MeshStatus, ShapeMesh,
};
use crate::octree::{
    empty_octants, empty_spans, index_around, leaf_holds, lemma_index_around, lemma_same_spans,
    lemma_split_tiles, splice, tiles, Leaf,
};
use crate::places::lemma_places;
use crate::span::{lemma_octant, lemma_octant_sides, Point3, Span};
use vstd::prelude::*;

verus! {

/// Whether a box holds the point of space nearest to a point.
spec fn inside(s: Span, c: Point3) -> bool {
    let nx = if c.x < -0x100_0000_0000 {
        -0x100_0000_0000
    } else if c.x >= 0x100_0000_0000 {
        0x100_0000_0000 - 1
    } else {
        c.x as int
    };
    let ny = if c.y < -0x100_0000_0000 {
        -0x100_0000_0000
    } else if c.y >= 0x100_0000_0000 {
        0x100_0000_0000 - 1
    } else {
        c.y as int
    };
    let nz = if c.z < -0x100_0000_0000 {
        -0x100_0000_0000
    } else if c.z >= 0x100_0000_0000 {
        0x100_0000_0000 - 1
    } else {
        c.z as int
    };
    &&& s.start.x <= nx < s.end.x
    &&& s.start.y <= ny < s.end.y
    &&& s.start.z <= nz < s.end.z
}

proof fn lemma_inside<T>(leaves: Seq<Leaf<T>>, i: int, p: Point3)
    requires
        tiles(leaves, world()),
        0 <= i < leaves.len(),
    ensures
        inside(leaves[i].span, p) <==> i == index_around(leaves, world(), p),
        0 <= index_around(leaves, world(), p) < leaves.len(),
{
    lemma_index_around(leaves, world(), p);
    assert(leaf_holds(leaves, i, world().nearest_to(p)) == inside(leaves[i].span, p));
}

/// What becomes of a box while meshes arrive.
proof fn lemma_arrivals<V, E>(
    leaves: Seq<Leaf<MeshStatus<V>>>,
    meshes: Seq<(Point3, Result<V, E>)>,
    n: int,
    j: int,
)
    requires
        tiles(leaves, world()),
        0 <= n <= meshes.len(),
        forall|k: int| 0 <= k < n ==> (#[trigger] meshes[k]).1 is Ok,
        0 <= j < leaves.len(),
    ensures
        tiles(arrived_all(leaves, meshes, n), world()),
        arrived_all(leaves, meshes, n).len() == leaves.len(),
        arrived_all(leaves, meshes, n)[j].span == leaves[j].span,
        (forall|k: int| 0 <= k < n ==> !inside(leaves[j].span, (#[trigger] meshes[k]).0))
            ==> arrived_all(leaves, meshes, n)[j] == leaves[j],
        forall|k: int|
            0 <= k < n && inside(leaves[j].span, (#[trigger] meshes[k]).0) && (forall|l: int|
                k < l < n ==> !inside(leaves[j].span, (#[trigger] meshes[l]).0)) ==> arrived_all(
                leaves,
                meshes,
                n,
            )[j].data == Some(MeshStatus::Ready(meshes[k].1->Ok_0)),
    decreases n,
{
    if n > 0 {
        lemma_arrivals(leaves, meshes, n - 1, j);
        let before = arrived_all(leaves, meshes, n - 1);
        let center = meshes[n - 1].0;
        assert(meshes[n - 1].1 is Ok);
        lemma_inside(before, j, center);
        let i = index_around(before, world(), center);
        let ready = Leaf {
            span: before[i].span,
            data: Some(MeshStatus::Ready(meshes[n - 1].1->Ok_0)),
        };
        let after = arrived_all(leaves, meshes, n);
        assert(after == before.update(i, ready));
        lemma_same_spans(before, after, world());
        assert forall|k: int|
            0 <= k < n && inside(leaves[j].span, (#[trigger] meshes[k]).0) && (forall|l: int|
                k < l < n ==> !inside(
                    leaves[j].span,
                    (#[trigger] meshes[l]).0,
                )) implies after[j].data == Some(MeshStatus::Ready(meshes[k].1->Ok_0)) by {
            if k < n - 1 {
                assert(!inside(leaves[j].span, meshes[n - 1].0));
            }
        }
    }
}

/// Whether the box in focus, if it is to be cut, is at least two units wide along each
/// axis.
spec fn wide_enough<Sh, V>(from: &ShapeMesh<Sh, V>, focus: Option<Point3>) -> bool {
    from.splits_next() ==> focus is Some && forall|i: int|
        #![trigger from.leaves()[i]]
        0 <= i < from.leaves().len() && inside(from.leaves()[i].span, focus->0) ==> {
            let s = from.leaves()[i].span;
            s.end.x - s.start.x >= 2 && s.end.y - s.start.y >= 2 && s.end.z - s.start.z >= 2
        }
}

/// The boxes once the one in focus is cut, if that was asked for.
proof fn lemma_after_split<Sh, V>(from: &ShapeMesh<Sh, V>, focus: Option<Point3>) -> (c: int)
    requires
        from.wf(),
        wide_enough(from, focus),
    ensures
        tiles(from.leaves(), world()),
        tiles(leaves_after_split(from, focus), world()),
        !from.splits_next() ==> leaves_after_split(from, focus) == from.leaves(),
        from.splits_next() ==> {
            &&& 0 <= c < from.leaves().len()
            &&& inside(from.leaves()[c].span, focus->0)
            &&& leaves_after_split(from, focus) == splice(
                from.leaves(),
                c,
                empty_octants::<MeshStatus<V>>(from.leaves()[c].span),
            )
        },
{
    from.lemma_tiles();
    let leaves = from.leaves();
    if from.splits_next() {
        lemma_index_around(leaves, world(), focus->0);
        let c = index_around(leaves, world(), focus->0);
        lemma_inside(leaves, c, focus->0);
        assert(leaves[c].span.divisible());
        lemma_split_tiles(leaves, world(), c);
        assert(leaves_after_split(from, focus) == split_leaves(leaves, focus->0));
        c
    } else {
        0
    }
}

/// After an update the boxes are those before it, one by one, except that where a click
/// came before it the box around the focus is replaced by its eight octants: the first
/// four below the middle along x, the first two of each four below it along y, the
/// first of each two below it along z. Gives the place of the box that is cut.
pub proof fn lemma_boxes_after_update<Sh, V, E>(
    from: &ShapeMesh<Sh, V>,
    to: &ShapeMesh<Sh, V>,
    focus: Option<Point3>,
    meshes: Seq<(Point3, Result<V, E>)>,
    boxes: Result<Seq<Span>, E>,
) -> (c: int)
    requires
        from.wf(),
        answered(from, to, focus, meshes, boxes),
        from.splits_next() ==> focus is Some && forall|i: int|
            #![trigger from.leaves()[i]]
            0 <= i < from.leaves().len() && ({
                let nx = if focus->0.x < -0x100_0000_0000 {
                    -0x100_0000_0000
                } else if focus->0.x >= 0x100_0000_0000 {
                    0x100_0000_0000 - 1
                } else {
                    focus->0.x as int
                };
                let ny = if focus->0.y < -0x100_0000_0000 {
                    -0x100_0000_0000
                } else if focus->0.y >= 0x100_0000_0000 {
                    0x100_0000_0000 - 1
                } else {
                    focus->0.y as int
                };
                let nz = if focus->0.z < -0x100_0000_0000 {
                    -0x100_0000_0000
                } else if focus->0.z >= 0x100_0000_0000 {
                    0x100_0000_0000 - 1
                } else {
                    focus->0.z as int
                };
                &&& from.leaves()[i].span.start.x <= nx < from.leaves()[i].span.end.x
                &&& from.leaves()[i].span.start.y <= ny < from.leaves()[i].span.end.y
                &&& from.leaves()[i].span.start.z <= nz < from.leaves()[i].span.end.z
            }) ==> {
                let s = from.leaves()[i].span;
                s.end.x - s.start.x >= 2 && s.end.y - s.start.y >= 2 && s.end.z - s.start.z >= 2
            },
    ensures
        !to.splits_next(),
        to.the_shape() == from.the_shape(),
        to.threads() == from.threads(),
        to.outlines() == from.outlines(),
        !from.splits_next() ==> to.leaves().len() == from.leaves().len() && forall|j: int|
            0 <= j < to.leaves().len() ==> (#[trigger] to.leaves()[j]).span
                == from.leaves()[j].span,
        from.splits_next() ==> 0 <= c < from.leaves().len() && to.leaves().len()
            == from.leaves().len() + 7 && ({
            let nx = if focus->0.x < -0x100_0000_0000 {
                -0x100_0000_0000
            } else if focus->0.x >= 0x100_0000_0000 {
                0x100_0000_0000 - 1
            } else {
                focus->0.x as int
            };
            let ny = if focus->0.y < -0x100_0000_0000 {
                -0x100_0000_0000
            } else if focus->0.y >= 0x100_0000_0000 {
                0x100_0000_0000 - 1
            } else {
                focus->0.y as int
            };
            let nz = if focus->0.z < -0x100_0000_0000 {
                -0x100_0000_0000
            } else if focus->0.z >= 0x100_0000_0000 {
                0x100_0000_0000 - 1
            } else {
                focus->0.z as int
            };
            &&& from.leaves()[c].span.start.x <= nx < from.leaves()[c].span.end.x
            &&& from.leaves()[c].span.start.y <= ny < from.leaves()[c].span.end.y
            &&& from.leaves()[c].span.start.z <= nz < from.leaves()[c].span.end.z
        }),
        from.splits_next() ==> forall|j: int|
            #![trigger to.leaves()[j]]
            0 <= j < to.leaves().len() ==> {
                let s = to.leaves()[j].span;
                let cut = from.leaves()[c].span;
                let mx = cut.start.x + (cut.end.x - cut.start.x) / 2;
                let my = cut.start.y + (cut.end.y - cut.start.y) / 2;
                let mz = cut.start.z + (cut.end.z - cut.start.z) / 2;
                let k = j - c;
                let upper_x = k == 4 || k == 5 || k == 6 || k == 7;
                let upper_y = k == 2 || k == 3 || k == 6 || k == 7;
                let upper_z = k == 1 || k == 3 || k == 5 || k == 7;
                if j < c {
                    s == from.leaves()[j].span
                } else if j >= c + 8 {
                    s == from.leaves()[j - 7].span
                } else {
                    &&& upper_x ==> s.start.x == mx && s.end.x == cut.end.x
                    &&& !upper_x ==> s.start.x == cut.start.x && s.end.x == mx
                    &&& upper_y ==> s.start.y == my && s.end.y == cut.end.y
                    &&& !upper_y ==> s.start.y == cut.start.y && s.end.y == my
                    &&& upper_z ==> s.start.z == mz && s.end.z == cut.end.z
                    &&& !upper_z ==> s.start.z == cut.start.z && s.end.z == mz
                }
            },
{
    assert(wide_enough(from, focus));
    let c = lemma_after_split(from, focus);
    let start = leaves_after_split(from, focus);
    lemma_shown_up_to(meshes, boxes is Ok);
    let n = if boxes is Ok {
        meshes.len() as int
    } else {
        failed_at(meshes)
    };
    assert(start.len() > 0) by {
        lemma_index_around(start, world(), world().start);
    }
    lemma_arrivals(start, meshes, n, 0);
    assert forall|j: int| 0 <= j < start.len() implies (#[trigger] to.leaves()[j]).span
        == start[j].span by {
        lemma_arrivals(start, meshes, n, j);
    }
    assert(to.leaves().len() == start.len());
    if from.splits_next() {
        let cut = from.leaves()[c].span;
        assert forall|j: int| #![trigger to.leaves()[j]] 0 <= j < to.leaves().len() implies {
            let s = to.leaves()[j].span;
            let mx = cut.start.x + (cut.end.x - cut.start.x) / 2;
            let my = cut.start.y + (cut.end.y - cut.start.y) / 2;
            let mz = cut.start.z + (cut.end.z - cut.start.z) / 2;
            let k = j - c;
            let upper_x = k == 4 || k == 5 || k == 6 || k == 7;
            let upper_y = k == 2 || k == 3 || k == 6 || k == 7;
            let upper_z = k == 1 || k == 3 || k == 5 || k == 7;
            if j < c {
                s == from.leaves()[j].span
            } else if j >= c + 8 {
                s == from.leaves()[j - 7].span
            } else {
                &&& upper_x ==> s.start.x == mx && s.end.x == cut.end.x
                &&& !upper_x ==> s.start.x == cut.start.x && s.end.x == mx
                &&& upper_y ==> s.start.y == my && s.end.y == cut.end.y
                &&& !upper_y ==> s.start.y == cut.start.y && s.end.y == my
                &&& upper_z ==> s.start.z == mz && s.end.z == cut.end.z
                &&& !upper_z ==> s.start.z == cut.start.z && s.end.z == mz
            }
        } by {
            assert(to.leaves()[j].span == start[j].span);
            if c <= j < c + 8 {
                assert(start[j].span == cut.octant(j - c));
                lemma_octant_sides(cut, j - c, cut.start);
            }
        }
    }
    c
}

proof fn lemma_shown_up_to<V, E>(meshes: Seq<(Point3, Result<V, E>)>, all: bool)
    requires
        all == all_shown(meshes),
    ensures
        all ==> forall|k: int| 0 <= k < meshes.len() ==> (#[trigger] meshes[k]).1 is Ok,
        !all ==> 0 <= failed_at(meshes) < meshes.len() && forall|k: int|
            0 <= k < failed_at(meshes) ==> (#[trigger] meshes[k]).1 is Ok,
{
    if !all {
        lemma_failed_at(meshes);
    }
}

/// After an update in which every mesh can be shown, a box holds the last mesh that
/// arrived for a point of it, ready to be shown, and no mesh is requested for it.
pub proof fn lemma_arrival_shown<Sh, V, E>(
    from: &ShapeMesh<Sh, V>,
    to: &ShapeMesh<Sh, V>,
    focus: Option<Point3>,
    meshes: Seq<(Point3, Result<V, E>)>,
    requests: Seq<Span>,
    j: int,
    k: int,
)
    requires
        from.wf(),
        answered(from, to, focus, meshes, Ok(requests)),
        from.splits_next() ==> focus is Some && forall|i: int|
            #![trigger from.leaves()[i]]
            0 <= i < from.leaves().len() && ({
                let nx = if focus->0.x < -0x100_0000_0000 {
                    -0x100_0000_0000
                } else if focus->0.x >= 0x100_0000_0000 {
                    0x100_0000_0000 - 1
                } else {
                    focus->0.x as int
                };
                let ny = if focus->0.y < -0x100_0000_0000 {
                    -0x100_0000_0000
                } else if focus->0.y >= 0x100_0000_0000 {
                    0x100_0000_0000 - 1
                } else {
                    focus->0.y as int
                };
                let nz = if focus->0.z < -0x100_0000_0000 {
                    -0x100_0000_0000
                } else if focus->0.z >= 0x100_0000_0000 {
                    0x100_0000_0000 - 1
                } else {
                    focus->0.z as int
                };
                &&& from.leaves()[i].span.start.x <= nx < from.leaves()[i].span.end.x
                &&& from.leaves()[i].span.start.y <= ny < from.leaves()[i].span.end.y
                &&& from.leaves()[i].span.start.z <= nz < from.leaves()[i].span.end.z
            }) ==> {
                let s = from.leaves()[i].span;
                s.end.x - s.start.x >= 2 && s.end.y - s.start.y >= 2 && s.end.z - s.start.z >= 2
            },
        0 <= j < to.leaves().len(),
        0 <= k < meshes.len(),
        ({
            let nx = if meshes[k].0.x < -0x100_0000_0000 {
                -0x100_0000_0000
            } else if meshes[k].0.x >= 0x100_0000_0000 {
                0x100_0000_0000 - 1
            } else {
                meshes[k].0.x as int
            };
            let ny = if meshes[k].0.y < -0x100_0000_0000 {
                -0x100_0000_0000
            } else if meshes[k].0.y >= 0x100_0000_0000 {
                0x100_0000_0000 - 1
            } else {
                meshes[k].0.y as int
            };
            let nz = if meshes[k].0.z < -0x100_0000_0000 {
                -0x100_0000_0000
            } else if meshes[k].0.z >= 0x100_0000_0000 {
                0x100_0000_0000 - 1
            } else {
                meshes[k].0.z as int
            };
            &&& to.leaves()[j].span.start.x <= nx < to.leaves()[j].span.end.x
            &&& to.leaves()[j].span.start.y <= ny < to.leaves()[j].span.end.y
            &&& to.leaves()[j].span.start.z <= nz < to.leaves()[j].span.end.z
        }),
        forall|l: int|
            #![trigger meshes[l]]
            k < l < meshes.len() ==> !({
                let nx = if meshes[l].0.x < -0x100_0000_0000 {
                    -0x100_0000_0000
                } else if meshes[l].0.x >= 0x100_0000_0000 {
                    0x100_0000_0000 - 1
                } else {
                    meshes[l].0.x as int
                };
                let ny = if meshes[l].0.y < -0x100_0000_0000 {
                    -0x100_0000_0000
                } else if meshes[l].0.y >= 0x100_0000_0000 {
                    0x100_0000_0000 - 1
                } else {
                    meshes[l].0.y as int
                };
                let nz = if meshes[l].0.z < -0x100_0000_0000 {
                    -0x100_0000_0000
                } else if meshes[l].0.z >= 0x100_0000_0000 {
                    0x100_0000_0000 - 1
                } else {
                    meshes[l].0.z as int
                };
                &&& to.leaves()[j].span.start.x <= nx < to.leaves()[j].span.end.x
                &&& to.leaves()[j].span.start.y <= ny < to.leaves()[j].span.end.y
                &&& to.leaves()[j].span.start.z <= nz < to.leaves()[j].span.end.z
            }),
    ensures
        meshes[k].1 is Ok,
        to.leaves()[j].data == Some(MeshStatus::Ready(meshes[k].1->Ok_0)),
        !requests.contains(to.leaves()[j].span),
{
    assert(wide_enough(from, focus));
    lemma_after_split(from, focus);
    let start = leaves_after_split(from, focus);
    let n = meshes.len() as int;
    lemma_shown_up_to(meshes, true);
    let leaves = arrived_all(start, meshes, n);
    lemma_index_around(start, world(), world().start);
    lemma_arrivals(start, meshes, n, 0);
    assert(to.leaves().len() == start.len());
    lemma_arrivals(start, meshes, n, j);
    assert(to.leaves()[j].span == start[j].span);
    assert(inside(start[j].span, meshes[k].0));
    assert forall|l: int| k < l < n implies !inside(start[j].span, (#[trigger] meshes[l]).0) by {}
    assert(leaves[j].data == Some(MeshStatus::Ready(meshes[k].1->Ok_0)));
    if requests.contains(to.leaves()[j].span) {
        let m = choose|m: int| 0 <= m < requests.len() && requests[m] == to.leaves()[j].span;
        let empty = |leaf: Leaf<MeshStatus<V>>| leaf.data is None;
        let at = lemma_places(leaves, empty);
        assert(requests[m] == leaves[at[m]].span && empty(leaves[at[m]]));
        lemma_one_of_span(leaves, at[m], j);
    }
}

/// No two boxes are the same.
proof fn lemma_one_of_span<T>(leaves: Seq<Leaf<T>>, i: int, j: int)
    requires
        tiles(leaves, world()),
        0 <= i < leaves.len(),
        0 <= j < leaves.len(),
        leaves[i].span == leaves[j].span,
    ensures
        i == j,
{
    assert(leaf_holds(leaves, i, leaves[i].span.start));
    assert(leaf_holds(leaves, j, leaves[i].span.start));
}

/// A mesh that arrives with the center of a box is shown in that box after the update,
/// unless another mesh arrives later for a point of the box.
pub proof fn lemma_center_shown<Sh, V, E>(
    from: &ShapeMesh<Sh, V>,
    to: &ShapeMesh<Sh, V>,
    focus: Option<Point3>,
    meshes: Seq<(Point3, Result<V, E>)>,
    requests: Seq<Span>,
    j: int,
    k: int,
)
    requires
        from.wf(),
        answered(from, to, focus, meshes, Ok(requests)),
        from.splits_next() ==> focus is Some && forall|i: int|
            #![trigger from.leaves()[i]]
            0 <= i < from.leaves().len() && ({
                let nx = if focus->0.x < -0x100_0000_0000 {
                    -0x100_0000_0000
                } else if focus->0.x >= 0x100_0000_0000 {
                    0x100_0000_0000 - 1
                } else {
                    focus->0.x as int
                };
                let ny = if focus->0.y < -0x100_0000_0000 {
                    -0x100_0000_0000
                } else if focus->0.y >= 0x100_0000_0000 {
                    0x100_0000_0000 - 1
                } else {
                    focus->0.y as int
                };
                let nz = if focus->0.z < -0x100_0000_0000 {
                    -0x100_0000_0000
                } else if focus->0.z >= 0x100_0000_0000 {
                    0x100_0000_0000 - 1
                } else {
                    focus->0.z as int
                };
                &&& from.leaves()[i].span.start.x <= nx < from.leaves()[i].span.end.x
                &&& from.leaves()[i].span.start.y <= ny < from.leaves()[i].span.end.y
                &&& from.leaves()[i].span.start.z <= nz < from.leaves()[i].span.end.z
            }) ==> {
                let s = from.leaves()[i].span;
                s.end.x - s.start.x >= 2 && s.end.y - s.start.y >= 2 && s.end.z - s.start.z >= 2
            },
        0 <= j < to.leaves().len(),
        0 <= k < meshes.len(),
        ({
            let s = to.leaves()[j].span;
            let c = meshes[k].0;
            &&& 0 <= (s.end.x - c.x) - (c.x - s.start.x) <= 1
            &&& 0 <= (s.end.y - c.y) - (c.y - s.start.y) <= 1
            &&& 0 <= (s.end.z - c.z) - (c.z - s.start.z) <= 1
        }),
        forall|l: int|
            #![trigger meshes[l]]
            k < l < meshes.len() ==> !({
                let nx = if meshes[l].0.x < -0x100_0000_0000 {
                    -0x100_0000_0000
                } else if meshes[l].0.x >= 0x100_0000_0000 {
                    0x100_0000_0000 - 1
                } else {
                    meshes[l].0.x as int
                };
                let ny = if meshes[l].0.y < -0x100_0000_0000 {
                    -0x100_0000_0000
                } else if meshes[l].0.y >= 0x100_0000_0000 {
                    0x100_0000_0000 - 1
                } else {
                    meshes[l].0.y as int
                };
                let nz = if meshes[l].0.z < -0x100_0000_0000 {
                    -0x100_0000_0000
                } else if meshes[l].0.z >= 0x100_0000_0000 {
                    0x100_0000_0000 - 1
                } else {
                    meshes[l].0.z as int
                };
                &&& to.leaves()[j].span.start.x <= nx < to.leaves()[j].span.end.x
                &&& to.leaves()[j].span.start.y <= ny < to.leaves()[j].span.end.y
                &&& to.leaves()[j].span.start.z <= nz < to.leaves()[j].span.end.z
            }),
    ensures
        meshes[k].1 is Ok,
        to.leaves()[j].data == Some(MeshStatus::Ready(meshes[k].1->Ok_0)),
        !requests.contains(to.leaves()[j].span),
{
    assert(wide_enough(from, focus));
    lemma_after_split(from, focus);
    let start = leaves_after_split(from, focus);
    let n = meshes.len() as int;
    lemma_shown_up_to(meshes, true);
    lemma_index_around(start, world(), world().start);
    lemma_arrivals(start, meshes, n, 0);
    assert(to.leaves().len() == start.len());
    lemma_arrivals(start, meshes, n, j);
    assert(to.leaves()[j].span == start[j].span);
    assert(start[j].span.wf() && world().covers(start[j].span));
    lemma_arrival_shown(from, to, focus, meshes, requests, j, k);
}

/// After an update in which every mesh can be shown, a box for which no mesh arrived has
/// what it had before the update, and if it had nothing, or is new, then its mesh is
/// requested.
pub proof fn lemma_box_without_arrival<Sh, V, E>(
    from: &ShapeMesh<Sh, V>,
    to: &ShapeMesh<Sh, V>,
    focus: Option<Point3>,
    meshes: Seq<(Point3, Result<V, E>)>,
    requests: Seq<Span>,
    j: int,
    i: int,
)
    requires
        from.wf(),
        answered(from, to, focus, meshes, Ok(requests)),
        from.splits_next() ==> focus is Some && forall|i: int|
            #![trigger from.leaves()[i]]
            0 <= i < from.leaves().len() && ({
                let nx = if focus->0.x < -0x100_0000_0000 {
                    -0x100_0000_0000
                } else if focus->0.x >= 0x100_0000_0000 {
                    0x100_0000_0000 - 1
                } else {
                    focus->0.x as int
                };
                let ny = if focus->0.y < -0x100_0000_0000 {
                    -0x100_0000_0000
                } else if focus->0.y >= 0x100_0000_0000 {
                    0x100_0000_0000 - 1
                } else {
                    focus->0.y as int
                };
                let nz = if focus->0.z < -0x100_0000_0000 {
                    -0x100_0000_0000
                } else if focus->0.z >= 0x100_0000_0000 {
                    0x100_0000_0000 - 1
                } else {
                    focus->0.z as int
                };
                &&& from.leaves()[i].span.start.x <= nx < from.leaves()[i].span.end.x
                &&& from.leaves()[i].span.start.y <= ny < from.leaves()[i].span.end.y
                &&& from.leaves()[i].span.start.z <= nz < from.leaves()[i].span.end.z
            }) ==> {
                let s = from.leaves()[i].span;
                s.end.x - s.start.x >= 2 && s.end.y - s.start.y >= 2 && s.end.z - s.start.z >= 2
            },
        0 <= j < to.leaves().len(),
        forall|l: int|
            #![trigger meshes[l]]
            0 <= l < meshes.len() ==> !({
                let nx = if meshes[l].0.x < -0x100_0000_0000 {
                    -0x100_0000_0000
                } else if meshes[l].0.x >= 0x100_0000_0000 {
                    0x100_0000_0000 - 1
                } else {
                    meshes[l].0.x as int
                };
                let ny = if meshes[l].0.y < -0x100_0000_0000 {
                    -0x100_0000_0000
                } else if meshes[l].0.y >= 0x100_0000_0000 {
                    0x100_0000_0000 - 1
                } else {
                    meshes[l].0.y as int
                };
                let nz = if meshes[l].0.z < -0x100_0000_0000 {
                    -0x100_0000_0000
                } else if meshes[l].0.z >= 0x100_0000_0000 {
                    0x100_0000_0000 - 1
                } else {
                    meshes[l].0.z as int
                };
                &&& to.leaves()[j].span.start.x <= nx < to.leaves()[j].span.end.x
                &&& to.leaves()[j].span.start.y <= ny < to.leaves()[j].span.end.y
                &&& to.leaves()[j].span.start.z <= nz < to.leaves()[j].span.end.z
            }),
    ensures
        0 <= i < from.leaves().len() && from.leaves()[i].span == to.leaves()[j].span
            && from.leaves()[i].data is Some ==> to.leaves()[j].data == from.leaves()[i].data
            && !requests.contains(to.leaves()[j].span),
        (forall|h: int|
            0 <= h < from.leaves().len() && (#[trigger] from.leaves()[h]).span
                == to.leaves()[j].span ==> from.leaves()[h].data is None) ==> to.leaves()[j].data
            == Some(MeshStatus::<V>::Requested { old_view: None }) && requests.contains(
            to.leaves()[j].span,
        ),
{
    assert(wide_enough(from, focus));
    let c = lemma_after_split(from, focus);
    let start = leaves_after_split(from, focus);
    let n = meshes.len() as int;
    lemma_shown_up_to(meshes, true);
    let leaves = arrived_all(start, meshes, n);
    lemma_index_around(start, world(), world().start);
    lemma_arrivals(start, meshes, n, 0);
    assert(to.leaves().len() == start.len());
    lemma_arrivals(start, meshes, n, j);
    assert(to.leaves()[j].span == start[j].span);
    assert forall|l: int| 0 <= l < n implies !inside(start[j].span, (#[trigger] meshes[l]).0) by {}
    assert(leaves[j] == start[j]);
    let empty = |leaf: Leaf<MeshStatus<V>>| leaf.data is None;
    let at = lemma_places(leaves, empty);
    if leaves[j].data is None {
        assert(empty(leaves[j]));
        let m = choose|m: int| 0 <= m < at.len() && at[m] == j;
        assert(requests[m] == leaves[at[m]].span);
    } else if requests.contains(to.leaves()[j].span) {
        let m = choose|m: int| 0 <= m < requests.len() && requests[m] == to.leaves()[j].span;
        assert(requests[m] == leaves[at[m]].span && empty(leaves[at[m]]));
        lemma_one_of_span(leaves, at[m], j);
    }
    let h = lemma_origin(from, focus, c, j);
    if 0 <= i < from.leaves().len() && from.leaves()[i].span == start[j].span {
        if h >= 0 {
            lemma_one_of_span(from.leaves(), i, h);
        }
    }
}

/// Where a box comes from: the place of the same box before the cut, or a number below
/// zero if it is one of the octants of the box that was cut.
proof fn lemma_origin<Sh, V>(
    from: &ShapeMesh<Sh, V>,
    focus: Option<Point3>,
    c: int,
    j: int,
) -> (h: int)
    requires
        tiles(from.leaves(), world()),
        wide_enough(from, focus),
        0 <= j < leaves_after_split(from, focus).len(),
        !from.splits_next() ==> leaves_after_split(from, focus) == from.leaves(),
        from.splits_next() ==> {
            &&& 0 <= c < from.leaves().len()
            &&& inside(from.leaves()[c].span, focus->0)
            &&& leaves_after_split(from, focus) == splice(
                from.leaves(),
                c,
                empty_octants::<MeshStatus<V>>(from.leaves()[c].span),
            )
        },
    ensures
        h >= 0 ==> h < from.leaves().len() && from.leaves()[h] == leaves_after_split(
            from,
            focus,
        )[j],
        h < 0 ==> leaves_after_split(from, focus)[j].data is None && forall|i: int|
            0 <= i < from.leaves().len() ==> (#[trigger] from.leaves()[i]).span
                != leaves_after_split(from, focus)[j].span,
{
    let leaves = from.leaves();
    let start = leaves_after_split(from, focus);
    if !from.splits_next() {
        j
    } else if j < c {
        assert(start[j] == leaves[j]);
        j
    } else if j >= c + 8 {
        assert(start[j] == leaves[j - 7]);
        j - 7
    } else {
        let cut = leaves[c].span;
        assert(cut.divisible());
        assert(start[j].span == cut.octant(j - c));
        lemma_octant(cut, j - c);
        assert forall|i: int| 0 <= i < leaves.len() implies (#[trigger] leaves[i]).span
            != start[j].span by {
            if leaves[i].span == start[j].span {
                let q = start[j].span.start;
                assert(leaf_holds(leaves, i, q));
                assert(leaf_holds(leaves, c, q));
            }
        }
        -1
    }
}

/// The boxes that an update returns are those that it marks as requested out of
/// nothing, in the order of the boxes, and for each of them a job is counted, in place
/// of those of the meshes that arrived. Gives the places of the boxes.
pub proof fn lemma_requests_of_update<Sh, V, E>(
    from: &ShapeMesh<Sh, V>,
    to: &ShapeMesh<Sh, V>,
    focus: Option<Point3>,
    meshes: Seq<(Point3, Result<V, E>)>,
    requests: Seq<Span>,
) -> (at: Seq<int>)
    requires
        from.wf(),
        answered(from, to, focus, meshes, Ok(requests)),
        from.splits_next() ==> focus is Some && forall|i: int|
            #![trigger from.leaves()[i]]
            0 <= i < from.leaves().len() && ({
                let nx = if focus->0.x < -0x100_0000_0000 {
                    -0x100_0000_0000
                } else if focus->0.x >= 0x100_0000_0000 {
                    0x100_0000_0000 - 1
                } else {
                    focus->0.x as int
                };
                let ny = if focus->0.y < -0x100_0000_0000 {
                    -0x100_0000_0000
                } else if focus->0.y >= 0x100_0000_0000 {
                    0x100_0000_0000 - 1
                } else {
                    focus->0.y as int
                };
                let nz = if focus->0.z < -0x100_0000_0000 {
                    -0x100_0000_0000
                } else if focus->0.z >= 0x100_0000_0000 {
                    0x100_0000_0000 - 1
                } else {
                    focus->0.z as int
                };
                &&& from.leaves()[i].span.start.x <= nx < from.leaves()[i].span.end.x
                &&& from.leaves()[i].span.start.y <= ny < from.leaves()[i].span.end.y
                &&& from.leaves()[i].span.start.z <= nz < from.leaves()[i].span.end.z
            }) ==> {
                let s = from.leaves()[i].span;
                s.end.x - s.start.x >= 2 && s.end.y - s.start.y >= 2 && s.end.z - s.start.z >= 2
            },
    ensures
        to.jobs() == from.jobs() - meshes.len() + requests.len(),
        at.len() == requests.len(),
        forall|m: int| 0 <= m < at.len() ==> 0 <= #[trigger] at[m] < to.leaves().len(),
        forall|m: int, n: int| 0 <= m < n < at.len() ==> #[trigger] at[m] < #[trigger] at[n],
        forall|m: int|
            #![trigger at[m]]
            0 <= m < at.len() ==> {
                &&& requests[m] == to.leaves()[at[m]].span
                &&& to.leaves()[at[m]].data == Some(MeshStatus::<V>::Requested { old_view: None })
            },
        to.the_shape() == from.the_shape() && to.threads() == from.threads() && to.outlines()
            == from.outlines(),
{
    assert(wide_enough(from, focus));
    lemma_after_split(from, focus);
    let start = leaves_after_split(from, focus);
    let n = meshes.len() as int;
    lemma_shown_up_to(meshes, true);
    let leaves = arrived_all(start, meshes, n);
    lemma_index_around(start, world(), world().start);
    lemma_arrivals(start, meshes, n, 0);
    let empty = |leaf: Leaf<MeshStatus<V>>| leaf.data is None;
    let at = lemma_places(leaves, empty);
    assert forall|m: int| #![trigger at[m]] 0 <= m < at.len() implies {
        &&& requests[m] == to.leaves()[at[m]].span
        &&& to.leaves()[at[m]].data == Some(MeshStatus::<V>::Requested { old_view: None })
    } by {
        assert(requests[m] == leaves[at[m]].span && empty(leaves[at[m]]));
    }
    at
}

/// An update that is interrupted returns the reason why the first mesh that cannot be
/// shown cannot. The meshes before it are shown in their boxes, every other box has
/// what it had before, and no mesh is requested. The jobs of the meshes up to that one
/// are done. Gives the place of that mesh.
pub proof fn lemma_interrupted_update<Sh, V, E>(
    from: &ShapeMesh<Sh, V>,
    to: &ShapeMesh<Sh, V>,
    focus: Option<Point3>,
    meshes: Seq<(Point3, Result<V, E>)>,
    e: E,
    j: int,
    i: int,
) -> (k: int)
    requires
        from.wf(),
        answered(from, to, focus, meshes, Err(e)),
        from.splits_next() ==> focus is Some && forall|i: int|
            #![trigger from.leaves()[i]]
            0 <= i < from.leaves().len() && ({
                let nx = if focus->0.x < -0x100_0000_0000 {
                    -0x100_0000_0000
                } else if focus->0.x >= 0x100_0000_0000 {
                    0x100_0000_0000 - 1
                } else {
                    focus->0.x as int
                };
                let ny = if focus->0.y < -0x100_0000_0000 {
                    -0x100_0000_0000
                } else if focus->0.y >= 0x100_0000_0000 {
                    0x100_0000_0000 - 1
                } else {
                    focus->0.y as int
                };
                let nz = if focus->0.z < -0x100_0000_0000 {
                    -0x100_0000_0000
                } else if focus->0.z >= 0x100_0000_0000 {
                    0x100_0000_0000 - 1
                } else {
                    focus->0.z as int
                };
                &&& from.leaves()[i].span.start.x <= nx < from.leaves()[i].span.end.x
                &&& from.leaves()[i].span.start.y <= ny < from.leaves()[i].span.end.y
                &&& from.leaves()[i].span.start.z <= nz < from.leaves()[i].span.end.z
            }) ==> {
                let s = from.leaves()[i].span;
                s.end.x - s.start.x >= 2 && s.end.y - s.start.y >= 2 && s.end.z - s.start.z >= 2
            },
        0 <= j < to.leaves().len(),
    ensures
        0 <= k < meshes.len(),
        meshes[k].1 == Err::<V, E>(e),
        forall|l: int| 0 <= l < k ==> (#[trigger] meshes[l]).1 is Ok,
        to.jobs() == from.jobs() - k - 1,
        forall|l: int|
            #![trigger meshes[l]]
            0 <= l < k && ({
                let nx = if meshes[l].0.x < -0x100_0000_0000 {
                    -0x100_0000_0000
                } else if meshes[l].0.x >= 0x100_0000_0000 {
                    0x100_0000_0000 - 1
                } else {
                    meshes[l].0.x as int
                };
                let ny = if meshes[l].0.y < -0x100_0000_0000 {
                    -0x100_0000_0000
                } else if meshes[l].0.y >= 0x100_0000_0000 {
                    0x100_0000_0000 - 1
                } else {
                    meshes[l].0.y as int
                };
                let nz = if meshes[l].0.z < -0x100_0000_0000 {
                    -0x100_0000_0000
                } else if meshes[l].0.z >= 0x100_0000_0000 {
                    0x100_0000_0000 - 1
                } else {
                    meshes[l].0.z as int
                };
                &&& to.leaves()[j].span.start.x <= nx < to.leaves()[j].span.end.x
                &&& to.leaves()[j].span.start.y <= ny < to.leaves()[j].span.end.y
                &&& to.leaves()[j].span.start.z <= nz < to.leaves()[j].span.end.z
            }) && (forall|h: int|
                #![trigger meshes[h]]
                l < h < k ==> !({
                    let nx = if meshes[h].0.x < -0x100_0000_0000 {
                        -0x100_0000_0000
                    } else if meshes[h].0.x >= 0x100_0000_0000 {
                        0x100_0000_0000 - 1
                    } else {
                        meshes[h].0.x as int
                    };
                    let ny = if meshes[h].0.y < -0x100_0000_0000 {
                        -0x100_0000_0000
                    } else if meshes[h].0.y >= 0x100_0000_0000 {
                        0x100_0000_0000 - 1
                    } else {
                        meshes[h].0.y as int
                    };
                    let nz = if meshes[h].0.z < -0x100_0000_0000 {
                        -0x100_0000_0000
                    } else if meshes[h].0.z >= 0x100_0000_0000 {
                        0x100_0000_0000 - 1
                    } else {
                        meshes[h].0.z as int
                    };
                    &&& to.leaves()[j].span.start.x <= nx < to.leaves()[j].span.end.x
                    &&& to.leaves()[j].span.start.y <= ny < to.leaves()[j].span.end.y
                    &&& to.leaves()[j].span.start.z <= nz < to.leaves()[j].span.end.z
                }))
                ==> to.leaves()[j].data == Some(MeshStatus::Ready(meshes[l].1->Ok_0)),
        (forall|l: int|
            #![trigger meshes[l]]
            0 <= l < k ==> !({
                let nx = if meshes[l].0.x < -0x100_0000_0000 {
                    -0x100_0000_0000
                } else if meshes[l].0.x >= 0x100_0000_0000 {
                    0x100_0000_0000 - 1
                } else {
                    meshes[l].0.x as int
                };
                let ny = if meshes[l].0.y < -0x100_0000_0000 {
                    -0x100_0000_0000
                } else if meshes[l].0.y >= 0x100_0000_0000 {
                    0x100_0000_0000 - 1
                } else {
                    meshes[l].0.y as int
                };
                let nz = if meshes[l].0.z < -0x100_0000_0000 {
                    -0x100_0000_0000
                } else if meshes[l].0.z >= 0x100_0000_0000 {
                    0x100_0000_0000 - 1
                } else {
                    meshes[l].0.z as int
                };
                &&& to.leaves()[j].span.start.x <= nx < to.leaves()[j].span.end.x
                &&& to.leaves()[j].span.start.y <= ny < to.leaves()[j].span.end.y
                &&& to.leaves()[j].span.start.z <= nz < to.leaves()[j].span.end.z
            })) ==> {
            &&& 0 <= i < from.leaves().len() && from.leaves()[i].span == to.leaves()[j].span
                ==> to.leaves()[j].data == from.leaves()[i].data
            &&& (forall|h: int|
                0 <= h < from.leaves().len() ==> (#[trigger] from.leaves()[h]).span
                    != to.leaves()[j].span) ==> to.leaves()[j].data is None
        },
{
    assert(wide_enough(from, focus));
    let c = lemma_after_split(from, focus);
    let start = leaves_after_split(from, focus);
    lemma_failed_at(meshes);
    let k = failed_at(meshes);
    assert(first_failure(meshes, k));
    lemma_index_around(start, world(), world().start);
    lemma_arrivals(start, meshes, k, 0);
    lemma_arrivals(start, meshes, k, j);
    let s = start[j].span;
    assert(to.leaves()[j].span == s);
    if forall|l: int| 0 <= l < k ==> !inside(s, (#[trigger] meshes[l]).0) {
        assert(to.leaves()[j] == start[j]);
        let h = lemma_origin(from, focus, c, j);
        if 0 <= i < from.leaves().len() && from.leaves()[i].span == s {
            if h >= 0 {
                lemma_one_of_span(from.leaves(), i, h);
            }
        }
        if h >= 0 {
            assert(from.leaves()[h].span == s);
        }
    }
    assert forall|l: int|
        0 <= l < k && inside(s, (#[trigger] meshes[l]).0) && (forall|h: int|
            l < h < k ==> !inside(s, (#[trigger] meshes[h]).0)) implies to.leaves()[j].data == Some(
        MeshStatus::Ready(meshes[l].1->Ok_0),
    ) by {}
    k
}

/// An update returns boxes exactly if every mesh can be shown.
pub proof fn lemma_update_succeeds<Sh, V, E>(
    from: &ShapeMesh<Sh, V>,
    to: &ShapeMesh<Sh, V>,
    focus: Option<Point3>,
    meshes: Seq<(Point3, Result<V, E>)>,
    boxes: Result<Seq<Span>, E>,
)
    requires
        answered(from, to, focus, meshes, boxes),
    ensures
        boxes is Ok <==> forall|k: int| 0 <= k < meshes.len() ==> (#[trigger] meshes[k]).1 is Ok,
{
}

/// A mesh that is accepted alone is shown in the box around its point, and no other box
/// changes.
pub proof fn lemma_accepted<V>(
    leaves: Seq<Leaf<MeshStatus<V>>>,
    center: Point3,
    view: V,
    j: int,
)
    requires
        tiles(leaves, world()),
        0 <= j < leaves.len(),
    ensures
        arrived(leaves, center, view).len() == leaves.len(),
        arrived(leaves, center, view)[j].span == leaves[j].span,
        ({
            let nx = if center.x < -0x100_0000_0000 {
                -0x100_0000_0000
            } else if center.x >= 0x100_0000_0000 {
                0x100_0000_0000 - 1
            } else {
                center.x as int
            };
            let ny = if center.y < -0x100_0000_0000 {
                -0x100_0000_0000
            } else if center.y >= 0x100_0000_0000 {
                0x100_0000_0000 - 1
            } else {
                center.y as int
            };
            let nz = if center.z < -0x100_0000_0000 {
                -0x100_0000_0000
            } else if center.z >= 0x100_0000_0000 {
                0x100_0000_0000 - 1
            } else {
                center.z as int
            };
            &&& leaves[j].span.start.x <= nx < leaves[j].span.end.x
            &&& leaves[j].span.start.y <= ny < leaves[j].span.end.y
            &&& leaves[j].span.start.z <= nz < leaves[j].span.end.z
        }) ==> arrived(leaves, center, view)[j].data == Some(MeshStatus::Ready(view)),
        !({
            let nx = if center.x < -0x100_0000_0000 {
                -0x100_0000_0000
            } else if center.x >= 0x100_0000_0000 {
                0x100_0000_0000 - 1
            } else {
                center.x as int
            };
            let ny = if center.y < -0x100_0000_0000 {
                -0x100_0000_0000
            } else if center.y >= 0x100_0000_0000 {
                0x100_0000_0000 - 1
            } else {
                center.y as int
            };
            let nz = if center.z < -0x100_0000_0000 {
                -0x100_0000_0000
            } else if center.z >= 0x100_0000_0000 {
                0x100_0000_0000 - 1
            } else {
                center.z as int
            };
            &&& leaves[j].span.start.x <= nx < leaves[j].span.end.x
            &&& leaves[j].span.start.y <= ny < leaves[j].span.end.y
            &&& leaves[j].span.start.z <= nz < leaves[j].span.end.z
        }) ==> arrived(leaves, center, view)[j].data == leaves[j].data,
{
    lemma_inside(leaves, j, center);
}

/// To request meshes marks the boxes with nothing as requested, and leaves the others
/// alone. The boxes that are given are those with nothing, in order. Gives their
/// places.
pub proof fn lemma_requested_boxes<V>(leaves: Seq<Leaf<MeshStatus<V>>>) -> (at: Seq<int>)
    ensures
        requested_leaves(leaves).len() == leaves.len(),
        forall|j: int|
            #![trigger requested_leaves(leaves)[j]]
            0 <= j < leaves.len() ==> {
                &&& requested_leaves(leaves)[j].span == leaves[j].span
                &&& leaves[j].data is Some ==> requested_leaves(leaves)[j].data == leaves[j].data
                &&& leaves[j].data is None ==> requested_leaves(leaves)[j].data == Some(
                    MeshStatus::<V>::Requested { old_view: None },
                )
            },
        at.len() == empty_spans(leaves).len(),
        forall|m: int| 0 <= m < at.len() ==> 0 <= #[trigger] at[m] < leaves.len(),
        forall|m: int, n: int| 0 <= m < n < at.len() ==> #[trigger] at[m] < #[trigger] at[n],
        forall|m: int|
            0 <= m < at.len() ==> leaves[#[trigger] at[m]].data is None && empty_spans(leaves)[m]
                == leaves[at[m]].span,
        forall|j: int|
            0 <= j < leaves.len() && (#[trigger] leaves[j]).data is None ==> at.contains(j),
{
    let empty = |leaf: Leaf<MeshStatus<V>>| leaf.data is None;
    let at = lemma_places(leaves, empty);
    assert forall|m: int| 0 <= m < at.len() implies leaves[#[trigger] at[m]].data is None
        && empty_spans(leaves)[m] == leaves[at[m]].span by {
        assert(leaves.filter(empty)[m] == leaves[at[m]] && empty(leaves[at[m]]));
    }
    assert forall|j: int| 0 <= j < leaves.len() && (
    #[trigger] leaves[j]).data is None implies at.contains(j) by {
        assert(empty(leaves[j]));
    }
    at
}

/// There is one draw call for each box whose mesh is ready or that still has an old one,
/// in the order of the boxes, and no other. It draws that mesh, and the outline of that
/// box, if boxes are outlined, highlighted exactly if the focus lies in the box. Gives
/// the places of the boxes.
pub proof fn lemma_drawn_boxes<V>(
    leaves: Seq<Leaf<MeshStatus<V>>>,
    outlines: bool,
    focus: Point3,
    calls: Seq<DrawCall<'_, V>>,
) -> (at: Seq<int>)
    requires
        draws(leaves, outlines, focus, calls),
    ensures
        at.len() == calls.len(),
        forall|m: int| 0 <= m < at.len() ==> 0 <= #[trigger] at[m] < leaves.len(),
        forall|m: int, n: int| 0 <= m < n < at.len() ==> #[trigger] at[m] < #[trigger] at[n],
        forall|m: int|
            #![trigger at[m]]
            0 <= m < at.len() ==> match leaves[at[m]].data {
                Some(MeshStatus::Ready(view)) => *calls[m].view == view,
                Some(MeshStatus::Requested { old_view: Some(view) }) => *calls[m].view == view,
                _ => false,
            },
        forall|m: int|
            #![trigger at[m]]
            0 <= m < at.len() ==> {
                let s = leaves[at[m]].span;
                let around = s.start.x <= focus.x < s.end.x && s.start.y <= focus.y < s.end.y
                    && s.start.z <= focus.z < s.end.z;
                match calls[m].outline {
                    Some((outlined, highlight)) => {
                        outlines && outlined == s && highlight == around
                    },
                    None => !outlines,
                }
            },
        forall|i: int|
            #![trigger leaves[i]]
            0 <= i < leaves.len() && (match leaves[i].data {
                Some(MeshStatus::Ready(_)) => true,
                Some(MeshStatus::Requested { old_view }) => old_view is Some,
                None => false,
            }) ==> at.contains(i),
{
    let pred = |leaf: Leaf<MeshStatus<V>>| shown(leaf.data) is Some;
    let at = lemma_places(leaves, pred);
    let all = drawing(leaves, outlines, focus);
    assert(drawn(calls).len() == calls.len());
    assert(shown_leaves(leaves) == leaves.filter(pred));
    assert forall|m: int| 0 <= m < at.len() implies *calls[m].view == all[m].0 && calls[m].outline
        == all[m].1 && shown_leaves(leaves)[m] == leaves[#[trigger] at[m]]
        && shown(leaves[at[m]].data) is Some by {
        assert(drawn(calls)[m] == (*calls[m].view, calls[m].outline));
        assert(pred(leaves[at[m]]));
    }
    assert forall|i: int|
        #![trigger leaves[i]]
        0 <= i < leaves.len() && (match leaves[i].data {
            Some(MeshStatus::Ready(_)) => true,
            Some(MeshStatus::Requested { old_view }) => old_view is Some,
            None => false,
        }) implies at.contains(i) by {
        assert(pred(leaves[i]));
    }
    at
}

/// The boxes at the start are cubes of the same size without meshes, four along each
/// axis. Each eight of them fill a cube of twice the size, in the order of the octants,
/// and so do the cubes of twice the size.
pub proof fn lemma_first_boxes<V>(i: int)
    requires
        0 <= i < 64,
    ensures
        first_leaves::<V>().len() == 64,
        first_leaves::<V>()[i].data is None,
        ({
            let s = first_leaves::<V>()[i].span;
            let side = 0x80_0000_0000int;
            &&& s.start.x == side * (2 * (i / 32) + i / 4 % 2 - 2)
            &&& s.start.y == side * (2 * (i / 16 % 2) + i / 2 % 2 - 2)
            &&& s.start.z == side * (2 * (i / 8 % 2) + i % 2 - 2)
            &&& s.end.x == s.start.x + side
            &&& s.end.y == s.start.y + side
            &&& s.end.z == s.start.z + side
        }),
{
    let large = world().octant(i / 8);
    lemma_cube_octant(world(), i / 8, 0x100_0000_0000);
    lemma_cube_octant(large, i % 8, 0x80_0000_0000);
    assert(i / 8 / 4 == i / 32 && i / 8 / 2 % 2 == i / 16 % 2);
    assert(i % 8 / 4 == i / 4 % 2 && i % 8 / 2 % 2 == i / 2 % 2 && i % 8 % 2 == i % 2);
}

/// The octants of a cube are cubes of half the size.
proof fn lemma_cube_octant(cube: Span, k: int, half: int)
    requires
        0 < half <= 0x100_0000_0000,
        cube.end.x == cube.start.x + 2 * half,
        cube.end.y == cube.start.y + 2 * half,
        cube.end.z == cube.start.z + 2 * half,
        0 <= k < 8,
    ensures
        ({
            let o = cube.octant(k);
            &&& o.start.x == cube.start.x + half * (k / 4)
            &&& o.start.y == cube.start.y + half * (k / 2 % 2)
            &&& o.start.z == cube.start.z + half * (k % 2)
            &&& o.end.x == o.start.x + half
            &&& o.end.y == o.start.y + half
            &&& o.end.z == o.start.z + half
        }),
{
    let (a, b, c) = (k / 4, k / 2 % 2, k % 2);
    assert(a == 0 || a == 1);
    assert(b == 0 || b == 1);
    assert(c == 0 || c == 1);
    assert(half * 0 == 0 && half * 1 == half) by (nonlinear_arith);
}

/// Every point of space lies in exactly one box, and every box lies in space and is not
/// empty.
pub proof fn lemma_boxes_fill_space<Sh, V>(mesh: &ShapeMesh<Sh, V>, p: Point3, j: int) -> (i: int)
    requires
        mesh.wf(),
        -0x100_0000_0000 <= p.x < 0x100_0000_0000,
        -0x100_0000_0000 <= p.y < 0x100_0000_0000,
        -0x100_0000_0000 <= p.z < 0x100_0000_0000,
        0 <= j < mesh.leaves().len(),
    ensures
        0 <= i < mesh.leaves().len(),
        i == index_around(mesh.leaves(), world(), p),
        ({
            let s = mesh.leaves()[j].span;
            let holds = s.start.x <= p.x < s.end.x && s.start.y <= p.y < s.end.y && s.start.z
                <= p.z < s.end.z;
            &&& holds <==> i == j
            &&& -0x100_0000_0000 <= s.start.x < s.end.x <= 0x100_0000_0000
            &&& -0x100_0000_0000 <= s.start.y < s.end.y <= 0x100_0000_0000
            &&& -0x100_0000_0000 <= s.start.z < s.end.z <= 0x100_0000_0000
        }),
{
    mesh.lemma_tiles();
    lemma_inside(mesh.leaves(), j, p);
    assert(mesh.leaves()[j].span.wf() && world().covers(mesh.leaves()[j].span));
    index_around(mesh.leaves(), world(), p)
}

/// An event leaves everything as it is, but for the end of a click with the left button
/// of the mouse, which asks for a cut, and the release of the key `G`, which turns the
/// outlines on and off.
pub proof fn lemma_event<Sh, V>(from: &ShapeMesh<Sh, V>, to: &ShapeMesh<Sh, V>, e: Event)
    requires
        reaction(from, to, e),
    ensures
        to.leaves() == from.leaves(),
        to.jobs() == from.jobs(),
        to.the_shape() == from.the_shape(),
        to.threads() == from.threads(),
        match e {
            Event::MouseInput(ElementState::Released, MouseButton::Left) => {
                to.splits_next() && to.outlines() == from.outlines()
            },
            Event::KeyboardInput(ElementState::Released, Some(VirtualKeyCode::G)) => {
                to.splits_next() == from.splits_next() && to.outlines() != from.outlines()
            },
            _ => {
                to.splits_next() == from.splits_next() && to.outlines() == from.outlines()
            },
        },
{
}

} // verus!
