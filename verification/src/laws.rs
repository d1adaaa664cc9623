//! What holds of the mesh of a shape over several calls.

use crate::event::Event;
use crate::mesh::{
    all_shown, answered, arrived, arrived_all, asks_for_outlines, asks_to_split, failed_at,
    first_failure, leaves_after_split, lemma_arrived_all, reaction, requested, requested_leaves,
    shown, split_leaves, world, MeshStatus, ShapeMesh,
};
use crate::octree::{
    empty_octants, empty_spans, index_around, leaf_holds, lemma_empty_spans_add,
    lemma_index_around, lemma_index_around_center, lemma_split_tiles, splice, tiles, Leaf,
};
use crate::span::{lemma_nearest, Point3, Span};
use vstd::prelude::*;

verus! {

/// If not every mesh can be shown, one of them is the first that cannot.
pub proof fn lemma_failed_at<V, E>(meshes: Seq<(Point3, Result<V, E>)>)
    requires
        !all_shown(meshes),
    ensures
        first_failure(meshes, failed_at(meshes)),
{
    let j = choose|j: int| 0 <= j < meshes.len() && !((#[trigger] meshes[j]).1 is Ok);
    lemma_failure_up_to(meshes, j);
}

proof fn lemma_failure_up_to<V, E>(meshes: Seq<(Point3, Result<V, E>)>, j: int)
    requires
        0 <= j < meshes.len(),
        meshes[j].1 is Err,
    ensures
        exists|k: int| first_failure(meshes, k),
    decreases j,
{
    if exists|i: int| 0 <= i < j && !((#[trigger] meshes[i]).1 is Ok) {
        let i = choose|i: int| 0 <= i < j && !((#[trigger] meshes[i]).1 is Ok);
        lemma_failure_up_to(meshes, i);
    } else {
        assert(first_failure(meshes, j));
    }
}

/// A mesh ends up in the box for which it was requested, and nowhere else, as long
/// as the box has not been cut.
pub proof fn lemma_mesh_finds_its_box<V>(
    leaves: Seq<Leaf<MeshStatus<V>>>,
    i: int,
    view: V,
)
    requires
        tiles(leaves, world()),
        0 <= i < leaves.len(),
    ensures
        arrived(leaves, leaves[i].span.midpoint(), view) == leaves.update(
            i,
            Leaf { span: leaves[i].span, data: Some(MeshStatus::Ready(view)) },
        ),
{
    lemma_index_around_center(leaves, world(), i);
}

/// A mesh that arrives after its box was cut is shown in one of the octants: the
/// last one, which begins at the center of the box.
pub proof fn lemma_late_mesh<V>(leaves: Seq<Leaf<MeshStatus<V>>>, i: int)
    requires
        tiles(leaves, world()),
        0 <= i < leaves.len(),
        leaves[i].span.divisible(),
    ensures
        ({
            let after = splice(leaves, i, empty_octants(leaves[i].span));
            index_around(after, world(), leaves[i].span.midpoint()) == i + 7
        }),
{
    let span = leaves[i].span;
    let center = span.midpoint();
    let after = splice(leaves, i, empty_octants(span));
    lemma_split_tiles(leaves, world(), i);
    lemma_index_around(after, world(), center);
    lemma_nearest(world(), center);
    assert(after[i + 7].span == span.octant(7));
    assert(leaf_holds(after, i + 7, world().nearest_to(center)));
}

/// Once meshes are requested no box is without one, so that a second request asks
/// for nothing and changes nothing.
pub proof fn lemma_requests_complete<V>(leaves: Seq<Leaf<MeshStatus<V>>>)
    ensures
        forall|i: int|
            0 <= i < leaves.len() ==> (#[trigger] requested_leaves(leaves)[i]).data is Some,
        empty_spans(requested_leaves(leaves)) == Seq::<Span>::empty(),
        requested_leaves(requested_leaves(leaves)) == requested_leaves(leaves),
{
    let after = requested_leaves(leaves);
    let empty = |leaf: Leaf<MeshStatus<V>>| leaf.data is None;
    after.lemma_all_neg_filter_empty(empty);
    assert(empty_spans(after) =~= Seq::<Span>::empty());
    assert(requested_leaves(after) =~= after);
}

/// While a mesh is generated anew the one that was shown is still shown, however
/// often the request is repeated.
pub proof fn lemma_request_keeps_shown<V>(data: Option<MeshStatus<V>>)
    ensures
        shown(Some(requested(data))) == shown(data),
        requested(Some(requested(data))) == requested(data),
{
}

/// Exactly one box is around a focus within space, so that exactly one outline
/// would be highlighted.
pub proof fn lemma_one_box_in_focus<V>(
    leaves: Seq<Leaf<MeshStatus<V>>>,
    focus: Point3,
)
    requires
        tiles(leaves, world()),
        world().holds(focus),
    ensures
        0 <= index_around(leaves, world(), focus) < leaves.len(),
        forall|i: int|
            0 <= i < leaves.len() ==> ((#[trigger] leaves[i]).span.holds(focus) <==> i
                == index_around(leaves, world(), focus)),
{
    lemma_index_around(leaves, world(), focus);
    lemma_nearest(world(), focus);
    assert forall|i: int| 0 <= i < leaves.len() implies ((#[trigger] leaves[i]).span.holds(focus)
        <==> i == index_around(leaves, world(), focus)) by {
        assert(leaf_holds(leaves, i, focus) == leaves[i].span.holds(focus));
    }
}

/// The key that turns outlines on and off turns them back when it is used twice.
pub proof fn lemma_outlines_twice<Sh, V>(
    a: &ShapeMesh<Sh, V>,
    b: &ShapeMesh<Sh, V>,
    c: &ShapeMesh<Sh, V>,
    e: Event,
)
    requires
        asks_for_outlines(e),
        reaction(a, b, e),
        reaction(b, c, e),
    ensures
        b.outlines() != a.outlines(),
        c.outlines() == a.outlines(),
        c.splits_next() == a.splits_next(),
        c.leaves() == a.leaves(),
{
}

/// The order in which two events come makes no difference.
pub proof fn lemma_events_commute<Sh, V>(
    a: &ShapeMesh<Sh, V>,
    b: &ShapeMesh<Sh, V>,
    c: &ShapeMesh<Sh, V>,
    x: &ShapeMesh<Sh, V>,
    y: &ShapeMesh<Sh, V>,
    e: Event,
    f: Event,
)
    requires
        reaction(a, b, e),
        reaction(b, c, f),
        reaction(a, x, f),
        reaction(x, y, e),
    ensures
        y.splits_next() == c.splits_next(),
        y.outlines() == c.outlines(),
        y.leaves() == c.leaves(),
        y.jobs() == c.jobs(),
{
}

/// However often the mouse is clicked between two updates, one box is to be cut, and
/// nothing else changes.
pub proof fn lemma_many_clicks<Sh, V>(states: Seq<ShapeMesh<Sh, V>>, e: Event, k: int)
    requires
        0 < k < states.len(),
        clicked(states, e),
    ensures
        states[k].splits_next(),
        states[k].leaves() == states[0].leaves(),
        states[k].jobs() == states[0].jobs(),
        states[k].same_settings(&states[0]),
    decreases k,
{
    assert(reaction(&states[k - 1], &states[k], e));
    if k > 1 {
        lemma_many_clicks(states, e, k - 1);
    }
}

/// Whether each state is the one before it after a click.
pub open spec fn clicked<Sh, V>(states: Seq<ShapeMesh<Sh, V>>, e: Event) -> bool {
    &&& asks_to_split(e)
    &&& forall|i: int, j: int|
        0 <= i && j == i + 1 && j < states.len() ==> #[trigger] reaction(
            &states[i],
            &states[j],
            e,
        )
}

/// Without a click it makes no difference for an update where somebody looks: neither
/// for what it returns nor for what it changes. The boxes stay as they are, only what
/// is known of their meshes changes.
pub proof fn lemma_focus_without_click<Sh, V, E>(
    from: &ShapeMesh<Sh, V>,
    a: &ShapeMesh<Sh, V>,
    b: &ShapeMesh<Sh, V>,
    focus_a: Option<Point3>,
    focus_b: Option<Point3>,
    meshes: Seq<(Point3, Result<V, E>)>,
    boxes_a: Result<Seq<Span>, E>,
    boxes_b: Result<Seq<Span>, E>,
)
    requires
        from.wf(),
        !from.splits_next(),
        answered(from, a, focus_a, meshes, boxes_a),
        answered(from, b, focus_b, meshes, boxes_b),
    ensures
        boxes_a == boxes_b,
        a.leaves() == b.leaves(),
        a.jobs() == b.jobs(),
        a.same_settings(b),
        a.splits_next() == b.splits_next(),
        a.leaves().len() == from.leaves().len(),
        forall|i: int|
            0 <= i < from.leaves().len() ==> (#[trigger] a.leaves()[i]).span
                == from.leaves()[i].span,
{
    let n = if boxes_a is Ok {
        meshes.len() as int
    } else {
        failed_at(meshes)
    };
    let leaves = arrived_all(from.leaves(), meshes, n);
    from.lemma_tiles();
    lemma_arrived_all(from.leaves(), meshes, n);
    assert forall|i: int| 0 <= i < from.leaves().len() implies (#[trigger] a.leaves()[i]).span
        == from.leaves()[i].span by {
        assert(leaves[i].span == from.leaves()[i].span);
    }
}

/// An update right after one that returned boxes, with nothing that happened in
/// between, returns no box and changes nothing.
pub proof fn lemma_second_update<Sh, V, E>(
    from: &ShapeMesh<Sh, V>,
    a: &ShapeMesh<Sh, V>,
    b: &ShapeMesh<Sh, V>,
    focus_a: Option<Point3>,
    focus_b: Option<Point3>,
    meshes: Seq<(Point3, Result<V, E>)>,
    boxes_a: Result<Seq<Span>, E>,
    boxes_b: Result<Seq<Span>, E>,
)
    requires
        answered(from, a, focus_a, meshes, boxes_a),
        boxes_a is Ok,
        answered(a, b, focus_b, Seq::<(Point3, Result<V, E>)>::empty(), boxes_b),
    ensures
        boxes_b == Ok::<Seq<Span>, E>(Seq::empty()),
        b.leaves() == a.leaves(),
        b.jobs() == a.jobs(),
        b.same_settings(a),
        b.splits_next() == a.splits_next(),
{
    let leaves = arrived_all(
        leaves_after_split(from, focus_a),
        meshes,
        meshes.len() as int,
    );
    assert(all_shown(Seq::<(Point3, Result<V, E>)>::empty()));
    lemma_requests_complete(leaves);
}

/// The update after one or more clicks, with no box left without a mesh or a request
/// and no mesh that arrives, requests meshes for exactly the eight octants of the box
/// in focus, which take the place of the box. So eight more jobs are under way,
/// however often the mouse was clicked.
pub proof fn lemma_clicks_request_octants<Sh, V, E>(
    states: Seq<ShapeMesh<Sh, V>>,
    e: Event,
    to: &ShapeMesh<Sh, V>,
    focus: Point3,
    boxes: Result<Seq<Span>, E>,
)
    requires
        states.len() > 1,
        clicked(states, e),
        states[0].wf(),
        forall|i: int|
            0 <= i < states[0].leaves().len() ==> (#[trigger] states[0].leaves()[i]).data is Some,
        answered(
            &states.last(),
            to,
            Some(focus),
            Seq::<(Point3, Result<V, E>)>::empty(),
            boxes,
        ),
    ensures
        ({
            let leaves = states[0].leaves();
            let i = index_around(leaves, world(), focus);
            let span = leaves[i].span;
            &&& boxes == Ok::<Seq<Span>, E>(Seq::new(8, |k: int| span.octant(k)))
            &&& to.jobs() == states[0].jobs() + 8
            &&& to.leaves() == splice(
                leaves,
                i,
                Seq::new(
                    8,
                    |k: int|
                        Leaf {
                            span: span.octant(k),
                            data: Some(MeshStatus::<V>::Requested { old_view: None }),
                        },
                ),
            )
            &&& !to.splits_next()
        }),
{
    let leaves = states[0].leaves();
    lemma_many_clicks(states, e, states.len() - 1);
    assert(all_shown(Seq::<(Point3, Result<V, E>)>::empty()));
    states[0].lemma_tiles();
    lemma_index_around(leaves, world(), focus);
    let i = index_around(leaves, world(), focus);
    let span = leaves[i].span;
    let octants = empty_octants::<MeshStatus<V>>(span);
    let after = splice(leaves, i, octants);
    assert(after == split_leaves(leaves, focus));
    lemma_empty_spans_add(leaves.take(i) + octants, leaves.skip(i + 1));
    lemma_empty_spans_add(leaves.take(i), octants);
    let empty = |leaf: Leaf<MeshStatus<V>>| leaf.data is None;
    leaves.take(i).lemma_all_neg_filter_empty(empty);
    leaves.skip(i + 1).lemma_all_neg_filter_empty(empty);
    lemma_octants_empty::<V>(span, 8);
    assert(octants.take(8) =~= octants);
    let expected = Seq::new(8, |k: int| span.octant(k));
    assert(empty_spans(octants) =~= expected);
    assert(empty_spans(after) =~= expected);
    assert(to.leaves() =~= splice(
        leaves,
        i,
        Seq::new(
            8,
            |k: int|
                Leaf {
                    span: span.octant(k),
                    data: Some(MeshStatus::<V>::Requested { old_view: None }),
                },
        ),
    ));
}

proof fn lemma_octants_empty<V>(span: Span, n: int)
    requires
        0 <= n <= 8,
    ensures
        empty_octants::<MeshStatus<V>>(span).take(n).filter(
            |leaf: Leaf<MeshStatus<V>>| leaf.data is None,
        ) == empty_octants::<MeshStatus<V>>(span).take(n),
    decreases n,
{
    reveal(Seq::filter);
    let octants = empty_octants::<MeshStatus<V>>(span);
    if n > 0 {
        lemma_octants_empty::<V>(span, n - 1);
        assert(octants.take(n).drop_last() =~= octants.take(n - 1));
        assert(octants.take(n) =~= octants.take(n - 1).push(octants[n - 1]));
    }
}

} // verus!
