//! Which jobs are under way, and which boxes wait for their meshes.

use crate::event::Event;
use crate::mesh::{
    all_shown, answered, arrived, arrived_all, can_cut, first_leaves, leaves_after_split,
    lemma_arrived, lemma_arrived_all, reaction, requested_leaves, split_leaves, updated, world,
    MeshStatus, ShapeMesh,
};
use crate::octree::{
    empty_octants, empty_spans, index_around, lemma_empty_spans_add, lemma_index_around,
    lemma_index_around_center, lemma_split_tiles, splice, tiles, Leaf,
};
use crate::span::{Point3, Span};
use vstd::multiset::Multiset;
use vstd::prelude::*;

verus! {

/// Whether every box whose mesh is requested has a job under way that answers it.
/// Jobs are known by the centers of their boxes.
pub open spec fn accounted<V>(
    leaves: Seq<Leaf<MeshStatus<V>>>,
    pending: Multiset<Point3>,
) -> bool {
    forall|i: int|
        0 <= i < leaves.len() && (#[trigger] leaves[i]).data is Some
            && leaves[i].data->0 is Requested ==> pending.count(leaves[i].span.midpoint()) > 0
}

/// The centers of the first `n` boxes.
pub open spec fn centers(boxes: Seq<Span>, n: int) -> Multiset<Point3>
    decreases n,
{
    if n <= 0 {
        Multiset::empty()
    } else {
        centers(boxes, n - 1).insert(boxes[n - 1].midpoint())
    }
}

/// The centers for which the first `n` meshes have arrived.
pub open spec fn arrivals<V, E>(meshes: Seq<(Point3, Result<V, E>)>, n: int) -> Multiset<Point3>
    decreases n,
{
    if n <= 0 {
        Multiset::empty()
    } else {
        arrivals(meshes, n - 1).insert(meshes[n - 1].0)
    }
}

/// At the start no mesh is requested, and no job is under way.
pub proof fn lemma_start_accounted<V>()
    ensures
        accounted(first_leaves::<V>(), Multiset::empty()),
{
}

/// Cutting a box leaves every request accounted for.
proof fn lemma_split_accounted<V>(
    leaves: Seq<Leaf<MeshStatus<V>>>,
    p: Point3,
    pending: Multiset<Point3>,
)
    requires
        tiles(leaves, world()),
        leaves[index_around(leaves, world(), p)].span.divisible(),
        accounted(leaves, pending),
    ensures
        tiles(split_leaves(leaves, p), world()),
        accounted(split_leaves(leaves, p), pending),
{
    let i = index_around(leaves, world(), p);
    lemma_index_around(leaves, world(), p);
    lemma_split_tiles(leaves, world(), i);
    let after = split_leaves(leaves, p);
    assert forall|j: int|
        0 <= j < after.len() && (#[trigger] after[j]).data is Some
            && after[j].data->0 is Requested implies pending.count(
        after[j].span.midpoint(),
    ) > 0 by {
        let before = if j < i {
            j
        } else {
            j - 7
        };
        assert(after[j] == leaves[before]);
    }
}

/// A mesh that arrives and can be shown leaves every other request accounted for.
proof fn lemma_arrived_accounted<V>(
    leaves: Seq<Leaf<MeshStatus<V>>>,
    center: Point3,
    view: V,
    pending: Multiset<Point3>,
)
    requires
        tiles(leaves, world()),
        accounted(leaves, pending),
        pending.count(center) > 0,
    ensures
        accounted(arrived(leaves, center, view), pending.remove(center)),
{
    let after = arrived(leaves, center, view);
    lemma_arrived(leaves, center, view);
    lemma_index_around(leaves, world(), center);
    assert forall|j: int|
        0 <= j < after.len() && (#[trigger] after[j]).data is Some
            && after[j].data->0 is Requested implies pending.remove(center).count(
        after[j].span.midpoint(),
    ) > 0 by {
        assert(after[j] == leaves[j]);
        lemma_index_around_center(leaves, world(), j);
    }
}

/// Meshes that arrive for jobs under way leave every other request accounted for.
proof fn lemma_arrived_all_accounted<V, E>(
    leaves: Seq<Leaf<MeshStatus<V>>>,
    meshes: Seq<(Point3, Result<V, E>)>,
    pending: Multiset<Point3>,
    n: int,
)
    requires
        tiles(leaves, world()),
        accounted(leaves, pending),
        all_shown(meshes),
        0 <= n <= meshes.len(),
        arrivals(meshes, n).subset_of(pending),
    ensures
        accounted(arrived_all(leaves, meshes, n), pending.sub(arrivals(meshes, n))),
        pending.sub(arrivals(meshes, n)).len() == pending.len() - n,
    decreases n,
{
    if n > 0 {
        let center = meshes[n - 1].0;
        let before = arrivals(meshes, n - 1);
        assert(before.subset_of(pending)) by {
            assert forall|p: Point3| #[trigger] before.count(p) <= pending.count(p) by {
                assert(arrivals(meshes, n).count(p) <= pending.count(p));
            }
        }
        lemma_arrived_all_accounted(leaves, meshes, pending, n - 1);
        lemma_arrived_all(leaves, meshes, n - 1);
        let left = pending.sub(before);
        assert(arrivals(meshes, n).count(center) <= pending.count(center));
        assert(left.count(center) > 0);
        assert(pending.sub(arrivals(meshes, n)) =~= left.remove(center));
        assert(meshes[n - 1].1 is Ok);
        lemma_arrived_accounted(
            arrived_all(leaves, meshes, n - 1),
            center,
            meshes[n - 1].1->Ok_0,
            left,
        );
    } else {
        assert(pending.sub(arrivals(meshes, 0)) =~= pending);
    }
}

proof fn lemma_centers(boxes: Seq<Span>, n: int)
    requires
        0 <= n <= boxes.len(),
    ensures
        centers(boxes, n).len() == n,
        forall|i: int|
            0 <= i < n ==> centers(boxes, n).count((#[trigger] boxes[i]).midpoint()) > 0,
    decreases n,
{
    if n > 0 {
        lemma_centers(boxes, n - 1);
    }
}

/// Jobs for the boxes without a mesh leave every request accounted for.
proof fn lemma_requested_accounted<V>(
    leaves: Seq<Leaf<MeshStatus<V>>>,
    pending: Multiset<Point3>,
)
    requires
        accounted(leaves, pending),
    ensures
        accounted(
            requested_leaves(leaves),
            pending.add(centers(empty_spans(leaves), empty_spans(leaves).len() as int)),
        ),
{
    let boxes = empty_spans(leaves);
    let after = requested_leaves(leaves);
    let empty = |leaf: Leaf<MeshStatus<V>>| leaf.data is None;
    lemma_centers(boxes, boxes.len() as int);
    assert forall|j: int|
        0 <= j < after.len() && (#[trigger] after[j]).data is Some
            && after[j].data->0 is Requested implies pending.add(
        centers(boxes, boxes.len() as int),
    ).count(after[j].span.midpoint()) > 0 by {
        if leaves[j].data is None {
            leaves.lemma_filter_contains(empty, j);
            let kept = leaves.filter(empty);
            let k = choose|k: int| 0 <= k < kept.len() && kept[k] == leaves[j];
            assert(boxes[k] == leaves[j].span);
        } else {
            assert(after[j] == leaves[j]);
        }
    }
}

/// The jobs under way after an update, by the centers of their boxes.
pub open spec fn under_way<V, E>(
    pending: Multiset<Point3>,
    meshes: Seq<(Point3, Result<V, E>)>,
    requests: Seq<Span>,
) -> Multiset<Point3> {
    pending.sub(arrivals(meshes, meshes.len() as int)).add(
        centers(requests, requests.len() as int),
    )
}

/// An update in which every mesh can be shown keeps the books: the jobs under way
/// are counted, and every box whose mesh is requested has a job that answers it.
///
/// A mesh that cannot be shown ends its job and leaves its box requested, so no
/// such update is covered.
pub proof fn lemma_update_accounted<Sh, V, E>(
    from: &ShapeMesh<Sh, V>,
    to: &ShapeMesh<Sh, V>,
    focus: Option<Point3>,
    meshes: Seq<(Point3, Result<V, E>)>,
    requests: Seq<Span>,
    pending: Multiset<Point3>,
)
    requires
        from.wf(),
        updated(from, to, focus, meshes, requests),
        from.splits_next() ==> from.leaves()[index_around(
            from.leaves(),
            world(),
            focus->0,
        )].span.divisible(),
        accounted(from.leaves(), pending),
        from.jobs() == pending.len(),
        all_shown(meshes),
        arrivals(meshes, meshes.len() as int).subset_of(pending),
    ensures
        accounted(to.leaves(), under_way(pending, meshes, requests)),
        to.jobs() == under_way(pending, meshes, requests).len(),
{
    from.lemma_tiles();
    if from.splits_next() {
        lemma_split_accounted(from.leaves(), focus->0, pending);
    }
    let start = leaves_after_split(from, focus);
    let n = meshes.len() as int;
    lemma_arrived_all_accounted(start, meshes, pending, n);
    let leaves = arrived_all(start, meshes, n);
    lemma_requested_accounted(leaves, pending.sub(arrivals(meshes, n)));
    lemma_centers(requests, requests.len() as int);
}

/// Whether the mesh of a box is requested.
pub open spec fn awaited<V>(leaf: Leaf<MeshStatus<V>>) -> bool {
    leaf.data is Some && leaf.data->0 is Requested
}

/// The number of boxes whose mesh is requested.
pub open spec fn count_awaited<V>(leaves: Seq<Leaf<MeshStatus<V>>>) -> nat {
    leaves.filter(|leaf: Leaf<MeshStatus<V>>| awaited(leaf)).len()
}

/// The centers of those of the first `n` boxes whose mesh is requested.
spec fn awaited_centers<V>(leaves: Seq<Leaf<MeshStatus<V>>>, n: int) -> Multiset<Point3>
    decreases n,
{
    if n <= 0 {
        Multiset::empty()
    } else if awaited(leaves[n - 1]) {
        awaited_centers(leaves, n - 1).insert(leaves[n - 1].span.midpoint())
    } else {
        awaited_centers(leaves, n - 1)
    }
}

proof fn lemma_awaited_centers<V>(leaves: Seq<Leaf<MeshStatus<V>>>, n: int)
    requires
        tiles(leaves, world()),
        0 <= n <= leaves.len(),
    ensures
        awaited_centers(leaves, n).len() == count_awaited(leaves.take(n)),
        forall|p: Point3| #[trigger] awaited_centers(leaves, n).count(p) <= 1,
        forall|p: Point3| #[trigger]
            awaited_centers(leaves, n).count(p) > 0 ==> exists|i: int|
                0 <= i < n && awaited(#[trigger] leaves[i]) && leaves[i].span.midpoint() == p,
    decreases n,
{
    reveal(Seq::filter);
    if n > 0 {
        lemma_awaited_centers(leaves, n - 1);
        assert(leaves.take(n).drop_last() =~= leaves.take(n - 1));
        assert(leaves.take(n).last() == leaves[n - 1]);
        let before = awaited_centers(leaves, n - 1);
        let center = leaves[n - 1].span.midpoint();
        if before.count(center) > 0 {
            let i = choose|i: int|
                0 <= i < n - 1 && awaited(#[trigger] leaves[i]) && leaves[i].span.midpoint()
                    == center;
            lemma_index_around_center(leaves, world(), i);
            lemma_index_around_center(leaves, world(), n - 1);
        }
        assert forall|p: Point3| #[trigger] awaited_centers(leaves, n).count(p) > 0 implies exists|
            i: int,
        |
            0 <= i < n && awaited(#[trigger] leaves[i]) && leaves[i].span.midpoint() == p by {
            if before.count(p) > 0 {
                let i = choose|i: int|
                    0 <= i < n - 1 && awaited(#[trigger] leaves[i]) && leaves[i].span.midpoint()
                        == p;
                assert(awaited(leaves[i]));
            } else {
                assert(awaited(leaves[n - 1]));
            }
        }
    }
}

/// No more boxes wait for a mesh than jobs are under way. If there are as many, then
/// the jobs are those of the boxes that wait.
pub proof fn lemma_awaited_within_jobs<V>(
    leaves: Seq<Leaf<MeshStatus<V>>>,
    pending: Multiset<Point3>,
)
    requires
        tiles(leaves, world()),
        accounted(leaves, pending),
    ensures
        count_awaited(leaves) <= pending.len(),
        count_awaited(leaves) == pending.len() ==> forall|p: Point3| #[trigger]
            pending.count(p) > 0 ==> exists|i: int|
                0 <= i < leaves.len() && awaited(#[trigger] leaves[i]) && leaves[i].span.midpoint()
                    == p,
{
    let n = leaves.len() as int;
    let waiting = awaited_centers(leaves, n);
    lemma_awaited_centers(leaves, n);
    assert(leaves.take(n) =~= leaves);
    assert forall|p: Point3| #[trigger] waiting.count(p) <= pending.count(p) by {
        if waiting.count(p) > 0 {
            let i = choose|i: int|
                0 <= i < n && awaited(#[trigger] leaves[i]) && leaves[i].span.midpoint() == p;
            assert(pending.count(leaves[i].span.midpoint()) > 0);
        }
    }
    assert(waiting.subset_of(pending));
    let rest = pending.sub(waiting);
    assert(rest.len() == pending.len() - waiting.len());
    if count_awaited(leaves) == pending.len() {
        assert forall|p: Point3| #[trigger] pending.count(p) > 0 implies exists|i: int|
            0 <= i < leaves.len() && awaited(#[trigger] leaves[i]) && leaves[i].span.midpoint()
                == p by {
            assert(rest.count(p) <= rest.len());
            assert(waiting.count(p) > 0);
        }
    }
}

/// Once every job has been answered and nothing is left to request, every box has
/// its mesh.
pub proof fn lemma_all_ready<V>(leaves: Seq<Leaf<MeshStatus<V>>>)
    requires
        accounted(leaves, Multiset::empty()),
        empty_spans(leaves) == Seq::<Span>::empty(),
    ensures
        forall|i: int|
            0 <= i < leaves.len() ==> (#[trigger] leaves[i]).data is Some && leaves[i].data->0
                is Ready,
{
    let empty = |leaf: Leaf<MeshStatus<V>>| leaf.data is None;
    assert forall|i: int| 0 <= i < leaves.len() implies (#[trigger] leaves[i]).data is Some
        && leaves[i].data->0 is Ready by {
        if leaves[i].data is None {
            leaves.lemma_filter_contains(empty, i);
            assert(empty_spans(leaves).len() == leaves.filter(empty).len());
        }
    }
}

proof fn lemma_count_spliced<V>(
    leaves: Seq<Leaf<MeshStatus<V>>>,
    i: int,
    replacement: Seq<Leaf<MeshStatus<V>>>,
)
    requires
        0 <= i < leaves.len(),
    ensures
        count_awaited(splice(leaves, i, replacement)) + count_awaited(seq![leaves[i]])
            == count_awaited(leaves) + count_awaited(replacement),
{
    let pred = |leaf: Leaf<MeshStatus<V>>| awaited(leaf);
    let before = leaves.take(i);
    let here = seq![leaves[i]];
    let behind = leaves.skip(i + 1);
    Seq::filter_distributes_over_add(before + replacement, behind, pred);
    Seq::filter_distributes_over_add(before, replacement, pred);
    Seq::filter_distributes_over_add(before + here, behind, pred);
    Seq::filter_distributes_over_add(before, here, pred);
    assert(leaves =~= before + here + behind);
}

proof fn lemma_count_one<V>(leaf: Leaf<MeshStatus<V>>)
    ensures
        count_awaited(seq![leaf]) == if awaited(leaf) {
            1nat
        } else {
            0
        },
{
    reveal(Seq::filter);
    let one = seq![leaf];
    assert(one.drop_last() =~= Seq::<Leaf<MeshStatus<V>>>::empty());
    assert(one.last() == leaf);
    assert(one.drop_last().filter(|leaf: Leaf<MeshStatus<V>>| awaited(leaf)).len() == 0);
}

proof fn lemma_count_requested<V>(leaves: Seq<Leaf<MeshStatus<V>>>, n: int)
    requires
        0 <= n <= leaves.len(),
    ensures
        count_awaited(requested_leaves(leaves.take(n))) == count_awaited(leaves.take(n))
            + empty_spans(leaves.take(n)).len(),
    decreases n,
{
    reveal(Seq::filter);
    if n > 0 {
        lemma_count_requested(leaves, n - 1);
        let before = leaves.take(n - 1);
        let one = seq![leaves[n - 1]];
        let pred = |leaf: Leaf<MeshStatus<V>>| awaited(leaf);
        assert(leaves.take(n) =~= before + one);
        assert(requested_leaves(before + one) =~= requested_leaves(before) + requested_leaves(one));
        Seq::filter_distributes_over_add(before, one, pred);
        Seq::filter_distributes_over_add(requested_leaves(before), requested_leaves(one), pred);
        lemma_empty_spans_add(before, one);
        let asked = requested_leaves(one)[0];
        assert(requested_leaves(one) =~= seq![asked]);
        lemma_count_one(leaves[n - 1]);
        lemma_count_one(asked);
        assert(one.drop_last() =~= Seq::<Leaf<MeshStatus<V>>>::empty());
        assert(one.last() == leaves[n - 1]);
        let empty = |leaf: Leaf<MeshStatus<V>>| leaf.data is None;
        assert(one.drop_last().filter(empty).len() == 0);
        assert(one.filter(empty).len() == if leaves[n - 1].data is None {
            1nat
        } else {
            0
        });
    }
}

proof fn lemma_count_arrived<V, E>(
    leaves: Seq<Leaf<MeshStatus<V>>>,
    meshes: Seq<(Point3, Result<V, E>)>,
    pending: Multiset<Point3>,
    n: int,
)
    requires
        tiles(leaves, world()),
        accounted(leaves, pending),
        count_awaited(leaves) == pending.len(),
        all_shown(meshes),
        0 <= n <= meshes.len(),
        arrivals(meshes, n).subset_of(pending),
    ensures
        count_awaited(arrived_all(leaves, meshes, n)) == pending.len() - n,
    decreases n,
{
    if n > 0 {
        let center = meshes[n - 1].0;
        let earlier = arrivals(meshes, n - 1);
        assert(earlier.subset_of(pending)) by {
            assert forall|p: Point3| #[trigger] earlier.count(p) <= pending.count(p) by {
                assert(arrivals(meshes, n).count(p) <= pending.count(p));
            }
        }
        lemma_count_arrived(leaves, meshes, pending, n - 1);
        lemma_arrived_all_accounted(leaves, meshes, pending, n - 1);
        lemma_arrived_all(leaves, meshes, n - 1);
        let before = arrived_all(leaves, meshes, n - 1);
        let left = pending.sub(earlier);
        assert(arrivals(meshes, n).count(center) <= pending.count(center));
        assert(left.count(center) > 0);
        lemma_awaited_within_jobs(before, left);
        let i = choose|i: int|
            0 <= i < before.len() && awaited(#[trigger] before[i]) && before[i].span.midpoint()
                == center;
        lemma_index_around_center(before, world(), i);
        assert(meshes[n - 1].1 is Ok);
        let ready = Leaf {
            span: before[i].span,
            data: Some(MeshStatus::Ready(meshes[n - 1].1->Ok_0)),
        };
        assert(before.update(i, ready) =~= splice(before, i, seq![ready]));
        lemma_count_spliced(before, i, seq![ready]);
        lemma_count_one(before[i]);
        lemma_count_one(ready);
    }
}

/// At the start no box waits for a mesh.
pub proof fn lemma_start_balanced<V>()
    ensures
        count_awaited(first_leaves::<V>()) == 0,
{
    first_leaves::<V>().lemma_all_neg_filter_empty(|leaf: Leaf<MeshStatus<V>>| awaited(leaf));
}

/// An update in which every mesh can be shown, and in which no box is cut that waits
/// for its mesh, keeps the balance: as many boxes wait as jobs are under way.
pub proof fn lemma_update_balanced<Sh, V, E>(
    from: &ShapeMesh<Sh, V>,
    to: &ShapeMesh<Sh, V>,
    focus: Option<Point3>,
    meshes: Seq<(Point3, Result<V, E>)>,
    requests: Seq<Span>,
    pending: Multiset<Point3>,
)
    requires
        from.wf(),
        updated(from, to, focus, meshes, requests),
        from.splits_next() ==> {
            let cut = from.leaves()[index_around(from.leaves(), world(), focus->0)];
            cut.span.divisible() && !awaited(cut)
        },
        accounted(from.leaves(), pending),
        from.jobs() == pending.len(),
        count_awaited(from.leaves()) == from.jobs(),
        all_shown(meshes),
        arrivals(meshes, meshes.len() as int).subset_of(pending),
    ensures
        count_awaited(to.leaves()) == to.jobs(),
{
    from.lemma_tiles();
    if from.splits_next() {
        let i = index_around(from.leaves(), world(), focus->0);
        lemma_index_around(from.leaves(), world(), focus->0);
        lemma_split_accounted(from.leaves(), focus->0, pending);
        let octants = empty_octants::<MeshStatus<V>>(from.leaves()[i].span);
        lemma_count_spliced(from.leaves(), i, octants);
        lemma_count_one(from.leaves()[i]);
        octants.lemma_all_neg_filter_empty(|leaf: Leaf<MeshStatus<V>>| awaited(leaf));
    }
    let start = leaves_after_split(from, focus);
    let n = meshes.len() as int;
    lemma_count_arrived(start, meshes, pending, n);
    let leaves = arrived_all(start, meshes, n);
    lemma_count_requested(leaves, leaves.len() as int);
    assert(leaves.take(leaves.len() as int) =~= leaves);
}

/// Something that happens to the mesh of a shape: an event, or an update in which
/// every mesh can be shown, with the boxes that it returns.
pub enum Step<V, E> {
    Event(Event),
    Update {
        focus: Option<Point3>,
        meshes: Seq<(Point3, Result<V, E>)>,
        requests: Seq<Span>,
    },
}

/// The jobs under way after the first `n` steps, by the centers of their boxes.
pub open spec fn jobs_after<V, E>(steps: Seq<Step<V, E>>, n: int) -> Multiset<Point3>
    decreases n,
{
    if n <= 0 {
        Multiset::empty()
    } else {
        match steps[n - 1] {
            Step::Event(_) => jobs_after(steps, n - 1),
            Step::Update { meshes, requests, .. } => under_way(
                jobs_after(steps, n - 1),
                meshes,
                requests,
            ),
        }
    }
}

/// The number of jobs that were started in the first `n` steps.
pub open spec fn started<V, E>(steps: Seq<Step<V, E>>, n: int) -> int
    decreases n,
{
    if n <= 0 {
        0
    } else {
        match steps[n - 1] {
            Step::Event(_) => started(steps, n - 1),
            Step::Update { requests, .. } => started(steps, n - 1) + requests.len(),
        }
    }
}

/// The number of meshes that arrived in the first `n` steps.
pub open spec fn received<V, E>(steps: Seq<Step<V, E>>, n: int) -> int
    decreases n,
{
    if n <= 0 {
        0
    } else {
        match steps[n - 1] {
            Step::Event(_) => received(steps, n - 1),
            Step::Update { meshes, .. } => received(steps, n - 1) + meshes.len(),
        }
    }
}

/// Whether `to` is `from` after the step, and the meshes that arrive are those of jobs
/// under way.
pub open spec fn stepped<Sh, V, E>(
    from: &ShapeMesh<Sh, V>,
    to: &ShapeMesh<Sh, V>,
    step: Step<V, E>,
    pending: Multiset<Point3>,
) -> bool {
    match step {
        Step::Event(e) => reaction(from, to, e),
        Step::Update { focus, meshes, requests } => {
            &&& from.splits_next() ==> focus is Some && can_cut(from, focus->0)
            &&& arrivals(meshes, meshes.len() as int).subset_of(pending)
            &&& answered(from, to, focus, meshes, Ok(requests))
        },
    }
}

/// Whether the states are those of a mesh from its start, step by step.
pub open spec fn history<Sh, V, E>(states: Seq<ShapeMesh<Sh, V>>, steps: Seq<Step<V, E>>) -> bool {
    &&& states.len() == steps.len() + 1
    &&& states[0].leaves() == first_leaves::<V>()
    &&& states[0].jobs() == 0
    &&& forall|i: int| 0 <= i < states.len() ==> (#[trigger] states[i]).wf()
    &&& forall|i: int, j: int|
        0 <= i && j == i + 1 && j < states.len() ==> #[trigger] stepped(
            &states[i],
            &states[j],
            steps[i],
            jobs_after(steps, i),
        )
}

/// Whether none of the first `n` steps cuts a box that waits for its mesh.
pub open spec fn spares_awaited<Sh, V, E>(
    states: Seq<ShapeMesh<Sh, V>>,
    steps: Seq<Step<V, E>>,
    n: int,
) -> bool {
    forall|i: int|
        0 <= i < n && (#[trigger] states[i]).splits_next() ==> match steps[i] {
            Step::Event(_) => true,
            Step::Update { focus, .. } => !awaited(
                states[i].leaves()[index_around(states[i].leaves(), world(), focus->0)],
            ),
        }
}

/// At all times the jobs under way are those that were started and whose mesh has not
/// arrived yet, and no more boxes wait for a mesh than jobs are under way. There are
/// as many, unless a box was cut while it waited.
pub proof fn lemma_history<Sh, V, E>(
    states: Seq<ShapeMesh<Sh, V>>,
    steps: Seq<Step<V, E>>,
    n: int,
)
    requires
        history(states, steps),
        0 <= n < states.len(),
    ensures
        accounted(states[n].leaves(), jobs_after(steps, n)),
        states[n].jobs() == jobs_after(steps, n).len(),
        states[n].jobs() == started(steps, n) - received(steps, n),
        count_awaited(states[n].leaves()) <= states[n].jobs(),
        spares_awaited(states, steps, n) ==> count_awaited(states[n].leaves()) == states[n].jobs(),
    decreases n,
{
    if n == 0 {
        lemma_start_accounted::<V>();
        lemma_start_balanced::<V>();
    } else {
        lemma_history(states, steps, n - 1);
        let from = states[n - 1];
        let to = states[n];
        let pending = jobs_after(steps, n - 1);
        assert(stepped(&from, &to, steps[n - 1], pending));
        if spares_awaited(states, steps, n) {
            assert(spares_awaited(states, steps, n - 1));
        }
        if let Step::Update { focus, meshes, requests } = steps[n - 1] {
            lemma_update_accounted(&from, &to, focus, meshes, requests, pending);
            if spares_awaited(states, steps, n) {
                assert(from == states[n - 1]);
                lemma_update_balanced(&from, &to, focus, meshes, requests, pending);
            }
        }
        assert(to.wf());
        to.lemma_tiles();
        lemma_awaited_within_jobs(to.leaves(), jobs_after(steps, n));
    }
}

} // verus!
