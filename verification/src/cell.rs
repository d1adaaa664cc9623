//! The cells between the sampled corners, and where their edges cross the surface.

use crate::single::{lemma_negative, lemma_sign_of_number, Single, INFINITE_MAGNITUDE};
use vstd::prelude::*;

verus! {

/// The twelve edges of a cell, each given by the corners that it joins.
///
/// Corner `4 * x + 2 * y + z` lies `x`, `y` and `z` steps along the axes from the
/// lower corner. The first corner of an edge is the lower one.
pub const EDGES: [(usize, usize); 12] = [
    // Edges along x, by the side on which they lie: -y -z, -y +z, +y -z, +y +z.
    (0, 4),
    (1, 5),
    (2, 6),
    (3, 7),
    // Edges along y: -x -z, -x +z, +x -z, +x +z.
    (0, 2),
    (1, 3),
    (4, 6),
    (5, 7),
    // Edges along z: -x -y, -x +y, +x -y, +x +y.
    (0, 1),
    (2, 3),
    (4, 5),
    (6, 7),
];

/// The steps along the three axes from the lower corner of a cell to a corner.
pub open spec fn corner_steps(corner: int) -> (int, int, int) {
    (corner / 4, corner / 2 % 2, corner % 2)
}

/// Whether a cell is neither wholly inside the shape nor wholly outside of it.
pub open spec fn partially_in(distances: Seq<Single>) -> bool {
    !((forall|i: int| 0 <= i < 8 ==> (#[trigger] distances[i]).below_zero()) || (forall|i: int|
        0 <= i < 8 ==> (#[trigger] distances[i]).above_zero()))
}

/// Whether the surface crosses the edge.
pub open spec fn crosses(distances: Seq<Single>, edge: (usize, usize)) -> bool {
    distances[edge.0 as int].sign_differs(distances[edge.1 as int])
}

/// What decides where on an edge the surface crosses it.
#[derive(Clone, Copy, Debug, PartialEq, Eq, Structural)]
pub enum Weight {
    /// Both ends count the same.
    Even,
    /// With `delta` for `to - from`, the first end counts `(from + delta) / delta`
    /// and the second end counts the rest.
    Distances { from: Single, to: Single },
}

/// A point where an edge of a cell crosses the surface.
#[derive(Clone, Copy, Debug, PartialEq, Eq, Structural)]
pub struct Crossing {
    pub from: usize,
    pub to: usize,
    pub weight: Weight,
}

/// The distances of the two ends of an edge, turned so that the first one is not
/// a number above zero.
pub open spec fn turned(distances: Seq<Single>, edge: (usize, usize)) -> (Single, Single) {
    let from = distances[edge.0 as int];
    let to = distances[edge.1 as int];
    if from.below_zero() {
        (from, to)
    } else {
        (from.negative(), to.negative())
    }
}

/// The crossing on an edge that the surface crosses.
pub open spec fn crossing_on(distances: Seq<Single>, edge: (usize, usize)) -> Crossing {
    let (from, to) = turned(distances, edge);
    Crossing {
        from: edge.0,
        to: edge.1,
        weight: if to.same(from) {
            Weight::Even
        } else {
            Weight::Distances { from, to }
        },
    }
}

/// The crossings on those of the given edges that the surface crosses.
pub open spec fn crossings_on(distances: Seq<Single>, edges: Seq<(usize, usize)>) -> Seq<Crossing> {
    edges.filter(|edge: (usize, usize)| crosses(distances, edge)).map_values(
        |edge: (usize, usize)| crossing_on(distances, edge),
    )
}

/// The crossings of a cell, in the order of its edges.
pub open spec fn crossings(distances: Seq<Single>) -> Seq<Crossing> {
    crossings_on(distances, EDGES@)
}

/// The corners of a cell.
pub open spec fn corners() -> Seq<usize> {
    Seq::new(8, |i: int| i as usize)
}

/// Those of the given corners that lie right on the surface.
pub open spec fn on_surface(distances: Seq<Single>, corners: Seq<usize>) -> Seq<usize> {
    corners.filter(|corner: usize| distances[corner as int].zero())
}

/// The corners at which the surface touches a cell of which it crosses no edge.
pub open spec fn touched_corners(distances: Seq<Single>) -> Seq<usize> {
    if crossings(distances).len() == 0 {
        on_surface(distances, corners())
    } else {
        Seq::empty()
    }
}

/// A cell that gets a vertex, with its lower corner and what the vertex is placed by:
/// the points where the edges of the cell cross the surface or, where none of them
/// does, the corners at which the surface touches the cell.
#[derive(Debug)]
pub struct Cell {
    pub x: u32,
    pub y: u32,
    pub z: u32,
    pub crossings: Vec<Crossing>,
    pub touched: Vec<usize>,
}

/// Gives the steps along the three axes from the lower corner of a cell to a corner.
pub fn corner_offset(corner: usize) -> (steps: (usize, usize, usize))
    requires
        corner < 8,
    ensures
        (steps.0 as int, steps.1 as int, steps.2 as int) == corner_steps(corner as int),
        steps.0 <= 1 && steps.1 <= 1 && steps.2 <= 1,
        4 * steps.0 + 2 * steps.1 + steps.2 == corner,
{
    (corner / 4, corner / 2 % 2, corner % 2)
}

/// Decides whether a cell is only partially inside the shape, by the distances of
/// its eight corners.
pub fn is_partially_in(distances: &[Single; 8]) -> (partial: bool)
    ensures
        partial == partially_in(distances@),
{
    let mut all_below = true;
    let mut all_above = true;
    let mut i: usize = 0;
    while i < 8
        invariant
            i <= 8,
            all_below == (forall|j: int| 0 <= j < i ==> (#[trigger] distances@[j]).below_zero()),
            all_above == (forall|j: int| 0 <= j < i ==> (#[trigger] distances@[j]).above_zero()),
        decreases 8 - i,
    {
        all_below = all_below && distances[i].is_below_zero();
        all_above = all_above && distances[i].is_above_zero();
        i += 1;
    }
    !(all_below || all_above)
}

/// Finds the points where the edges of a cell cross the surface, by the distances
/// of its eight corners.
pub fn find_crossings(distances: &[Single; 8]) -> (found: Vec<Crossing>)
    ensures
        found@ == crossings(distances@),
{
    let edges: [(usize, usize); 12] = EDGES;
    let mut found: Vec<Crossing> = Vec::new();
    let mut i: usize = 0;
    assert(edges@.take(0) =~= Seq::<(usize, usize)>::empty());
    proof {
        reveal(Seq::filter);
    }
    while i < 12
        invariant
            i <= 12,
            edges@ == EDGES@,
            found@ == crossings_on(distances@, edges@.take(i as int)),
        decreases 12 - i,
    {
        let edge: (usize, usize) = edges[i];
        proof {
            lemma_edges();
            reveal(Seq::filter);
            assert(edges@.take(i + 1).drop_last() =~= edges@.take(i as int));
            assert(edges@.take(i + 1).last() == edge);
        }
        let from: Single = distances[edge.0];
        let to: Single = distances[edge.1];
        if from.signum_differs(to) {
            let (d_from, d_to) = if from.is_below_zero() {
                (from, to)
            } else {
                (from.negated(), to.negated())
            };
            let weight = if d_to.equals(d_from) {
                Weight::Even
            } else {
                Weight::Distances { from: d_from, to: d_to }
            };
            found.push(Crossing { from: edge.0, to: edge.1, weight });
        }
        assert(found@ =~= crossings_on(distances@, edges@.take(i + 1)));
        i += 1;
    }
    assert(edges@.take(12) =~= edges@);
    found
}

/// Finds the corners that lie right on the surface, by the distances of the eight
/// corners of a cell.
pub fn find_on_surface(distances: &[Single; 8]) -> (found: Vec<usize>)
    ensures
        found@ == on_surface(distances@, corners()),
{
    let mut found: Vec<usize> = Vec::new();
    let mut i: usize = 0;
    assert(corners().take(0) =~= Seq::<usize>::empty());
    proof {
        reveal(Seq::filter);
    }
    while i < 8
        invariant
            i <= 8,
            found@ == on_surface(distances@, corners().take(i as int)),
        decreases 8 - i,
    {
        proof {
            reveal(Seq::filter);
            assert(corners().take(i + 1).drop_last() =~= corners().take(i as int));
            assert(corners().take(i + 1).last() == i);
        }
        if distances[i].is_zero() {
            found.push(i);
        }
        i += 1;
    }
    assert(corners().take(8) =~= corners());
    found
}

/// Every edge joins two corners of the cell that lie one step along one axis
/// apart, the lower one first.
pub proof fn lemma_edges()
    ensures
        EDGES@.len() == 12,
        forall|i: int|
            #![trigger EDGES@[i]]
            0 <= i < 12 ==> {
                let (x, y, z) = corner_steps(EDGES@[i].0 as int);
                &&& EDGES@[i].0 < EDGES@[i].1 < 8
                &&& corner_steps(EDGES@[i].1 as int) == if i < 4 {
                    (x + 1, y, z)
                } else if i < 8 {
                    (x, y + 1, z)
                } else {
                    (x, y, z + 1)
                }
            },
{
    assert forall|i: int| #![trigger EDGES@[i]] 0 <= i < 12 implies {
        let (x, y, z) = corner_steps(EDGES@[i].0 as int);
        &&& EDGES@[i].0 < EDGES@[i].1 < 8
        &&& corner_steps(EDGES@[i].1 as int) == if i < 4 {
            (x + 1, y, z)
        } else if i < 8 {
            (x, y + 1, z)
        } else {
            (x, y, z + 1)
        }
    } by {
        assert(i == 0 || i == 1 || i == 2 || i == 3 || i == 4 || i == 5 || i == 6 || i == 7 || i
            == 8 || i == 9 || i == 10 || i == 11);
    }
}

/// Every two corners that lie one step along one axis apart are joined by an edge.
pub proof fn lemma_edges_complete(a: int, b: int)
    requires
        0 <= a < 8,
        0 <= b < 8,
        ({
            let (ax, ay, az) = corner_steps(a);
            let (bx, by, bz) = corner_steps(b);
            ||| (bx, by, bz) == (ax + 1, ay, az)
            ||| (bx, by, bz) == (ax, ay + 1, az)
            ||| (bx, by, bz) == (ax, ay, az + 1)
        }),
    ensures
        EDGES@.contains((a as usize, b as usize)),
{
    let i = if b == a + 4 {
        a
    } else if b == a + 2 {
        4 + a / 4 * 2 + a % 2
    } else {
        8 + a / 2
    };
    assert(EDGES@[i] == (a as usize, b as usize)) by {
        assert(a == 0 || a == 1 || a == 2 || a == 3 || a == 4 || a == 5 || a == 6 || a == 7);
        assert(b == 0 || b == 1 || b == 2 || b == 3 || b == 4 || b == 5 || b == 6 || b == 7);
    }
}

/// No edge is listed twice.
pub proof fn lemma_edges_distinct()
    ensures
        EDGES@.no_duplicates(),
{
    assert forall|i: int, j: int| 0 <= i < j < 12 implies EDGES@[i] != EDGES@[j] by {
        assert(i == 0 || i == 1 || i == 2 || i == 3 || i == 4 || i == 5 || i == 6 || i == 7 || i
            == 8 || i == 9 || i == 10 || i == 11);
        assert(j == 0 || j == 1 || j == 2 || j == 3 || j == 4 || j == 5 || j == 6 || j == 7 || j
            == 8 || j == 9 || j == 10 || j == 11);
    }
}

/// A cell with two corners whose signs differ is crossed by the surface.
pub proof fn lemma_crossed_cell_is_partial(distances: Seq<Single>, a: int, b: int)
    requires
        0 <= a < 8,
        0 <= b < 8,
        distances[a].sign_differs(distances[b]),
    ensures
        partially_in(distances),
{
    if !distances[a].is_nan() {
        lemma_sign_of_number(distances[a]);
    }
    if !distances[b].is_nan() {
        lemma_sign_of_number(distances[b]);
    }
}

/// Every crossing of a cell is that of an edge of the cell that the surface crosses.
pub proof fn lemma_crossings_on_edges(distances: Seq<Single>)
    ensures
        forall|k: int|
            #![trigger crossings(distances)[k]]
            0 <= k < crossings(distances).len() ==> {
                let edge = (crossings(distances)[k].from, crossings(distances)[k].to);
                &&& EDGES@.contains(edge)
                &&& edge.0 < edge.1 < 8
                &&& crosses(distances, edge)
                &&& crossings(distances)[k] == crossing_on(distances, edge)
            },
{
    let pred = |edge: (usize, usize)| crosses(distances, edge);
    lemma_edges();
    assert forall|k: int|
        #![trigger crossings(distances)[k]]
        0 <= k < crossings(distances).len() implies {
        let edge = (crossings(distances)[k].from, crossings(distances)[k].to);
        &&& EDGES@.contains(edge)
        &&& edge.0 < edge.1 < 8
        &&& crosses(distances, edge)
        &&& crossings(distances)[k] == crossing_on(distances, edge)
    } by {
        let edge = EDGES@.filter(pred)[k];
        EDGES@.lemma_filter_pred(pred, k);
        assert(EDGES@.filter(pred).contains(edge));
        EDGES@.lemma_filter_contains_rev(pred, edge);
        assert(crossings(distances)[k] == crossing_on(distances, edge));
    }
}

/// A cell has a crossing exactly if the signs of its corners are not all the same.
pub proof fn lemma_crossing_exists(distances: Seq<Single>)
    ensures
        crossings(distances).len() > 0 <==> exists|a: int, b: int|
            0 <= a < 8 && 0 <= b < 8 && (#[trigger] distances[a]).sign_differs(
                #[trigger] distances[b],
            ),
{
    let pred = |edge: (usize, usize)| crosses(distances, edge);
    let kept = EDGES@.filter(pred);
    lemma_edges();
    if kept.len() > 0 {
        EDGES@.lemma_filter_pred(pred, 0);
        EDGES@.lemma_filter_contains_rev(pred, kept[0]);
        let edge = kept[0];
        let i = choose|i: int| 0 <= i < EDGES@.len() && EDGES@[i] == edge;
        assert(EDGES@[i] == edge);
        assert(distances[edge.0 as int].sign_differs(distances[edge.1 as int]));
    } else {
        assert forall|i: int| 0 <= i < 12 implies !crosses(distances, #[trigger] EDGES@[i]) by {
            if pred(EDGES@[i]) {
                EDGES@.lemma_filter_contains(pred, i);
                assert(kept.contains(EDGES@[i]));
            }
        }
        assert(!crosses(distances, EDGES@[0]) && !crosses(distances, EDGES@[1]));
        assert(!crosses(distances, EDGES@[2]) && !crosses(distances, EDGES@[3]));
        assert(!crosses(distances, EDGES@[4]) && !crosses(distances, EDGES@[5]));
        assert(!crosses(distances, EDGES@[8]));
        assert forall|a: int, b: int| 0 <= a < 8 && 0 <= b < 8 implies !(
        #[trigger] distances[a]).sign_differs(#[trigger] distances[b]) by {
            assert(a == 0 || a == 1 || a == 2 || a == 3 || a == 4 || a == 5 || a == 6 || a == 7);
            assert(b == 0 || b == 1 || b == 2 || b == 3 || b == 4 || b == 5 || b == 6 || b == 7);
        }
    }
}

/// A cell that the surface crosses has a crossing, unless one of its corners lies
/// right on the surface.
pub proof fn lemma_partial_cell_has_crossing(distances: Seq<Single>)
    requires
        partially_in(distances),
        forall|i: int| 0 <= i < 8 ==> !(#[trigger] distances[i]).zero(),
    ensures
        crossings(distances).len() > 0,
{
    lemma_crossing_exists(distances);
    let a = choose|a: int| 0 <= a < 8 && !(#[trigger] distances[a]).below_zero();
    let b = choose|b: int| 0 <= b < 8 && !(#[trigger] distances[b]).above_zero();
    if !distances[a].is_nan() {
        lemma_sign_of_number(distances[a]);
    }
    if !distances[b].is_nan() {
        lemma_sign_of_number(distances[b]);
    }
    assert(distances[a].sign_differs(distances[b]));
}

/// The corners at which the surface touches a cell are corners of the cell, and they
/// lie right on the surface.
pub proof fn lemma_touched_corners(distances: Seq<Single>)
    ensures
        forall|k: int|
            0 <= k < touched_corners(distances).len() ==> (#[trigger] touched_corners(
                distances,
            )[k]) < 8 && distances[touched_corners(distances)[k] as int].zero(),
        touched_corners(distances).len() > 0 <==> crossings(distances).len() == 0 && exists|i: int|
            0 <= i < 8 && (#[trigger] distances[i]).zero(),
{
    let pred = |corner: usize| distances[corner as int].zero();
    let found = corners().filter(pred);
    assert forall|k: int| 0 <= k < found.len() implies (#[trigger] found[k]) < 8
        && distances[found[k] as int].zero() by {
        corners().lemma_filter_pred(pred, k);
        assert(found.contains(found[k]));
        corners().lemma_filter_contains_rev(pred, found[k]);
    }
    if found.len() > 0 {
        assert(found[0] < 8 && distances[found[0] as int].zero());
    }
    if exists|i: int| 0 <= i < 8 && (#[trigger] distances[i]).zero() {
        let i = choose|i: int| 0 <= i < 8 && (#[trigger] distances[i]).zero();
        assert(pred(corners()[i]));
        corners().lemma_filter_contains(pred, i);
    }
}

/// A cell that gets a vertex has something to place the vertex by: a crossing, or a
/// corner at which the surface touches it. It has such a corner exactly if no edge
/// is crossed: every corner has a distance and the same sign, and some corner is
/// zero.
pub proof fn lemma_partial_cell(distances: Seq<Single>)
    ensures
        partially_in(distances) ==> crossings(distances).len() > 0 || touched_corners(
            distances,
        ).len() > 0,
        !(crossings(distances).len() > 0 && touched_corners(distances).len() > 0),
        touched_corners(distances).len() > 0 ==> partially_in(distances),
        touched_corners(distances).len() > 0 <==> {
            &&& exists|i: int| 0 <= i < 8 && (#[trigger] distances[i]).zero()
            &&& forall|i: int| 0 <= i < 8 ==> !(#[trigger] distances[i]).is_nan()
            &&& forall|i: int|
                0 <= i < 8 ==> (#[trigger] distances[i]).signed() == distances[0].signed()
        },
{
    lemma_crossing_exists(distances);
    lemma_touched_corners(distances);
    if partially_in(distances) && forall|i: int|
        0 <= i < 8 ==> !(#[trigger] distances[i]).zero() {
        lemma_partial_cell_has_crossing(distances);
    }
    if crossings(distances).len() == 0 {
        assert forall|i: int| 0 <= i < 8 implies !(#[trigger] distances[i]).is_nan()
            && distances[i].signed() == distances[0].signed() by {
            assert(!distances[i].sign_differs(distances[0]));
        }
    }
}

/// The distances of a crossed edge are turned so that the first one has the minus
/// sign and the second one has not, unless the first end is the zero with a minus
/// sign or one end has no distance.
pub proof fn lemma_turned(distances: Seq<Single>, edge: (usize, usize))
    requires
        crosses(distances, edge),
        !distances[edge.0 as int].is_nan(),
        !distances[edge.1 as int].is_nan(),
        !(distances[edge.0 as int].zero() && distances[edge.0 as int].signed()),
    ensures
        ({
            let (from, to) = turned(distances, edge);
            &&& from.signed() && !to.signed()
            &&& from.units() <= 0 <= to.units()
        }),
{
    let from = distances[edge.0 as int];
    let to = distances[edge.1 as int];
    lemma_sign_of_number(from);
    lemma_sign_of_number(to);
    lemma_negative(from);
    lemma_negative(to);
}

/// The ends of a crossed edge count the same exactly if both lie right on the
/// surface.
pub proof fn lemma_even_weight(distances: Seq<Single>, edge: (usize, usize))
    requires
        crosses(distances, edge),
    ensures
        crossing_on(distances, edge).weight is Even <==> distances[edge.0 as int].zero()
            && distances[edge.1 as int].zero(),
{
    let from = distances[edge.0 as int];
    let to = distances[edge.1 as int];
    lemma_negative(from);
    lemma_negative(to);
    if !from.is_nan() && !to.is_nan() {
        lemma_sign_of_number(from);
        lemma_sign_of_number(to);
    }
}

/// The share of the first end of a crossed edge, `(from + delta) / delta`, lies
/// between zero and one if both distances are finite. It is one if the first end
/// lies right on the surface, and zero if the second end does.
pub proof fn lemma_share_in_range(distances: Seq<Single>, edge: (usize, usize))
    requires
        crosses(distances, edge),
        distances[edge.0 as int].magnitude() < INFINITE_MAGNITUDE,
        distances[edge.1 as int].magnitude() < INFINITE_MAGNITUDE,
        crossing_on(distances, edge).weight is Distances,
    ensures
        ({
            let (from, to) = turned(distances, edge);
            let delta = to.units() - from.units();
            &&& crossing_on(distances, edge).weight == (Weight::Distances { from, to })
            &&& 0 <= from.units() + delta <= delta || delta <= from.units() + delta <= 0
            &&& delta != 0
            &&& from.zero() ==> from.units() + delta == delta
            &&& to.zero() ==> from.units() + delta == 0
        }),
{
    let from = distances[edge.0 as int];
    let to = distances[edge.1 as int];
    lemma_sign_of_number(from);
    lemma_sign_of_number(to);
    lemma_negative(from);
    lemma_negative(to);
}

/// Whether the distances at the eight corners of a cell are finite numbers.
pub open spec fn finite(distances: Seq<Single>) -> bool {
    forall|i: int| 0 <= i < 8 ==> (#[trigger] distances[i]).magnitude() < INFINITE_MAGNITUDE
}

/// Whether a crossing lies between the ends of its edge: the share of each end is
/// between zero and one.
pub open spec fn between_ends(crossing: Crossing) -> bool {
    &&& crossing.from < crossing.to < 8
    &&& match crossing.weight {
        Weight::Even => true,
        Weight::Distances { from, to } => {
            let delta = to.units() - from.units();
            &&& delta != 0
            &&& 0 <= from.units() + delta <= delta || delta <= from.units() + delta <= 0
        },
    }
}

/// Every crossing of a cell lies between the ends of an edge of the cell, if the
/// distances at the corners are finite.
pub proof fn lemma_crossings_within_cell(distances: Seq<Single>)
    requires
        finite(distances),
    ensures
        forall|k: int|
            0 <= k < crossings(distances).len() ==> between_ends(
                #[trigger] crossings(distances)[k],
            ),
{
    lemma_crossings_on_edges(distances);
    assert forall|k: int| 0 <= k < crossings(distances).len() implies between_ends(
        #[trigger] crossings(distances)[k],
    ) by {
        let crossing = crossings(distances)[k];
        let edge = (crossing.from, crossing.to);
        assert(crossing == crossing_on(distances, edge));
        if crossing.weight is Distances {
            lemma_share_in_range(distances, edge);
        }
    }
}

} // verus!
