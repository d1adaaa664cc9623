//! Octrees: boxes that are cut into eight again and again, with data in the
//! boxes that are not cut.

use crate::places::lemma_places;
use crate::span::{lemma_nearest, lemma_octant, lemma_octant_toward, Point3, Span};
use vstd::prelude::*;

verus! {

/// A box of an octree that is not cut, with what is stored there.
#[derive(Debug)]
pub struct Leaf<T> {
    pub span: Span,
    pub data: Option<T>,
}

/// A node of an octree. A node that is cut has eight children, one per octant.
#[derive(Debug)]
enum Node<T> {
    Leaf(Option<T>),
    Inner(Vec<Node<T>>),
}

/// The sequence with the item at `i` replaced by the items of `replacement`.
pub open spec fn splice<A>(s: Seq<A>, i: int, replacement: Seq<A>) -> Seq<A> {
    s.take(i) + replacement + s.skip(i + 1)
}

/// The leaves of the first `k` octants of a box.
spec fn branch_leaves<T>(children: Seq<Node<T>>, span: Span, k: int) -> Seq<Leaf<T>>
    decreases children, k,
{
    if k <= 0 || k > children.len() {
        Seq::empty()
    } else {
        branch_leaves(children, span, k - 1) + node_leaves(children[k - 1], span.octant(k - 1))
    }
}

/// The leaves of a node, octant by octant.
spec fn node_leaves<T>(node: Node<T>, span: Span) -> Seq<Leaf<T>>
    decreases node, 0int,
{
    match node {
        Node::Leaf(data) => seq![Leaf { span, data }],
        Node::Inner(children) => branch_leaves(children@, span, children@.len() as int),
    }
}

/// Whether every node that is cut has eight children and is large enough for them.
spec fn node_wf<T>(node: Node<T>, span: Span) -> bool
    decreases node,
{
    match node {
        Node::Leaf(_) => span.wf(),
        Node::Inner(children) => {
            &&& span.divisible()
            &&& children@.len() == 8
            &&& forall|k: int|
                0 <= k < 8 ==> node_wf(#[trigger] children@[k], span.octant(k))
        },
    }
}

/// The place of the leaf that is found on the way toward a point.
spec fn node_index<T>(node: Node<T>, span: Span, p: Point3) -> int
    decreases node,
{
    match node {
        Node::Leaf(_) => 0,
        Node::Inner(children) => {
            let k = span.octant_toward(p);
            if 0 <= k < children@.len() {
                branch_leaves(children@, span, k).len() + node_index(
                    children@[k],
                    span.octant(k),
                    p,
                )
            } else {
                0
            }
        },
    }
}

/// Replacing leaves of one child replaces the same leaves of the whole branch.
proof fn lemma_splice_branch<T>(
    children: Seq<Node<T>>,
    span: Span,
    m: int,
    k: int,
    child: Node<T>,
    i: int,
    replacement: Seq<Leaf<T>>,
)
    requires
        0 <= k < children.len(),
        0 <= m <= children.len(),
        0 <= i < node_leaves(children[k], span.octant(k)).len(),
        node_leaves(child, span.octant(k)) == splice(
            node_leaves(children[k], span.octant(k)),
            i,
            replacement,
        ),
    ensures
        m <= k ==> branch_leaves(children.update(k, child), span, m) == branch_leaves(
            children,
            span,
            m,
        ),
        m > k ==> {
            let at = branch_leaves(children, span, k).len() + i;
            &&& branch_leaves(children.update(k, child), span, m) == splice(
                branch_leaves(children, span, m),
                at,
                replacement,
            )
            &&& at < branch_leaves(children, span, m).len()
        },
    decreases m,
{
    let changed = children.update(k, child);
    if m > 0 {
        lemma_splice_branch(children, span, m - 1, k, child, i, replacement);
        let before = branch_leaves(children, span, m - 1);
        let last = node_leaves(children[m - 1], span.octant(m - 1));
        let at = branch_leaves(children, span, k).len() + i;
        if m - 1 == k {
            assert(before + splice(last, i, replacement) =~= splice(
                before + last,
                at,
                replacement,
            ));
        } else if m - 1 > k {
            assert(changed[m - 1] == children[m - 1]);
            assert(splice(before, at, replacement) + last =~= splice(
                before + last,
                at,
                replacement,
            ));
        }
    }
}

/// The leaves of a child are found in the branch, behind those of the children
/// before it.
proof fn lemma_child_in_branch<T>(children: Seq<Node<T>>, span: Span, k: int, m: int, i: int)
    requires
        0 <= k < m <= children.len(),
        0 <= i < node_leaves(children[k], span.octant(k)).len(),
    ensures
        branch_leaves(children, span, k).len() + i < branch_leaves(children, span, m).len(),
        branch_leaves(children, span, m)[branch_leaves(children, span, k).len() + i]
            == node_leaves(children[k], span.octant(k))[i],
    decreases m,
{
    if k < m - 1 {
        lemma_child_in_branch(children, span, k, m - 1, i);
    }
}

/// Every leaf of a branch is a leaf of one of its children. Gives the child and
/// the place of the leaf there.
proof fn lemma_branch_leaf<T>(children: Seq<Node<T>>, span: Span, m: int, i: int) -> (found: (
    int,
    int,
))
    requires
        0 <= m <= children.len(),
        0 <= i < branch_leaves(children, span, m).len(),
    ensures
        0 <= found.0 < m,
        0 <= found.1 < node_leaves(children[found.0], span.octant(found.0)).len(),
        i == branch_leaves(children, span, found.0).len() + found.1,
        branch_leaves(children, span, m)[i] == node_leaves(
            children[found.0],
            span.octant(found.0),
        )[found.1],
    decreases m,
{
    let before = branch_leaves(children, span, m - 1);
    if i < before.len() {
        lemma_branch_leaf(children, span, m - 1, i)
    } else {
        (m - 1, i - before.len())
    }
}

/// On the way toward a point one arrives at the leaf that holds the nearest point
/// of the box.
proof fn lemma_node_index<T>(node: Node<T>, span: Span, p: Point3)
    requires
        node_wf(node, span),
    ensures
        span.wf(),
        0 <= node_index(node, span, p) < node_leaves(node, span).len(),
        node_leaves(node, span)[node_index(node, span, p)].span.holds(span.nearest_to(p)),
    decreases node,
{
    lemma_nearest(span, p);
    match node {
        Node::Leaf(_) => {},
        Node::Inner(children) => {
            let k = span.octant_toward(p);
            lemma_octant_toward(span, p);
            lemma_node_index(children@[k], span.octant(k), p);
            lemma_child_in_branch(
                children@,
                span,
                k,
                8,
                node_index(children@[k], span.octant(k), p),
            );
        },
    }
}

/// The leaves lie in the box, and no two of them hold the same point.
proof fn lemma_node_leaf<T>(node: Node<T>, span: Span, i: int, p: Point3)
    requires
        node_wf(node, span),
        0 <= i < node_leaves(node, span).len(),
    ensures
        node_leaves(node, span)[i].span.wf(),
        span.covers(node_leaves(node, span)[i].span),
        node_leaves(node, span)[i].span.holds(p) ==> i == node_index(node, span, p),
    decreases node,
{
    match node {
        Node::Leaf(_) => {},
        Node::Inner(children) => {
            let (k, j) = lemma_branch_leaf(children@, span, 8, i);
            assert(node_wf(children@[k], span.octant(k)));
            lemma_node_leaf(children@[k], span.octant(k), j, p);
            lemma_octant(span, k);
            lemma_octant_toward(span, p);
            if node_leaves(node, span)[i].span.holds(p) {
                lemma_nearest(span, p);
                assert(span.octant(k).holds(span.nearest_to(p)));
            }
        },
    }
}

/// The leaves of a box that is cut once, with nothing in them.
pub open spec fn empty_octants<T>(span: Span) -> Seq<Leaf<T>> {
    Seq::new(8, |k: int| Leaf { span: span.octant(k), data: None::<T> })
}

proof fn lemma_empty_branch<T>(children: Seq<Node<T>>, span: Span, m: int)
    requires
        0 <= m <= 8,
        children.len() == 8,
        forall|k: int| 0 <= k < 8 ==> #[trigger] children[k] == Node::<T>::Leaf(None),
    ensures
        branch_leaves(children, span, m) == empty_octants::<T>(span).take(m),
    decreases m,
{
    if m > 0 {
        lemma_empty_branch(children, span, m - 1);
        let last = Leaf { span: span.octant(m - 1), data: None::<T> };
        assert(node_leaves(children[m - 1], span.octant(m - 1)) == seq![last]);
    }
    assert(branch_leaves(children, span, m) =~= empty_octants::<T>(span).take(m));
}

impl<T> Node<T> {
    /// A node that is cut once, with nothing in the octants.
    fn cut(span: Ghost<Span>) -> (node: Self)
        requires
            span@.divisible(),
        ensures
            node_wf(node, span@),
            node_leaves(node, span@) == empty_octants::<T>(span@),
    {
        let mut children: Vec<Node<T>> = Vec::new();
        let mut k: usize = 0;
        while k < 8
            invariant
                k <= 8,
                children@.len() == k,
                forall|j: int| 0 <= j < k ==> #[trigger] children@[j] == Node::<T>::Leaf(None),
            decreases 8 - k,
        {
            children.push(Node::Leaf(None));
            k += 1;
        }
        let node = Node::Inner(children);
        proof {
            assert forall|j: int| 0 <= j < 8 implies node_wf(
                #[trigger] children@[j],
                span@.octant(j),
            ) by {
                lemma_octant(span@, j);
            }
            lemma_empty_branch(children@, span@, 8);
            assert(empty_octants::<T>(span@).take(8) =~= empty_octants::<T>(span@));
        }
        node
    }

    /// Cuts the leaf on the way toward a point.
    fn split_around(&mut self, span: Span, p: Point3)
        requires
            node_wf(*old(self), span),
            node_leaves(*old(self), span)[node_index(*old(self), span, p)].span.divisible(),
        ensures
            node_wf(*final(self), span),
            node_leaves(*final(self), span) == splice(
                node_leaves(*old(self), span),
                node_index(*old(self), span, p),
                empty_octants::<T>(
                    node_leaves(*old(self), span)[node_index(*old(self), span, p)].span,
                ),
            ),
        decreases *old(self),
    {
        proof {
            lemma_node_index(*self, span, p);
        }
        match self {
            Node::Leaf(_) => {
                *self = Node::cut(Ghost(span));
                assert(node_leaves(*self, span) =~= splice(
                    node_leaves(*old(self), span),
                    0,
                    empty_octants::<T>(span),
                ));
            },
            Node::Inner(children) => {
                let k: usize = span.find_octant(p);
                let octant = span.get_octant(k);
                let ghost before = children@;
                proof {
                    lemma_octant(span, k as int);
                    assert(node_wf(before[k as int], octant));
                    lemma_node_index(before[k as int], octant, p);
                    lemma_child_in_branch(
                        before,
                        span,
                        k as int,
                        8,
                        node_index(before[k as int], octant, p),
                    );
                }
                Self::split_around(&mut children[k], octant, p);
                proof {
                    lemma_splice_branch(
                        before,
                        span,
                        8,
                        k as int,
                        children@[k as int],
                        node_index(before[k as int], octant, p),
                        empty_octants::<T>(
                            node_leaves(before[k as int], octant)[node_index(
                                before[k as int],
                                octant,
                                p,
                            )].span,
                        ),
                    );
                    assert(children@ =~= before.update(k as int, children@[k as int]));
                }
            },
        }
    }

    /// Replaces what is stored in the leaf on the way toward a point.
    fn set_around(&mut self, span: Span, p: Point3, data: Option<T>)
        requires
            node_wf(*old(self), span),
        ensures
            node_wf(*final(self), span),
            node_leaves(*final(self), span) == splice(
                node_leaves(*old(self), span),
                node_index(*old(self), span, p),
                seq![
                    Leaf {
                        span: node_leaves(*old(self), span)[node_index(*old(self), span, p)].span,
                        data,
                    },
                ],
            ),
        decreases *old(self),
    {
        proof {
            lemma_node_index(*self, span, p);
        }
        match self {
            Node::Leaf(stored) => {
                *stored = data;
                assert(node_leaves(Node::Leaf(data), span) =~= splice(
                    node_leaves(*old(self), span),
                    0,
                    seq![Leaf { span, data }],
                ));
            },
            Node::Inner(children) => {
                let k: usize = span.find_octant(p);
                let octant = span.get_octant(k);
                let ghost before = children@;
                proof {
                    lemma_octant(span, k as int);
                    assert(node_wf(before[k as int], octant));
                    lemma_node_index(before[k as int], octant, p);
                    lemma_child_in_branch(
                        before,
                        span,
                        k as int,
                        8,
                        node_index(before[k as int], octant, p),
                    );
                }
                Self::set_around(&mut children[k], octant, p, data);
                proof {
                    let i = node_index(before[k as int], octant, p);
                    let leaf = Leaf { span: node_leaves(before[k as int], octant)[i].span, data };
                    lemma_splice_branch(
                        before,
                        span,
                        8,
                        k as int,
                        children@[k as int],
                        i,
                        seq![leaf],
                    );
                    assert(children@ =~= before.update(k as int, children@[k as int]));
                }
            },
        }
    }

    /// Finds the leaf on the way toward a point.
    fn find_around(&self, span: Span, p: Point3) -> (found: (Span, &Option<T>))
        requires
            node_wf(*self, span),
        ensures
            node_leaves(*self, span)[node_index(*self, span, p)] == (Leaf {
                span: found.0,
                data: *found.1,
            }),
        decreases *self,
    {
        match self {
            Node::Leaf(data) => (span, data),
            Node::Inner(children) => {
                let k: usize = span.find_octant(p);
                let octant = span.get_octant(k);
                proof {
                    assert(node_wf(children@[k as int], octant));
                    lemma_node_index(children@[k as int], octant, p);
                    lemma_child_in_branch(
                        children@,
                        span,
                        k as int,
                        8,
                        node_index(children@[k as int], octant, p),
                    );
                }
                children[k].find_around(octant, p)
            },
        }
    }

    /// Adds the leaves of the node, octant by octant.
    fn collect<'a>(&'a self, span: Span, found: &mut Vec<(Span, &'a Option<T>)>)
        requires
            node_wf(*self, span),
        ensures
            listed(final(found)@) == listed(old(found)@) + node_leaves(*self, span),
        decreases *self,
    {
        match self {
            Node::Leaf(data) => {
                found.push((span, data));
                assert(listed(found@) =~= listed(old(found)@) + node_leaves(*self, span));
            },
            Node::Inner(children) => {
                let mut k: usize = 0;
                assert(listed(found@) =~= listed(old(found)@) + branch_leaves(children@, span, 0));
                while k < 8
                    invariant
                        k <= 8,
                        node_wf(*self, span),
                        *self == Node::Inner(*children),
                        listed(found@) == listed(old(found)@) + branch_leaves(
                            children@,
                            span,
                            k as int,
                        ),
                    decreases 8 - k,
                {
                    let octant = span.get_octant(k);
                    assert(node_wf(children@[k as int], octant));
                    children[k].collect(octant, found);
                    assert(listed(found@) =~= listed(old(found)@) + branch_leaves(
                        children@,
                        span,
                        k + 1,
                    ));
                    k += 1;
                }
            },
        }
    }
}

/// The leaves that a list of references stands for.
pub open spec fn listed<T>(refs: Seq<(Span, &Option<T>)>) -> Seq<Leaf<T>> {
    refs.map_values(|r: (Span, &Option<T>)| Leaf { span: r.0, data: *r.1 })
}

/// The boxes of the leaves with nothing in them.
pub open spec fn empty_spans<T>(leaves: Seq<Leaf<T>>) -> Seq<Span> {
    leaves.filter(|leaf: Leaf<T>| leaf.data is None).map_values(|leaf: Leaf<T>| leaf.span)
}

/// Whether `to` is `from` with something that `make` may give in place of nothing.
pub open spec fn filled_leaf<T, F: Fn(Span) -> T>(make: F, from: Leaf<T>, to: Leaf<T>) -> bool {
    &&& to.span == from.span
    &&& match from.data {
        Some(_) => to.data == from.data,
        None => to.data is Some && call_ensures(make, (from.span,), to.data->0),
    }
}

/// Whether `to` are the leaves `from`, filled by `make`.
pub open spec fn filled_leaves<T, F: Fn(Span) -> T>(
    make: F,
    from: Seq<Leaf<T>>,
    to: Seq<Leaf<T>>,
) -> bool {
    &&& to.len() == from.len()
    &&& forall|i: int|
        #![trigger from[i]]
        #![trigger to[i]]
        0 <= i < from.len() ==> filled_leaf(make, from[i], to[i])
}

/// Empty leaves are listed part by part.
pub proof fn lemma_empty_spans_add<T>(a: Seq<Leaf<T>>, b: Seq<Leaf<T>>)
    ensures
        empty_spans(a + b) == empty_spans(a) + empty_spans(b),
{
    Seq::filter_distributes_over_add(a, b, |leaf: Leaf<T>| leaf.data is None);
    assert(empty_spans(a + b) =~= empty_spans(a) + empty_spans(b));
}

/// The leaves of a part of a branch do not depend on the children behind it.
proof fn lemma_branch_same<T>(a: Seq<Node<T>>, b: Seq<Node<T>>, span: Span, m: int)
    requires
        0 <= m <= a.len(),
        a.len() == b.len(),
        forall|k: int| 0 <= k < m ==> #[trigger] a[k] == b[k],
    ensures
        branch_leaves(a, span, m) == branch_leaves(b, span, m),
    decreases m,
{
    if m > 0 {
        lemma_branch_same(a, b, span, m - 1);
        assert(a[m - 1] == b[m - 1]);
    }
}

impl<T> Node<T> {
    /// Fills the leaves with nothing in them, and adds their boxes.
    fn fill_empty<F: Fn(Span) -> T>(&mut self, span: Span, make: &F, filled: &mut Vec<Span>)
        requires
            node_wf(*old(self), span),
            forall|s: Span| call_requires(*make, (s,)),
        ensures
            node_wf(*final(self), span),
            filled_leaves(*make, node_leaves(*old(self), span), node_leaves(*final(self), span)),
            final(filled)@ == old(filled)@ + empty_spans(node_leaves(*old(self), span)),
        decreases *old(self), 0int,
    {
        match self {
            Node::Leaf(data) => {
                proof {
                    reveal_with_fuel(Seq::filter, 2);
                    let leaf = Leaf { span, data: *data };
                    assert(seq![leaf].drop_last() =~= Seq::<Leaf<T>>::empty());
                    assert(empty_spans(seq![leaf]) =~= if leaf.data is None {
                        seq![span]
                    } else {
                        Seq::<Span>::empty()
                    });
                }
                if data.is_none() {
                    *data = Some(make(span));
                    filled.push(span);
                }
                assert(filled@ =~= old(filled)@ + empty_spans(node_leaves(*old(self), span)));
            },
            Node::Inner(children) => {
                Self::fill_children(children, span, make, filled);
            },
        }
    }

    fn fill_children<F: Fn(Span) -> T>(
        children: &mut Vec<Node<T>>,
        span: Span,
        make: &F,
        filled: &mut Vec<Span>,
    )
        requires
            span.divisible(),
            old(children)@.len() == 8,
            forall|k: int|
                0 <= k < 8 ==> node_wf(#[trigger] old(children)@[k], span.octant(k)),
            forall|s: Span| call_requires(*make, (s,)),
        ensures
            final(children)@.len() == 8,
            forall|k: int|
                0 <= k < 8 ==> node_wf(#[trigger] final(children)@[k], span.octant(k)),
            filled_leaves(
                *make,
                branch_leaves(old(children)@, span, 8),
                branch_leaves(final(children)@, span, 8),
            ),
            final(filled)@ == old(filled)@ + empty_spans(branch_leaves(old(children)@, span, 8)),
        decreases old(children)@, 1int,
    {
        let mut k: usize = 0;
        proof {
            reveal(Seq::filter);
            assert(filled@ =~= old(filled)@ + empty_spans(
                branch_leaves(old(children)@, span, 0),
            ));
        }
        while k < 8
            invariant
                k <= 8,
                span.divisible(),
                old(children)@.len() == 8,
                children@.len() == 8,
                forall|j: int| 0 <= j < 8 ==> node_wf(#[trigger] children@[j], span.octant(j)),
                forall|j: int| k <= j < 8 ==> #[trigger] children@[j] == old(children)@[j],
                forall|s: Span| call_requires(*make, (s,)),
                filled_leaves(
                    *make,
                    branch_leaves(old(children)@, span, k as int),
                    branch_leaves(children@, span, k as int),
                ),
                filled@ == old(filled)@ + empty_spans(
                    branch_leaves(old(children)@, span, k as int),
                ),
            decreases 8 - k,
        {
            let octant = span.get_octant(k);
            let ghost before = children@;
            let ghost start = old(children)@;
            let ghost spans = filled@;
            assert(node_wf(before[k as int], octant));
            Self::fill_empty(&mut children[k], octant, make, filled);
            proof {
                assert(children@ =~= before.update(k as int, children@[k as int]));
                lemma_branch_same(before, children@, span, k as int);
                let a = branch_leaves(start, span, k as int);
                let b = node_leaves(start[k as int], octant);
                lemma_empty_spans_add(a, b);
                assert(branch_leaves(start, span, k + 1) == a + b);
                assert(filled@ =~= old(filled)@ + empty_spans(a + b));
            }
            k += 1;
        }
    }
}

/// Whether leaf `i` holds the point.
pub open spec fn leaf_holds<T>(leaves: Seq<Leaf<T>>, i: int, p: Point3) -> bool {
    0 <= i < leaves.len() && leaves[i].span.holds(p)
}

/// Whether the leaves fill the box without overlap.
pub open spec fn tiles<T>(leaves: Seq<Leaf<T>>, span: Span) -> bool {
    &&& span.wf()
    &&& forall|i: int|
        0 <= i < leaves.len() ==> (#[trigger] leaves[i]).span.wf() && span.covers(leaves[i].span)
    &&& forall|p: Point3| #[trigger] span.holds(p) ==> exists|i: int| leaf_holds(leaves, i, p)
    &&& forall|i: int, j: int, p: Point3| #[trigger]
        leaf_holds(leaves, i, p) && #[trigger] leaf_holds(leaves, j, p) ==> i == j
}

/// The place of the leaf around a point. For a point outside of the box it is the
/// leaf around the nearest point of the box.
pub open spec fn index_around<T>(leaves: Seq<Leaf<T>>, span: Span, p: Point3) -> int {
    choose|i: int| leaf_holds(leaves, i, span.nearest_to(p))
}

/// Leaves that fill a box have exactly one leaf around each point.
pub proof fn lemma_index_around<T>(leaves: Seq<Leaf<T>>, span: Span, p: Point3)
    requires
        tiles(leaves, span),
    ensures
        leaf_holds(leaves, index_around(leaves, span, p), span.nearest_to(p)),
        forall|i: int|
            #[trigger] leaf_holds(leaves, i, span.nearest_to(p)) <==> i == index_around(
                leaves,
                span,
                p,
            ),
{
    lemma_nearest(span, p);
}

/// The leaf around the center of a leaf is that leaf.
pub proof fn lemma_index_around_center<T>(leaves: Seq<Leaf<T>>, span: Span, i: int)
    requires
        tiles(leaves, span),
        0 <= i < leaves.len(),
    ensures
        index_around(leaves, span, leaves[i].span.midpoint()) == i,
{
    let p = leaves[i].span.midpoint();
    lemma_index_around(leaves, span, p);
    lemma_nearest(span, p);
    assert(leaf_holds(leaves, i, span.nearest_to(p)));
}

/// Whether leaves fill a box, and which leaf is around a point, depends on their
/// boxes alone.
pub proof fn lemma_same_spans<T>(a: Seq<Leaf<T>>, b: Seq<Leaf<T>>, span: Span)
    requires
        tiles(a, span),
        a.len() == b.len(),
        forall|i: int| 0 <= i < a.len() ==> (#[trigger] a[i]).span == (#[trigger] b[i]).span,
    ensures
        tiles(b, span),
        forall|p: Point3| #[trigger] index_around(b, span, p) == index_around(a, span, p),
{
    assert forall|i: int, p: Point3| leaf_holds(a, i, p) == #[trigger] leaf_holds(b, i, p) by {
        if 0 <= i < a.len() {
            assert(a[i].span == b[i].span);
        }
    }
    assert forall|i: int| 0 <= i < b.len() implies (#[trigger] b[i]).span.wf() && span.covers(
        b[i].span,
    ) by {
        assert(a[i].span == b[i].span);
    }
    assert forall|p: Point3| #[trigger] span.holds(p) implies exists|i: int|
        leaf_holds(b, i, p) by {
        let i = choose|i: int| leaf_holds(a, i, p);
        assert(leaf_holds(b, i, p));
    }
    assert forall|i: int, j: int, p: Point3| #[trigger]
        leaf_holds(b, i, p) && #[trigger] leaf_holds(b, j, p) implies i == j by {
        assert(leaf_holds(a, i, p) && leaf_holds(a, j, p));
    }
    assert forall|p: Point3| #[trigger] index_around(b, span, p) == index_around(a, span, p) by {
        lemma_index_around(a, span, p);
        lemma_index_around(b, span, p);
        assert(leaf_holds(b, index_around(a, span, p), span.nearest_to(p)));
    }
}

/// Where a leaf of the cut tree comes from: its place before the cut of leaf `i`.
spec fn place_before(i: int, j: int) -> int {
    if j < i {
        j
    } else if j < i + 8 {
        i
    } else {
        j - 7
    }
}

/// Leaves that fill a box still do so once one of them is cut.
pub proof fn lemma_split_tiles<T>(leaves: Seq<Leaf<T>>, span: Span, i: int)
    requires
        tiles(leaves, span),
        0 <= i < leaves.len(),
        leaves[i].span.divisible(),
    ensures
        tiles(splice(leaves, i, empty_octants::<T>(leaves[i].span)), span),
{
    let cut = leaves[i].span;
    let after = splice(leaves, i, empty_octants::<T>(cut));
    assert(after.len() == leaves.len() + 7);
    assert forall|j: int| 0 <= j < after.len() implies {
        let before = place_before(i, j);
        &&& 0 <= before < leaves.len()
        &&& (#[trigger] after[j]).span == if i <= j < i + 8 {
            cut.octant(j - i)
        } else {
            leaves[before].span
        }
    } by {}
    assert forall|j: int| 0 <= j < after.len() implies (#[trigger] after[j]).span.wf()
        && span.covers(after[j].span) by {
        assert(leaves[place_before(i, j)].span.wf());
        if i <= j < i + 8 {
            lemma_octant(cut, j - i);
        }
    }
    assert forall|p: Point3| #[trigger] span.holds(p) implies exists|j: int|
        leaf_holds(after, j, p) by {
        let b = choose|b: int| leaf_holds(leaves, b, p);
        if b < i {
            assert(leaf_holds(after, b, p));
        } else if b > i {
            assert(leaf_holds(after, b + 7, p));
        } else {
            lemma_octant_toward(cut, p);
            lemma_nearest(cut, p);
            let k = cut.octant_toward(p);
            assert(cut.octant(k).holds(cut.nearest_to(p)));
            assert(after[i + k].span == cut.octant(k));
            assert(leaf_holds(after, i + k, p));
        }
    }
    assert forall|j: int, l: int, p: Point3| #[trigger]
        leaf_holds(after, j, p) && #[trigger] leaf_holds(after, l, p) implies j == l by {
        lemma_octant_toward(cut, p);
        lemma_nearest(cut, p);
        if i <= j < i + 8 {
            lemma_octant(cut, j - i);
            assert(after[j].span == cut.octant(j - i));
        }
        if i <= l < i + 8 {
            lemma_octant(cut, l - i);
            assert(after[l].span == cut.octant(l - i));
        }
        assert(leaf_holds(leaves, place_before(i, j), p));
        assert(leaf_holds(leaves, place_before(i, l), p));
        if i <= j < i + 8 && i <= l < i + 8 {
            assert(cut.octant(j - i).holds(cut.nearest_to(p)));
            assert(cut.octant(l - i).holds(cut.nearest_to(p)));
        }
    }
}

/// An octree.
#[derive(Debug)]
pub struct Octree<T> {
    span: Span,
    root: Node<T>,
}

impl<T> Octree<T> {
    /// The box that the octree spans.
    pub closed spec fn span(&self) -> Span {
        self.span
    }

    /// The boxes that are not cut, octant by octant, with what is stored in them.
    pub closed spec fn leaves(&self) -> Seq<Leaf<T>> {
        node_leaves(self.root, self.span)
    }

    pub closed spec fn wf(&self) -> bool {
        node_wf(self.root, self.span)
    }

    /// The place of the leaf around a point.
    pub open spec fn index_around(&self, p: Point3) -> int {
        index_around(self.leaves(), self.span(), p)
    }

    /// The leaves of an octree fill its box without overlap.
    pub proof fn lemma_tiles(&self)
        requires
            self.wf(),
        ensures
            tiles(self.leaves(), self.span()),
    {
        let p = self.span.start;
        lemma_node_index(self.root, self.span, p);
        assert forall|i: int| 0 <= i < self.leaves().len() implies (
        #[trigger] self.leaves()[i]).span.wf() && self.span().covers(self.leaves()[i].span) by {
            lemma_node_leaf(self.root, self.span, i, p);
        }
        assert forall|p: Point3| #[trigger] self.span().holds(p) implies exists|i: int|
            leaf_holds(self.leaves(), i, p) by {
            lemma_node_index(self.root, self.span, p);
            lemma_nearest(self.span, p);
            assert(leaf_holds(self.leaves(), node_index(self.root, self.span, p), p));
        }
        assert forall|i: int, j: int, p: Point3| #[trigger]
            leaf_holds(self.leaves(), i, p) && #[trigger] leaf_holds(
                self.leaves(),
                j,
                p,
            ) implies i == j by {
            lemma_node_leaf(self.root, self.span, i, p);
            lemma_node_leaf(self.root, self.span, j, p);
        }
    }

    /// The way toward a point leads to the leaf around it.
    proof fn lemma_index(&self, p: Point3)
        requires
            self.wf(),
        ensures
            self.index_around(p) == node_index(self.root, self.span, p),
            0 <= self.index_around(p) < self.leaves().len(),
    {
        self.lemma_tiles();
        lemma_index_around(self.leaves(), self.span(), p);
        lemma_node_index(self.root, self.span, p);
        assert(leaf_holds(
            self.leaves(),
            node_index(self.root, self.span, p),
            self.span.nearest_to(p),
        ));
    }

    /// An octree that is not cut, with nothing in it.
    pub fn spanning(span: Span) -> (tree: Self)
        requires
            span.wf(),
        ensures
            tree.wf(),
            tree.span() == span,
            tree.leaves() == seq![Leaf { span, data: None::<T> }],
    {
        Octree { span, root: Node::Leaf(None) }
    }

    /// Finds the leaf around a point: its box and what is stored in it.
    pub fn leaf_around(&self, p: Point3) -> (found: (Span, &Option<T>))
        requires
            self.wf(),
        ensures
            self.leaves()[self.index_around(p)] == (Leaf { span: found.0, data: *found.1 }),
    {
        proof {
            self.lemma_index(p);
        }
        self.root.find_around(self.span, p)
    }

    /// Cuts the leaf around a point into eight. What was stored in it is dropped.
    pub fn split_leaf_around(&mut self, p: Point3)
        requires
            old(self).wf(),
            old(self).leaves()[old(self).index_around(p)].span.divisible(),
        ensures
            final(self).wf(),
            final(self).span() == old(self).span(),
            final(self).leaves() == splice(
                old(self).leaves(),
                old(self).index_around(p),
                empty_octants::<T>(old(self).leaves()[old(self).index_around(p)].span),
            ),
    {
        proof {
            self.lemma_index(p);
        }
        self.root.split_around(self.span, p);
    }

    /// Replaces what is stored in the leaf around a point.
    pub fn set_leaf_around(&mut self, p: Point3, data: Option<T>)
        requires
            old(self).wf(),
        ensures
            final(self).wf(),
            final(self).span() == old(self).span(),
            final(self).leaves() == old(self).leaves().update(
                old(self).index_around(p),
                Leaf { span: old(self).leaves()[old(self).index_around(p)].span, data },
            ),
    {
        proof {
            self.lemma_index(p);
        }
        self.root.set_around(self.span, p, data);
        assert(self.leaves() =~= old(self).leaves().update(
            old(self).index_around(p),
            Leaf { span: old(self).leaves()[old(self).index_around(p)].span, data },
        ));
    }

    /// Fills every leaf with nothing in it by what `make` gives for its box, and
    /// gives the boxes of these leaves.
    pub fn fill_empty_leaves<F: Fn(Span) -> T>(&mut self, make: F) -> (filled: Vec<Span>)
        requires
            old(self).wf(),
            forall|s: Span| call_requires(make, (s,)),
        ensures
            final(self).wf(),
            final(self).span() == old(self).span(),
            filled_leaves(make, old(self).leaves(), final(self).leaves()),
            filled@ == empty_spans(old(self).leaves()),
    {
        let mut filled: Vec<Span> = Vec::new();
        self.root.fill_empty(self.span, &make, &mut filled);
        assert(filled@ =~= empty_spans(old(self).leaves()));
        filled
    }

    /// Lists the leaves, octant by octant.
    pub fn iter(&self) -> (found: Vec<(Span, &Option<T>)>)
        requires
            self.wf(),
        ensures
            listed(found@) == self.leaves(),
    {
        let mut found: Vec<(Span, &Option<T>)> = Vec::new();
        self.root.collect(self.span, &mut found);
        assert(listed(found@) =~= self.leaves());
        found
    }
}

/// Exactly one leaf holds the point of a box that is nearest to a point, and that is the
/// leaf around the point. Every leaf lies in the box, and is not empty.
pub proof fn lemma_leaf_of_point<T>(leaves: Seq<Leaf<T>>, span: Span, p: Point3, j: int)
    requires
        tiles(leaves, span),
        0 <= j < leaves.len(),
    ensures
        0 <= index_around(leaves, span, p) < leaves.len(),
        ({
            let s = leaves[j].span;
            let x = if p.x < span.start.x {
                span.start.x as int
            } else if p.x >= span.end.x {
                span.end.x - 1
            } else {
                p.x as int
            };
            let y = if p.y < span.start.y {
                span.start.y as int
            } else if p.y >= span.end.y {
                span.end.y - 1
            } else {
                p.y as int
            };
            let z = if p.z < span.start.z {
                span.start.z as int
            } else if p.z >= span.end.z {
                span.end.z - 1
            } else {
                p.z as int
            };
            let holds = s.start.x <= x < s.end.x && s.start.y <= y < s.end.y && s.start.z <= z
                < s.end.z;
            &&& holds <==> j == index_around(leaves, span, p)
            &&& span.start.x <= s.start.x < s.end.x <= span.end.x
            &&& span.start.y <= s.start.y < s.end.y <= span.end.y
            &&& span.start.z <= s.start.z < s.end.z <= span.end.z
        }),
{
    lemma_index_around(leaves, span, p);
    assert(leaves[j].span.wf() && span.covers(leaves[j].span));
    assert(leaf_holds(leaves, j, span.nearest_to(p)) == leaves[j].span.holds(span.nearest_to(p)));
}

/// Where an entry is replaced by others, the entries before it stay in their places,
/// those behind it move up, and the others are in between.
pub proof fn lemma_spliced<A>(s: Seq<A>, i: int, replacement: Seq<A>, j: int)
    requires
        0 <= i < s.len(),
    ensures
        splice(s, i, replacement).len() == s.len() - 1 + replacement.len(),
        0 <= j < i ==> splice(s, i, replacement)[j] == s[j],
        i <= j < i + replacement.len() ==> splice(s, i, replacement)[j] == replacement[j - i],
        i < j < s.len() ==> splice(s, i, replacement)[j - 1 + replacement.len()] == s[j],
{
}

/// The octants of a box are listed in order, with nothing in them: the last four are the
/// upper ones along x, the last two of each four along y, the last of each two along z.
pub proof fn lemma_octants_in_order<T>(span: Span, k: int)
    requires
        0 <= k < 8,
        span.start.x < span.end.x && span.end.x - span.start.x <= i64::MAX,
        span.start.y < span.end.y && span.end.y - span.start.y <= i64::MAX,
        span.start.z < span.end.z && span.end.z - span.start.z <= i64::MAX,
    ensures
        empty_octants::<T>(span).len() == 8,
        empty_octants::<T>(span)[k].data is None,
        ({
            let o = empty_octants::<T>(span)[k].span;
            let x = span.start.x + (span.end.x - span.start.x) / 2;
            let y = span.start.y + (span.end.y - span.start.y) / 2;
            let z = span.start.z + (span.end.z - span.start.z) / 2;
            &&& k >= 4 ==> o.start.x == x && o.end.x == span.end.x
            &&& k < 4 ==> o.start.x == span.start.x && o.end.x == x
            &&& k == 2 || k == 3 || k == 6 || k == 7 ==> o.start.y == y && o.end.y == span.end.y
            &&& k == 0 || k == 1 || k == 4 || k == 5 ==> o.start.y == span.start.y && o.end.y == y
            &&& k == 1 || k == 3 || k == 5 || k == 7 ==> o.start.z == z && o.end.z == span.end.z
            &&& k == 0 || k == 2 || k == 4 || k == 6 ==> o.start.z == span.start.z && o.end.z == z
        }),
{
}

/// A list of references stands for the boxes and contents that it refers to, one by one.
pub proof fn lemma_listed<T>(refs: Seq<(Span, &Option<T>)>, i: int)
    requires
        0 <= i < refs.len(),
    ensures
        listed(refs).len() == refs.len(),
        listed(refs)[i].span == refs[i].0,
        listed(refs)[i].data == *refs[i].1,
{
}

/// To fill the empty leaves changes them alone, and leaves none of them empty.
pub proof fn lemma_filled<T, F: Fn(Span) -> T>(
    make: F,
    from: Seq<Leaf<T>>,
    to: Seq<Leaf<T>>,
    i: int,
)
    requires
        filled_leaves(make, from, to),
        0 <= i < from.len(),
    ensures
        to.len() == from.len(),
        to[i].span == from[i].span,
        from[i].data is Some ==> to[i].data == from[i].data,
        from[i].data is None ==> to[i].data is Some && call_ensures(
            make,
            (from[i].span,),
            to[i].data->0,
        ),
{
    assert(filled_leaf(make, from[i], to[i]));
}

/// The boxes of the empty leaves are listed in the order of the leaves, each of them
/// once. Gives the places of these leaves.
pub proof fn lemma_empty_in_order<T>(leaves: Seq<Leaf<T>>) -> (at: Seq<int>)
    ensures
        at.len() == empty_spans(leaves).len(),
        forall|m: int| 0 <= m < at.len() ==> 0 <= #[trigger] at[m] < leaves.len(),
        forall|m: int, n: int| 0 <= m < n < at.len() ==> #[trigger] at[m] < #[trigger] at[n],
        forall|m: int|
            0 <= m < at.len() ==> leaves[#[trigger] at[m]].data is None && empty_spans(leaves)[m]
                == leaves[at[m]].span,
        forall|j: int|
            0 <= j < leaves.len() && (#[trigger] leaves[j]).data is None ==> at.contains(j),
{
    let empty = |leaf: Leaf<T>| leaf.data is None;
    let at = lemma_places(leaves, empty);
    assert forall|m: int| 0 <= m < at.len() implies leaves[#[trigger] at[m]].data is None
        && empty_spans(leaves)[m] == leaves[at[m]].span by {
        assert(leaves.filter(empty)[m] == leaves[at[m]] && empty(leaves[at[m]]));
    }
    assert forall|j: int| 0 <= j < leaves.len() && (
    #[trigger] leaves[j]).data is None implies at.contains(j) by {
        assert(empty(leaves[j]));
    }
    at
}

} // verus!
