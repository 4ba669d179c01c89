use vstd::prelude::*;

use crate::geometry::{
    BoundingBox, coords_obey, totally_ordered, lemma_union_keeps_overlap, lemma_union_keeps_point,
    lemma_union_encloses, lemma_encloses_trans, lemma_encloses_refl, lemma_union_laws,
    lemma_point_is_degenerate_box,
};

verus! {

/// A node of the R-tree: a stored item with its box, or a group of nodes with
/// the box that covers them.
#[derive(Debug)]
pub enum RTreeNode<T, C> {
    Leaf { bounds: BoundingBox<C>, data: T },
    Internal { bounds: BoundingBox<C>, children: Vec<RTreeNode<T, C>> },
}

impl<T, C> RTreeNode<T, C> {
    /// The box recorded at this node.
    pub open spec fn box_of(self) -> BoundingBox<C> {
        match self {
            RTreeNode::Leaf { bounds, .. } => bounds,
            RTreeNode::Internal { bounds, .. } => bounds,
        }
    }
}

impl<T, C: Copy> RTreeNode<T, C> {
    pub fn bounds(&self) -> (r: BoundingBox<C>)
        ensures
            r == self.box_of(),
    {
        match self {
            RTreeNode::Leaf { bounds, .. } => *bounds,
            RTreeNode::Internal { bounds, .. } => *bounds,
        }
    }
}

/// The stored items under a node, each with its box, left to right.
pub open spec fn leaves<T, C>(n: RTreeNode<T, C>) -> Seq<(BoundingBox<C>, T)>
    decreases n,
{
    match n {
        RTreeNode::Leaf { bounds, data } => seq![(bounds, data)],
        RTreeNode::Internal { children, .. } => leaves_of(children@),
    }
}

/// The stored items under a sequence of nodes, left to right.
pub open spec fn leaves_of<T, C>(s: Seq<RTreeNode<T, C>>) -> Seq<(BoundingBox<C>, T)>
    decreases s,
{
    if s.len() == 0 {
        seq![]
    } else {
        leaves_of(s.drop_last()) + leaves(s.last())
    }
}

/// The most children an inner node may have when nodes split above `max_children`.
pub open spec fn capacity(max_children: usize) -> nat {
    if max_children < 2 {
        2
    } else {
        max_children as nat
    }
}

/// Shape of a subtree: every inner node has between one and `cap` children.
pub open spec fn node_wf<T, C>(n: RTreeNode<T, C>, cap: nat) -> bool
    decreases n,
{
    match n {
        RTreeNode::Leaf { .. } => true,
        RTreeNode::Internal { children, .. } => {
            &&& 1 <= children@.len() <= cap
            &&& nodes_wf(children@, cap)
        },
    }
}

pub open spec fn nodes_wf<T, C>(s: Seq<RTreeNode<T, C>>, cap: nat) -> bool
    decreases s,
{
    if s.len() == 0 {
        true
    } else {
        nodes_wf(s.drop_last(), cap) && node_wf(s.last(), cap)
    }
}

/// The union of the boxes of a non-empty sequence of nodes, folded left to right.
pub open spec fn hull<T, C: PartialOrd>(s: Seq<RTreeNode<T, C>>) -> BoundingBox<C>
    decreases s.len(),
{
    if s.len() <= 1 {
        s[0].box_of()
    } else {
        hull(s.drop_last()).union(s.last().box_of())
    }
}

/// Every inner node of the subtree records the union of its children's boxes.
pub open spec fn node_covers<T, C: PartialOrd>(n: RTreeNode<T, C>) -> bool
    decreases n,
{
    match n {
        RTreeNode::Leaf { .. } => true,
        RTreeNode::Internal { bounds, children } => {
            &&& bounds == hull(children@)
            &&& nodes_cover(children@)
        },
    }
}

pub open spec fn nodes_cover<T, C: PartialOrd>(s: Seq<RTreeNode<T, C>>) -> bool
    decreases s,
{
    if s.len() == 0 {
        true
    } else {
        nodes_cover(s.drop_last()) && node_covers(s.last())
    }
}

/// The items a traversal reports when it descends only into nodes whose box
/// satisfies `pred`, left to right.
pub open spec fn select<T, C>(n: RTreeNode<T, C>, pred: spec_fn(BoundingBox<C>) -> bool) -> Seq<T>
    decreases n,
{
    if pred(n.box_of()) {
        match n {
            RTreeNode::Leaf { data, .. } => seq![data],
            RTreeNode::Internal { children, .. } => select_of(children@, pred),
        }
    } else {
        seq![]
    }
}

pub open spec fn select_of<T, C>(
    s: Seq<RTreeNode<T, C>>,
    pred: spec_fn(BoundingBox<C>) -> bool,
) -> Seq<T>
    decreases s,
{
    if s.len() == 0 {
        seq![]
    } else {
        select_of(s.drop_last(), pred) + select(s.last(), pred)
    }
}

/// The items of `s` whose box satisfies `pred`, in order.
pub open spec fn pick<T, C>(s: Seq<(BoundingBox<C>, T)>, pred: spec_fn(BoundingBox<C>) -> bool) -> Seq<T>
    decreases s.len(),
{
    if s.len() == 0 {
        seq![]
    } else {
        pick(s.drop_last(), pred) + if pred(s.last().0) {
            seq![s.last().1]
        } else {
            seq![]
        }
    }
}

/// The union of the boxes of a non-empty sequence of items, folded left to right.
pub open spec fn boxes_hull<T, C: PartialOrd>(s: Seq<(BoundingBox<C>, T)>) -> BoundingBox<C>
    decreases s.len(),
{
    if s.len() <= 1 {
        s[0].0
    } else {
        boxes_hull(s.drop_last()).union(s.last().0)
    }
}

/// The box made of the point `(x, y)` alone.
pub open spec fn point_box<C>(x: C, y: C) -> BoundingBox<C> {
    BoundingBox { min_x: x, min_y: y, max_x: x, max_y: y }
}

/// The items a sequence of references points to.
pub open spec fn derefs<T>(s: Seq<&T>) -> Seq<T> {
    s.map_values(|r: &T| *r)
}

/// A test on boxes that stays true when its box is merged with another.
pub open spec fn grows_with_union<C: PartialOrd>(pred: spec_fn(BoundingBox<C>) -> bool) -> bool {
    forall|a: BoundingBox<C>, b: BoundingBox<C>|
        #![trigger a.union(b)]
        (pred(a) ==> pred(a.union(b))) && (pred(b) ==> pred(a.union(b)))
}

/// The test "the box overlaps `area`".
pub open spec fn overlapping<C: PartialOrd>(area: BoundingBox<C>) -> spec_fn(BoundingBox<C>) -> bool {
    |b: BoundingBox<C>| b.overlaps(area)
}

/// The test "the box holds the point `(x, y)`".
pub open spec fn holding<C: PartialOrd>(x: C, y: C) -> spec_fn(BoundingBox<C>) -> bool {
    |b: BoundingBox<C>| b.holds_point(x, y)
}

/// The pairs that a sequence of pairs of references points to.
pub open spec fn deref_pairs<B, T>(s: Seq<(&B, &T)>) -> Seq<(B, T)> {
    s.map_values(|p: (&B, &T)| (*p.0, *p.1))
}

/// An R-tree over items of type `T` placed in boxes with coordinates of type `C`.
#[derive(Debug)]
pub struct SpatialIndex<T, C> {
    root: Option<RTreeNode<T, C>>,
    max_children: usize,
}

impl<T, C> View for SpatialIndex<T, C> {
    type V = Seq<(BoundingBox<C>, T)>;

    /// The stored items with their boxes, in the order they were inserted.
    closed spec fn view(&self) -> Seq<(BoundingBox<C>, T)> {
        match self.root {
            None => seq![],
            Some(n) => leaves(n),
        }
    }
}

impl<T, C: PartialOrd> SpatialIndex<T, C> {
    /// The node-size limit the index was made with.
    pub closed spec fn max_children_spec(&self) -> usize {
        self.max_children
    }

    /// The shape of the tree is sound; when the coordinates answer comparisons
    /// as specified, each inner node also records the union of its children's boxes.
    pub closed spec fn wf(&self) -> bool {
        match self.root {
            None => true,
            Some(n) => {
                &&& node_wf(n, capacity(self.max_children))
                &&& coords_obey::<C>() ==> node_covers(n)
            },
        }
    }

    /// The root node of the tree, if any item is stored.
    pub closed spec fn root_node(&self) -> Option<RTreeNode<T, C>> {
        self.root
    }

    /// The box recorded at the root, if any item is stored.
    pub closed spec fn root_box(&self) -> Option<BoundingBox<C>> {
        match self.root {
            None => None,
            Some(n) => Some(n.box_of()),
        }
    }

    /// Every inner node of the tree has between one and `capacity(max_children)` children.
    pub closed spec fn nodes_within_capacity(&self) -> bool {
        match self.root {
            None => true,
            Some(n) => node_wf(n, capacity(self.max_children)),
        }
    }

    /// The items that a search reports for `pred`, left to right.
    pub closed spec fn search(&self, pred: spec_fn(BoundingBox<C>) -> bool) -> Seq<T> {
        match self.root {
            None => seq![],
            Some(n) => select(n, pred),
        }
    }

    /// The items that `query` reports for `area`.
    pub open spec fn query_spec(&self, area: BoundingBox<C>) -> Seq<T> {
        self.search(overlapping(area))
    }

    /// The items that `query_point` reports for the point `(x, y)`.
    pub open spec fn query_point_spec(&self, x: C, y: C) -> Seq<T> {
        self.search(holding(x, y))
    }
}

// ---------------------------------------------------------------------------
// Lemmas on the recursive spec functions
// ---------------------------------------------------------------------------

pub proof fn lemma_leaves_of_append<T, C>(a: Seq<RTreeNode<T, C>>, b: Seq<RTreeNode<T, C>>)
    ensures
        leaves_of(a + b) == leaves_of(a) + leaves_of(b),
    decreases b.len(),
{
    if b.len() == 0 {
        assert(a + b =~= a);
    } else {
        lemma_leaves_of_append(a, b.drop_last());
        assert((a + b).drop_last() =~= a + b.drop_last());
        assert((a + b).last() == b.last());
    }
}

pub proof fn lemma_nodes_wf_append<T, C>(a: Seq<RTreeNode<T, C>>, b: Seq<RTreeNode<T, C>>, cap: nat)
    ensures
        nodes_wf(a + b, cap) == (nodes_wf(a, cap) && nodes_wf(b, cap)),
    decreases b.len(),
{
    if b.len() == 0 {
        assert(a + b =~= a);
    } else {
        lemma_nodes_wf_append(a, b.drop_last(), cap);
        assert((a + b).drop_last() =~= a + b.drop_last());
        assert((a + b).last() == b.last());
    }
}

pub proof fn lemma_nodes_cover_append<T, C: PartialOrd>(
    a: Seq<RTreeNode<T, C>>,
    b: Seq<RTreeNode<T, C>>,
)
    ensures
        nodes_cover(a + b) == (nodes_cover(a) && nodes_cover(b)),
    decreases b.len(),
{
    if b.len() == 0 {
        assert(a + b =~= a);
    } else {
        lemma_nodes_cover_append(a, b.drop_last());
        assert((a + b).drop_last() =~= a + b.drop_last());
        assert((a + b).last() == b.last());
    }
}

pub proof fn lemma_pick_append<T, C>(
    a: Seq<(BoundingBox<C>, T)>,
    b: Seq<(BoundingBox<C>, T)>,
    pred: spec_fn(BoundingBox<C>) -> bool,
)
    ensures
        pick(a + b, pred) == pick(a, pred) + pick(b, pred),
    decreases b.len(),
{
    if b.len() == 0 {
        assert(a + b =~= a);
    } else {
        lemma_pick_append(a, b.drop_last(), pred);
        assert((a + b).drop_last() =~= a + b.drop_last());
        assert((a + b).last() == b.last());
    }
}

pub proof fn lemma_nodes_wf_index<T, C>(s: Seq<RTreeNode<T, C>>, cap: nat, i: int)
    requires
        nodes_wf(s, cap),
        0 <= i < s.len(),
    ensures
        node_wf(s[i], cap),
    decreases s.len(),
{
    if i < s.len() - 1 {
        lemma_nodes_wf_index(s.drop_last(), cap, i);
    }
}

pub proof fn lemma_nodes_cover_index<T, C: PartialOrd>(s: Seq<RTreeNode<T, C>>, i: int)
    requires
        nodes_cover(s),
        0 <= i < s.len(),
    ensures
        node_covers(s[i]),
    decreases s.len(),
{
    if i < s.len() - 1 {
        lemma_nodes_cover_index(s.drop_last(), i);
    }
}

proof fn lemma_singleton<T, C: PartialOrd>(n: RTreeNode<T, C>)
    ensures
        leaves_of(seq![n]) == leaves(n),
        forall|cap: nat| nodes_wf(seq![n], cap) == node_wf(n, cap),
        nodes_cover(seq![n]) == node_covers(n),
        hull(seq![n]) == n.box_of(),
        forall|pred: spec_fn(BoundingBox<C>) -> bool| #[trigger]
            select_of(seq![n], pred) == select(n, pred),
{
    let s = seq![n];
    assert(s.drop_last() =~= Seq::<RTreeNode<T, C>>::empty());
    assert(s.last() == n);
    assert(leaves_of(s.drop_last()) =~= Seq::<(BoundingBox<C>, T)>::empty());
    assert(leaves_of(s) =~= leaves(n));
    assert(nodes_cover(s.drop_last()));
    assert forall|cap: nat| nodes_wf(seq![n], cap) == node_wf(n, cap) by {
        assert(nodes_wf(s.drop_last(), cap));
    }
    assert forall|pred: spec_fn(BoundingBox<C>) -> bool| #[trigger]
        select_of(seq![n], pred) == select(n, pred) by {
        assert(select_of(s.drop_last(), pred) =~= Seq::<T>::empty());
        assert(select_of(s, pred) =~= select(n, pred));
    }
}

proof fn lemma_pair<T, C: PartialOrd>(a: RTreeNode<T, C>, b: RTreeNode<T, C>)
    ensures
        leaves_of(seq![a, b]) == leaves(a) + leaves(b),
        forall|cap: nat| nodes_wf(seq![a, b], cap) == (node_wf(a, cap) && node_wf(b, cap)),
        nodes_cover(seq![a, b]) == (node_covers(a) && node_covers(b)),
        hull(seq![a, b]) == a.box_of().union(b.box_of()),
{
    let s = seq![a, b];
    assert(s.drop_last() =~= seq![a]);
    lemma_singleton::<T, C>(a);
    assert(leaves_of(s) =~= leaves(a) + leaves(b));
}


// ---------------------------------------------------------------------------
// Laws of the index
// ---------------------------------------------------------------------------

proof fn lemma_hull_grows<T, C: PartialOrd>(
    s: Seq<RTreeNode<T, C>>,
    pred: spec_fn(BoundingBox<C>) -> bool,
    i: int,
)
    requires
        grows_with_union(pred),
        0 <= i < s.len(),
        pred(s[i].box_of()),
    ensures
        pred(hull(s)),
    decreases s.len(),
{
    if s.len() > 1 {
        let h = hull(s.drop_last());
        if i < s.len() - 1 {
            lemma_hull_grows(s.drop_last(), pred, i);
        }
        assert(pred(h.union(s.last().box_of())));
    }
}

proof fn lemma_pick_none<T, C: PartialOrd>(
    n: RTreeNode<T, C>,
    cap: nat,
    pred: spec_fn(BoundingBox<C>) -> bool,
)
    requires
        node_wf(n, cap),
        node_covers(n),
        grows_with_union(pred),
        !pred(n.box_of()),
    ensures
        pick(leaves(n), pred) == Seq::<T>::empty(),
    decreases n,
{
    match n {
        RTreeNode::Leaf { bounds, data } => {
            let l = seq![(bounds, data)];
            assert(l.drop_last() =~= Seq::<(BoundingBox<C>, T)>::empty());
            assert(pick(l.drop_last(), pred) =~= Seq::<T>::empty());
            assert(l.last() == (bounds, data));
            assert(pick(l, pred) =~= Seq::<T>::empty());
        },
        RTreeNode::Internal { bounds, children } => {
            assert forall|i: int| 0 <= i < children@.len() implies !pred(
                #[trigger] children@[i].box_of(),
            ) by {
                if pred(children@[i].box_of()) {
                    lemma_hull_grows(children@, pred, i);
                }
            }
            assert(decreases_to!(n => children@));
            lemma_pick_none_of(children@, cap, pred);
        },
    }
}

proof fn lemma_pick_none_of<T, C: PartialOrd>(
    s: Seq<RTreeNode<T, C>>,
    cap: nat,
    pred: spec_fn(BoundingBox<C>) -> bool,
)
    requires
        nodes_wf(s, cap),
        nodes_cover(s),
        grows_with_union(pred),
        forall|i: int| 0 <= i < s.len() ==> !pred(#[trigger] s[i].box_of()),
    ensures
        pick(leaves_of(s), pred) == Seq::<T>::empty(),
    decreases s,
{
    if s.len() > 0 {
        let front = s.drop_last();
        assert forall|i: int| 0 <= i < front.len() implies !pred(#[trigger] front[i].box_of()) by {
            assert(front[i] == s[i]);
        }
        lemma_pick_none_of(front, cap, pred);
        assert(!pred(s[s.len() - 1].box_of()));
        lemma_pick_none(s.last(), cap, pred);
        lemma_pick_append(leaves_of(front), leaves(s.last()), pred);
        assert(pick(leaves_of(s), pred) =~= Seq::<T>::empty());
    }
}

proof fn lemma_select_is_pick<T, C: PartialOrd>(
    n: RTreeNode<T, C>,
    cap: nat,
    pred: spec_fn(BoundingBox<C>) -> bool,
)
    requires
        node_wf(n, cap),
        node_covers(n),
        grows_with_union(pred),
    ensures
        select(n, pred) == pick(leaves(n), pred),
    decreases n,
{
    if pred(n.box_of()) {
        match n {
            RTreeNode::Leaf { bounds, data } => {
                let l = seq![(bounds, data)];
                assert(l.drop_last() =~= Seq::<(BoundingBox<C>, T)>::empty());
                assert(pick(l.drop_last(), pred) =~= Seq::<T>::empty());
                assert(l.last() == (bounds, data));
                assert(pick(l, pred) =~= seq![data]);
            },
            RTreeNode::Internal { bounds, children } => {
                assert(decreases_to!(n => children@));
                lemma_select_is_pick_of(children@, cap, pred);
            },
        }
    } else {
        lemma_pick_none(n, cap, pred);
    }
}

proof fn lemma_select_is_pick_of<T, C: PartialOrd>(
    s: Seq<RTreeNode<T, C>>,
    cap: nat,
    pred: spec_fn(BoundingBox<C>) -> bool,
)
    requires
        nodes_wf(s, cap),
        nodes_cover(s),
        grows_with_union(pred),
    ensures
        select_of(s, pred) == pick(leaves_of(s), pred),
    decreases s,
{
    if s.len() > 0 {
        lemma_select_is_pick_of(s.drop_last(), cap, pred);
        lemma_select_is_pick(s.last(), cap, pred);
        lemma_pick_append(leaves_of(s.drop_last()), leaves(s.last()), pred);
    }
}

proof fn lemma_pick_empty_means_none<T, C>(
    s: Seq<(BoundingBox<C>, T)>,
    pred: spec_fn(BoundingBox<C>) -> bool,
)
    requires
        pick(s, pred) == Seq::<T>::empty(),
    ensures
        forall|i: int| 0 <= i < s.len() ==> !pred(#[trigger] s[i].0),
    decreases s.len(),
{
    if s.len() > 0 {
        let front = s.drop_last();
        let tail: Seq<T> = if pred(s.last().0) {
            seq![s.last().1]
        } else {
            seq![]
        };
        assert(pick(s, pred) == pick(front, pred) + tail);
        assert(pick(front, pred) =~= Seq::<T>::empty());
        lemma_pick_empty_means_none(front, pred);
        assert forall|i: int| 0 <= i < s.len() implies !pred(#[trigger] s[i].0) by {
            if i < s.len() - 1 {
                assert(s[i] == front[i]);
            }
        }
    }
}

/// Law: every inner node has at least one and at most `capacity(max_children)`
/// children, whatever was inserted.
pub proof fn lemma_nodes_within_capacity<T, C: PartialOrd>(idx: &SpatialIndex<T, C>)
    requires
        idx.wf(),
    ensures
        idx.nodes_within_capacity(),
{
}

/// Law: when the coordinates answer comparisons as specified, a search that
/// descends only into boxes passing a test that stays true under merging reports
/// exactly the stored items whose own box passes the test, in insertion order.
pub proof fn lemma_search_is_filter<T, C: PartialOrd>(
    idx: &SpatialIndex<T, C>,
    pred: spec_fn(BoundingBox<C>) -> bool,
)
    requires
        idx.wf(),
        coords_obey::<C>(),
        grows_with_union(pred),
    ensures
        idx.search(pred) == pick(idx@, pred),
{
    match idx.root {
        None => {
            assert(pick(Seq::<(BoundingBox<C>, T)>::empty(), pred) =~= Seq::<T>::empty());
        },
        Some(n) => {
            lemma_select_is_pick(n, capacity(idx.max_children), pred);
        },
    }
}

/// Law: with totally ordered coordinates, `query` reports exactly the stored
/// items whose box overlaps the area, in insertion order.
pub proof fn lemma_query_finds_overlapping<T, C: PartialOrd>(
    idx: &SpatialIndex<T, C>,
    area: BoundingBox<C>,
)
    requires
        idx.wf(),
        totally_ordered::<C>(),
    ensures
        idx.query_spec(area) == pick(idx@, overlapping(area)),
{
    let pred = overlapping(area);
    assert forall|a: BoundingBox<C>, b: BoundingBox<C>| #![trigger a.union(b)]
        (pred(a) ==> pred(a.union(b))) && (pred(b) ==> pred(a.union(b))) by {
        lemma_union_keeps_overlap(a, b, area);
    }
    lemma_search_is_filter(idx, pred);
}

/// Law: with totally ordered coordinates, `query_point` reports exactly the stored
/// items whose box holds the point, in insertion order.
pub proof fn lemma_query_point_finds_holders<T, C: PartialOrd>(idx: &SpatialIndex<T, C>, x: C, y: C)
    requires
        idx.wf(),
        totally_ordered::<C>(),
    ensures
        idx.query_point_spec(x, y) == pick(idx@, holding(x, y)),
{
    let pred = holding(x, y);
    assert forall|a: BoundingBox<C>, b: BoundingBox<C>| #![trigger a.union(b)]
        (pred(a) ==> pred(a.union(b))) && (pred(b) ==> pred(a.union(b))) by {
        lemma_union_keeps_point(a, b, x, y);
    }
    lemma_search_is_filter(idx, pred);
}

/// Law: with totally ordered coordinates, the root box encloses the box of every
/// stored item.
pub proof fn lemma_root_box_encloses_all<T, C: PartialOrd>(idx: &SpatialIndex<T, C>)
    requires
        idx.wf(),
        totally_ordered::<C>(),
    ensures
        idx@.len() > 0 ==> idx.root_box() is Some,
        forall|i: int|
            0 <= i < idx@.len() ==> idx.root_box().unwrap().encloses(#[trigger] idx@[i].0),
{
    match idx.root {
        None => {},
        Some(n) => {
            let outer = n.box_of();
            let pred = |b: BoundingBox<C>| !outer.encloses(b);
            assert forall|a: BoundingBox<C>, b: BoundingBox<C>| #![trigger a.union(b)]
                (pred(a) ==> pred(a.union(b))) && (pred(b) ==> pred(a.union(b))) by {
                lemma_union_encloses(a, b);
                if outer.encloses(a.union(b)) {
                    lemma_encloses_trans(outer, a.union(b), a);
                    lemma_encloses_trans(outer, a.union(b), b);
                }
            }
            lemma_encloses_refl(outer);
            assert(!pred(outer));
            lemma_pick_none(n, capacity(idx.max_children), pred);
            lemma_pick_empty_means_none(leaves(n), pred);
        },
    }
}


proof fn lemma_leaves_nonempty<T, C>(n: RTreeNode<T, C>, cap: nat)
    requires
        node_wf(n, cap),
    ensures
        leaves(n).len() > 0,
    decreases n,
{
    match n {
        RTreeNode::Leaf { .. } => {},
        RTreeNode::Internal { children, .. } => {
            assert(decreases_to!(n => children@));
            lemma_leaves_of_nonempty(children@, cap);
        },
    }
}

proof fn lemma_leaves_of_nonempty<T, C>(s: Seq<RTreeNode<T, C>>, cap: nat)
    requires
        nodes_wf(s, cap),
        s.len() > 0,
    ensures
        leaves_of(s).len() > 0,
    decreases s,
{
    lemma_leaves_nonempty(s.last(), cap);
}

proof fn lemma_boxes_hull_append<T, C: PartialOrd>(a: Seq<(BoundingBox<C>, T)>, b: Seq<(BoundingBox<C>, T)>)
    requires
        totally_ordered::<C>(),
        a.len() > 0,
        b.len() > 0,
    ensures
        boxes_hull(a + b) == boxes_hull(a).union(boxes_hull(b)),
    decreases b.len(),
{
    assert((a + b).drop_last() =~= a + b.drop_last());
    assert((a + b).last() == b.last());
    if b.len() > 1 {
        lemma_boxes_hull_append(a, b.drop_last());
        lemma_union_laws(boxes_hull(a), boxes_hull(b.drop_last()), b.last().0);
    } else {
        assert(b.drop_last() =~= Seq::<(BoundingBox<C>, T)>::empty());
        assert(a + b.drop_last() =~= a);
    }
}

proof fn lemma_node_box_is_hull<T, C: PartialOrd>(n: RTreeNode<T, C>, cap: nat)
    requires
        totally_ordered::<C>(),
        node_wf(n, cap),
        node_covers(n),
    ensures
        n.box_of() == boxes_hull(leaves(n)),
    decreases n,
{
    match n {
        RTreeNode::Leaf { .. } => {},
        RTreeNode::Internal { children, .. } => {
            assert(decreases_to!(n => children@));
            lemma_hull_is_boxes_hull(children@, cap);
        },
    }
}

proof fn lemma_hull_is_boxes_hull<T, C: PartialOrd>(s: Seq<RTreeNode<T, C>>, cap: nat)
    requires
        totally_ordered::<C>(),
        nodes_wf(s, cap),
        nodes_cover(s),
        s.len() > 0,
    ensures
        hull(s) == boxes_hull(leaves_of(s)),
    decreases s,
{
    lemma_node_box_is_hull(s.last(), cap);
    lemma_leaves_nonempty(s.last(), cap);
    if s.len() == 1 {
        assert(s.drop_last() =~= Seq::<RTreeNode<T, C>>::empty());
        assert(leaves_of(s.drop_last()) =~= Seq::<(BoundingBox<C>, T)>::empty());
        assert(leaves_of(s) =~= leaves(s.last()));
        assert(s[0] == s.last());
    } else {
        lemma_hull_is_boxes_hull(s.drop_last(), cap);
        lemma_leaves_of_nonempty(s.drop_last(), cap);
        lemma_boxes_hull_append(leaves_of(s.drop_last()), leaves(s.last()));
    }
}

/// Law: the index has a root box exactly when it stores an item; with totally
/// ordered coordinates that box is the union of the boxes of all stored items
/// (every inner node records the union of its children's boxes).
pub proof fn lemma_root_box_is_union_of_items<T, C: PartialOrd>(idx: &SpatialIndex<T, C>)
    requires
        idx.wf(),
    ensures
        idx.root_box() is None <==> idx@.len() == 0,
        totally_ordered::<C>() && idx@.len() > 0 ==> idx.root_box() == Some(boxes_hull(idx@)),
{
    match idx.root {
        None => {},
        Some(n) => {
            lemma_leaves_nonempty(n, capacity(idx.max_children));
            if totally_ordered::<C>() {
                lemma_node_box_is_hull(n, capacity(idx.max_children));
            }
        },
    }
}

/// Law: the tree of a sound index. Its leaves, read left to right, are the
/// stored items in insertion order, each with the box it was stored under;
/// every inner node has between one and `capacity(max_children)` children; and
/// when the coordinates answer comparisons as specified, every inner node records
/// the union of its children's boxes.
pub proof fn lemma_tree_shape<T, C: PartialOrd>(idx: &SpatialIndex<T, C>)
    requires
        idx.wf(),
    ensures
        idx.root_node() is None <==> idx@.len() == 0,
        idx.root_node() matches Some(n) ==> {
            &&& leaves(n) == idx@
            &&& node_wf(n, capacity(idx.max_children_spec()))
            &&& (coords_obey::<C>() ==> node_covers(n))
            &&& idx.root_box() == Some(n.box_of())
        },
{
    if let Some(n) = idx.root {
        lemma_leaves_nonempty(n, capacity(idx.max_children));
    }
}

/// Law: with totally ordered coordinates, `query_point` reports what `query`
/// reports for the box made of the point alone.
pub proof fn lemma_query_point_is_point_box_query<T, C: PartialOrd>(idx: &SpatialIndex<T, C>, x: C, y: C)
    requires
        totally_ordered::<C>(),
    ensures
        idx.query_point_spec(x, y) == idx.query_spec(point_box(x, y)),
{
    assert forall|b: BoundingBox<C>| #[trigger] holding(x, y)(b) == overlapping(point_box(x, y))(b) by {
        lemma_point_is_degenerate_box(b, x, y);
    }
    assert(holding(x, y) =~= overlapping(point_box(x, y)));
}

// ---------------------------------------------------------------------------
// The index
// ---------------------------------------------------------------------------

impl<T, C: PartialOrd + Copy> SpatialIndex<T, C> {
    /// An empty index whose inner nodes split once they hold more than `max_children` children.
    pub fn new(max_children: usize) -> (r: Self)
        ensures
            r.wf(),
            r@ == Seq::<(BoundingBox<C>, T)>::empty(),
            r.max_children_spec() == max_children,
    {
        SpatialIndex { root: None, max_children }
    }

    /// Stores `data` under `bounds`; it comes after every item stored before.
    pub fn insert(&mut self, data: T, bounds: BoundingBox<C>)
        requires
            old(self).wf(),
        ensures
            final(self).wf(),
            final(self)@ == old(self)@.push((bounds, data)),
            final(self).max_children_spec() == old(self).max_children_spec(),
            final(self).root_box() is Some,
            totally_ordered::<C>() ==> final(self).root_box() == Some(
                match old(self).root_box() {
                    None => bounds,
                    Some(r) => r.union(bounds),
                },
            ),
    {
        let ghost before = *self;
        let new_leaf = RTreeNode::Leaf { bounds, data };
        let mut taken: Option<RTreeNode<T, C>> = None;
        std::mem::swap(&mut taken, &mut self.root);
        match taken {
            Some(root) => {
                let mut new_nodes = self.insert_recursive(root, new_leaf);
                if new_nodes.len() == 1 {
                    let ghost nodes = new_nodes@;
                    let node = new_nodes.remove(0);
                    proof {
                        assert(nodes =~= seq![node]);
                        lemma_singleton::<T, C>(node);
                    }
                    self.root = Some(node);
                } else {
                    let combined_bounds = new_nodes[0].bounds().merge(&new_nodes[1].bounds());
                    proof {
                        assert(new_nodes@ =~= seq![new_nodes@[0], new_nodes@[1]]);
                        lemma_pair::<T, C>(new_nodes@[0], new_nodes@[1]);
                    }
                    self.root = Some(RTreeNode::Internal { bounds: combined_bounds, children: new_nodes });
                }
            },
            None => {
                self.root = Some(new_leaf);
            },
        }
        proof {
            lemma_root_box_is_union_of_items(&before);
            lemma_root_box_is_union_of_items(&*self);
            if totally_ordered::<C>() && before@.len() > 0 {
                assert(self@.drop_last() =~= before@);
            }
        }
    }

    fn insert_recursive(&self, current: RTreeNode<T, C>, new_node: RTreeNode<T, C>) -> (r: Vec<
        RTreeNode<T, C>,
    >)
        requires
            node_wf(current, capacity(self.max_children)),
            node_wf(new_node, capacity(self.max_children)),
            coords_obey::<C>() ==> node_covers(current) && node_covers(new_node),
        ensures
            1 <= r@.len() <= 2,
            r@.len() == 1 ==> self.max_children >= 1,
            nodes_wf(r@, capacity(self.max_children)),
            coords_obey::<C>() ==> nodes_cover(r@),
            leaves_of(r@) == leaves(current) + leaves(new_node),
        decreases current,
    {
        let ghost cap = capacity(self.max_children);
        let ghost cur = current;
        match current {
            RTreeNode::Leaf { bounds, data } => {
                let mut r = Vec::new();
                r.push(RTreeNode::Leaf { bounds, data });
                r.push(new_node);
                proof {
                    assert(r@ =~= seq![cur, new_node]);
                    lemma_pair::<T, C>(cur, new_node);
                    assert(nodes_wf(seq![cur, new_node], cap));
                }
                r
            },
            RTreeNode::Internal { bounds, mut children } => {
                let ghost old_children = children@;
                let ghost k = children@.len();
                proof {
                    assert(decreases_to!(cur => old_children[k - 1]));
                    assert(old_children =~= old_children.drop_last().push(old_children[k - 1]));
                    lemma_nodes_wf_index(old_children, cap, k - 1);
                    if coords_obey::<C>() {
                        lemma_nodes_cover_index(old_children, k - 1);
                    }
                }
                let last_child = children.pop().unwrap();
                proof {
                    assert(children@ =~= old_children.drop_last());
                }
                let mut result_nodes = self.insert_recursive(last_child, new_node);
                let ghost res = result_nodes@;
                children.append(&mut result_nodes);
                proof {
                    assert(children@ =~= old_children.drop_last() + res);
                    lemma_leaves_of_append(old_children.drop_last(), res);
                    lemma_nodes_wf_append(old_children.drop_last(), res, cap);
                    lemma_nodes_cover_append(old_children.drop_last(), res);
                    assert(leaves(cur) == leaves_of(old_children));
                    assert(leaves_of(children@) == leaves(cur) + leaves(new_node));
                }
                if children.len() > self.max_children {
                    self.split_node(children)
                } else {
                    assert(1 <= children@.len() <= cap);
                    let new_bounds = self.calculate_bounds(&children);
                    let node = RTreeNode::Internal { bounds: new_bounds, children };
                    let mut r = Vec::new();
                    r.push(node);
                    proof {
                        assert(node_wf(node, cap));
                        assert(r@ =~= seq![node]);
                        lemma_singleton::<T, C>(node);
                        assert(nodes_wf(seq![node], cap));
                    }
                    r
                }
            },
        }
    }

    fn split_node(&self, children: Vec<RTreeNode<T, C>>) -> (r: Vec<RTreeNode<T, C>>)
        requires
            2 <= children@.len() <= capacity(self.max_children) + 1,
            nodes_wf(children@, capacity(self.max_children)),
            coords_obey::<C>() ==> nodes_cover(children@),
        ensures
            r@.len() == 2,
            nodes_wf(r@, capacity(self.max_children)),
            coords_obey::<C>() ==> nodes_cover(r@),
            leaves_of(r@) == leaves_of(children@),
    {
        let ghost cap = capacity(self.max_children);
        let ghost all = children@;
        let mut children = children;
        let mid = children.len() / 2;
        let right_children = children.split_off(mid);
        proof {
            assert(1 <= children@.len() <= cap);
            assert(1 <= right_children@.len() <= cap);
            assert(all =~= children@ + right_children@);
            lemma_leaves_of_append(children@, right_children@);
            lemma_nodes_wf_append(children@, right_children@, cap);
            lemma_nodes_cover_append(children@, right_children@);
        }
        let left_bounds = self.calculate_bounds(&children);
        let right_bounds = self.calculate_bounds(&right_children);
        let left = RTreeNode::Internal { bounds: left_bounds, children };
        let right = RTreeNode::Internal { bounds: right_bounds, children: right_children };
        let mut r = Vec::new();
        r.push(left);
        r.push(right);
        proof {
            assert(node_wf(left, cap));
            assert(node_wf(right, cap));
            assert(r@ =~= seq![left, right]);
            lemma_pair::<T, C>(left, right);
            assert(nodes_wf(seq![left, right], cap));
        }
        r
    }

    fn calculate_bounds(&self, children: &Vec<RTreeNode<T, C>>) -> (r: BoundingBox<C>)
        requires
            children@.len() >= 1,
        ensures
            coords_obey::<C>() ==> r == hull(children@),
    {
        let mut b = children[0].bounds();
        let n = children.len();
        let mut i: usize = 1;
        proof {
            assert(children@.subrange(0, 1) =~= seq![children@[0]]);
            lemma_singleton::<T, C>(children@[0]);
        }
        while i < n
            invariant
                1 <= i <= n,
                n == children@.len(),
                coords_obey::<C>() ==> b == hull(children@.subrange(0, i as int)),
            decreases n - i,
        {
            proof {
                assert(children@.subrange(0, i + 1).drop_last() =~= children@.subrange(0, i as int));
            }
            b = b.merge(&children[i].bounds());
            i = i + 1;
        }
        proof {
            assert(children@.subrange(0, n as int) =~= children@);
        }
        b
    }

    /// Appends to `results` the items whose box overlaps `area`, in insertion order.
    pub fn query<'a>(&'a self, area: &BoundingBox<C>, results: &mut Vec<&'a T>)
        ensures
            final(results)@.len() >= old(results)@.len(),
            final(results)@.subrange(0, old(results)@.len() as int) == old(results)@,
            coords_obey::<C>() ==> derefs(final(results)@) == derefs(old(results)@)
                + self.query_spec(*area),
            self.wf() && totally_ordered::<C>() ==> derefs(final(results)@) == derefs(
                old(results)@,
            ) + pick(self@, overlapping(*area)),
    {
        if let Some(node) = &self.root {
            self.query_recursive(node, area, results);
        }
        proof {
            if self.wf() && totally_ordered::<C>() {
                lemma_query_finds_overlapping(self, *area);
            }
        }
    }

    fn query_recursive<'a>(&'a self, node: &'a RTreeNode<T, C>, area: &BoundingBox<C>, results: &mut Vec<&'a T>)
        ensures
            final(results)@.len() >= old(results)@.len(),
            final(results)@.subrange(0, old(results)@.len() as int) == old(results)@,
            coords_obey::<C>() ==> derefs(final(results)@) == derefs(old(results)@)
                + select(*node, overlapping(*area)),
        decreases node,
    {
        let ghost pred = overlapping(*area);
        if node.bounds().intersects(area) {
            match node {
                RTreeNode::Leaf { data, .. } => {
                    let ghost before = results@;
                    results.push(data);
                    proof {
                        assert(derefs(results@) =~= derefs(before) + seq![*data]);
                        assert(results@.subrange(0, before.len() as int) =~= before);
                    }
                },
                RTreeNode::Internal { children, .. } => {
                    let ghost start = results@;
                    let n = children.len();
                    let mut i: usize = 0;
                    while i < n
                        invariant
                            0 <= i <= n,
                            n == children@.len(),
                            pred == overlapping(*area),
                            *node == (RTreeNode::Internal { bounds: node.box_of(), children: *children }),
                            results@.len() >= start.len(),
                            results@.subrange(0, start.len() as int) == start,
                            coords_obey::<C>() ==> derefs(results@) == derefs(start) + select_of(
                                children@.subrange(0, i as int),
                                pred,
                            ),
                        decreases n - i,
                    {
                        let ghost before = results@;
                        proof {
                            assert(node->children == *children);
                            assert(decreases_to!(*node => node->children@[i as int]));
                        }
                        self.query_recursive(&children[i], area, results);
                        proof {
                            assert(children@.subrange(0, i + 1).drop_last() =~= children@.subrange(0, i as int));
                            assert(children@.subrange(0, i + 1).last() == children@[i as int]);
                            if coords_obey::<C>() {
                                assert(derefs(results@) =~= derefs(start) + select_of(children@.subrange(0, i + 1), pred));
                            }
                            assert(results@.subrange(0, start.len() as int) =~= before.subrange(0, start.len() as int));
                        }
                        i = i + 1;
                    }
                    proof {
                        assert(children@.subrange(0, n as int) =~= children@);
                    }
                },
            }
        } else {
            proof {
                assert(results@.subrange(0, results@.len() as int) =~= results@);
                assert(derefs(results@) =~= derefs(results@) + Seq::<T>::empty());
            }
        }
    }

    /// Appends to `results` the items whose box holds the point `(x, y)`, in insertion order.
    pub fn query_point<'a>(&'a self, x: C, y: C, results: &mut Vec<&'a T>)
        ensures
            final(results)@.len() >= old(results)@.len(),
            final(results)@.subrange(0, old(results)@.len() as int) == old(results)@,
            coords_obey::<C>() ==> derefs(final(results)@) == derefs(old(results)@)
                + self.query_point_spec(x, y),
            self.wf() && totally_ordered::<C>() ==> derefs(final(results)@) == derefs(
                old(results)@,
            ) + pick(self@, holding(x, y)),
    {
        if let Some(node) = &self.root {
            self.query_point_recursive(node, x, y, results);
        }
        proof {
            if self.wf() && totally_ordered::<C>() {
                lemma_query_point_finds_holders(self, x, y);
            }
        }
    }

    fn query_point_recursive<'a>(&'a self, node: &'a RTreeNode<T, C>, x: C, y: C, results: &mut Vec<&'a T>)
        ensures
            final(results)@.len() >= old(results)@.len(),
            final(results)@.subrange(0, old(results)@.len() as int) == old(results)@,
            coords_obey::<C>() ==> derefs(final(results)@) == derefs(old(results)@)
                + select(*node, holding(x, y)),
        decreases node,
    {
        let ghost pred = holding(x, y);
        if node.bounds().contains(x, y) {
            match node {
                RTreeNode::Leaf { data, .. } => {
                    let ghost before = results@;
                    results.push(data);
                    proof {
                        assert(derefs(results@) =~= derefs(before) + seq![*data]);
                        assert(results@.subrange(0, before.len() as int) =~= before);
                    }
                },
                RTreeNode::Internal { children, .. } => {
                    let ghost start = results@;
                    let n = children.len();
                    let mut i: usize = 0;
                    while i < n
                        invariant
                            0 <= i <= n,
                            n == children@.len(),
                            pred == holding(x, y),
                            *node == (RTreeNode::Internal { bounds: node.box_of(), children: *children }),
                            results@.len() >= start.len(),
                            results@.subrange(0, start.len() as int) == start,
                            coords_obey::<C>() ==> derefs(results@) == derefs(start) + select_of(
                                children@.subrange(0, i as int),
                                pred,
                            ),
                        decreases n - i,
                    {
                        let ghost before = results@;
                        proof {
                            assert(node->children == *children);
                            assert(decreases_to!(*node => node->children@[i as int]));
                        }
                        self.query_point_recursive(&children[i], x, y, results);
                        proof {
                            assert(children@.subrange(0, i + 1).drop_last() =~= children@.subrange(0, i as int));
                            assert(children@.subrange(0, i + 1).last() == children@[i as int]);
                            if coords_obey::<C>() {
                                assert(derefs(results@) =~= derefs(start) + select_of(children@.subrange(0, i + 1), pred));
                            }
                            assert(results@.subrange(0, start.len() as int) =~= before.subrange(0, start.len() as int));
                        }
                        i = i + 1;
                    }
                    proof {
                        assert(children@.subrange(0, n as int) =~= children@);
                    }
                },
            }
        } else {
            proof {
                assert(results@.subrange(0, results@.len() as int) =~= results@);
                assert(derefs(results@) =~= derefs(results@) + Seq::<T>::empty());
            }
        }
    }

    pub fn get_root_bounds(&self) -> (r: Option<BoundingBox<C>>)
        requires
            self.wf(),
        ensures
            r == self.root_box(),
            r is None <==> self@.len() == 0,
            totally_ordered::<C>() && self@.len() > 0 ==> r == Some(boxes_hull(self@)),
    {
        proof {
            lemma_root_box_is_union_of_items(self);
        }
        match &self.root {
            Some(node) => Some(node.bounds()),
            None => None,
        }
    }

    /// Every stored item with its box, in insertion order.
    pub fn get_all_elements(&self) -> (r: Vec<(&BoundingBox<C>, &T)>)
        ensures
            deref_pairs(r@) == self@,
    {
        let mut results = Vec::new();
        if let Some(node) = &self.root {
            self.collect_all_recursive(node, &mut results);
        }
        proof {
            assert(deref_pairs(results@) =~= self@);
        }
        results
    }

    fn collect_all_recursive<'a>(&self, node: &'a RTreeNode<T, C>, results: &mut Vec<(&'a BoundingBox<C>, &'a T)>)
        ensures
            deref_pairs(final(results)@) == deref_pairs(old(results)@) + leaves(*node),
        decreases node,
    {
        match node {
            RTreeNode::Leaf { bounds, data } => {
                let ghost before = results@;
                results.push((bounds, data));
                proof {
                    assert(deref_pairs(results@) =~= deref_pairs(before) + seq![(*bounds, *data)]);
                }
            },
            RTreeNode::Internal { children, .. } => {
                let ghost start = results@;
                let n = children.len();
                let mut i: usize = 0;
                while i < n
                    invariant
                        0 <= i <= n,
                        n == children@.len(),
                        *node == (RTreeNode::Internal { bounds: node.box_of(), children: *children }),
                        deref_pairs(results@) == deref_pairs(start) + leaves_of(children@.subrange(0, i as int)),
                    decreases n - i,
                {
                    proof {
                        assert(node->children == *children);
                        assert(decreases_to!(*node => node->children@[i as int]));
                    }
                    self.collect_all_recursive(&children[i], results);
                    proof {
                        assert(children@.subrange(0, i + 1).drop_last() =~= children@.subrange(0, i as int));
                        assert(children@.subrange(0, i + 1).last() == children@[i as int]);
                        assert(deref_pairs(results@) =~= deref_pairs(start) + leaves_of(children@.subrange(0, i + 1)));
                    }
                    i = i + 1;
                }
                proof {
                    assert(children@.subrange(0, n as int) =~= children@);
                }
            },
        }
    }
}

} // verus!
