use vstd::prelude::*;
use vstd::std_specs::cmp::{PartialEqSpec, PartialOrdSpec, PartialOrdIs, PartialEqIs};

verus! {

/// The coordinate type answers `<`, `<=`, `>=` and `==` as its spec functions say.
pub open spec fn coords_obey<C: PartialOrd>() -> bool {
    &&& C::obeys_partial_cmp_spec()
    &&& C::obeys_eq_spec()
}

/// The coordinates form a total order: every value equals itself, `<=` is
/// reflexive, total, transitive and antisymmetric, and `<` and `>=` agree with `<=`.
pub open spec fn totally_ordered<C: PartialOrd>() -> bool {
    &&& coords_obey::<C>()
    &&& forall|a: C| #[trigger] a.is_eq(&a)
    &&& forall|a: C| #![trigger a.partial_cmp_spec(&a)] a.is_le(&a)
    &&& forall|a: C, b: C| #![trigger a.partial_cmp_spec(&b)] a.is_le(&b) || b.is_le(&a)
    &&& forall|a: C, b: C| #![trigger a.partial_cmp_spec(&b)] a.is_le(&b) && b.is_le(&a) ==> a == b
    &&& forall|a: C, b: C, c: C|
        #![trigger a.partial_cmp_spec(&b), b.partial_cmp_spec(&c)]
        a.is_le(&b) && b.is_le(&c) ==> a.is_le(&c)
    &&& forall|a: C, b: C| #![trigger a.partial_cmp_spec(&b)] a.is_lt(&b) <==> !b.is_le(&a)
    &&& forall|a: C, b: C| #![trigger a.partial_cmp_spec(&b)] a.is_ge(&b) <==> b.is_le(&a)
}

/// The smaller of two coordinates; a coordinate that is not equal to itself
/// (such as a NaN) is passed over in favour of the other one.
pub open spec fn min_of<C: PartialOrd>(a: C, b: C) -> C {
    if b.is_lt(&a) {
        b
    } else if a.is_eq(&a) {
        a
    } else {
        b
    }
}

/// The larger of two coordinates, passing over one that is not equal to itself.
pub open spec fn max_of<C: PartialOrd>(a: C, b: C) -> C {
    if a.is_lt(&b) {
        b
    } else if a.is_eq(&a) {
        a
    } else {
        b
    }
}

fn min_coord<C: PartialOrd + Copy>(a: C, b: C) -> (r: C)
    ensures
        coords_obey::<C>() ==> r == min_of(a, b),
{
    if b < a {
        b
    } else if a == a {
        a
    } else {
        b
    }
}

fn max_coord<C: PartialOrd + Copy>(a: C, b: C) -> (r: C)
    ensures
        coords_obey::<C>() ==> r == max_of(a, b),
{
    if a < b {
        b
    } else if a == a {
        a
    } else {
        b
    }
}

/// An axis-aligned rectangle given by its lower and upper corner.
#[derive(Debug, Clone, Copy, PartialEq)]
pub struct BoundingBox<C> {
    pub min_x: C,
    pub min_y: C,
    pub max_x: C,
    pub max_y: C,
}

impl<C: PartialOrd> BoundingBox<C> {
    /// The box spanned by two corner points given in any order.
    pub open spec fn spanned(x1: C, y1: C, x2: C, y2: C) -> BoundingBox<C> {
        BoundingBox {
            min_x: min_of(x1, x2),
            min_y: min_of(y1, y2),
            max_x: max_of(x1, x2),
            max_y: max_of(y1, y2),
        }
    }

    /// The two boxes overlap (touching edges count).
    pub open spec fn overlaps(self, other: BoundingBox<C>) -> bool {
        &&& self.min_x.is_le(&other.max_x)
        &&& self.max_x.is_ge(&other.min_x)
        &&& self.min_y.is_le(&other.max_y)
        &&& self.max_y.is_ge(&other.min_y)
    }

    /// The point lies in the box (its edges included).
    pub open spec fn holds_point(self, x: C, y: C) -> bool {
        &&& x.is_ge(&self.min_x)
        &&& x.is_le(&self.max_x)
        &&& y.is_ge(&self.min_y)
        &&& y.is_le(&self.max_y)
    }

    /// The smallest box that holds both boxes.
    pub open spec fn union(self, other: BoundingBox<C>) -> BoundingBox<C> {
        BoundingBox {
            min_x: min_of(self.min_x, other.min_x),
            min_y: min_of(self.min_y, other.min_y),
            max_x: max_of(self.max_x, other.max_x),
            max_y: max_of(self.max_y, other.max_y),
        }
    }

    /// This box lies inside `area` (edges included), compared as a window
    /// selection compares them.
    pub open spec fn lies_within(self, area: BoundingBox<C>) -> bool {
        &&& self.min_x.is_ge(&area.min_x)
        &&& self.max_x.is_le(&area.max_x)
        &&& self.min_y.is_ge(&area.min_y)
        &&& self.max_y.is_le(&area.max_y)
    }

    /// `other` lies inside this box.
    pub open spec fn encloses(self, other: BoundingBox<C>) -> bool {
        &&& self.min_x.is_le(&other.min_x)
        &&& self.min_y.is_le(&other.min_y)
        &&& other.max_x.is_le(&self.max_x)
        &&& other.max_y.is_le(&self.max_y)
    }
}

impl<C: PartialOrd + Copy> BoundingBox<C> {
    pub fn from_points(x1: C, y1: C, x2: C, y2: C) -> (r: Self)
        ensures
            coords_obey::<C>() ==> r == Self::spanned(x1, y1, x2, y2),
    {
        BoundingBox {
            min_x: min_coord(x1, x2),
            min_y: min_coord(y1, y2),
            max_x: max_coord(x1, x2),
            max_y: max_coord(y1, y2),
        }
    }

    pub fn intersects(&self, other: &BoundingBox<C>) -> (r: bool)
        ensures
            coords_obey::<C>() ==> r == self.overlaps(*other),
    {
        self.min_x <= other.max_x && self.max_x >= other.min_x && self.min_y <= other.max_y
            && self.max_y >= other.min_y
    }

    pub fn contains(&self, x: C, y: C) -> (r: bool)
        ensures
            coords_obey::<C>() ==> r == self.holds_point(x, y),
    {
        x >= self.min_x && x <= self.max_x && y >= self.min_y && y <= self.max_y
    }

    pub(crate) fn is_within(&self, area: &BoundingBox<C>) -> (r: bool)
        ensures
            coords_obey::<C>() ==> r == self.lies_within(*area),
    {
        self.min_x >= area.min_x && self.max_x <= area.max_x && self.min_y >= area.min_y
            && self.max_y <= area.max_y
    }

    pub fn merge(&self, other: &BoundingBox<C>) -> (r: Self)
        ensures
            coords_obey::<C>() ==> r == self.union(*other),
    {
        BoundingBox {
            min_x: min_coord(self.min_x, other.min_x),
            min_y: min_coord(self.min_y, other.min_y),
            max_x: max_coord(self.max_x, other.max_x),
            max_y: max_coord(self.max_y, other.max_y),
        }
    }
}

/// Under a total order the smaller coordinate is below both and is one of them.
pub proof fn lemma_min_max<C: PartialOrd>(a: C, b: C)
    requires
        totally_ordered::<C>(),
    ensures
        min_of(a, b).is_le(&a),
        min_of(a, b).is_le(&b),
        a.is_le(&max_of(a, b)),
        b.is_le(&max_of(a, b)),
        min_of(a, b) == a || min_of(a, b) == b,
        max_of(a, b) == a || max_of(a, b) == b,
{
    assert(a.is_eq(&a));
    assert(b.is_eq(&b));
    assert(a.is_le(&b) || b.is_le(&a));
    assert(a.is_le(&a));
    assert(b.is_le(&b));
}

/// Law: a box that overlaps an area still overlaps it once it is merged with
/// another box, whichever side it stands on.
pub proof fn lemma_union_keeps_overlap<C: PartialOrd>(
    a: BoundingBox<C>,
    b: BoundingBox<C>,
    area: BoundingBox<C>,
)
    requires
        totally_ordered::<C>(),
    ensures
        a.overlaps(area) ==> a.union(b).overlaps(area),
        b.overlaps(area) ==> a.union(b).overlaps(area),
{
    lemma_min_max(a.min_x, b.min_x);
    lemma_min_max(a.min_y, b.min_y);
    lemma_min_max(a.max_x, b.max_x);
    lemma_min_max(a.max_y, b.max_y);
}

/// Law: a point in a box is still in the box merged with any other box.
pub proof fn lemma_union_keeps_point<C: PartialOrd>(
    a: BoundingBox<C>,
    b: BoundingBox<C>,
    x: C,
    y: C,
)
    requires
        totally_ordered::<C>(),
    ensures
        a.holds_point(x, y) ==> a.union(b).holds_point(x, y),
        b.holds_point(x, y) ==> a.union(b).holds_point(x, y),
{
    lemma_min_max(a.min_x, b.min_x);
    lemma_min_max(a.min_y, b.min_y);
    lemma_min_max(a.max_x, b.max_x);
    lemma_min_max(a.max_y, b.max_y);
}

/// Law: the union of two boxes encloses each of them.
pub proof fn lemma_union_encloses<C: PartialOrd>(a: BoundingBox<C>, b: BoundingBox<C>)
    requires
        totally_ordered::<C>(),
    ensures
        a.union(b).encloses(a),
        a.union(b).encloses(b),
{
    lemma_min_max(a.min_x, b.min_x);
    lemma_min_max(a.min_y, b.min_y);
    lemma_min_max(a.max_x, b.max_x);
    lemma_min_max(a.max_y, b.max_y);
}

/// Law: every box encloses itself.
pub proof fn lemma_encloses_refl<C: PartialOrd>(a: BoundingBox<C>)
    requires
        totally_ordered::<C>(),
    ensures
        a.encloses(a),
{
    lemma_min_max(a.min_x, a.min_x);
    lemma_min_max(a.min_y, a.min_y);
    lemma_min_max(a.max_x, a.max_x);
    lemma_min_max(a.max_y, a.max_y);
}

/// Law: `encloses` is transitive.
pub proof fn lemma_encloses_trans<C: PartialOrd>(
    a: BoundingBox<C>,
    b: BoundingBox<C>,
    c: BoundingBox<C>,
)
    requires
        totally_ordered::<C>(),
        a.encloses(b),
        b.encloses(c),
    ensures
        a.encloses(c),
{
}

/// Law: the box spanned by two corners holds both corners.
pub proof fn lemma_spanned_holds_corners<C: PartialOrd>(x1: C, y1: C, x2: C, y2: C)
    requires
        totally_ordered::<C>(),
    ensures
        BoundingBox::spanned(x1, y1, x2, y2).holds_point(x1, y1),
        BoundingBox::spanned(x1, y1, x2, y2).holds_point(x2, y2),
{
    lemma_min_max(x1, x2);
    lemma_min_max(y1, y2);
}

/// The box has its lower corner below its upper corner on both axes.
pub open spec fn is_proper<C: PartialOrd>(b: BoundingBox<C>) -> bool {
    &&& b.min_x.is_le(&b.max_x)
    &&& b.min_y.is_le(&b.max_y)
}

/// Law: with totally ordered coordinates the box spanned by two corners is
/// proper, does not depend on which corners are given in which order, and is the
/// least box holding both corners.
pub proof fn lemma_spanned_least<C: PartialOrd>(x1: C, y1: C, x2: C, y2: C, outer: BoundingBox<C>)
    requires
        totally_ordered::<C>(),
    ensures
        is_proper(BoundingBox::spanned(x1, y1, x2, y2)),
        BoundingBox::spanned(x1, y1, x2, y2) == BoundingBox::spanned(x2, y2, x1, y1),
        BoundingBox::spanned(x1, y1, x2, y2) == BoundingBox::spanned(x1, y2, x2, y1),
        outer.holds_point(x1, y1) && outer.holds_point(x2, y2) ==> outer.encloses(
            BoundingBox::spanned(x1, y1, x2, y2),
        ),
{
    lemma_min_max(x1, x2);
    lemma_min_max(y1, y2);
    lemma_min_max(x2, x1);
    lemma_min_max(y2, y1);
    lemma_min_max_commute(x1, x2);
    lemma_min_max_commute(y1, y2);
}

/// Under a total order, min and max do not depend on the order of their arguments.
pub proof fn lemma_min_max_commute<C: PartialOrd>(a: C, b: C)
    requires
        totally_ordered::<C>(),
    ensures
        min_of(a, b) == min_of(b, a),
        max_of(a, b) == max_of(b, a),
{
    assert(a.is_eq(&a));
    assert(b.is_eq(&b));
    assert(a.is_le(&b) || b.is_le(&a));
    assert(b.is_le(&a) || a.is_le(&b));
}

/// Under a total order, min and max are associative.
pub proof fn lemma_min_max_assoc<C: PartialOrd>(a: C, b: C, c: C)
    requires
        totally_ordered::<C>(),
    ensures
        min_of(min_of(a, b), c) == min_of(a, min_of(b, c)),
        max_of(max_of(a, b), c) == max_of(a, max_of(b, c)),
{
    lemma_min_max(a, b);
    lemma_min_max(b, c);
    lemma_min_max(a, c);
    lemma_min_max(min_of(a, b), c);
    lemma_min_max(a, min_of(b, c));
    lemma_min_max(max_of(a, b), c);
    lemma_min_max(a, max_of(b, c));
    assert(a.is_le(&b) || b.is_le(&a));
    assert(b.is_le(&c) || c.is_le(&b));
    assert(a.is_le(&c) || c.is_le(&a));
    assert(b.is_le(&a) || a.is_le(&b));
    assert(c.is_le(&b) || b.is_le(&c));
    assert(c.is_le(&a) || a.is_le(&c));
}

/// Law: with totally ordered coordinates, merging boxes is commutative,
/// associative and idempotent, and the union is the least box enclosing both.
pub proof fn lemma_union_laws<C: PartialOrd>(
    a: BoundingBox<C>,
    b: BoundingBox<C>,
    c: BoundingBox<C>,
)
    requires
        totally_ordered::<C>(),
    ensures
        a.union(b) == b.union(a),
        a.union(b).union(c) == a.union(b.union(c)),
        a.union(a) == a,
        a.union(b).encloses(a) && a.union(b).encloses(b),
        c.encloses(a) && c.encloses(b) ==> c.encloses(a.union(b)),
{
    lemma_min_max_commute(a.min_x, b.min_x);
    lemma_min_max_commute(a.min_y, b.min_y);
    lemma_min_max_commute(a.max_x, b.max_x);
    lemma_min_max_commute(a.max_y, b.max_y);
    lemma_min_max_assoc(a.min_x, b.min_x, c.min_x);
    lemma_min_max_assoc(a.min_y, b.min_y, c.min_y);
    lemma_min_max_assoc(a.max_x, b.max_x, c.max_x);
    lemma_min_max_assoc(a.max_y, b.max_y, c.max_y);
    lemma_min_max(a.min_x, a.min_x);
    lemma_min_max(a.min_y, a.min_y);
    lemma_min_max(a.max_x, a.max_x);
    lemma_min_max(a.max_y, a.max_y);
    lemma_union_encloses(a, b);
    lemma_min_max(a.min_x, b.min_x);
    lemma_min_max(a.min_y, b.min_y);
    lemma_min_max(a.max_x, b.max_x);
    lemma_min_max(a.max_y, b.max_y);
}

/// Law: with totally ordered coordinates, overlap of proper boxes is symmetric,
/// every proper box overlaps itself, and two proper boxes overlap exactly when
/// some point lies in both.
pub proof fn lemma_overlap_laws<C: PartialOrd>(a: BoundingBox<C>, b: BoundingBox<C>)
    requires
        totally_ordered::<C>(),
        is_proper(a),
        is_proper(b),
    ensures
        a.overlaps(b) == b.overlaps(a),
        a.overlaps(a),
        a.overlaps(b) <==> exists|x: C, y: C| a.holds_point(x, y) && b.holds_point(x, y),
{
    if a.overlaps(b) {
        let x = max_of(a.min_x, b.min_x);
        let y = max_of(a.min_y, b.min_y);
        lemma_min_max(a.min_x, b.min_x);
        lemma_min_max(a.min_y, b.min_y);
        assert(a.holds_point(x, y) && b.holds_point(x, y));
    }
    if exists|x: C, y: C| a.holds_point(x, y) && b.holds_point(x, y) {
        let (x, y) = choose|x: C, y: C| a.holds_point(x, y) && b.holds_point(x, y);
        assert(a.min_x.is_le(&x) && x.is_le(&b.max_x));
        assert(b.min_x.is_le(&x) && x.is_le(&a.max_x));
        assert(a.min_y.is_le(&y) && y.is_le(&b.max_y));
        assert(b.min_y.is_le(&y) && y.is_le(&a.max_y));
    }
}

/// Law: with totally ordered coordinates, a box holds a point exactly when it
/// overlaps the box made of that point alone.
pub proof fn lemma_point_is_degenerate_box<C: PartialOrd>(b: BoundingBox<C>, x: C, y: C)
    requires
        totally_ordered::<C>(),
    ensures
        b.holds_point(x, y) == b.overlaps(BoundingBox { min_x: x, min_y: y, max_x: x, max_y: y }),
{
}

/// Law: with totally ordered coordinates, a box lies within an area exactly when
/// it sticks out on none of the four sides: its left edge is not left of the
/// area's, its right edge not right of it, and likewise bottom and top; that is,
/// when the area encloses it. A proper box lies within an area exactly when the
/// area holds both of its corners.
pub proof fn lemma_lies_within_all_four_sides<C: PartialOrd>(b: BoundingBox<C>, area: BoundingBox<C>)
    requires
        totally_ordered::<C>(),
    ensures
        b.lies_within(area) <==> {
            &&& area.min_x.is_le(&b.min_x)
            &&& b.max_x.is_le(&area.max_x)
            &&& area.min_y.is_le(&b.min_y)
            &&& b.max_y.is_le(&area.max_y)
        },
        b.lies_within(area) <==> area.encloses(b),
        is_proper(b) ==> (b.lies_within(area) <==> area.holds_point(b.min_x, b.min_y) && area.holds_point(
            b.max_x,
            b.max_y,
        )),
{
    assert(b.min_x.is_ge(&area.min_x) <==> area.min_x.is_le(&b.min_x));
    assert(b.min_y.is_ge(&area.min_y) <==> area.min_y.is_le(&b.min_y));
    if is_proper(b) {
        assert(b.min_x.is_le(&b.max_x));
        assert(b.min_y.is_le(&b.max_y));
        assert(area.min_x.is_le(&b.min_x) ==> area.min_x.is_le(&b.max_x));
        assert(area.min_y.is_le(&b.min_y) ==> area.min_y.is_le(&b.max_y));
        assert(b.max_x.is_le(&area.max_x) ==> b.min_x.is_le(&area.max_x));
        assert(b.max_y.is_le(&area.max_y) ==> b.min_y.is_le(&area.max_y));
    }
}

/// The machine integers `i64` meet the total-order requirement of the laws.
pub proof fn lemma_i64_totally_ordered()
    ensures
        totally_ordered::<i64>(),
{
}

} // verus!
