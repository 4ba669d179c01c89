use vstd::prelude::*;

use crate::geometry::{BoundingBox, coords_obey, totally_ordered};
use crate::spatial::{SpatialIndex, derefs, boxes_hull};
use crate::tool::ToolMode;

verus! {

/// The node-size limit of the spatial index of a drawing.
pub const INDEX_MAX_CHILDREN: usize = 8;

/// A drawn element: its identifier, whether it is selected, and its shape `D`.
#[derive(Debug, Clone, Copy)]
pub struct DrawingElement<D> {
    pub id: u64,
    pub is_selected: bool,
    pub data: D,
}

impl<D: Copy> DrawingElement<D> {
    /// A copy of this element under identifier `id`, not selected, with its shape
    /// moved by `shift`.
    pub fn cloned_with_offset<F: Fn(&D) -> D>(&self, id: u64, shift: &F) -> (r: Self)
        requires
            call_requires(*shift, (&self.data,)),
        ensures
            r.id == id,
            !r.is_selected,
            call_ensures(*shift, (&self.data,), r.data),
    {
        let mut new_el = *self;
        new_el.id = id;
        new_el.is_selected = false;
        new_el.data = shift(&self.data);
        new_el
    }
}

/// `f` accepts every shape.
pub open spec fn accepts_all<D, R, F: Fn(&D) -> R>(f: F) -> bool {
    forall|d: D| #[trigger] call_requires(f, (&d,))
}

/// `bounds_of` may give the box `b` for the shape `d`.
pub open spec fn gives_box<D, C, F: Fn(&D) -> BoundingBox<C>>(bounds_of: F, d: D, b: BoundingBox<C>) -> bool {
    call_ensures(bounds_of, (&d,), b)
}

/// The elements stored in an index view, in order.
pub open spec fn index_elements<D, C>(v: Seq<(BoundingBox<C>, DrawingElement<D>)>) -> Seq<
    DrawingElement<D>,
> {
    v.map_values(|p: (BoundingBox<C>, DrawingElement<D>)| p.1)
}

/// The index view holds the elements of `h` in order, each under a box that
/// `bounds_of` gave for its shape.
pub open spec fn indexed_by<D, C, F: Fn(&D) -> BoundingBox<C>>(
    v: Seq<(BoundingBox<C>, DrawingElement<D>)>,
    h: Seq<DrawingElement<D>>,
    bounds_of: F,
) -> bool {
    &&& v.len() == h.len()
    &&& forall|i: int|
        0 <= i < h.len() ==> #[trigger] v[i].1 == h[i] && call_ensures(
            bounds_of,
            (&h[i].data,),
            v[i].0,
        )
}

/// `h` with every element deselected.
pub open spec fn deselected<D>(h: Seq<DrawingElement<D>>) -> Seq<DrawingElement<D>> {
    h.map_values(|e: DrawingElement<D>| DrawingElement { is_selected: false, ..e })
}

/// The position of the first element of `h` with identifier `id`, or -1.
pub open spec fn first_index<D>(h: Seq<DrawingElement<D>>, id: u64) -> int
    decreases h.len(),
{
    if h.len() == 0 {
        -1
    } else {
        let r = first_index(h.drop_last(), id);
        if r >= 0 {
            r
        } else if h.last().id == id {
            h.len() - 1
        } else {
            -1
        }
    }
}

/// `h` with the first element that carries `id` selected.
pub open spec fn mark_first<D>(h: Seq<DrawingElement<D>>, id: u64) -> Seq<DrawingElement<D>> {
    let k = first_index(h, id);
    if k < 0 {
        h
    } else {
        h.update(k, DrawingElement { is_selected: true, ..h[k] })
    }
}

/// Some selected element of `h` carries `id`.
pub open spec fn id_selected<D>(h: Seq<DrawingElement<D>>, id: u64) -> bool {
    exists|j: int| 0 <= j < h.len() && #[trigger] h[j].is_selected && h[j].id == id
}

/// The identifiers of the selected elements of `h`, in order.
pub open spec fn selected_ids<D>(h: Seq<DrawingElement<D>>) -> Seq<u64>
    decreases h.len(),
{
    if h.len() == 0 {
        seq![]
    } else if h.last().is_selected {
        selected_ids(h.drop_last()).push(h.last().id)
    } else {
        selected_ids(h.drop_last())
    }
}

/// Two element sequences agree except perhaps in which elements are selected.
pub open spec fn same_shapes<D>(a: Seq<DrawingElement<D>>, b: Seq<DrawingElement<D>>) -> bool {
    &&& a.len() == b.len()
    &&& forall|i: int| 0 <= i < a.len() ==> #[trigger] a[i].id == b[i].id && a[i].data == b[i].data
}

/// The identifier of the last element of `s`, if any.
pub open spec fn last_id<D>(s: Seq<DrawingElement<D>>) -> Option<u64> {
    if s.len() == 0 {
        None
    } else {
        Some(s.last().id)
    }
}

/// The identifiers of the elements of `s`, in order.
pub open spec fn ids_of<D>(s: Seq<DrawingElement<D>>) -> Seq<u64> {
    s.map_values(|e: DrawingElement<D>| e.id)
}

/// The selection of `h` that a click starts from: kept when adding to it,
/// cleared otherwise.
pub open spec fn selection_base<D>(h: Seq<DrawingElement<D>>, add_to_selection: bool) -> Seq<DrawingElement<D>> {
    if add_to_selection {
        h
    } else {
        deselected(h)
    }
}

/// `next` is `base` with some elements selected: identifiers and shapes are kept
/// and no selected element is deselected.
pub open spec fn only_selects_more<D>(base: Seq<DrawingElement<D>>, next: Seq<DrawingElement<D>>) -> bool {
    &&& same_shapes(base, next)
    &&& forall|i: int| 0 <= i < base.len() ==> (#[trigger] base[i]).is_selected ==> next[i].is_selected
}

/// The cells of row `r` of a grid with `cols` columns, left to right.
pub open spec fn row_cells(r: i32, cols: i32) -> Seq<(i32, i32)> {
    Seq::new(if cols > 0 { cols as nat } else { 0 }, |c: int| (r, c as i32))
}

/// The cells of rows `a` up to but excluding `b`, row by row.
pub open spec fn rows_between(a: int, b: int, cols: i32) -> Seq<(i32, i32)>
    decreases b - a,
{
    if b <= a {
        seq![]
    } else {
        rows_between(a, b - 1, cols) + row_cells((b - 1) as i32, cols)
    }
}

/// The cells of a grid of `rows` by `cols`, row by row.
pub open spec fn grid_cells(rows: i32, cols: i32) -> Seq<(i32, i32)> {
    rows_between(0, rows as int, cols)
}

/// One entry per item for a cell, except for the origin cell, which is the
/// original and gets no copies.
pub open spec fn cell_copies<X>(cell: (i32, i32), items: Seq<X>) -> Seq<(i32, i32, X)> {
    if cell.0 == 0 && cell.1 == 0 {
        seq![]
    } else {
        items.map_values(|x: X| (cell.0, cell.1, x))
    }
}

/// For each cell in order, the copies of the items that the cell gets.
pub open spec fn copy_plan<X>(cells: Seq<(i32, i32)>, items: Seq<X>) -> Seq<(i32, i32, X)>
    decreases cells.len(),
{
    if cells.len() == 0 {
        seq![]
    } else {
        copy_plan(cells.drop_last(), items) + cell_copies(cells.last(), items)
    }
}

/// The copies an array of `rows` by `cols` makes of the selected elements of `h`:
/// row, column and the identifier of the element copied.
pub open spec fn array_plan<D>(h: Seq<DrawingElement<D>>, rows: i32, cols: i32) -> Seq<(i32, i32, u64)> {
    copy_plan(grid_cells(rows, cols), selected_ids(h))
}

/// The positions in `h` of its selected elements, in order.
pub open spec fn selected_positions<D>(h: Seq<DrawingElement<D>>) -> Seq<usize>
    decreases h.len(),
{
    if h.len() == 0 {
        seq![]
    } else if h.last().is_selected {
        selected_positions(h.drop_last()).push((h.len() - 1) as usize)
    } else {
        selected_positions(h.drop_last())
    }
}

/// `e` is the array copy for plan entry `entry` of history `h`, under
/// identifier `id`: the first element of `h` carrying the entry's identifier,
/// deselected, with its shape moved by `shift` for the entry's row and column.
pub open spec fn is_array_copy<D, S: Fn(&D, i32, i32) -> D>(
    h: Seq<DrawingElement<D>>,
    entry: (i32, i32, u64),
    id: u64,
    shift: S,
    e: DrawingElement<D>,
) -> bool {
    let src = h[first_index(h, entry.2)];
    &&& e.id == id
    &&& !e.is_selected
    &&& call_ensures(shift, (&src.data, entry.0, entry.1), e.data)
}

/// `shift` accepts every shape, row and column.
pub open spec fn accepts_all_cells<D, S: Fn(&D, i32, i32) -> D>(shift: S) -> bool {
    forall|d: D, r: i32, c: i32| #[trigger] call_requires(shift, (&d, r, c))
}

/// The history saved for undo, as a sequence.
pub open spec fn saved_history<D>(snapshot: Option<Vec<DrawingElement<D>>>) -> Option<Seq<DrawingElement<D>>> {
    match snapshot {
        Some(v) => Some(v@),
        None => None,
    }
}

/// The history after an undo: the saved history if there is one, else `h`
/// without its last element.
pub open spec fn undone<D>(h: Seq<DrawingElement<D>>, saved: Option<Seq<DrawingElement<D>>>) -> Seq<DrawingElement<D>> {
    match saved {
        Some(s) => s,
        None => if h.len() > 0 {
            h.drop_last()
        } else {
            h
        },
    }
}

/// The editing state of one drawing: its elements in the order they were drawn,
/// the spatial index over them, the active tool, the identifier counter, the
/// hovered element and the state saved for undoing a move.
#[derive(Debug)]
pub struct Engine<D, C> {
    pub spatial_index: SpatialIndex<DrawingElement<D>, C>,
    pub history: Vec<DrawingElement<D>>,
    pub active_tool: ToolMode,
    pub last_update_time: Option<u64>,
    pub id_counter: u64,
    pub show_array_ui: bool,
    pub hovered_id: Option<u64>,
    pub move_snapshot: Option<Vec<DrawingElement<D>>>,
}

impl<D, C: PartialOrd> Engine<D, C> {
    /// The index is sound and holds exactly the history, in order.
    pub open spec fn wf(&self) -> bool {
        &&& self.spatial_index.wf()
        &&& index_elements(self.spatial_index@) == self.history@
    }

    /// The index is sound and holds the history, each element under the box
    /// `bounds_of` gave for it.
    pub open spec fn indexed_with<F: Fn(&D) -> BoundingBox<C>>(&self, bounds_of: F) -> bool {
        &&& self.spatial_index.wf()
        &&& self.spatial_index.max_children_spec() == INDEX_MAX_CHILDREN
        &&& indexed_by(self.spatial_index@, self.history@, bounds_of)
    }
}

impl<D: Copy, C: PartialOrd + Copy> Engine<D, C> {
    /// An empty drawing with the line tool active.
    pub fn new() -> (r: Self)
        ensures
            r.wf(),
            r.history@.len() == 0,
            r.spatial_index@.len() == 0,
            r.spatial_index.max_children_spec() == INDEX_MAX_CHILDREN,
            r.active_tool == ToolMode::Line,
            r.last_update_time is None,
            r.id_counter == 0,
            !r.show_array_ui,
            r.hovered_id is None,
            r.move_snapshot is None,
    {
        let r = Engine {
            spatial_index: SpatialIndex::new(INDEX_MAX_CHILDREN),
            history: Vec::new(),
            active_tool: ToolMode::Line,
            last_update_time: None,
            id_counter: 0,
            show_array_ui: false,
            hovered_id: None,
            move_snapshot: None,
        };
        proof {
            assert(index_elements(r.spatial_index@) =~= r.history@);
        }
        r
    }

    /// A fresh identifier: one more than the last one handed out.
    pub fn get_next_id(&mut self) -> (r: u64)
        requires
            old(self).id_counter < u64::MAX,
        ensures
            r == old(self).id_counter + 1,
            final(self).id_counter == r,
            final(self).history == old(self).history,
            final(self).spatial_index == old(self).spatial_index,
            final(self).active_tool == old(self).active_tool,
            final(self).last_update_time == old(self).last_update_time,
            final(self).show_array_ui == old(self).show_array_ui,
            final(self).hovered_id == old(self).hovered_id,
            final(self).move_snapshot == old(self).move_snapshot,
    {
        self.id_counter = self.id_counter + 1;
        self.id_counter
    }

    /// Records `element` at the end of the history and indexes it under the box
    /// `bounds_of` gives for its shape; the box covering all elements grows by
    /// that box.
    pub fn add_element<F: Fn(&D) -> BoundingBox<C>>(&mut self, element: DrawingElement<D>, bounds_of: &F)
        requires
            old(self).wf(),
            accepts_all::<D, BoundingBox<C>, F>(*bounds_of),
        ensures
            final(self).wf(),
            final(self).history@ == old(self).history@.push(element),
            final(self).spatial_index@ == old(self).spatial_index@.push(
                (final(self).spatial_index@.last().0, element),
            ),
            gives_box(*bounds_of, element.data, final(self).spatial_index@.last().0),
            old(self).indexed_with(*bounds_of) ==> final(self).indexed_with(*bounds_of),
            final(self).spatial_index.root_box() is Some,
            totally_ordered::<C>() ==> final(self).spatial_index.root_box() == Some(
                match old(self).spatial_index.root_box() {
                    None => final(self).spatial_index@.last().0,
                    Some(r) => r.union(final(self).spatial_index@.last().0),
                },
            ),
            final(self).spatial_index.max_children_spec()
                == old(self).spatial_index.max_children_spec(),
            final(self).id_counter == old(self).id_counter,
            final(self).active_tool == old(self).active_tool,
            final(self).last_update_time == old(self).last_update_time,
            final(self).show_array_ui == old(self).show_array_ui,
            final(self).hovered_id == old(self).hovered_id,
            final(self).move_snapshot == old(self).move_snapshot,
    {
        assert(call_requires(*bounds_of, (&element.data,)));
        let bounds = bounds_of(&element.data);
        self.history.push(element);
        self.spatial_index.insert(element, bounds);
        proof {
            assert(index_elements(self.spatial_index@) =~= self.history@);
            assert(self.spatial_index@.last() == (bounds, element));
            if old(self).indexed_with(*bounds_of) {
                assert forall|i: int| 0 <= i < self.history@.len() implies #[trigger] self.spatial_index@[i].1
                    == self.history@[i] && call_ensures(*bounds_of, (&self.history@[i].data,), self.spatial_index@[i].0) by {
                    if i < old(self).history@.len() {
                        assert(self.spatial_index@[i] == old(self).spatial_index@[i]);
                        assert(self.history@[i] == old(self).history@[i]);
                    }
                }
            }
        }
    }

    /// Rebuilds the index from the history, each element under the box that
    /// `bounds_of` gives for its shape.
    fn rebuild_index<F: Fn(&D) -> BoundingBox<C>>(&mut self, bounds_of: &F)
        requires
            accepts_all::<D, BoundingBox<C>, F>(*bounds_of),
        ensures
            final(self).wf(),
            final(self).indexed_with(*bounds_of),
            final(self).history == old(self).history,
            final(self).id_counter == old(self).id_counter,
            final(self).active_tool == old(self).active_tool,
            final(self).last_update_time == old(self).last_update_time,
            final(self).show_array_ui == old(self).show_array_ui,
            final(self).hovered_id == old(self).hovered_id,
            final(self).move_snapshot == old(self).move_snapshot,
    {
        self.spatial_index = SpatialIndex::new(INDEX_MAX_CHILDREN);
        let n = self.history.len();
        let mut i: usize = 0;
        while i < n
            invariant
                0 <= i <= n,
                n == self.history@.len(),
                self.history == old(self).history,
                self.id_counter == old(self).id_counter,
                self.active_tool == old(self).active_tool,
                self.last_update_time == old(self).last_update_time,
                self.show_array_ui == old(self).show_array_ui,
                self.hovered_id == old(self).hovered_id,
                self.move_snapshot == old(self).move_snapshot,
                accepts_all::<D, BoundingBox<C>, F>(*bounds_of),
                self.spatial_index.wf(),
                self.spatial_index.max_children_spec() == INDEX_MAX_CHILDREN,
                indexed_by(self.spatial_index@, self.history@.subrange(0, i as int), *bounds_of),
            decreases n - i,
        {
            let el = self.history[i];
            assert(call_requires(*bounds_of, (&el.data,)));
            let bounds = bounds_of(&el.data);
            self.spatial_index.insert(el, bounds);
            i = i + 1;
        }
        proof {
            assert(self.history@.subrange(0, n as int) =~= self.history@);
            assert(index_elements(self.spatial_index@) =~= self.history@);
        }
    }

    /// Deselects every element and rebuilds the index.
    pub fn deselect_all<F: Fn(&D) -> BoundingBox<C>>(&mut self, bounds_of: &F)
        requires
            accepts_all::<D, BoundingBox<C>, F>(*bounds_of),
        ensures
            final(self).wf(),
            final(self).indexed_with(*bounds_of),
            final(self).history@ == deselected(old(self).history@),
            final(self).id_counter == old(self).id_counter,
            final(self).active_tool == old(self).active_tool,
            final(self).last_update_time == old(self).last_update_time,
            final(self).show_array_ui == old(self).show_array_ui,
            final(self).hovered_id == old(self).hovered_id,
            final(self).move_snapshot == old(self).move_snapshot,
    {
        self.clear_selection();
        self.rebuild_index(bounds_of);
    }

    fn clear_selection(&mut self)
        ensures
            final(self).history@ == deselected(old(self).history@),
            final(self).spatial_index == old(self).spatial_index,
            final(self).id_counter == old(self).id_counter,
            final(self).active_tool == old(self).active_tool,
            final(self).last_update_time == old(self).last_update_time,
            final(self).show_array_ui == old(self).show_array_ui,
            final(self).hovered_id == old(self).hovered_id,
            final(self).move_snapshot == old(self).move_snapshot,
    {
        let n = self.history.len();
        let mut i: usize = 0;
        while i < n
            invariant
                0 <= i <= n,
                n == self.history@.len(),
                n == old(self).history@.len(),
                forall|j: int| 0 <= j < i ==> #[trigger] self.history@[j] == (DrawingElement {
                    is_selected: false,
                    ..old(self).history@[j]
                }),
                forall|j: int| i <= j < n ==> #[trigger] self.history@[j] == old(self).history@[j],
                self.spatial_index == old(self).spatial_index,
                self.id_counter == old(self).id_counter,
                self.active_tool == old(self).active_tool,
                self.last_update_time == old(self).last_update_time,
                self.show_array_ui == old(self).show_array_ui,
                self.hovered_id == old(self).hovered_id,
                self.move_snapshot == old(self).move_snapshot,
            decreases n - i,
        {
            let mut el = self.history[i];
            el.is_selected = false;
            self.history.set(i, el);
            i = i + 1;
        }
        proof {
            assert(self.history@ =~= deselected(old(self).history@));
        }
    }

    /// Saves the current history so that the next undo restores it.
    pub fn snapshot_for_undo(&mut self)
        ensures
            final(self).move_snapshot matches Some(s) && s@ == old(self).history@,
            final(self).history == old(self).history,
            final(self).spatial_index == old(self).spatial_index,
            final(self).id_counter == old(self).id_counter,
            final(self).active_tool == old(self).active_tool,
            final(self).last_update_time == old(self).last_update_time,
            final(self).show_array_ui == old(self).show_array_ui,
            final(self).hovered_id == old(self).hovered_id,
    {
        let copy = copy_elements(&self.history);
        self.move_snapshot = Some(copy);
    }

    /// Undoes the last action: restores the saved history if there is one (and
    /// forgets it), else removes the last drawn element; the index is rebuilt
    /// whenever the history changed.
    pub fn undo_last_action<F: Fn(&D) -> BoundingBox<C>>(&mut self, bounds_of: &F)
        requires
            old(self).wf(),
            accepts_all::<D, BoundingBox<C>, F>(*bounds_of),
        ensures
            final(self).wf(),
            final(self).move_snapshot is None,
            final(self).history@ == undone(old(self).history@, saved_history(old(self).move_snapshot)),
            old(self).move_snapshot is Some || old(self).history@.len() > 0 ==> final(self).indexed_with(*bounds_of),
            old(self).move_snapshot is None && old(self).history@.len() == 0 ==> final(self).spatial_index == old(self).spatial_index,
            final(self).id_counter == old(self).id_counter,
            final(self).active_tool == old(self).active_tool,
            final(self).last_update_time == old(self).last_update_time,
            final(self).show_array_ui == old(self).show_array_ui,
            final(self).hovered_id == old(self).hovered_id,
    {
        let snapshot = self.move_snapshot.take();
        match snapshot {
            Some(s) => {
                self.history = s;
                self.rebuild_index(bounds_of);
            },
            None => {
                if self.history.pop().is_some() {
                    self.rebuild_index(bounds_of);
                }
            },
        }
    }

    /// Takes the frame time (in microseconds) of a new frame: the first frame only
    /// records it and gives `None`; later frames give the time since the previous one.
    pub fn advance_clock(&mut self, current_time: u64) -> (r: Option<u64>)
        requires
            old(self).last_update_time matches Some(last) ==> last <= current_time,
        ensures
            final(self).last_update_time == Some(current_time),
            r == match old(self).last_update_time {
                None => None,
                Some(last) => Some((current_time - last) as u64),
            },
            final(self).history == old(self).history,
            final(self).spatial_index == old(self).spatial_index,
            final(self).id_counter == old(self).id_counter,
            final(self).active_tool == old(self).active_tool,
            final(self).show_array_ui == old(self).show_array_ui,
            final(self).hovered_id == old(self).hovered_id,
            final(self).move_snapshot == old(self).move_snapshot,
    {
        let elapsed = match self.last_update_time {
            Some(last) => Some(current_time - last),
            None => None,
        };
        self.last_update_time = Some(current_time);
        elapsed
    }

    /// The elements whose box overlaps `viewport_bounds`, in drawing order.
    pub fn get_visible_elements(&self, viewport_bounds: BoundingBox<C>) -> (r: Vec<&DrawingElement<D>>)
        ensures
            coords_obey::<C>() ==> derefs(r@) == self.spatial_index.query_spec(viewport_bounds),
    {
        let mut visible = Vec::new();
        self.spatial_index.query(&viewport_bounds, &mut visible);
        proof {
            assert(derefs(Seq::<&DrawingElement<D>>::empty()) =~= Seq::<DrawingElement<D>>::empty());
            assert(derefs(visible@) =~= Seq::<DrawingElement<D>>::empty() + derefs(visible@));
        }
        visible
    }

    /// Every indexed element, in drawing order.
    pub fn get_all_elements(&self) -> (r: Vec<&DrawingElement<D>>)
        ensures
            derefs(r@) == index_elements(self.spatial_index@),
    {
        let all = self.spatial_index.get_all_elements();
        let mut r: Vec<&DrawingElement<D>> = Vec::new();
        let n = all.len();
        let mut i: usize = 0;
        while i < n
            invariant
                0 <= i <= n,
                n == all@.len(),
                crate::spatial::deref_pairs(all@) == self.spatial_index@,
                derefs(r@) == index_elements(self.spatial_index@).subrange(0, i as int),
            decreases n - i,
        {
            let (_bounds, data) = all[i];
            let ghost before = r@;
            r.push(data);
            proof {
                assert(derefs(r@) =~= derefs(before).push(*data));
                assert(index_elements(self.spatial_index@).subrange(0, i + 1) =~= index_elements(self.spatial_index@).subrange(0, i as int).push(index_elements(self.spatial_index@)[i as int]));
                assert(crate::spatial::deref_pairs(all@)[i as int] == (*all@[i as int].0, *all@[i as int].1));
                assert(self.spatial_index@[i as int].1 == *data);
                assert(index_elements(self.spatial_index@)[i as int] == *data);
                assert(derefs(r@) =~= index_elements(self.spatial_index@).subrange(0, i + 1));
            }
            i = i + 1;
        }
        proof {
            assert(index_elements(self.spatial_index@).subrange(0, n as int) =~= index_elements(self.spatial_index@));
        }
        r
    }

    /// The box covering every element: none exactly when nothing is drawn; with
    /// totally ordered coordinates, the union of the boxes the elements are
    /// indexed under.
    pub fn get_elements_bounds(&self) -> (r: Option<BoundingBox<C>>)
        requires
            self.wf(),
        ensures
            r == self.spatial_index.root_box(),
            r is None <==> self.history@.len() == 0,
            totally_ordered::<C>() && self.history@.len() > 0 ==> r == Some(
                boxes_hull(self.spatial_index@),
            ),
    {
        proof {
            assert(index_elements(self.spatial_index@).len() == self.spatial_index@.len());
        }
        self.spatial_index.get_root_bounds()
    }

    /// Marks as hovered the last indexed element whose box overlaps `query_box`,
    /// or none.
    pub fn hover_at(&mut self, query_box: BoundingBox<C>)
        ensures
            coords_obey::<C>() ==> final(self).hovered_id == last_id(
                old(self).spatial_index.query_spec(query_box),
            ),
            final(self).history == old(self).history,
            final(self).spatial_index == old(self).spatial_index,
            final(self).id_counter == old(self).id_counter,
            final(self).active_tool == old(self).active_tool,
            final(self).last_update_time == old(self).last_update_time,
            final(self).show_array_ui == old(self).show_array_ui,
            final(self).move_snapshot == old(self).move_snapshot,
    {
        let mut hits = Vec::new();
        self.spatial_index.query(&query_box, &mut hits);
        let n = hits.len();
        let hovered = if n > 0 {
            Some(hits[n - 1].id)
        } else {
            None
        };
        proof {
            assert(derefs(Seq::<&DrawingElement<D>>::empty()) =~= Seq::<DrawingElement<D>>::empty());
            if coords_obey::<C>() {
                assert(derefs(hits@) =~= old(self).spatial_index.query_spec(query_box));
            }
        }
        self.hovered_id = hovered;
    }

    /// Selects the first element of the history that carries `id`, if any.
    fn select_first_with_id(&mut self, id: u64)
        ensures
            final(self).history@ == mark_first(old(self).history@, id),
            final(self).spatial_index == old(self).spatial_index,
            final(self).id_counter == old(self).id_counter,
            final(self).active_tool == old(self).active_tool,
            final(self).last_update_time == old(self).last_update_time,
            final(self).show_array_ui == old(self).show_array_ui,
            final(self).hovered_id == old(self).hovered_id,
            final(self).move_snapshot == old(self).move_snapshot,
    {
        let ghost h = self.history@;
        let n = self.history.len();
        let mut i: usize = 0;
        while i < n
            invariant
                0 <= i <= n,
                n == h.len(),
                self.history@ == h,
                first_index(h.subrange(0, i as int), id) < 0,
                self.spatial_index == old(self).spatial_index,
                self.id_counter == old(self).id_counter,
                self.active_tool == old(self).active_tool,
                self.last_update_time == old(self).last_update_time,
                self.show_array_ui == old(self).show_array_ui,
                self.hovered_id == old(self).hovered_id,
                self.move_snapshot == old(self).move_snapshot,
                h == old(self).history@,
            decreases n - i,
        {
            proof {
                assert(h.subrange(0, i + 1).drop_last() =~= h.subrange(0, i as int));
            }
            if self.history[i].id == id {
                proof {
                    assert(first_index(h.subrange(0, i + 1), id) == i);
                    lemma_first_index_prefix(h, i + 1, id);
                }
                let mut el = self.history[i];
                el.is_selected = true;
                self.history.set(i, el);
                proof {
                    assert(first_index(h, id) == i);
                    assert(self.history@ =~= mark_first(h, id));
                }
                return;
            }
            i = i + 1;
        }
        proof {
            assert(h.subrange(0, n as int) =~= h);
            assert(mark_first(h, id) == h);
        }
    }

    /// A click at `query_box`: unless adding to the selection, everything is
    /// deselected; then the first element of the history that carries the
    /// identifier of the last indexed element overlapping `query_box` is
    /// selected. The index is rebuilt.
    pub fn select_at<F: Fn(&D) -> BoundingBox<C>>(
        &mut self,
        query_box: BoundingBox<C>,
        add_to_selection: bool,
        bounds_of: &F,
    )
        requires
            accepts_all::<D, BoundingBox<C>, F>(*bounds_of),
        ensures
            final(self).wf(),
            final(self).indexed_with(*bounds_of),
            coords_obey::<C>() ==> final(self).history@ == match last_id(
                old(self).spatial_index.query_spec(query_box),
            ) {
                None => selection_base(old(self).history@, add_to_selection),
                Some(t) => mark_first(selection_base(old(self).history@, add_to_selection), t),
            },
            final(self).history@ == selection_base(old(self).history@, add_to_selection)
                || exists|t: u64| final(self).history@ == #[trigger] mark_first(
                selection_base(old(self).history@, add_to_selection),
                t,
            ),
            final(self).id_counter == old(self).id_counter,
            final(self).active_tool == old(self).active_tool,
            final(self).last_update_time == old(self).last_update_time,
            final(self).show_array_ui == old(self).show_array_ui,
            final(self).hovered_id == old(self).hovered_id,
            final(self).move_snapshot == old(self).move_snapshot,
    {
        let mut hits = Vec::new();
        self.spatial_index.query(&query_box, &mut hits);
        let n = hits.len();
        let target = if n > 0 {
            Some(hits[n - 1].id)
        } else {
            None
        };
        proof {
            assert(derefs(Seq::<&DrawingElement<D>>::empty()) =~= Seq::<DrawingElement<D>>::empty());
            if coords_obey::<C>() {
                assert(derefs(hits@) =~= old(self).spatial_index.query_spec(query_box));
            }
        }
        if !add_to_selection {
            self.clear_selection();
        }
        match target {
            Some(t) => {
                self.select_first_with_id(t);
            },
            None => {},
        }
        self.rebuild_index(bounds_of);
    }

    /// A drag-box selection over the box spanned by two corners. Unless adding to
    /// the selection, everything is deselected first. An element whose identifier
    /// is among those of the indexed elements overlapping the box is selected: at
    /// once for a crossing selection, and for a window selection only when the box
    /// `bounds_of` gives for it lies inside the selection box. The index is rebuilt.
    pub fn select_in_box<F: Fn(&D) -> BoundingBox<C>>(
        &mut self,
        x1: C,
        y1: C,
        x2: C,
        y2: C,
        crossing: bool,
        add_to_selection: bool,
        bounds_of: &F,
    )
        requires
            accepts_all::<D, BoundingBox<C>, F>(*bounds_of),
        ensures
            final(self).wf(),
            final(self).indexed_with(*bounds_of),
            only_selects_more(
                selection_base(old(self).history@, add_to_selection),
                final(self).history@,
            ),
            coords_obey::<C>() ==> {
                let base = selection_base(old(self).history@, add_to_selection);
                let sel_box = BoundingBox::spanned(x1, y1, x2, y2);
                let hits = ids_of(old(self).spatial_index.query_spec(sel_box));
                forall|i: int|
                    0 <= i < base.len() ==> {
                        let hit = hits.contains(#[trigger] base[i].id);
                        &&& (hit && crossing) ==> final(self).history@[i].is_selected
                        &&& final(self).history@[i].is_selected ==> base[i].is_selected || hit
                        &&& (hit && !crossing && !base[i].is_selected) ==> exists|b: BoundingBox<C>|
                            #[trigger] gives_box(*bounds_of, base[i].data, b)
                                && final(self).history@[i].is_selected == b.lies_within(sel_box)
                    }
            },
            final(self).id_counter == old(self).id_counter,
            final(self).active_tool == old(self).active_tool,
            final(self).last_update_time == old(self).last_update_time,
            final(self).show_array_ui == old(self).show_array_ui,
            final(self).hovered_id == old(self).hovered_id,
            final(self).move_snapshot == old(self).move_snapshot,
    {
        let sel_box = BoundingBox::from_points(x1, y1, x2, y2);
        if !add_to_selection {
            self.clear_selection();
        }
        let ghost base = self.history@;
        let mut hits = Vec::new();
        self.spatial_index.query(&sel_box, &mut hits);
        let ids = hit_ids(&hits);
        proof {
            assert(derefs(Seq::<&DrawingElement<D>>::empty()) =~= Seq::<DrawingElement<D>>::empty());
            if coords_obey::<C>() {
                assert(derefs(hits@) =~= old(self).spatial_index.query_spec(sel_box));
            }
        }
        let n = self.history.len();
        let mut i: usize = 0;
        while i < n
            invariant
                0 <= i <= n,
                n == base.len(),
                self.history@.len() == n,
                base == selection_base(old(self).history@, add_to_selection),
                coords_obey::<C>() ==> ids@ == ids_of(old(self).spatial_index.query_spec(sel_box)),
                coords_obey::<C>() ==> sel_box == BoundingBox::spanned(x1, y1, x2, y2),
                accepts_all::<D, BoundingBox<C>, F>(*bounds_of),
                forall|j: int| i <= j < n ==> #[trigger] self.history@[j] == base[j],
                forall|j: int|
                    0 <= j < i ==> {
                        let hit = ids@.contains(#[trigger] base[j].id);
                        &&& self.history@[j].id == base[j].id
                        &&& self.history@[j].data == base[j].data
                        &&& base[j].is_selected ==> self.history@[j].is_selected
                        &&& self.history@[j].is_selected ==> base[j].is_selected || hit
                        &&& (hit && crossing) ==> self.history@[j].is_selected
                        &&& (hit && !crossing && !base[j].is_selected) ==> exists|b: BoundingBox<C>|
                            #[trigger] gives_box(*bounds_of, base[j].data, b) && (coords_obey::<C>() ==> self.history@[j].is_selected == b.lies_within(sel_box))
                    },
                self.spatial_index == old(self).spatial_index,
                self.id_counter == old(self).id_counter,
                self.active_tool == old(self).active_tool,
                self.last_update_time == old(self).last_update_time,
                self.show_array_ui == old(self).show_array_ui,
                self.hovered_id == old(self).hovered_id,
                self.move_snapshot == old(self).move_snapshot,
            decreases n - i,
        {
            let mut el = self.history[i];
            let ghost prev = self.history@;
            if has_id(&ids, el.id) {
                if crossing {
                    el.is_selected = true;
                    self.history.set(i, el);
                } else {
                    assert(call_requires(*bounds_of, (&el.data,)));
                    let bb = bounds_of(&el.data);
                    let inside = bb.is_within(&sel_box);
                    if inside {
                        el.is_selected = true;
                        self.history.set(i, el);
                    }
                    proof {
                        assert(call_ensures(*bounds_of, (&base[i as int].data,), bb));
                        if !base[i as int].is_selected {
                            assert(self.history@[i as int].is_selected == inside);
                            assert(coords_obey::<C>() ==> self.history@[i as int].is_selected == bb.lies_within(sel_box));
                            assert(gives_box(*bounds_of, base[i as int].data, bb));
                        }
                    }
                }
            }
            proof {
                assert forall|j: int| 0 <= j < i implies #[trigger] self.history@[j] == prev[j] by {}
            }
            i = i + 1;
        }
        proof {
            assert forall|j: int| 0 <= j < base.len() implies #[trigger] base[j].id == self.history@[j].id
                && base[j].data == self.history@[j].data && (base[j].is_selected ==> self.history@[j].is_selected) by {
            }
            assert(same_shapes(base, self.history@));
            assert forall|j: int| 0 <= j < base.len() && (#[trigger] base[j]).is_selected implies self.history@[j].is_selected by {
                assert(base[j].id == self.history@[j].id);
            }
            assert(only_selects_more(base, self.history@));
        }
        self.rebuild_index(bounds_of);
    }

    /// Moves by `shift` every element whose identifier is that of a selected
    /// element, then rebuilds the index.
    pub fn move_selected<G: Fn(&D) -> D, F: Fn(&D) -> BoundingBox<C>>(
        &mut self,
        shift: &G,
        bounds_of: &F,
    )
        requires
            accepts_all::<D, D, G>(*shift),
            accepts_all::<D, BoundingBox<C>, F>(*bounds_of),
        ensures
            final(self).wf(),
            final(self).indexed_with(*bounds_of),
            final(self).history@.len() == old(self).history@.len(),
            forall|i: int|
                0 <= i < old(self).history@.len() ==> {
                    let e = #[trigger] old(self).history@[i];
                    &&& final(self).history@[i].id == e.id
                    &&& final(self).history@[i].is_selected == e.is_selected
                    &&& if id_selected(old(self).history@, e.id) {
                        call_ensures(*shift, (&e.data,), final(self).history@[i].data)
                    } else {
                        final(self).history@[i].data == e.data
                    }
                },
            final(self).id_counter == old(self).id_counter,
            final(self).active_tool == old(self).active_tool,
            final(self).last_update_time == old(self).last_update_time,
            final(self).show_array_ui == old(self).show_array_ui,
            final(self).hovered_id == old(self).hovered_id,
            final(self).move_snapshot == old(self).move_snapshot,
    {
        let ghost h = self.history@;
        let selected = collect_selected_ids(&self.history);
        let n = self.history.len();
        let mut i: usize = 0;
        while i < n
            invariant
                0 <= i <= n,
                n == h.len(),
                self.history@.len() == n,
                selected@ == selected_ids(h),
                accepts_all::<D, D, G>(*shift),
                accepts_all::<D, BoundingBox<C>, F>(*bounds_of),
                forall|j: int| i <= j < n ==> #[trigger] self.history@[j] == h[j],
                forall|j: int|
                    0 <= j < i ==> {
                        let e = #[trigger] h[j];
                        &&& self.history@[j].id == e.id
                        &&& self.history@[j].is_selected == e.is_selected
                        &&& if id_selected(h, e.id) {
                            call_ensures(*shift, (&e.data,), self.history@[j].data)
                        } else {
                            self.history@[j].data == e.data
                        }
                    },
                self.spatial_index == old(self).spatial_index,
                self.id_counter == old(self).id_counter,
                self.active_tool == old(self).active_tool,
                self.last_update_time == old(self).last_update_time,
                self.show_array_ui == old(self).show_array_ui,
                self.hovered_id == old(self).hovered_id,
                self.move_snapshot == old(self).move_snapshot,
            decreases n - i,
        {
            let mut el = self.history[i];
            proof {
                lemma_selected_ids_contains(h, el.id);
            }
            if has_id(&selected, el.id) {
                assert(call_requires(*shift, (&el.data,)));
                el.data = shift(&el.data);
                self.history.set(i, el);
            }
            i = i + 1;
        }
        self.rebuild_index(bounds_of);
    }

    /// Copies the selected elements into an array of `rows` by `cols` cells, row
    /// by row, skipping the origin cell that holds the originals. For each cell,
    /// the first element carrying each selected identifier is copied under a fresh
    /// identifier, deselected, with its shape moved by `shift` for the cell's row
    /// and column; the copies are then added in that order. Gives the identifiers
    /// of the copies, in the order they appear.
    pub fn apply_array_grid<S: Fn(&D, i32, i32) -> D, F: Fn(&D) -> BoundingBox<C>>(
        &mut self,
        rows: i32,
        cols: i32,
        shift: &S,
        bounds_of: &F,
    ) -> (r: Vec<u64>)
        requires
            old(self).wf(),
            accepts_all_cells::<D, S>(*shift),
            accepts_all::<D, BoundingBox<C>, F>(*bounds_of),
            old(self).id_counter + array_plan(old(self).history@, rows, cols).len() <= u64::MAX,
        ensures
            ({
                let plan = array_plan(old(self).history@, rows, cols);
                let n0 = old(self).history@.len();
                let k0 = old(self).id_counter;
                &&& final(self).wf()
                &&& r@.len() == plan.len()
                &&& forall|k: int| 0 <= k < plan.len() ==> #[trigger] r@[k] == k0 + 1 + k
                &&& final(self).id_counter == k0 + plan.len()
                &&& final(self).history@.len() == n0 + plan.len()
                &&& final(self).history@.subrange(0, n0 as int) == old(self).history@
                &&& forall|k: int|
                    0 <= k < plan.len() ==> is_array_copy(
                        old(self).history@,
                        #[trigger] plan[k],
                        (k0 + 1 + k) as u64,
                        *shift,
                        final(self).history@[n0 + k],
                    )
                &&& final(self).spatial_index@.subrange(0, n0 as int) == old(self).spatial_index@
                &&& forall|k: int|
                    n0 <= k < final(self).history@.len() ==> #[trigger] gives_box(
                        *bounds_of,
                        final(self).history@[k].data,
                        final(self).spatial_index@[k].0,
                    )
            }),
            final(self).spatial_index.max_children_spec()
                == old(self).spatial_index.max_children_spec(),
            final(self).active_tool == old(self).active_tool,
            final(self).last_update_time == old(self).last_update_time,
            final(self).show_array_ui == old(self).show_array_ui,
            final(self).hovered_id == old(self).hovered_id,
            final(self).move_snapshot == old(self).move_snapshot,
    {
        let ghost h = self.history@;
        let ghost k0 = self.id_counter;
        let selected = collect_selected_ids(&self.history);
        let plan = plan_cells(rows, cols, &selected);
        proof {
            lemma_copy_plan_items(grid_cells(rows, cols), selected@);
        }
        let mut new_elements: Vec<DrawingElement<D>> = Vec::new();
        let m = plan.len();
        let mut k: usize = 0;
        while k < m
            invariant
                0 <= k <= m,
                m == plan@.len(),
                plan@ == array_plan(h, rows, cols),
                selected@ == selected_ids(h),
                forall|q: int| 0 <= q < m ==> selected@.contains((#[trigger] plan@[q]).2),
                self.history@ == h,
                self.wf(),
                self.id_counter == k0 + k,
                k0 + m <= u64::MAX,
                accepts_all_cells::<D, S>(*shift),
                new_elements@.len() == k,
                forall|q: int|
                    0 <= q < k ==> is_array_copy(
                        h,
                        #[trigger] plan@[q],
                        (k0 + 1 + q) as u64,
                        *shift,
                        new_elements@[q],
                    ),
                self.spatial_index == old(self).spatial_index,
                self.active_tool == old(self).active_tool,
                self.last_update_time == old(self).last_update_time,
                self.show_array_ui == old(self).show_array_ui,
                self.hovered_id == old(self).hovered_id,
                self.move_snapshot == old(self).move_snapshot,
            decreases m - k,
        {
            let (r, c, id) = plan[k];
            proof {
                assert(selected@.contains(plan@[k as int].2));
                lemma_selected_ids_contains(h, id);
                lemma_first_index_range(h, id);
            }
            if let Some(pos) = find_first(&self.history, id) {
                let el = self.history[pos];
                let new_id = self.get_next_id();
                let moved = |d: &D| -> (o: D)
                    requires
                        call_requires(shift, (d, r, c)),
                    ensures
                        call_ensures(shift, (d, r, c), o),
                    { shift(d, r, c) };
                assert(call_requires(*shift, (&el.data, r, c)));
                let copy = el.cloned_with_offset(new_id, &moved);
                new_elements.push(copy);
            }
            k = k + 1;
        }
        let ghost n0 = h.len();
        let ghost idx0 = self.spatial_index@;
        let mut reveal_order: Vec<u64> = Vec::new();
        let mut i: usize = 0;
        while i < m
            invariant
                0 <= i <= m,
                m == new_elements@.len(),
                m == plan@.len(),
                plan@ == array_plan(h, rows, cols),
                self.wf(),
                self.id_counter == k0 + m,
                accepts_all::<D, BoundingBox<C>, F>(*bounds_of),
                n0 == h.len(),
                idx0.len() == n0,
                self.history@ == h + new_elements@.subrange(0, i as int),
                self.spatial_index@.len() == n0 + i,
                self.spatial_index@.subrange(0, n0 as int) == idx0,
                self.spatial_index.max_children_spec() == old(self).spatial_index.max_children_spec(),
                forall|q: int|
                    n0 <= q < n0 + i ==> #[trigger] gives_box(
                        *bounds_of,
                        self.history@[q].data,
                        self.spatial_index@[q].0,
                    ),
                reveal_order@.len() == i,
                forall|q: int| 0 <= q < i ==> #[trigger] reveal_order@[q] == new_elements@[q].id,
                self.active_tool == old(self).active_tool,
                self.last_update_time == old(self).last_update_time,
                self.show_array_ui == old(self).show_array_ui,
                self.hovered_id == old(self).hovered_id,
                self.move_snapshot == old(self).move_snapshot,
            decreases m - i,
        {
            let el = new_elements[i];
            reveal_order.push(el.id);
            let ghost before = self.spatial_index@;
            self.add_element(el, bounds_of);
            proof {
                assert(new_elements@.subrange(0, i + 1) =~= new_elements@.subrange(0, i as int).push(el));
                assert(self.spatial_index@.subrange(0, n0 as int) =~= before.subrange(0, n0 as int));
                assert(gives_box(*bounds_of, self.history@[n0 + i].data, self.spatial_index@[n0 + i].0));
            }
            i = i + 1;
        }
        proof {
            assert(new_elements@.subrange(0, m as int) =~= new_elements@);
            assert(self.history@.subrange(0, n0 as int) =~= h);
            assert forall|q: int| 0 <= q < m implies is_array_copy(
                h,
                #[trigger] plan@[q],
                (k0 + 1 + q) as u64,
                *shift,
                self.history@[n0 + q],
            ) by {
                assert(self.history@[n0 + q] == new_elements@[q]);
            }
            assert forall|q: int| 0 <= q < m implies #[trigger] reveal_order@[q] == k0 + 1 + q by {
                assert(is_array_copy(h, plan@[q], (k0 + 1 + q) as u64, *shift, new_elements@[q]));
            }
            assert(idx0 == old(self).spatial_index@);
            assert(self.history@.len() == n0 + m);
        }
        reveal_order
    }

    /// The copies an array preview shows: for each cell of `rows` by `cols` other
    /// than the origin, row by row, one entry per selected element (by its
    /// position in the history), in history order.
    pub fn array_preview_slots(&self, rows: i32, cols: i32) -> (r: Vec<(i32, i32, usize)>)
        ensures
            r@ == copy_plan(grid_cells(rows, cols), selected_positions(self.history@)),
    {
        let positions = collect_selected_positions(&self.history);
        plan_cells(rows, cols, &positions)
    }

    /// How many copies `apply_array_grid(rows, cols, ..)` would add: `rows * cols - 1`
    /// for each selected element when both are positive, none otherwise; `None`
    /// where that number does not fit in a `u64`.
    pub fn array_copy_count(&self, rows: i32, cols: i32) -> (r: Option<u64>)
        ensures
            match r {
                Some(k) => k == array_plan(self.history@, rows, cols).len(),
                None => array_plan(self.history@, rows, cols).len() > u64::MAX,
            },
    {
        proof {
            lemma_array_copy_count(self.history@, rows, cols);
        }
        if rows <= 0 || cols <= 0 {
            return Some(0);
        }
        let selected = collect_selected_ids(&self.history);
        let n: u64 = selected.len() as u64;
        let r64: u64 = rows as u64;
        let c64: u64 = cols as u64;
        assert(r64 * c64 <= 0x4000_0000_0000_0000u64) by (nonlinear_arith)
            requires
                0 < r64 <= 0x7fff_ffffu64,
                0 < c64 <= 0x7fff_ffffu64,
        ;
        assert(r64 * c64 >= 1) by (nonlinear_arith)
            requires
                0 < r64,
                0 < c64,
        ;
        let cells: u64 = r64 * c64 - 1;
        cells.checked_mul(n)
    }

    /// The hovered element is selected (a press there starts a move): some
    /// selected element carries the hovered identifier.
    pub fn hovered_is_selected(&self) -> (r: bool)
        ensures
            r == match self.hovered_id {
                Some(id) => id_selected(self.history@, id),
                None => false,
            },
    {
        match self.hovered_id {
            Some(id) => {
                let n = self.history.len();
                let mut i: usize = 0;
                while i < n
                    invariant
                        0 <= i <= n,
                        n == self.history@.len(),
                        self.hovered_id == Some(id),
                        forall|j: int| 0 <= j < i ==> !(#[trigger] self.history@[j].is_selected && self.history@[j].id == id),
                    decreases n - i,
                {
                    if self.history[i].id == id && self.history[i].is_selected {
                        proof {
                            assert(self.history@[i as int].is_selected && self.history@[i as int].id == id);
                            assert(id_selected(self.history@, id));
                        }
                        return true;
                    }
                    i = i + 1;
                }
                false
            },
            None => false,
        }
    }

    /// The position in the history of the first selected element, if any.
    pub fn first_selected(&self) -> (r: Option<usize>)
        ensures
            match r {
                Some(k) => k < self.history@.len() && self.history@[k as int].is_selected
                    && forall|j: int| 0 <= j < k ==> !(#[trigger] self.history@[j]).is_selected,
                None => forall|j: int| 0 <= j < self.history@.len() ==> !(#[trigger] self.history@[j]).is_selected,
            },
    {
        let n = self.history.len();
        let mut i: usize = 0;
        while i < n
            invariant
                0 <= i <= n,
                n == self.history@.len(),
                forall|j: int| 0 <= j < i ==> !(#[trigger] self.history@[j]).is_selected,
            decreases n - i,
        {
            if self.history[i].is_selected {
                return Some(i);
            }
            i = i + 1;
        }
        None
    }
}


/// The first-index of an extended sequence agrees with that of a prefix where
/// the prefix already holds the identifier.
proof fn lemma_first_index_prefix<D>(h: Seq<DrawingElement<D>>, k: int, id: u64)
    requires
        0 <= k <= h.len(),
    ensures
        first_index(h.subrange(0, k), id) >= 0 ==> first_index(h, id) == first_index(h.subrange(0, k), id),
        first_index(h.subrange(0, k), id) < 0 ==> (first_index(h, id) < 0 || first_index(h, id) >= k),
        -1 <= first_index(h, id) < h.len(),
        first_index(h, id) >= 0 ==> h[first_index(h, id)].id == id,
    decreases h.len() - k,
{
    if k < h.len() {
        lemma_first_index_prefix(h, k + 1, id);
        assert(h.subrange(0, k + 1).drop_last() =~= h.subrange(0, k));
    } else {
        assert(h.subrange(0, k) =~= h);
    }
    lemma_first_index_range(h, id);
}

proof fn lemma_first_index_range<D>(h: Seq<DrawingElement<D>>, id: u64)
    ensures
        -1 <= first_index(h, id) < h.len(),
        first_index(h, id) >= 0 ==> h[first_index(h, id)].id == id,
        first_index(h, id) < 0 ==> forall|j: int| 0 <= j < h.len() ==> (#[trigger] h[j]).id != id,
        first_index(h, id) >= 0 ==> forall|j: int| 0 <= j < first_index(h, id) ==> (#[trigger] h[j]).id != id,
    decreases h.len(),
{
    if h.len() > 0 {
        lemma_first_index_range(h.drop_last(), id);
        assert forall|j: int| 0 <= j < h.len() - 1 implies h[j] == h.drop_last()[j] by {}
    }
}

/// The selected identifiers are exactly the identifiers of selected elements.
proof fn lemma_selected_ids_contains<D>(h: Seq<DrawingElement<D>>, id: u64)
    ensures
        selected_ids(h).contains(id) <==> id_selected(h, id),
    decreases h.len(),
{
    if h.len() > 0 {
        let front = h.drop_last();
        lemma_selected_ids_contains(front, id);
        if id_selected(front, id) {
            let j = choose|j: int| 0 <= j < front.len() && #[trigger] front[j].is_selected && front[j].id == id;
            assert(h[j] == front[j]);
        }
        if id_selected(h, id) {
            let j = choose|j: int| 0 <= j < h.len() && #[trigger] h[j].is_selected && h[j].id == id;
            if j < h.len() - 1 {
                assert(front[j] == h[j]);
            }
        }
        if h.last().is_selected {
            assert(selected_ids(h) == selected_ids(front).push(h.last().id));
            if selected_ids(h).contains(id) && !selected_ids(front).contains(id) {
                let k = choose|k: int| 0 <= k < selected_ids(h).len() && selected_ids(h)[k] == id;
                assert(k == selected_ids(front).len());
                assert(h[h.len() - 1].is_selected && h[h.len() - 1].id == id);
            }
            if selected_ids(front).contains(id) {
                let k = choose|k: int| 0 <= k < selected_ids(front).len() && selected_ids(front)[k] == id;
                assert(selected_ids(h)[k] == id);
            }
            if h.last().id == id {
                assert(selected_ids(h)[selected_ids(front).len() as int] == id);
            }
        }
    }
}

/// The identifiers of the selected elements of `v`, in order.
fn collect_selected_ids<D: Copy>(v: &Vec<DrawingElement<D>>) -> (r: Vec<u64>)
    ensures
        r@ == selected_ids(v@),
{
    let mut r = Vec::new();
    let n = v.len();
    let mut i: usize = 0;
    while i < n
        invariant
            0 <= i <= n,
            n == v@.len(),
            r@ == selected_ids(v@.subrange(0, i as int)),
        decreases n - i,
    {
        proof {
            assert(v@.subrange(0, i + 1).drop_last() =~= v@.subrange(0, i as int));
        }
        if v[i].is_selected {
            r.push(v[i].id);
        }
        i = i + 1;
    }
    proof {
        assert(v@.subrange(0, n as int) =~= v@);
    }
    r
}

/// `id` occurs in `ids`.
fn has_id(ids: &Vec<u64>, id: u64) -> (r: bool)
    ensures
        r == ids@.contains(id),
{
    let n = ids.len();
    let mut i: usize = 0;
    while i < n
        invariant
            0 <= i <= n,
            n == ids@.len(),
            forall|j: int| 0 <= j < i ==> ids@[j] != id,
        decreases n - i,
    {
        if ids[i] == id {
            return true;
        }
        i = i + 1;
    }
    false
}

/// The identifiers of the elements `hits` points to, in order.
fn hit_ids<D: Copy>(hits: &Vec<&DrawingElement<D>>) -> (r: Vec<u64>)
    ensures
        r@ == ids_of(derefs(hits@)),
{
    let mut r = Vec::new();
    let n = hits.len();
    let mut i: usize = 0;
    while i < n
        invariant
            0 <= i <= n,
            n == hits@.len(),
            r@ == ids_of(derefs(hits@)).subrange(0, i as int),
        decreases n - i,
    {
        r.push(hits[i].id);
        proof {
            assert(r@ =~= ids_of(derefs(hits@)).subrange(0, i + 1));
        }
        i = i + 1;
    }
    proof {
        assert(ids_of(derefs(hits@)).subrange(0, n as int) =~= ids_of(derefs(hits@)));
    }
    r
}


proof fn lemma_copy_plan_append<X>(a: Seq<(i32, i32)>, b: Seq<(i32, i32)>, items: Seq<X>)
    ensures
        copy_plan(a + b, items) == copy_plan(a, items) + copy_plan(b, items),
    decreases b.len(),
{
    if b.len() == 0 {
        assert(a + b =~= a);
        assert(copy_plan(b, items) =~= Seq::<(i32, i32, X)>::empty());
    } else {
        lemma_copy_plan_append(a, b.drop_last(), items);
        assert((a + b).drop_last() =~= a + b.drop_last());
        assert((a + b).last() == b.last());
    }
}

proof fn lemma_row_take_step(r: i32, cols: i32, c: int)
    requires
        0 <= c < cols,
    ensures
        row_cells(r, cols).take(c + 1) == row_cells(r, cols).take(c).push((r, c as i32)),
        row_cells(r, cols).take(cols as int) == row_cells(r, cols),
{
    assert(row_cells(r, cols).take(c + 1) =~= row_cells(r, cols).take(c).push((r, c as i32)));
    assert(row_cells(r, cols).take(cols as int) =~= row_cells(r, cols));
}

/// The plan of the cells of a whole grid, built row by row and cell by cell.
fn plan_cells<X: Copy>(rows: i32, cols: i32, items: &Vec<X>) -> (r: Vec<(i32, i32, X)>)
    ensures
        r@ == copy_plan(grid_cells(rows, cols), items@),
{
    let mut plan: Vec<(i32, i32, X)> = Vec::new();
    let mut r: i32 = 0;
    while r < rows
        invariant
            0 <= r,
            rows <= 0 ==> r == 0,
            rows > 0 ==> r <= rows,
            plan@ == copy_plan(rows_between(0, r as int, cols), items@),
        decreases rows - r,
    {
        let mut c: i32 = 0;
        while c < cols
            invariant
                0 <= r < rows,
                0 <= c,
                cols <= 0 ==> c == 0,
                cols > 0 ==> c <= cols,
                plan@ == copy_plan(rows_between(0, r as int, cols) + row_cells(r, cols).take(c as int), items@),
            decreases cols - c,
        {
            let ghost done = rows_between(0, r as int, cols) + row_cells(r, cols).take(c as int);
            proof {
                lemma_row_take_step(r, cols, c as int);
                assert(rows_between(0, r as int, cols) + row_cells(r, cols).take(c + 1) =~= done.push((r, c)));
                assert(done.push((r, c)).drop_last() =~= done);
            }
            if !(r == 0 && c == 0) {
                let n = items.len();
                let mut j: usize = 0;
                let ghost start = plan@;
                while j < n
                    invariant
                        0 <= j <= n,
                        n == items@.len(),
                        !(r == 0 && c == 0),
                        plan@ == start + cell_copies((r, c), items@).take(j as int),
                    decreases n - j,
                {
                    plan.push((r, c, items[j]));
                    proof {
                        assert(cell_copies((r, c), items@).take(j + 1) =~= cell_copies((r, c), items@).take(j as int).push((r, c, items@[j as int])));
                    }
                    j = j + 1;
                }
                proof {
                    assert(cell_copies((r, c), items@).take(n as int) =~= cell_copies((r, c), items@));
                }
            } else {
                proof {
                    assert(cell_copies((r, c), items@) =~= Seq::<(i32, i32, X)>::empty());
                    assert(plan@ =~= plan@ + cell_copies((r, c), items@));
                }
            }
            c = c + 1;
        }
        proof {
            if cols > 0 {
                lemma_row_take_step(r, cols, 0);
            } else {
                assert(row_cells(r, cols).take(c as int) =~= row_cells(r, cols));
            }
            assert(rows_between(0, r + 1, cols) == rows_between(0, r as int, cols) + row_cells(r, cols));
        }
        r = r + 1;
    }
    proof {
        if rows <= 0 {
            assert(rows_between(0, rows as int, cols) =~= Seq::<(i32, i32)>::empty());
            assert(rows_between(0, 0, cols) =~= Seq::<(i32, i32)>::empty());
        }
    }
    plan
}

/// The positions of the selected elements of `v`, in order.
fn collect_selected_positions<D: Copy>(v: &Vec<DrawingElement<D>>) -> (r: Vec<usize>)
    ensures
        r@ == selected_positions(v@),
{
    let mut r = Vec::new();
    let n = v.len();
    let mut i: usize = 0;
    while i < n
        invariant
            0 <= i <= n,
            n == v@.len(),
            r@ == selected_positions(v@.subrange(0, i as int)),
        decreases n - i,
    {
        proof {
            assert(v@.subrange(0, i + 1).drop_last() =~= v@.subrange(0, i as int));
        }
        if v[i].is_selected {
            r.push(i);
        }
        i = i + 1;
    }
    proof {
        assert(v@.subrange(0, n as int) =~= v@);
    }
    r
}


proof fn lemma_copy_plan_items<X>(cells: Seq<(i32, i32)>, items: Seq<X>)
    ensures
        forall|k: int|
            0 <= k < copy_plan(cells, items).len() ==> items.contains(
                (#[trigger] copy_plan(cells, items)[k]).2,
            ),
    decreases cells.len(),
{
    if cells.len() > 0 {
        lemma_copy_plan_items(cells.drop_last(), items);
        let front = copy_plan(cells.drop_last(), items);
        let last = cell_copies(cells.last(), items);
        assert forall|k: int| 0 <= k < copy_plan(cells, items).len() implies items.contains(
            (#[trigger] copy_plan(cells, items)[k]).2,
        ) by {
            if k < front.len() {
                assert(copy_plan(cells, items)[k] == front[k]);
            } else {
                assert(copy_plan(cells, items)[k] == last[k - front.len()]);
                assert(items[k - front.len()] == copy_plan(cells, items)[k].2);
            }
        }
    }
}

/// The position of the first element of `v` carrying `id`, if any.
fn find_first<D: Copy>(v: &Vec<DrawingElement<D>>, id: u64) -> (r: Option<usize>)
    ensures
        match r {
            Some(k) => k == first_index(v@, id),
            None => first_index(v@, id) < 0,
        },
{
    let ghost h = v@;
    let n = v.len();
    let mut i: usize = 0;
    while i < n
        invariant
            0 <= i <= n,
            n == h.len(),
            h == v@,
            first_index(h.subrange(0, i as int), id) < 0,
        decreases n - i,
    {
        proof {
            assert(h.subrange(0, i + 1).drop_last() =~= h.subrange(0, i as int));
        }
        if v[i].id == id {
            proof {
                assert(first_index(h.subrange(0, i + 1), id) == i);
                lemma_first_index_prefix(h, i + 1, id);
            }
            return Some(i);
        }
        i = i + 1;
    }
    proof {
        assert(h.subrange(0, n as int) =~= h);
    }
    None
}


// ---------------------------------------------------------------------------
// Laws of the editing model
// ---------------------------------------------------------------------------

/// Law: undoing right after saving the history for a move gives back the saved
/// history, whatever the history became in between.
pub proof fn lemma_undo_restores_saved<D>(saved: Seq<DrawingElement<D>>, current: Seq<DrawingElement<D>>)
    ensures
        undone(current, Some(saved)) == saved,
{
}

/// Law: once the history `h` is saved for undo, undoing gives back `h` in every
/// later state that still holds that saved copy, whatever its history became
/// (each editing method other than saving and undoing keeps the saved copy).
pub proof fn lemma_undo_after_snapshot<D, C: PartialOrd>(h: Seq<DrawingElement<D>>, e: Engine<D, C>)
    requires
        e.move_snapshot matches Some(s) && s@ == h,
    ensures
        undone(e.history@, saved_history(e.move_snapshot)) == h,
{
}

/// Law: with nothing saved, undoing after adding an element removes exactly that element.
pub proof fn lemma_undo_removes_added<D>(h: Seq<DrawingElement<D>>, e: DrawingElement<D>)
    ensures
        undone(h.push(e), None) == h,
{
    assert(h.push(e).drop_last() =~= h);
}

/// Law: selecting by identifier raises the selection flag of the first element
/// that carries the identifier and of no other element; identifiers, shapes and
/// all other flags are kept, and a flag already raised stays raised. So the
/// identifier is selected afterwards whenever some element carries it, and
/// nothing changes when none does.
pub proof fn lemma_select_by_id<D>(h: Seq<DrawingElement<D>>, id: u64)
    ensures
        same_shapes(h, mark_first(h, id)),
        forall|i: int|
            0 <= i < h.len() ==> (#[trigger] mark_first(h, id)[i]).is_selected == (h[i].is_selected || (
            h[i].id == id && forall|j: int| 0 <= j < i ==> (#[trigger] h[j]).id != id)),
        (exists|j: int| 0 <= j < h.len() && (#[trigger] h[j]).id == id) ==> id_selected(mark_first(h, id), id),
        (forall|j: int| 0 <= j < h.len() ==> (#[trigger] h[j]).id != id) ==> mark_first(h, id) == h,
{
    lemma_first_index_range(h, id);
    let k = first_index(h, id);
    let m = mark_first(h, id);
    if k >= 0 {
        assert forall|i: int| 0 <= i < h.len() implies (#[trigger] m[i]).is_selected == (h[i].is_selected || (
        h[i].id == id && forall|j: int| 0 <= j < i ==> (#[trigger] h[j]).id != id)) by {
            if i > k {
                assert(h[k].id == id);
            }
        }
        assert(m[k].is_selected && m[k].id == id);
    } else {
        assert forall|i: int| 0 <= i < h.len() implies (#[trigger] m[i]).is_selected == (h[i].is_selected || (
        h[i].id == id && forall|j: int| 0 <= j < i ==> (#[trigger] h[j]).id != id)) by {
            assert(h[i].id != id);
        }
    }
    if exists|j: int| 0 <= j < h.len() && (#[trigger] h[j]).id == id {
        let j = choose|j: int| 0 <= j < h.len() && (#[trigger] h[j]).id == id;
        assert(h[j].id == id);
    }
}

/// Law: after deselecting all, no element is selected and identifiers and shapes
/// are kept.
pub proof fn lemma_deselected_selects_nothing<D>(h: Seq<DrawingElement<D>>)
    ensures
        forall|i: int| 0 <= i < h.len() ==> !(#[trigger] deselected(h)[i]).is_selected,
        same_shapes(h, deselected(h)),
        selected_ids(deselected(h)) == Seq::<u64>::empty(),
{
    lemma_no_selected_ids(deselected(h));
}

proof fn lemma_no_selected_ids<D>(h: Seq<DrawingElement<D>>)
    requires
        forall|i: int| 0 <= i < h.len() ==> !(#[trigger] h[i]).is_selected,
    ensures
        selected_ids(h) == Seq::<u64>::empty(),
    decreases h.len(),
{
    if h.len() > 0 {
        assert forall|i: int| 0 <= i < h.drop_last().len() implies !(#[trigger] h.drop_last()[i]).is_selected by {
            assert(h.drop_last()[i] == h[i]);
        }
        lemma_no_selected_ids(h.drop_last());
    }
}

proof fn lemma_row_plan_len<X>(r: i32, cols: i32, items: Seq<X>)
    ensures
        copy_plan(row_cells(r, cols), items).len() == if cols <= 0 {
            0
        } else if r == 0 {
            (cols - 1) * items.len()
        } else {
            cols * items.len()
        },
    decreases if cols > 0 { cols } else { 0 },
{
    if cols > 0 {
        lemma_row_plan_len(r, (cols - 1) as i32, items);
        assert(row_cells(r, cols).drop_last() =~= row_cells(r, (cols - 1) as i32));
        assert(row_cells(r, cols).last() == (r, (cols - 1) as i32));
        if r == 0 && cols - 1 == 0 {
            assert(cell_copies((r, (cols - 1) as i32), items).len() == 0);
        } else {
            assert(cell_copies((r, (cols - 1) as i32), items).len() == items.len());
        }
        if r == 0 {
            if cols >= 2 {
                assert((cols - 1) * items.len() == (cols - 2) * items.len() + items.len()) by (nonlinear_arith);
            } else {
                assert((cols - 1) * items.len() == 0) by (nonlinear_arith)
                    requires cols == 1;
            }
        } else {
            assert(cols * items.len() == (cols - 1) * items.len() + items.len()) by (nonlinear_arith);
        }
    }
}

proof fn lemma_rows_plan_len<X>(rows: int, cols: i32, items: Seq<X>)
    requires
        0 <= rows <= i32::MAX,
    ensures
        copy_plan(rows_between(0, rows, cols), items).len() == if rows > 0 && cols > 0 {
            (rows * cols - 1) * items.len()
        } else {
            0
        },
    decreases rows,
{
    if rows > 0 {
        lemma_rows_plan_len(rows - 1, cols, items);
        lemma_copy_plan_append(rows_between(0, rows - 1, cols), row_cells((rows - 1) as i32, cols), items);
        lemma_row_plan_len((rows - 1) as i32, cols, items);
        if cols > 0 {
            if rows - 1 > 0 {
                assert((rows * cols - 1) * items.len() == ((rows - 1) * cols - 1) * items.len() + cols * items.len()) by (nonlinear_arith);
            } else {
                assert(rows == 1);
                assert((rows * cols - 1) * items.len() == (cols - 1) * items.len()) by (nonlinear_arith)
                    requires rows == 1;
            }
        }
    }
}

/// Law: an array of `rows` by `cols` makes `rows * cols - 1` copies of each
/// selected element when both are positive, and none otherwise.
pub proof fn lemma_array_copy_count<D>(h: Seq<DrawingElement<D>>, rows: i32, cols: i32)
    ensures
        array_plan(h, rows, cols).len() == if rows > 0 && cols > 0 {
            (rows * cols - 1) * selected_ids(h).len()
        } else {
            0
        },
{
    if rows > 0 {
        lemma_rows_plan_len(rows as int, cols, selected_ids(h));
    } else {
        assert(rows_between(0, rows as int, cols) =~= Seq::<(i32, i32)>::empty());
    }
}

/// A copy of a sequence of elements.
fn copy_elements<D: Copy>(v: &Vec<DrawingElement<D>>) -> (r: Vec<DrawingElement<D>>)
    ensures
        r@ == v@,
{
    let mut r = Vec::new();
    let n = v.len();
    let mut i: usize = 0;
    while i < n
        invariant
            0 <= i <= n,
            n == v@.len(),
            r@ == v@.subrange(0, i as int),
        decreases n - i,
    {
        r.push(v[i]);
        proof {
            assert(r@ =~= v@.subrange(0, i + 1));
        }
        i = i + 1;
    }
    proof {
        assert(v@.subrange(0, n as int) =~= v@);
    }
    r
}

} // verus!
