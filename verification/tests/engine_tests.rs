use drafting::engine::{DrawingElement, Engine, INDEX_MAX_CHILDREN};
use drafting::geometry::BoundingBox;
use drafting::tool::ToolMode;

#[derive(Debug, Clone, Copy, PartialEq)]
struct Seg {
    x1: i64,
    y1: i64,
    x2: i64,
    y2: i64,
}

fn seg(x1: i64, y1: i64, x2: i64, y2: i64) -> Seg {
    Seg { x1, y1, x2, y2 }
}

fn bounds_of(d: &Seg) -> BoundingBox<i64> {
    BoundingBox::from_points(d.x1, d.y1, d.x2, d.y2)
}

fn bx(x1: i64, y1: i64, x2: i64, y2: i64) -> BoundingBox<i64> {
    BoundingBox::from_points(x1, y1, x2, y2)
}

fn draw(e: &mut Engine<Seg, i64>, s: Seg) -> u64 {
    let id = e.get_next_id();
    e.add_element(DrawingElement { id, is_selected: false, data: s }, &bounds_of);
    id
}

fn selected_ids(e: &Engine<Seg, i64>) -> Vec<u64> {
    e.history.iter().filter(|el| el.is_selected).map(|el| el.id).collect()
}

fn index_ids(e: &Engine<Seg, i64>) -> Vec<u64> {
    e.get_all_elements().iter().map(|el| el.id).collect()
}

fn history_ids(e: &Engine<Seg, i64>) -> Vec<u64> {
    e.history.iter().map(|el| el.id).collect()
}

/// Three horizontal segments stacked at y = 0, 10, 20, plus one crossing them.
fn sample() -> Engine<Seg, i64> {
    let mut e = Engine::new();
    draw(&mut e, seg(0, 0, 10, 0));
    draw(&mut e, seg(0, 10, 10, 10));
    draw(&mut e, seg(0, 20, 10, 20));
    draw(&mut e, seg(5, -5, 5, 25));
    e
}

#[test]
fn new_engine_defaults() {
    let e: Engine<Seg, i64> = Engine::new();
    assert!(e.history.is_empty());
    assert_eq!(e.active_tool, ToolMode::Line);
    assert_eq!(e.id_counter, 0);
    assert!(e.last_update_time.is_none());
    assert!(!e.show_array_ui);
    assert!(e.hovered_id.is_none());
    assert!(e.move_snapshot.is_none());
    assert!(e.get_elements_bounds().is_none());
    assert_eq!(INDEX_MAX_CHILDREN, 8);
}

#[test]
fn next_id_counts_up_from_one() {
    let mut e: Engine<Seg, i64> = Engine::new();
    assert_eq!(e.get_next_id(), 1);
    assert_eq!(e.get_next_id(), 2);
    assert_eq!(e.get_next_id(), 3);
    assert_eq!(e.id_counter, 3);
}

#[test]
fn add_element_records_and_indexes() {
    let e = sample();
    assert_eq!(history_ids(&e), vec![1, 2, 3, 4]);
    assert_eq!(index_ids(&e), vec![1, 2, 3, 4]);
    let b = e.get_elements_bounds().unwrap();
    assert_eq!((b.min_x, b.min_y, b.max_x, b.max_y), (0, -5, 10, 25));
}

#[test]
fn visible_elements_are_those_overlapping_the_viewport() {
    let e = sample();
    let vis: Vec<u64> = e.get_visible_elements(bx(-1, 8, 11, 12)).iter().map(|el| el.id).collect();
    assert_eq!(vis, vec![2, 4]);
    let none: Vec<u64> = e.get_visible_elements(bx(100, 100, 200, 200)).iter().map(|el| el.id).collect();
    assert!(none.is_empty());
}

#[test]
fn click_selects_last_drawn_element_under_cursor() {
    let mut e = sample();
    e.select_at(bx(4, 9, 6, 11), false, &bounds_of);
    assert_eq!(selected_ids(&e), vec![4]);
    e.select_at(bx(0, 19, 1, 21), false, &bounds_of);
    assert_eq!(selected_ids(&e), vec![3]);
    assert_eq!(index_ids(&e), vec![1, 2, 3, 4]);
    let idx_sel: Vec<u64> = e.get_all_elements().iter().filter(|el| el.is_selected).map(|el| el.id).collect();
    assert_eq!(idx_sel, vec![3]);
}

#[test]
fn click_with_shift_adds_to_selection() {
    let mut e = sample();
    e.select_at(bx(0, -1, 1, 1), false, &bounds_of);
    e.select_at(bx(0, 9, 1, 11), true, &bounds_of);
    assert_eq!(selected_ids(&e), vec![1, 2]);
}

#[test]
fn click_on_empty_space_clears_selection() {
    let mut e = sample();
    e.select_at(bx(0, -1, 1, 1), false, &bounds_of);
    e.select_at(bx(50, 50, 51, 51), false, &bounds_of);
    assert!(selected_ids(&e).is_empty());
    e.select_at(bx(0, -1, 1, 1), false, &bounds_of);
    e.select_at(bx(50, 50, 51, 51), true, &bounds_of);
    assert_eq!(selected_ids(&e), vec![1]);
}

#[test]
fn click_selects_first_element_with_the_hit_identifier() {
    let mut e: Engine<Seg, i64> = Engine::new();
    e.add_element(DrawingElement { id: 5, is_selected: false, data: seg(100, 100, 101, 101) }, &bounds_of);
    e.add_element(DrawingElement { id: 5, is_selected: false, data: seg(0, 0, 1, 1) }, &bounds_of);
    e.select_at(bx(0, 0, 1, 1), false, &bounds_of);
    assert!(e.history[0].is_selected);
    assert!(!e.history[1].is_selected);
}

#[test]
fn hover_marks_last_hit() {
    let mut e = sample();
    e.hover_at(bx(4, 19, 6, 21));
    assert_eq!(e.hovered_id, Some(4));
    e.hover_at(bx(0, 19, 1, 21));
    assert_eq!(e.hovered_id, Some(3));
    e.hover_at(bx(40, 40, 41, 41));
    assert_eq!(e.hovered_id, None);
}

#[test]
fn crossing_box_selects_everything_it_touches() {
    let mut e = sample();
    e.select_in_box(-1, 9, 6, 21, true, false, &bounds_of);
    assert_eq!(selected_ids(&e), vec![2, 3, 4]);
}

#[test]
fn window_box_selects_only_enclosed_elements() {
    let mut e = sample();
    e.select_in_box(-1, 9, 11, 21, false, false, &bounds_of);
    assert_eq!(selected_ids(&e), vec![2, 3]);
    e.select_in_box(11, 26, -1, -6, false, false, &bounds_of);
    assert_eq!(selected_ids(&e), vec![1, 2, 3, 4]);
}

#[test]
fn box_selection_without_shift_clears_first() {
    let mut e = sample();
    e.select_at(bx(0, -1, 1, 1), false, &bounds_of);
    e.select_in_box(-1, 19, 11, 21, false, false, &bounds_of);
    assert_eq!(selected_ids(&e), vec![3]);
    e.select_at(bx(0, -1, 1, 1), false, &bounds_of);
    e.select_in_box(-1, 19, 11, 21, false, true, &bounds_of);
    assert_eq!(selected_ids(&e), vec![1, 3]);
}

#[test]
fn deselect_all_clears_every_flag() {
    let mut e = sample();
    e.select_in_box(-1, -6, 11, 26, true, false, &bounds_of);
    assert_eq!(selected_ids(&e).len(), 4);
    e.deselect_all(&bounds_of);
    assert!(selected_ids(&e).is_empty());
    assert!(e.get_all_elements().iter().all(|el| !el.is_selected));
}

#[test]
fn first_selected_finds_earliest() {
    let mut e = sample();
    assert_eq!(e.first_selected(), None);
    e.select_in_box(-1, 9, 11, 21, true, false, &bounds_of);
    assert_eq!(e.first_selected(), Some(1));
}

#[test]
fn move_selected_shifts_selected_shapes_and_reindexes() {
    let mut e = sample();
    e.select_at(bx(0, 9, 1, 11), false, &bounds_of);
    let shift = |d: &Seg| seg(d.x1 + 100, d.y1 + 1, d.x2 + 100, d.y2 + 1);
    e.move_selected(&shift, &bounds_of);
    assert_eq!(e.history[1].data, seg(100, 11, 110, 11));
    assert_eq!(e.history[0].data, seg(0, 0, 10, 0));
    assert!(e.history[1].is_selected);
    let vis: Vec<u64> = e.get_visible_elements(bx(99, 10, 111, 12)).iter().map(|el| el.id).collect();
    assert_eq!(vis, vec![2]);
    let old: Vec<u64> = e.get_visible_elements(bx(-1, 9, 4, 11)).iter().map(|el| el.id).collect();
    assert!(old.is_empty());
}

#[test]
fn move_selected_moves_elements_sharing_a_selected_identifier() {
    let mut e: Engine<Seg, i64> = Engine::new();
    e.add_element(DrawingElement { id: 1, is_selected: true, data: seg(0, 0, 1, 1) }, &bounds_of);
    e.add_element(DrawingElement { id: 1, is_selected: false, data: seg(5, 5, 6, 6) }, &bounds_of);
    e.add_element(DrawingElement { id: 2, is_selected: false, data: seg(9, 9, 9, 9) }, &bounds_of);
    let shift = |d: &Seg| seg(d.x1 + 1, d.y1, d.x2 + 1, d.y2);
    e.move_selected(&shift, &bounds_of);
    assert_eq!(e.history[0].data, seg(1, 0, 2, 1));
    assert_eq!(e.history[1].data, seg(6, 5, 7, 6));
    assert_eq!(e.history[2].data, seg(9, 9, 9, 9));
}

#[test]
fn snapshot_then_undo_restores_history() {
    let mut e = sample();
    e.select_at(bx(0, 9, 1, 11), false, &bounds_of);
    let before: Vec<(u64, bool, Seg)> = e.history.iter().map(|el| (el.id, el.is_selected, el.data)).collect();
    e.snapshot_for_undo();
    let shift = |d: &Seg| seg(d.x1 + 7, d.y1, d.x2 + 7, d.y2);
    e.move_selected(&shift, &bounds_of);
    e.undo_last_action(&bounds_of);
    let after: Vec<(u64, bool, Seg)> = e.history.iter().map(|el| (el.id, el.is_selected, el.data)).collect();
    assert_eq!(after, before);
    assert!(e.move_snapshot.is_none());
    let vis: Vec<u64> = e.get_visible_elements(bx(0, 9, 1, 11)).iter().map(|el| el.id).collect();
    assert_eq!(vis, vec![2]);
}

#[test]
fn undo_without_snapshot_removes_last_element() {
    let mut e = sample();
    e.undo_last_action(&bounds_of);
    assert_eq!(history_ids(&e), vec![1, 2, 3]);
    assert_eq!(index_ids(&e), vec![1, 2, 3]);
    e.undo_last_action(&bounds_of);
    e.undo_last_action(&bounds_of);
    e.undo_last_action(&bounds_of);
    assert!(e.history.is_empty());
    e.undo_last_action(&bounds_of);
    assert!(e.history.is_empty());
    assert!(e.get_all_elements().is_empty());
}

#[test]
fn array_grid_copies_selection_with_fresh_consecutive_ids() {
    let mut e = sample();
    e.select_in_box(-1, -1, 11, 11, false, false, &bounds_of);
    assert_eq!(selected_ids(&e), vec![1, 2]);
    let shift = |d: &Seg, r: i32, c: i32| {
        let dx = c as i64 * 100;
        let dy = r as i64 * 50;
        seg(d.x1 + dx, d.y1 + dy, d.x2 + dx, d.y2 + dy)
    };
    let order = e.apply_array_grid(2, 3, &shift, &bounds_of);
    assert_eq!(order, vec![5, 6, 7, 8, 9, 10, 11, 12, 13, 14]);
    assert_eq!(e.id_counter, 14);
    assert_eq!(e.history.len(), 14);
    // row 0, col 1: copies of 1 and 2
    assert_eq!(e.history[4].data, seg(100, 0, 110, 0));
    assert_eq!(e.history[5].data, seg(100, 10, 110, 10));
    // row 1, col 0
    assert_eq!(e.history[8].data, seg(0, 50, 10, 50));
    // row 1, col 2, copy of 2
    assert_eq!(e.history[13].data, seg(200, 60, 210, 60));
    assert!(e.history[4..].iter().all(|el| !el.is_selected));
    assert_eq!(index_ids(&e), (1..=14).collect::<Vec<u64>>());
    let vis: Vec<u64> = e.get_visible_elements(bx(199, 59, 211, 61)).iter().map(|el| el.id).collect();
    assert_eq!(vis, vec![14]);
}

#[test]
fn array_grid_copy_count_is_cells_minus_one_times_selection() {
    for (rows, cols) in [(1, 1), (1, 4), (3, 1), (3, 3), (0, 5), (4, 0), (-2, 3)] {
        let mut e = sample();
        e.select_in_box(-1, -6, 11, 26, true, false, &bounds_of);
        let shift = |d: &Seg, _r: i32, _c: i32| *d;
        let order = e.apply_array_grid(rows, cols, &shift, &bounds_of);
        let cells = if rows > 0 && cols > 0 { rows * cols - 1 } else { 0 };
        assert_eq!(order.len() as i32, cells * 4);
        assert_eq!(e.history.len() as i32, 4 + cells * 4);
    }
}

#[test]
fn array_grid_with_nothing_selected_adds_nothing() {
    let mut e = sample();
    let shift = |d: &Seg, _r: i32, _c: i32| *d;
    let order = e.apply_array_grid(3, 3, &shift, &bounds_of);
    assert!(order.is_empty());
    assert_eq!(e.history.len(), 4);
    assert_eq!(e.id_counter, 4);
}

#[test]
fn array_preview_slots_list_cells_and_selected_positions() {
    let mut e = sample();
    e.select_in_box(-1, 9, 11, 21, false, false, &bounds_of);
    let slots = e.array_preview_slots(2, 2);
    assert_eq!(slots, vec![(0, 1, 1), (0, 1, 2), (1, 0, 1), (1, 0, 2), (1, 1, 1), (1, 1, 2)]);
    e.deselect_all(&bounds_of);
    assert!(e.array_preview_slots(2, 2).is_empty());
}

#[test]
fn clock_reports_elapsed_time_after_first_frame() {
    let mut e: Engine<Seg, i64> = Engine::new();
    assert_eq!(e.advance_clock(1_000), None);
    assert_eq!(e.last_update_time, Some(1_000));
    assert_eq!(e.advance_clock(101_000), Some(100_000));
    assert_eq!(e.advance_clock(101_000), Some(0));
    assert_eq!(e.last_update_time, Some(101_000));
}

#[test]
fn cloned_with_offset_copies_under_new_id_deselected() {
    let el = DrawingElement { id: 3, is_selected: true, data: seg(1, 2, 3, 4) };
    let shift = |d: &Seg| seg(d.x1 + 10, d.y1 + 20, d.x2 + 10, d.y2 + 20);
    let c = el.cloned_with_offset(42, &shift);
    assert_eq!(c.id, 42);
    assert!(!c.is_selected);
    assert_eq!(c.data, seg(11, 22, 13, 24));
}

#[test]
fn float_engine_selects_by_float_boxes() {
    let mut e: Engine<(f64, f64), f64> = Engine::new();
    let pb = |d: &(f64, f64)| BoundingBox::from_points(d.0 - 0.5, d.1 - 0.5, d.0 + 0.5, d.1 + 0.5);
    for (i, p) in [(0.0, 0.0), (2.0, 2.0), (2.2, 2.1)].iter().enumerate() {
        e.add_element(DrawingElement { id: i as u64 + 1, is_selected: false, data: *p }, &pb);
    }
    e.select_at(BoundingBox::from_points(1.9, 1.9, 2.0, 2.0), false, &pb);
    let sel: Vec<u64> = e.history.iter().filter(|el| el.is_selected).map(|el| el.id).collect();
    assert_eq!(sel, vec![3]);
}

#[test]
fn hovered_is_selected_follows_hover_and_selection() {
    let mut e = sample();
    assert!(!e.hovered_is_selected());
    e.hover_at(bx(0, 9, 1, 11));
    assert!(!e.hovered_is_selected());
    e.select_at(bx(0, 9, 1, 11), false, &bounds_of);
    assert!(e.hovered_is_selected());
    e.hover_at(bx(0, 19, 1, 21));
    assert!(!e.hovered_is_selected());
}

#[test]
fn elements_bounds_grow_with_each_added_element() {
    let mut e: Engine<Seg, i64> = Engine::new();
    assert!(e.get_elements_bounds().is_none());
    draw(&mut e, seg(3, 3, 4, 5));
    assert_eq!(e.get_elements_bounds(), Some(bx(3, 3, 4, 5)));
    draw(&mut e, seg(-2, 4, 0, 8));
    assert_eq!(e.get_elements_bounds(), Some(bx(-2, 3, 4, 8)));
    draw(&mut e, seg(1, 1, 2, 2));
    assert_eq!(e.get_elements_bounds(), Some(bx(-2, 1, 4, 8)));
    e.undo_last_action(&bounds_of);
    e.undo_last_action(&bounds_of);
    e.undo_last_action(&bounds_of);
    assert!(e.get_elements_bounds().is_none());
}

#[test]
fn array_copy_count_predicts_what_apply_adds() {
    let mut e = sample();
    assert_eq!(e.array_copy_count(3, 3), Some(0));
    e.select_in_box(-1, -1, 11, 11, false, false, &bounds_of);
    assert_eq!(e.array_copy_count(2, 3), Some(10));
    assert_eq!(e.array_copy_count(1, 1), Some(0));
    assert_eq!(e.array_copy_count(0, 7), Some(0));
    assert_eq!(e.array_copy_count(-4, 7), Some(0));
    assert_eq!(e.array_copy_count(i32::MAX, i32::MAX), Some(((i32::MAX as u64) * (i32::MAX as u64) - 1) * 2));
    let shift = |d: &Seg, _r: i32, _c: i32| *d;
    let order = e.apply_array_grid(2, 3, &shift, &bounds_of);
    assert_eq!(order.len(), 10);
}

#[test]
fn undo_after_snapshot_restores_history_whatever_came_between() {
    let mut e = sample();
    e.select_at(bx(0, -1, 1, 1), false, &bounds_of);
    let before: Vec<(u64, bool, Seg)> = e.history.iter().map(|el| (el.id, el.is_selected, el.data)).collect();
    e.snapshot_for_undo();
    let shift = |d: &Seg| seg(d.x1 + 3, d.y1 + 3, d.x2 + 3, d.y2 + 3);
    e.move_selected(&shift, &bounds_of);
    e.select_in_box(-1, -1, 100, 100, true, true, &bounds_of);
    draw(&mut e, seg(50, 50, 60, 60));
    let cell = |d: &Seg, r: i32, c: i32| seg(d.x1 + c as i64, d.y1 + r as i64, d.x2 + c as i64, d.y2 + r as i64);
    e.apply_array_grid(2, 2, &cell, &bounds_of);
    e.deselect_all(&bounds_of);
    e.undo_last_action(&bounds_of);
    let after: Vec<(u64, bool, Seg)> = e.history.iter().map(|el| (el.id, el.is_selected, el.data)).collect();
    assert_eq!(after, before);
    assert!(e.move_snapshot.is_none());
    assert_eq!(index_ids(&e), vec![1, 2, 3, 4]);
    assert_eq!(e.get_elements_bounds(), Some(bx(0, -5, 10, 25)));
}
