use drafting::canvas::{CanvasAction, CanvasEvent, CanvasState};
use drafting::tool::ToolMode;

type Pt = (i64, i64);

fn press(at: Pt, snapped: Pt, hovered_selected: bool) -> CanvasEvent<Pt> {
    CanvasEvent::Press { screen: at, world: at, snapped, hovered_selected }
}

fn release(at: Pt, add: bool, leftward: bool) -> CanvasEvent<Pt> {
    CanvasEvent::Release { screen: at, snapped: at, add_to_selection: add, leftward }
}

fn motion(at: Pt, past_threshold: bool, button_held: bool) -> CanvasEvent<Pt> {
    CanvasEvent::Motion { screen: at, past_threshold, button_held }
}

#[test]
fn canvas_starts_in_select_mode_with_nothing_under_way() {
    let s: CanvasState<Pt> = CanvasState::new();
    assert_eq!(s.mode, ToolMode::Select);
    assert!(s.start_pos.is_none() && s.array_base.is_none() && s.drag_start.is_none());
    assert!(!s.is_dragging && !s.cancelling_array);
    assert_eq!(s.dimension_step, 0);
    assert_eq!(s, CanvasState::default());
}

#[test]
fn click_without_drag_selects_at_release_point() {
    let mut s: CanvasState<Pt> = CanvasState::new();
    assert_eq!(s.step(press((10, 10), (10, 10), false)), CanvasAction::SaveForUndo);
    assert_eq!(s.step(motion((12, 11), false, true)), CanvasAction::Hover);
    assert!(!s.is_dragging);
    assert_eq!(s.step(release((12, 11), true, false)), CanvasAction::SelectAt { at: (12, 11), add: true });
    assert!(s.drag_start.is_none());
}

#[test]
fn drag_selects_by_box_crossing_when_leftward() {
    let mut s: CanvasState<Pt> = CanvasState::new();
    s.step(press((50, 50), (50, 50), false));
    s.step(motion((20, 70), true, true));
    assert!(s.is_dragging);
    assert_eq!(
        s.step(release((20, 70), false, true)),
        CanvasAction::SelectBox { from: (50, 50), to: (20, 70), crossing: true, add: false }
    );
    assert!(!s.is_dragging);
    s.step(press((50, 50), (50, 50), false));
    s.step(motion((90, 70), true, true));
    assert_eq!(
        s.step(release((90, 70), false, false)),
        CanvasAction::SelectBox { from: (50, 50), to: (90, 70), crossing: false, add: false }
    );
}

#[test]
fn press_on_selected_element_moves_it_until_release() {
    let mut s: CanvasState<Pt> = CanvasState::new();
    assert_eq!(s.step(press((5, 5), (5, 5), true)), CanvasAction::SaveForUndo);
    assert_eq!(s.mode, ToolMode::Move);
    assert_eq!(s.step(motion((8, 6), true, true)), CanvasAction::MoveSelection { from: (5, 5), to: (8, 6) });
    assert_eq!(s.step(motion((9, 9), true, true)), CanvasAction::MoveSelection { from: (8, 6), to: (9, 9) });
    assert_eq!(s.step(release((9, 9), false, false)), CanvasAction::FinishMove);
    assert_eq!(s.mode, ToolMode::Select);
    assert!(s.drag_start.is_none());
}

#[test]
fn move_ends_when_button_is_no_longer_held() {
    let mut s: CanvasState<Pt> = CanvasState::new();
    s.step(press((5, 5), (5, 5), true));
    assert_eq!(s.step(motion((6, 6), true, false)), CanvasAction::Nothing);
    assert_eq!(s.mode, ToolMode::Select);
    assert!(s.drag_start.is_none());
}

#[test]
fn lines_chain_from_release_to_release() {
    let mut s: CanvasState<Pt> = CanvasState::new();
    s.step(CanvasEvent::LineTool);
    assert_eq!(s.step(press((0, 0), (1, 1), false)), CanvasAction::Nothing);
    assert_eq!(s.start_pos, Some((1, 1)));
    assert_eq!(s.step(release((4, 0), false, false)), CanvasAction::AddLine { from: (1, 1), to: (4, 0) });
    s.step(press((4, 0), (4, 0), false));
    assert_eq!(s.start_pos, Some((4, 0)));
    assert_eq!(s.step(release((4, 7), false, false)), CanvasAction::AddLine { from: (4, 0), to: (4, 7) });
    assert_eq!(s.mode, ToolMode::Line);
}

#[test]
fn circle_is_drawn_about_the_press_point() {
    let mut s: CanvasState<Pt> = CanvasState::new();
    s.step(CanvasEvent::CircleTool);
    s.step(press((2, 2), (2, 2), false));
    assert_eq!(s.step(release((5, 6), false, false)), CanvasAction::AddCircle { center: (2, 2), rim: (5, 6) });
    assert!(s.start_pos.is_none());
    assert_eq!(s.step(release((7, 7), false, false)), CanvasAction::Nothing);
}

#[test]
fn dimension_takes_three_presses() {
    let mut s: CanvasState<Pt> = CanvasState::new();
    s.step(CanvasEvent::DimensionTool);
    assert_eq!(s.step(press((0, 0), (0, 1), false)), CanvasAction::Nothing);
    assert_eq!(s.step(release((0, 0), false, false)), CanvasAction::Nothing);
    assert_eq!(s.step(press((9, 0), (10, 1), false)), CanvasAction::Nothing);
    assert_eq!(s.dimension_step, 2);
    assert_eq!(
        s.step(press((5, 4), (5, 5), false)),
        CanvasAction::AddDimension { start: (0, 1), end: (10, 1), offset_at: (5, 4) }
    );
    assert_eq!(s.mode, ToolMode::Select);
    assert_eq!(s.dimension_step, 0);
    assert!(s.start_pos.is_none() && s.dim_start.is_none() && s.dim_end.is_none());
}

#[test]
fn array_takes_base_then_target_press() {
    let mut s: CanvasState<Pt> = CanvasState::new();
    s.step(CanvasEvent::StartArray);
    assert_eq!(s.mode, ToolMode::Array);
    assert_eq!(s.step(press((3, 4), (3, 4), false)), CanvasAction::PlaceArrayBase);
    assert_eq!(s.array_base, Some((3, 4)));
    assert_eq!(s.step(press((13, 9), (13, 9), false)), CanvasAction::ApplyArray { base: (3, 4), to: (13, 9) });
    assert_eq!(s.mode, ToolMode::Select);
    assert!(s.array_base.is_none());
}

#[test]
fn escape_cancels_and_deselects() {
    let mut s: CanvasState<Pt> = CanvasState::new();
    s.step(CanvasEvent::LineTool);
    s.step(press((1, 1), (1, 1), false));
    assert_eq!(s.step(CanvasEvent::Escape), CanvasAction::DeselectAll);
    assert_eq!(s.mode, ToolMode::Select);
    assert!(s.start_pos.is_none() && s.drag_start.is_none());
}

#[test]
fn cancelled_array_gives_select_back_once_settled() {
    let mut s: CanvasState<Pt> = CanvasState::new();
    s.step(CanvasEvent::ArrayTool);
    s.step(CanvasEvent::CancelSettled);
    assert_eq!(s.mode, ToolMode::Array);
    s.step(CanvasEvent::CancelArray);
    assert!(s.cancelling_array);
    assert_eq!(s.mode, ToolMode::Array);
    s.step(CanvasEvent::CancelSettled);
    assert!(!s.cancelling_array);
    assert_eq!(s.mode, ToolMode::Select);
    s.step(CanvasEvent::UseTool(ToolMode::Circle));
    assert_eq!(s.mode, ToolMode::Circle);
    s.step(CanvasEvent::ArrayApplied);
    assert_eq!(s.mode, ToolMode::Select);
}
