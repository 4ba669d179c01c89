use vstd::prelude::*;

use crate::tool::ToolMode;

verus! {

/// What a drawing canvas remembers between pointer events. Points are kept as
/// the caller hands them over: `start_pos`, `array_base` and the dimension
/// points in drawing coordinates, `drag_start` in screen coordinates.
#[derive(Debug, Clone, Copy, PartialEq)]
pub struct CanvasState<P> {
    /// The active tool.
    pub mode: ToolMode,
    /// Where the next line or circle starts, once its first point is in.
    pub start_pos: Option<P>,
    /// The base point of an array copy, once it is picked.
    pub array_base: Option<P>,
    /// Where the pointer went down while selecting or moving.
    pub drag_start: Option<P>,
    /// The pointer went far enough from `drag_start` to draw a selection box.
    pub is_dragging: bool,
    /// How many points of the dimension being placed are in: 0, 1 or 2.
    pub dimension_step: u8,
    /// The first point of the dimension being placed.
    pub dim_start: Option<P>,
    /// The second point of the dimension being placed.
    pub dim_end: Option<P>,
    /// The array preview is closing; the selection tool comes back once it has settled.
    pub cancelling_array: bool,
}

/// What happens on a canvas, as the caller measured it.
#[derive(Debug, Clone, Copy, PartialEq)]
pub enum CanvasEvent<P> {
    /// The pointer went down at `screen`; `world` is that point in drawing
    /// coordinates and `snapped` the same point after snapping;
    /// `hovered_selected` tells whether the element under the pointer is selected.
    Press { screen: P, world: P, snapped: P, hovered_selected: bool },
    /// The pointer went up at `screen` (`snapped` in drawing coordinates);
    /// `add_to_selection` when the shift key is held, `leftward` when it went up
    /// left of where it went down.
    Release { screen: P, snapped: P, add_to_selection: bool, leftward: bool },
    /// The pointer moved to `screen`; `past_threshold` when it is now far enough
    /// from where it went down to start a box; `button_held` while the main
    /// button is down.
    Motion { screen: P, past_threshold: bool, button_held: bool },
    /// The escape key: cancel what is under way.
    Escape,
    /// A tool picked on the command line.
    UseTool(ToolMode),
    /// The line button.
    LineTool,
    /// The circle button.
    CircleTool,
    /// The dimension button.
    DimensionTool,
    /// The array button.
    ArrayTool,
    /// The array command typed on the command line.
    StartArray,
    /// The array copies were applied from the side panel and the panel has closed.
    ArrayApplied,
    /// The array preview was cancelled.
    CancelArray,
    /// The cancelled array preview has faded out.
    CancelSettled,
}

/// What the caller has to do to the drawing after an event.
#[derive(Debug, Clone, Copy, PartialEq)]
pub enum CanvasAction<P> {
    /// Nothing to do to the drawing.
    Nothing,
    /// Save the history for undo (the pointer went down to select or move).
    SaveForUndo,
    /// Snap the moved selection into place: the move is over.
    FinishMove,
    /// Hover the element under the pointer.
    Hover,
    /// Move the selection by the distance from `from` to `to` (screen points).
    MoveSelection { from: P, to: P },
    /// Select the element under `at`, adding to the selection when `add`.
    SelectAt { at: P, add: bool },
    /// Select by the box from `from` to `to`: crossing when `crossing`, window otherwise.
    SelectBox { from: P, to: P, crossing: bool, add: bool },
    /// Draw a line.
    AddLine { from: P, to: P },
    /// Draw a circle about `center` through `rim`.
    AddCircle { center: P, rim: P },
    /// The array's base point was picked: show its preview.
    PlaceArrayBase,
    /// Copy the selection into an array whose spacing runs from `base` to `to`.
    ApplyArray { base: P, to: P },
    /// Draw a dimension from `start` to `end`, offset towards `offset_at`.
    AddDimension { start: P, end: P, offset_at: P },
    /// Clear the selection.
    DeselectAll,
}

/// The pointer going down.
pub open spec fn on_press<P>(s: CanvasState<P>, screen: P, world: P, snapped: P, hovered_selected: bool) -> (
    CanvasState<P>,
    CanvasAction<P>,
) {
    match s.mode {
        ToolMode::Move => (CanvasState { mode: ToolMode::Select, drag_start: None, ..s }, CanvasAction::FinishMove),
        ToolMode::Select => (
            CanvasState {
                mode: if hovered_selected { ToolMode::Move } else { ToolMode::Select },
                drag_start: Some(screen),
                is_dragging: false,
                ..s
            },
            CanvasAction::SaveForUndo,
        ),
        ToolMode::Line | ToolMode::Circle => (
            if s.start_pos is None { CanvasState { start_pos: Some(snapped), ..s } } else { s },
            CanvasAction::Nothing,
        ),
        ToolMode::Array => match s.array_base {
            Some(base) => (
                CanvasState { array_base: None, mode: ToolMode::Select, ..s },
                CanvasAction::ApplyArray { base, to: world },
            ),
            None => (CanvasState { array_base: Some(world), ..s }, CanvasAction::PlaceArrayBase),
        },
        ToolMode::Dimension => if s.dimension_step == 0 {
            (
                CanvasState { dim_start: Some(snapped), dimension_step: 1, start_pos: Some(snapped), ..s },
                CanvasAction::Nothing,
            )
        } else if s.dimension_step == 1 {
            (CanvasState { dim_end: Some(snapped), dimension_step: 2, ..s }, CanvasAction::Nothing)
        } else if s.dimension_step == 2 && s.dim_start is Some && s.dim_end is Some {
            (
                CanvasState {
                    start_pos: None,
                    dimension_step: 0,
                    dim_start: None,
                    dim_end: None,
                    mode: ToolMode::Select,
                    ..s
                },
                CanvasAction::AddDimension { start: s.dim_start->0, end: s.dim_end->0, offset_at: world },
            )
        } else {
            (s, CanvasAction::Nothing)
        },
    }
}

/// The pointer going up.
pub open spec fn on_release<P>(s: CanvasState<P>, screen: P, snapped: P, add: bool, leftward: bool) -> (
    CanvasState<P>,
    CanvasAction<P>,
) {
    match s.mode {
        ToolMode::Move => (CanvasState { mode: ToolMode::Select, drag_start: None, ..s }, CanvasAction::FinishMove),
        ToolMode::Select => (
            CanvasState { drag_start: None, is_dragging: false, ..s },
            if !s.is_dragging {
                CanvasAction::SelectAt { at: screen, add }
            } else {
                match s.drag_start {
                    Some(from) => CanvasAction::SelectBox { from, to: screen, crossing: leftward, add },
                    None => CanvasAction::Nothing,
                }
            },
        ),
        ToolMode::Line => match s.start_pos {
            Some(from) => (CanvasState { start_pos: Some(snapped), ..s }, CanvasAction::AddLine { from, to: snapped }),
            None => (s, CanvasAction::Nothing),
        },
        ToolMode::Circle => match s.start_pos {
            Some(center) => (CanvasState { start_pos: None, ..s }, CanvasAction::AddCircle { center, rim: snapped }),
            None => (s, CanvasAction::Nothing),
        },
        _ => (s, CanvasAction::Nothing),
    }
}

/// The pointer moving.
pub open spec fn on_motion<P>(s: CanvasState<P>, screen: P, past_threshold: bool, button_held: bool) -> (
    CanvasState<P>,
    CanvasAction<P>,
) {
    match s.mode {
        ToolMode::Select => (
            if s.drag_start is Some && past_threshold { CanvasState { is_dragging: true, ..s } } else { s },
            CanvasAction::Hover,
        ),
        ToolMode::Move => if !button_held {
            (CanvasState { mode: ToolMode::Select, drag_start: None, ..s }, CanvasAction::Nothing)
        } else {
            match s.drag_start {
                Some(from) => (
                    CanvasState { drag_start: Some(screen), ..s },
                    CanvasAction::MoveSelection { from, to: screen },
                ),
                None => (s, CanvasAction::Nothing),
            }
        },
        _ => (s, CanvasAction::Nothing),
    }
}

/// The state after `ev` and what the drawing has to undergo for it.
pub open spec fn canvas_transition<P>(s: CanvasState<P>, ev: CanvasEvent<P>) -> (CanvasState<P>, CanvasAction<P>) {
    match ev {
        CanvasEvent::Press { screen, world, snapped, hovered_selected } => on_press(
            s,
            screen,
            world,
            snapped,
            hovered_selected,
        ),
        CanvasEvent::Release { screen, snapped, add_to_selection, leftward } => on_release(
            s,
            screen,
            snapped,
            add_to_selection,
            leftward,
        ),
        CanvasEvent::Motion { screen, past_threshold, button_held } => on_motion(
            s,
            screen,
            past_threshold,
            button_held,
        ),
        CanvasEvent::Escape => (
            CanvasState { start_pos: None, mode: ToolMode::Select, drag_start: None, ..s },
            CanvasAction::DeselectAll,
        ),
        CanvasEvent::UseTool(m) => (CanvasState { mode: m, ..s }, CanvasAction::Nothing),
        CanvasEvent::LineTool => (CanvasState { mode: ToolMode::Line, start_pos: None, ..s }, CanvasAction::Nothing),
        CanvasEvent::CircleTool => (
            CanvasState { mode: ToolMode::Circle, start_pos: None, ..s },
            CanvasAction::Nothing,
        ),
        CanvasEvent::DimensionTool => (
            CanvasState { mode: ToolMode::Dimension, dimension_step: 0, start_pos: None, ..s },
            CanvasAction::Nothing,
        ),
        CanvasEvent::ArrayTool => (CanvasState { mode: ToolMode::Array, ..s }, CanvasAction::Nothing),
        CanvasEvent::StartArray => (
            CanvasState { mode: ToolMode::Array, array_base: None, ..s },
            CanvasAction::Nothing,
        ),
        CanvasEvent::ArrayApplied => (CanvasState { mode: ToolMode::Select, ..s }, CanvasAction::Nothing),
        CanvasEvent::CancelArray => (CanvasState { cancelling_array: true, ..s }, CanvasAction::Nothing),
        CanvasEvent::CancelSettled => (
            if s.cancelling_array {
                CanvasState { cancelling_array: false, mode: ToolMode::Select, ..s }
            } else {
                s
            },
            CanvasAction::Nothing,
        ),
    }
}

impl<P: Copy> CanvasState<P> {
    /// A canvas with the selection tool active and nothing under way.
    pub fn new() -> (r: Self)
        ensures
            r.mode == ToolMode::Select,
            r.start_pos is None,
            r.array_base is None,
            r.drag_start is None,
            !r.is_dragging,
            r.dimension_step == 0,
            r.dim_start is None,
            r.dim_end is None,
            !r.cancelling_array,
    {
        CanvasState {
            mode: ToolMode::Select,
            start_pos: None,
            array_base: None,
            drag_start: None,
            is_dragging: false,
            dimension_step: 0,
            dim_start: None,
            dim_end: None,
            cancelling_array: false,
        }
    }

    /// Takes one event: updates the state and gives what the drawing has to undergo.
    pub fn step(&mut self, ev: CanvasEvent<P>) -> (a: CanvasAction<P>)
        ensures
            (*final(self), a) == canvas_transition(*old(self), ev),
    {
        let s = *self;
        let (next, action) = match ev {
            CanvasEvent::Press { screen, world, snapped, hovered_selected } => press(
                s,
                screen,
                world,
                snapped,
                hovered_selected,
            ),
            CanvasEvent::Release { screen, snapped, add_to_selection, leftward } => release(
                s,
                screen,
                snapped,
                add_to_selection,
                leftward,
            ),
            CanvasEvent::Motion { screen, past_threshold, button_held } => motion(
                s,
                screen,
                past_threshold,
                button_held,
            ),
            CanvasEvent::Escape => (
                CanvasState { start_pos: None, mode: ToolMode::Select, drag_start: None, ..s },
                CanvasAction::DeselectAll,
            ),
            CanvasEvent::UseTool(m) => (CanvasState { mode: m, ..s }, CanvasAction::Nothing),
            CanvasEvent::LineTool => (
                CanvasState { mode: ToolMode::Line, start_pos: None, ..s },
                CanvasAction::Nothing,
            ),
            CanvasEvent::CircleTool => (
                CanvasState { mode: ToolMode::Circle, start_pos: None, ..s },
                CanvasAction::Nothing,
            ),
            CanvasEvent::DimensionTool => (
                CanvasState { mode: ToolMode::Dimension, dimension_step: 0, start_pos: None, ..s },
                CanvasAction::Nothing,
            ),
            CanvasEvent::ArrayTool => (CanvasState { mode: ToolMode::Array, ..s }, CanvasAction::Nothing),
            CanvasEvent::StartArray => (
                CanvasState { mode: ToolMode::Array, array_base: None, ..s },
                CanvasAction::Nothing,
            ),
            CanvasEvent::ArrayApplied => (CanvasState { mode: ToolMode::Select, ..s }, CanvasAction::Nothing),
            CanvasEvent::CancelArray => (CanvasState { cancelling_array: true, ..s }, CanvasAction::Nothing),
            CanvasEvent::CancelSettled => (
                if s.cancelling_array {
                    CanvasState { cancelling_array: false, mode: ToolMode::Select, ..s }
                } else {
                    s
                },
                CanvasAction::Nothing,
            ),
        };
        *self = next;
        action
    }
}

impl<P: Copy> Default for CanvasState<P> {
    /// A canvas with the selection tool active and nothing under way.
    fn default() -> (r: Self)
        ensures
            r.mode == ToolMode::Select,
            r.start_pos is None,
            r.array_base is None,
            r.drag_start is None,
            !r.is_dragging,
            r.dimension_step == 0,
            r.dim_start is None,
            r.dim_end is None,
            !r.cancelling_array,
    {
        CanvasState::new()
    }
}

fn press<P: Copy>(s: CanvasState<P>, screen: P, world: P, snapped: P, hovered_selected: bool) -> (r: (
    CanvasState<P>,
    CanvasAction<P>,
))
    ensures
        r == on_press(s, screen, world, snapped, hovered_selected),
{
    match s.mode {
        ToolMode::Move => (CanvasState { mode: ToolMode::Select, drag_start: None, ..s }, CanvasAction::FinishMove),
        ToolMode::Select => (
            CanvasState {
                mode: if hovered_selected { ToolMode::Move } else { ToolMode::Select },
                drag_start: Some(screen),
                is_dragging: false,
                ..s
            },
            CanvasAction::SaveForUndo,
        ),
        ToolMode::Line | ToolMode::Circle => (
            if s.start_pos.is_none() { CanvasState { start_pos: Some(snapped), ..s } } else { s },
            CanvasAction::Nothing,
        ),
        ToolMode::Array => match s.array_base {
            Some(base) => (
                CanvasState { array_base: None, mode: ToolMode::Select, ..s },
                CanvasAction::ApplyArray { base, to: world },
            ),
            None => (CanvasState { array_base: Some(world), ..s }, CanvasAction::PlaceArrayBase),
        },
        ToolMode::Dimension => {
            if s.dimension_step == 0 {
                (
                    CanvasState { dim_start: Some(snapped), dimension_step: 1, start_pos: Some(snapped), ..s },
                    CanvasAction::Nothing,
                )
            } else if s.dimension_step == 1 {
                (CanvasState { dim_end: Some(snapped), dimension_step: 2, ..s }, CanvasAction::Nothing)
            } else if s.dimension_step == 2 {
                match (s.dim_start, s.dim_end) {
                    (Some(start), Some(end)) => (
                        CanvasState {
                            start_pos: None,
                            dimension_step: 0,
                            dim_start: None,
                            dim_end: None,
                            mode: ToolMode::Select,
                            ..s
                        },
                        CanvasAction::AddDimension { start, end, offset_at: world },
                    ),
                    _ => (s, CanvasAction::Nothing),
                }
            } else {
                (s, CanvasAction::Nothing)
            }
        },
    }
}

fn release<P: Copy>(s: CanvasState<P>, screen: P, snapped: P, add: bool, leftward: bool) -> (r: (
    CanvasState<P>,
    CanvasAction<P>,
))
    ensures
        r == on_release(s, screen, snapped, add, leftward),
{
    match s.mode {
        ToolMode::Move => (CanvasState { mode: ToolMode::Select, drag_start: None, ..s }, CanvasAction::FinishMove),
        ToolMode::Select => {
            let action = if !s.is_dragging {
                CanvasAction::SelectAt { at: screen, add }
            } else {
                match s.drag_start {
                    Some(from) => CanvasAction::SelectBox { from, to: screen, crossing: leftward, add },
                    None => CanvasAction::Nothing,
                }
            };
            (CanvasState { drag_start: None, is_dragging: false, ..s }, action)
        },
        ToolMode::Line => match s.start_pos {
            Some(from) => (CanvasState { start_pos: Some(snapped), ..s }, CanvasAction::AddLine { from, to: snapped }),
            None => (s, CanvasAction::Nothing),
        },
        ToolMode::Circle => match s.start_pos {
            Some(center) => (CanvasState { start_pos: None, ..s }, CanvasAction::AddCircle { center, rim: snapped }),
            None => (s, CanvasAction::Nothing),
        },
        _ => (s, CanvasAction::Nothing),
    }
}

fn motion<P: Copy>(s: CanvasState<P>, screen: P, past_threshold: bool, button_held: bool) -> (r: (
    CanvasState<P>,
    CanvasAction<P>,
))
    ensures
        r == on_motion(s, screen, past_threshold, button_held),
{
    match s.mode {
        ToolMode::Select => (
            if s.drag_start.is_some() && past_threshold { CanvasState { is_dragging: true, ..s } } else { s },
            CanvasAction::Hover,
        ),
        ToolMode::Move => {
            if !button_held {
                (CanvasState { mode: ToolMode::Select, drag_start: None, ..s }, CanvasAction::Nothing)
            } else {
                match s.drag_start {
                    Some(from) => (
                        CanvasState { drag_start: Some(screen), ..s },
                        CanvasAction::MoveSelection { from, to: screen },
                    ),
                    None => (s, CanvasAction::Nothing),
                }
            }
        },
        _ => (s, CanvasAction::Nothing),
    }
}

// ---------------------------------------------------------------------------
// Laws of the canvas tools
// ---------------------------------------------------------------------------

/// Law: escape always comes back to the selection tool with no line or circle
/// under way and no drag, and clears the selection.
pub proof fn lemma_escape_cancels<P>(s: CanvasState<P>)
    ensures
        ({
            let (t, a) = canvas_transition(s, CanvasEvent::Escape);
            &&& t.mode == ToolMode::Select
            &&& t.start_pos is None
            &&& t.drag_start is None
            &&& a == CanvasAction::<P>::DeselectAll
        }),
{
}

/// Law: with the selection tool, pressing saves the history for undo and
/// starts a drag there; it starts a move exactly when the element under the
/// pointer is selected.
pub proof fn lemma_press_on_selection_starts_move<P>(s: CanvasState<P>, screen: P, world: P, snapped: P, hovered_selected: bool)
    requires
        s.mode == ToolMode::Select,
    ensures
        ({
            let (t, a) = canvas_transition(s, CanvasEvent::Press { screen, world, snapped, hovered_selected });
            &&& t.mode == (if hovered_selected { ToolMode::Move } else { ToolMode::Select })
            &&& t.drag_start == Some(screen)
            &&& !t.is_dragging
            &&& a == CanvasAction::<P>::SaveForUndo
        }),
{
}

/// Law: while moving, the held pointer drags the selection along its path:
/// two motions move it from where the pointer went down to the first point and
/// from there to the second; letting go of the button, or a press or release,
/// ends the move and gives the selection tool back.
pub proof fn lemma_move_follows_pointer<P>(s: CanvasState<P>, from: P, p: P, q: P, snapped: P, add: bool, leftward: bool)
    requires
        s.mode == ToolMode::Move,
        s.drag_start == Some(from),
    ensures
        ({
            let (t1, a1) = canvas_transition(s, CanvasEvent::Motion { screen: p, past_threshold: true, button_held: true });
            let (t2, a2) = canvas_transition(t1, CanvasEvent::Motion { screen: q, past_threshold: true, button_held: true });
            &&& a1 == CanvasAction::MoveSelection { from, to: p }
            &&& a2 == CanvasAction::MoveSelection { from: p, to: q }
            &&& t2.mode == ToolMode::Move
            &&& t2.drag_start == Some(q)
        }),
        ({
            let (t, a) = canvas_transition(s, CanvasEvent::Release { screen: p, snapped, add_to_selection: add, leftward });
            &&& t.mode == ToolMode::Select
            &&& t.drag_start is None
            &&& a == CanvasAction::<P>::FinishMove
        }),
        ({
            let (t, a) = canvas_transition(s, CanvasEvent::Press { screen: p, world: p, snapped, hovered_selected: add });
            &&& t.mode == ToolMode::Select
            &&& t.drag_start is None
            &&& a == CanvasAction::<P>::FinishMove
        }),
        ({
            let (t, a) = canvas_transition(s, CanvasEvent::Motion { screen: p, past_threshold: add, button_held: false });
            &&& t.mode == ToolMode::Select
            &&& t.drag_start is None
            &&& a == CanvasAction::<P>::Nothing
        }),
{
}

/// Law: with the selection tool, a press off the selection and a release with
/// no motion past the drag threshold in between selects at the release point;
/// with such a motion it selects by the box from the press to the release,
/// crossing exactly when the release lies left of the press. Either way the
/// drag is over afterwards.
pub proof fn lemma_click_or_box_select<P>(
    s: CanvasState<P>,
    down: P,
    world: P,
    snapped: P,
    moved_to: P,
    up: P,
    past_threshold: bool,
    add: bool,
    leftward: bool,
)
    requires
        s.mode == ToolMode::Select,
    ensures
        ({
            let (t1, _a1) = canvas_transition(s, CanvasEvent::Press { screen: down, world, snapped, hovered_selected: false });
            let (t2, a2) = canvas_transition(t1, CanvasEvent::Motion { screen: moved_to, past_threshold, button_held: true });
            let (t3, a3) = canvas_transition(t2, CanvasEvent::Release { screen: up, snapped, add_to_selection: add, leftward });
            &&& a2 == CanvasAction::<P>::Hover
            &&& a3 == if past_threshold {
                CanvasAction::SelectBox { from: down, to: up, crossing: leftward, add }
            } else {
                CanvasAction::SelectAt { at: up, add }
            }
            &&& t3.mode == ToolMode::Select
            &&& t3.drag_start is None
            &&& !t3.is_dragging
        }),
{
}

/// Law: a dimension takes three presses: the first two fix its end points at
/// the snapped press points, the third gives its offset at the press point in
/// drawing coordinates (not the screen point, nor the snapped one); only then is
/// it drawn, and the selection tool comes back with nothing under way. Releases
/// in between change nothing.
pub proof fn lemma_dimension_takes_three_presses<P>(
    s: CanvasState<P>,
    q1: P,
    w1: P,
    s1: P,
    q2: P,
    w2: P,
    s2: P,
    q3: P,
    w3: P,
    s3: P,
    up: P,
    up_snapped: P,
    hovered_selected: bool,
    add: bool,
    leftward: bool,
)
    requires
        s.mode == ToolMode::Dimension,
        s.dimension_step == 0,
    ensures
        ({
            let (t1, a1) = canvas_transition(s, CanvasEvent::Press { screen: q1, world: w1, snapped: s1, hovered_selected });
            let (t2, a2) = canvas_transition(t1, CanvasEvent::Press { screen: q2, world: w2, snapped: s2, hovered_selected });
            let (t3, a3) = canvas_transition(t2, CanvasEvent::Press { screen: q3, world: w3, snapped: s3, hovered_selected });
            let rel = CanvasEvent::Release { screen: up, snapped: up_snapped, add_to_selection: add, leftward };
            &&& a1 == CanvasAction::<P>::Nothing
            &&& t1.mode == ToolMode::Dimension
            &&& t1.start_pos == Some(s1)
            &&& a2 == CanvasAction::<P>::Nothing
            &&& t2.mode == ToolMode::Dimension
            &&& a3 == CanvasAction::AddDimension { start: s1, end: s2, offset_at: w3 }
            &&& t3.mode == ToolMode::Select
            &&& t3.dimension_step == 0
            &&& t3.start_pos is None
            &&& t3.dim_start is None
            &&& t3.dim_end is None
            &&& canvas_transition(t1, rel) == (t1, CanvasAction::<P>::Nothing)
            &&& canvas_transition(t2, rel) == (t2, CanvasAction::<P>::Nothing)
        }),
{
}

/// Law: whatever the canvas was doing, the dimension button starts a new
/// dimension: three presses then draw one from the first two snapped points,
/// offset towards the third press point in drawing coordinates.
pub proof fn lemma_dimension_tool_starts_afresh<P>(
    s: CanvasState<P>,
    q1: P,
    w1: P,
    s1: P,
    q2: P,
    w2: P,
    s2: P,
    q3: P,
    w3: P,
    s3: P,
    hovered_selected: bool,
)
    ensures
        ({
            let (t0, a0) = canvas_transition(s, CanvasEvent::DimensionTool);
            let (t1, _a1) = canvas_transition(t0, CanvasEvent::Press { screen: q1, world: w1, snapped: s1, hovered_selected });
            let (t2, _a2) = canvas_transition(t1, CanvasEvent::Press { screen: q2, world: w2, snapped: s2, hovered_selected });
            let (_t3, a3) = canvas_transition(t2, CanvasEvent::Press { screen: q3, world: w3, snapped: s3, hovered_selected });
            &&& a0 == CanvasAction::<P>::Nothing
            &&& t0.mode == ToolMode::Dimension
            &&& t0.dimension_step == 0
            &&& t0.start_pos is None
            &&& a3 == CanvasAction::AddDimension { start: s1, end: s2, offset_at: w3 }
        }),
{
}

/// Law: an array takes two presses once its tool is started: the first picks
/// the base point and the second applies the copies with the spacing from the
/// base to the second point, both in drawing coordinates (neither screen nor
/// snapped points), and gives the selection tool back.
pub proof fn lemma_array_takes_two_presses<P>(
    s: CanvasState<P>,
    q1: P,
    w1: P,
    s1: P,
    q2: P,
    w2: P,
    s2: P,
    hovered_selected: bool,
)
    requires
        s.mode == ToolMode::Array,
        s.array_base is None,
    ensures
        ({
            let (t1, a1) = canvas_transition(s, CanvasEvent::Press { screen: q1, world: w1, snapped: s1, hovered_selected });
            let (t2, a2) = canvas_transition(t1, CanvasEvent::Press { screen: q2, world: w2, snapped: s2, hovered_selected });
            &&& a1 == CanvasAction::<P>::PlaceArrayBase
            &&& t1.mode == ToolMode::Array
            &&& t1.array_base == Some(w1)
            &&& a2 == CanvasAction::ApplyArray { base: w1, to: w2 }
            &&& t2.mode == ToolMode::Select
            &&& t2.array_base is None
        }),
{
}

/// Law: whatever the canvas was doing, the array command starts a new array:
/// the next two presses apply it from the first press point to the second, in
/// drawing coordinates.
pub proof fn lemma_array_command_starts_afresh<P>(
    s: CanvasState<P>,
    q1: P,
    w1: P,
    s1: P,
    q2: P,
    w2: P,
    s2: P,
    hovered_selected: bool,
)
    ensures
        ({
            let (t0, _a0) = canvas_transition(s, CanvasEvent::StartArray);
            let (t1, a1) = canvas_transition(t0, CanvasEvent::Press { screen: q1, world: w1, snapped: s1, hovered_selected });
            let (_t2, a2) = canvas_transition(t1, CanvasEvent::Press { screen: q2, world: w2, snapped: s2, hovered_selected });
            &&& t0.mode == ToolMode::Array
            &&& t0.array_base is None
            &&& a1 == CanvasAction::<P>::PlaceArrayBase
            &&& a2 == CanvasAction::ApplyArray { base: w1, to: w2 }
        }),
{
}

/// Law: lines chain: each release draws a line from the current start point to
/// the snapped release point, which becomes the next start point. A circle is
/// drawn about its start point through the snapped release point, and the next
/// circle needs a new centre.
pub proof fn lemma_lines_chain<P>(
    s: CanvasState<P>,
    a: P,
    qb: P,
    b: P,
    qc: P,
    c: P,
    add: bool,
    leftward: bool,
)
    requires
        s.start_pos == Some(a),
    ensures
        s.mode == ToolMode::Line ==> ({
            let (t1, a1) = canvas_transition(s, CanvasEvent::Release { screen: qb, snapped: b, add_to_selection: add, leftward });
            let (t2, a2) = canvas_transition(t1, CanvasEvent::Release { screen: qc, snapped: c, add_to_selection: add, leftward });
            &&& a1 == CanvasAction::AddLine { from: a, to: b }
            &&& a2 == CanvasAction::AddLine { from: b, to: c }
            &&& t2.mode == ToolMode::Line
            &&& t2.start_pos == Some(c)
        }),
        s.mode == ToolMode::Circle ==> ({
            let (t, r) = canvas_transition(s, CanvasEvent::Release { screen: qb, snapped: b, add_to_selection: add, leftward });
            &&& r == CanvasAction::AddCircle { center: a, rim: b }
            &&& t.mode == ToolMode::Circle
            &&& t.start_pos is None
        }),
{
}

/// Law: whatever the canvas was doing, the line and circle buttons drop any
/// start point left over: the next press fixes the start at its snapped point,
/// and the release after it draws a line from there, or a circle about it,
/// through the snapped release point.
pub proof fn lemma_shape_tools_start_afresh<P>(
    s: CanvasState<P>,
    q1: P,
    w1: P,
    s1: P,
    q2: P,
    s2: P,
    hovered_selected: bool,
    add: bool,
    leftward: bool,
)
    ensures
        ({
            let press = CanvasEvent::Press { screen: q1, world: w1, snapped: s1, hovered_selected };
            let rel = CanvasEvent::Release { screen: q2, snapped: s2, add_to_selection: add, leftward };
            let (l0, _la0) = canvas_transition(s, CanvasEvent::LineTool);
            let (l1, la1) = canvas_transition(l0, press);
            let (_l2, la2) = canvas_transition(l1, rel);
            let (c0, _ca0) = canvas_transition(s, CanvasEvent::CircleTool);
            let (c1, ca1) = canvas_transition(c0, press);
            let (c2, ca2) = canvas_transition(c1, rel);
            &&& l0.mode == ToolMode::Line
            &&& l0.start_pos is None
            &&& la1 == CanvasAction::<P>::Nothing
            &&& l1.start_pos == Some(s1)
            &&& la2 == CanvasAction::AddLine { from: s1, to: s2 }
            &&& c0.mode == ToolMode::Circle
            &&& c0.start_pos is None
            &&& ca1 == CanvasAction::<P>::Nothing
            &&& c1.start_pos == Some(s1)
            &&& ca2 == CanvasAction::AddCircle { center: s1, rim: s2 }
            &&& c2.start_pos is None
        }),
{
}

/// Law: a press with the line or circle tool keeps a start point that is
/// already there and sets one only where there is none.
pub proof fn lemma_press_keeps_start<P>(s: CanvasState<P>, q: P, w: P, p: P, hovered_selected: bool)
    requires
        s.mode == ToolMode::Line || s.mode == ToolMode::Circle,
    ensures
        ({
            let (t, a) = canvas_transition(s, CanvasEvent::Press { screen: q, world: w, snapped: p, hovered_selected });
            &&& a == CanvasAction::<P>::Nothing
            &&& t.mode == s.mode
            &&& t.start_pos == if s.start_pos is Some { s.start_pos } else { Some(p) }
        }),
{
}

/// Law: the tool buttons and commands set the tool they name and change
/// nothing else but what each says: the line and circle buttons drop the start
/// point, the dimension button also restarts the dimension count, the array
/// command forgets the base point; applying an array from the panel, or a
/// cancelled preview that has settled, gives the selection tool back.
pub proof fn lemma_tool_events<P>(s: CanvasState<P>, m: ToolMode)
    ensures
        canvas_transition(s, CanvasEvent::UseTool(m)) == (CanvasState { mode: m, ..s }, CanvasAction::<P>::Nothing),
        canvas_transition(s, CanvasEvent::LineTool) == (
            CanvasState { mode: ToolMode::Line, start_pos: None, ..s },
            CanvasAction::<P>::Nothing,
        ),
        canvas_transition(s, CanvasEvent::CircleTool) == (
            CanvasState { mode: ToolMode::Circle, start_pos: None, ..s },
            CanvasAction::<P>::Nothing,
        ),
        canvas_transition(s, CanvasEvent::DimensionTool) == (
            CanvasState { mode: ToolMode::Dimension, dimension_step: 0, start_pos: None, ..s },
            CanvasAction::<P>::Nothing,
        ),
        canvas_transition(s, CanvasEvent::ArrayTool) == (
            CanvasState { mode: ToolMode::Array, ..s },
            CanvasAction::<P>::Nothing,
        ),
        canvas_transition(s, CanvasEvent::StartArray) == (
            CanvasState { mode: ToolMode::Array, array_base: None, ..s },
            CanvasAction::<P>::Nothing,
        ),
        canvas_transition(s, CanvasEvent::ArrayApplied) == (
            CanvasState { mode: ToolMode::Select, ..s },
            CanvasAction::<P>::Nothing,
        ),
        canvas_transition(s, CanvasEvent::CancelArray) == (
            CanvasState { cancelling_array: true, ..s },
            CanvasAction::<P>::Nothing,
        ),
        canvas_transition(s, CanvasEvent::CancelSettled).0.mode == if s.cancelling_array {
            ToolMode::Select
        } else {
            s.mode
        },
        !canvas_transition(s, CanvasEvent::CancelSettled).0.cancelling_array,
{
}

/// Law: with the selection tool, motion hovers, keeps the tool, and turns a
/// pending press into a box drag exactly once the pointer is past the threshold.
pub proof fn lemma_select_motion<P>(s: CanvasState<P>, q: P, past_threshold: bool, button_held: bool)
    requires
        s.mode == ToolMode::Select,
    ensures
        ({
            let (t, a) = canvas_transition(s, CanvasEvent::Motion { screen: q, past_threshold, button_held });
            &&& a == CanvasAction::<P>::Hover
            &&& t.mode == ToolMode::Select
            &&& t.drag_start == s.drag_start
            &&& t.is_dragging == (s.is_dragging || (s.drag_start is Some && past_threshold))
        }),
{
}

} // verus!
