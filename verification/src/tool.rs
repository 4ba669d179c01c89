use vstd::prelude::*;

verus! {

/// The drawing tool that is active on a canvas.
#[derive(Debug, Clone, Copy, PartialEq, Eq, Structural)]
pub enum ToolMode {
    Select,
    Line,
    Circle,
    Array,
    Move,
    Dimension,
}

impl Default for ToolMode {
    /// The selection tool is the default.
    fn default() -> (r: Self)
        ensures
            r == ToolMode::Select,
    {
        ToolMode::Select
    }
}

/// What a command typed into the command line asks for.
#[derive(Debug, Clone, Copy, PartialEq, Eq, Structural)]
pub enum Command {
    /// Fit every element into the view.
    ZoomToFit,
    /// Zoom in towards the cursor.
    ZoomToCursor,
    /// Switch to a drawing tool.
    UseTool(ToolMode),
    /// Undo the last action.
    Undo,
    /// Save the drawing.
    Save,
    /// Start an array copy of the selection.
    StartArray,
    /// Not a known command.
    Unknown,
}

/// The command a (lower-case, trimmed) command name stands for.
pub open spec fn command_named(name: Seq<char>) -> Command {
    if name == "fit"@ {
        Command::ZoomToFit
    } else if name == "z"@ {
        Command::ZoomToCursor
    } else if name == "s"@ || name == "select"@ {
        Command::UseTool(ToolMode::Select)
    } else if name == "l"@ || name == "line"@ {
        Command::UseTool(ToolMode::Line)
    } else if name == "c"@ || name == "circle"@ {
        Command::UseTool(ToolMode::Circle)
    } else if name == "u"@ || name == "undo"@ {
        Command::Undo
    } else if name == "save"@ {
        Command::Save
    } else if name == "ar"@ || name == "array"@ {
        Command::StartArray
    } else {
        Command::Unknown
    }
}

fn is_name(text: &String, name: &str) -> (r: bool)
    ensures
        r == (text@ == name@),
{
    broadcast use vstd::string::to_string_from_display_ensures_for_str;

    let owned = name.to_string();
    *text == owned
}

/// Reads a command name typed into the command line.
pub fn parse_command(text: &String) -> (r: Command)
    ensures
        r == command_named(text@),
{
    if is_name(text, "fit") {
        Command::ZoomToFit
    } else if is_name(text, "z") {
        Command::ZoomToCursor
    } else if is_name(text, "s") || is_name(text, "select") {
        Command::UseTool(ToolMode::Select)
    } else if is_name(text, "l") || is_name(text, "line") {
        Command::UseTool(ToolMode::Line)
    } else if is_name(text, "c") || is_name(text, "circle") {
        Command::UseTool(ToolMode::Circle)
    } else if is_name(text, "u") || is_name(text, "undo") {
        Command::Undo
    } else if is_name(text, "save") {
        Command::Save
    } else if is_name(text, "ar") || is_name(text, "array") {
        Command::StartArray
    } else {
        Command::Unknown
    }
}

} // verus!
