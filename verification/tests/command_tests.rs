use drafting::tool::{parse_command, Command, ToolMode};

fn cmd(s: &str) -> Command {
    parse_command(&s.to_string())
}

#[test]
fn command_names_map_to_commands() {
    assert_eq!(cmd("fit"), Command::ZoomToFit);
    assert_eq!(cmd("z"), Command::ZoomToCursor);
    assert_eq!(cmd("s"), Command::UseTool(ToolMode::Select));
    assert_eq!(cmd("select"), Command::UseTool(ToolMode::Select));
    assert_eq!(cmd("l"), Command::UseTool(ToolMode::Line));
    assert_eq!(cmd("line"), Command::UseTool(ToolMode::Line));
    assert_eq!(cmd("c"), Command::UseTool(ToolMode::Circle));
    assert_eq!(cmd("circle"), Command::UseTool(ToolMode::Circle));
    assert_eq!(cmd("u"), Command::Undo);
    assert_eq!(cmd("undo"), Command::Undo);
    assert_eq!(cmd("save"), Command::Save);
    assert_eq!(cmd("ar"), Command::StartArray);
    assert_eq!(cmd("array"), Command::StartArray);
}

#[test]
fn unknown_names_are_unknown() {
    assert_eq!(cmd(""), Command::Unknown);
    assert_eq!(cmd("FIT"), Command::Unknown);
    assert_eq!(cmd("fit "), Command::Unknown);
    assert_eq!(cmd("dim"), Command::Unknown);
    assert_eq!(cmd("lines"), Command::Unknown);
}
