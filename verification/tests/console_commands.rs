use voxel_terrain::console::{
    handle_command, help, route_submitted_text, spawn_reflected, CommandMetadata, RoutedText,
    SpawnReflected,
};

fn command_table() -> Vec<(String, Option<CommandMetadata>)> {
    vec![
        (
            "help".to_string(),
            Some(CommandMetadata {
                description: "Display help information".to_string(),
                usage: "help [command]".to_string(),
            }),
        ),
        ("spawn".to_string(), None),
        (
            "set_field".to_string(),
            Some(CommandMetadata {
                description: "Set a field on a singleton entity.(no work, expensive)".to_string(),
                usage: "set_field <component> <field> <value>".to_string(),
            }),
        ),
    ]
}

#[test]
fn help_without_argument_lists_every_documented_command() {
    let lines = help(&String::new(), &command_table());
    assert_eq!(
        lines,
        vec![
            "Command: help".to_string(),
            "   ->Description: Display help information".to_string(),
            "   ->Usage: help [command]".to_string(),
            "Command: set_field".to_string(),
            "   ->Description: Set a field on a singleton entity.(no work, expensive)".to_string(),
            "   ->Usage: set_field <component> <field> <value>".to_string(),
        ]
    );
}

#[test]
fn help_describes_one_command() {
    let lines = help(&"help".to_string(), &command_table());
    assert_eq!(lines.len(), 3);
    assert_eq!(lines[0], "Command: help");
    assert_eq!(lines[1], "   ->Description: Display help information");
    assert_eq!(lines[2], "   ->Usage: help [command]");
}

#[test]
fn help_reports_unknown_and_undocumented_commands() {
    let lines = help(&"teleport".to_string(), &command_table());
    assert_eq!(lines, vec!["Command not found: teleport".to_string()]);
    // registered, but without metadata: nothing to show either
    let lines = help(&"spawn".to_string(), &command_table());
    assert_eq!(lines, vec!["Command not found: spawn".to_string()]);
}

#[test]
fn help_prints_the_usage_lines() {
    let (out, spawn) = handle_command("help");
    assert_eq!(out.len(), 2);
    assert_eq!(out[0], "spawn: spawn <Component>");
    assert_eq!(out[1], "\tThe <Component> must #[reflect(Component, Default)]");
    assert!(spawn.is_none());
}

#[test]
fn spawn_passes_its_arguments_on() {
    let (out, spawn) = handle_command("spawn Player");
    assert_eq!(out.len(), 1);
    assert_eq!(out[0], "Attempting to spawn...");
    let request = spawn.expect("spawn should ask for a reflected spawn");
    assert_eq!(request.0, "Player");
}

#[test]
fn spawn_without_arguments_asks_for_an_empty_name() {
    let (out, spawn) = handle_command("spawn");
    assert_eq!(out.len(), 1);
    assert_eq!(spawn.expect("still a spawn request").0, "");
}

#[test]
fn the_retro_greeting_echoes_itself() {
    let (out, spawn) = handle_command("67");
    assert_eq!(out, vec!["67".to_string()]);
    assert!(spawn.is_none());
}

#[test]
fn anything_else_is_unknown() {
    let (out, spawn) = handle_command("fly up and away");
    assert_eq!(out, vec!["Unknown command".to_string()]);
    assert!(spawn.is_none());
    let (out2, _) = handle_command("");
    assert_eq!(out2, vec!["Unknown command".to_string()]);
    // the command name is everything before the first space only
    let (out3, _) = handle_command("helpme now");
    assert_eq!(out3, vec!["Unknown command".to_string()]);
}

#[test]
fn spawn_feedback_names_the_component_on_success() {
    let request = SpawnReflected("Player".to_string());
    let (message, ok) = spawn_reflected(&request, true);
    assert!(ok);
    assert_eq!(message, "Entity Player spawned successfully.");
    let (message, ok) = spawn_reflected(&request, false);
    assert!(!ok);
    assert_eq!(message, "DNE or missing ReflectDefault and/or ReflectComponent");
}

#[test]
fn submitted_text_routes_by_prefix() {
    match route_submitted_text("/spawn Player", '/', false) {
        Some(RoutedText::Command(c)) => assert_eq!(c.0, "spawn Player"),
        other => panic!("expected a command, got {:?}", other),
    }
    match route_submitted_text("hello world", '/', false) {
        Some(RoutedText::Chat(c)) => assert_eq!(c, "hello world"),
        other => panic!("expected chat, got {:?}", other),
    }
}

#[test]
fn an_empty_command_line_submission_is_dropped() {
    assert!(route_submitted_text("", '/', true).is_none());
    match route_submitted_text("", '/', false) {
        Some(RoutedText::Chat(c)) => assert_eq!(c, ""),
        other => panic!("expected empty chat, got {:?}", other),
    }
}
