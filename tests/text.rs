use chat_server::text::{parse_command, same_text, starts_with, TextCommand};

#[test]
fn prefix_checks() {
    assert!(starts_with("/api/x", "/api"));
    assert!(starts_with("abc", ""));
    assert!(!starts_with("/ap", "/api"));
    assert!(!starts_with("/apx", "/api"));
    assert!(same_text("é/x", "é/x"));
    assert!(!same_text("ab", "abc"));
}

#[test]
fn parse_command_cases() {
    assert_eq!(parse_command("/list"), TextCommand::List);
    assert_eq!(parse_command("/list all"), TextCommand::List);
    assert_eq!(parse_command("/join r"), TextCommand::Join("r".to_string()));
    assert_eq!(parse_command("/join a b"), TextCommand::Join("a b".to_string()));
    assert_eq!(parse_command("/join "), TextCommand::Join("".to_string()));
    assert_eq!(parse_command("/join"), TextCommand::MissingRoom);
    assert_eq!(parse_command("/joinx"), TextCommand::Unknown("/joinx".to_string()));
    assert_eq!(parse_command("/"), TextCommand::Unknown("/".to_string()));
    assert_eq!(parse_command("hi /list"), TextCommand::Chat);
    assert_eq!(parse_command("  /list"), TextCommand::Chat);
}
