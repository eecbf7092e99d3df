use pwd_interface::command::{parse_command, trim, Command, Session};

#[test]
fn trim_removes_unicode_white_space() {
    assert_eq!(trim("  help \n"), "help");
    assert_eq!(trim("\u{3000}x y\u{a0}"), "x y");
    assert_eq!(trim(" \t\n"), "");
    assert_eq!(trim(""), "");
    assert_eq!(trim("a"), "a");
}

#[test]
fn parses_plain_commands() {
    assert!(matches!(parse_command("exit\n"), Command::Exit));
    assert!(matches!(parse_command("\n"), Command::Exit));
    assert!(matches!(parse_command(""), Command::Exit));
    assert!(matches!(parse_command("help\n"), Command::Help));
    assert!(matches!(parse_command("server\n"), Command::ShowServer));
    assert!(matches!(parse_command("token\n"), Command::ShowToken));
    assert!(matches!(parse_command(" push \n"), Command::Push));
    assert!(matches!(parse_command("pull\n"), Command::Pull));
    assert!(matches!(parse_command("pushy\n"), Command::Invalid));
    assert!(matches!(parse_command("servers\n"), Command::Invalid));
}

#[test]
fn parses_settings_with_trimmed_argument() {
    match parse_command("server   http://example.org  \n") {
        Command::SetServer(url) => assert_eq!(url, "http://example.org"),
        _ => panic!("expected a server setting"),
    }
    match parse_command("token abc\n") {
        Command::SetToken(key) => assert_eq!(key, "abc"),
        _ => panic!("expected a token setting"),
    }
}

#[test]
fn session_starts_with_defaults_and_keeps_settings() {
    let mut s = Session::new();
    assert_eq!(s.server(), "http://localhost");
    assert_eq!(s.token(), "not-set");
    assert!(matches!(s.handle_line("server http://pwd.example\n"), Command::SetServer(_)));
    assert!(matches!(s.handle_line("token k3y\n"), Command::SetToken(_)));
    assert!(matches!(s.handle_line("push\n"), Command::Push));
    assert_eq!(s.server(), "http://pwd.example");
    assert_eq!(s.token(), "k3y");
    assert!(matches!(s.handle_line("nonsense\n"), Command::Invalid));
    assert_eq!(s.server(), "http://pwd.example");
}
