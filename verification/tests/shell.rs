use lib::shell::{handle_command, Command, KeyAction, LineEditor, LINE_CAPACITY};

fn type_line(e: &mut LineEditor, text: &[u8]) {
    for &b in text {
        let _ = e.feed(b);
    }
}

fn text(cs: &[char]) -> String {
    cs.iter().collect()
}

#[test]
fn typing_echoes_and_return_submits() {
    let mut e = LineEditor::new();
    assert!(matches!(e.feed(b'h'), KeyAction::Echo(b'h')));
    type_line(&mut e, b"elp");
    match e.feed(b'\r') {
        KeyAction::Submit(line) => assert_eq!(line, b"help".to_vec()),
        _ => panic!("expected a submitted line"),
    }
    match e.feed(b'\n') {
        KeyAction::Submit(line) => assert!(line.is_empty()),
        _ => panic!("expected a submitted line"),
    }
}

#[test]
fn backspace_erases() {
    let mut e = LineEditor::new();
    assert!(matches!(e.feed(0x08), KeyAction::Ignore));
    type_line(&mut e, b"ab");
    assert!(matches!(e.feed(0x7f), KeyAction::Erase));
    match e.feed(b'\n') {
        KeyAction::Submit(line) => assert_eq!(line, b"a".to_vec()),
        _ => panic!("expected a submitted line"),
    }
}

#[test]
fn full_line_ignores_more_bytes() {
    let mut e = LineEditor::new();
    for _ in 0..LINE_CAPACITY {
        assert!(matches!(e.feed(b'x'), KeyAction::Echo(b'x')));
    }
    assert!(matches!(e.feed(b'y'), KeyAction::Ignore));
    match e.feed(b'\r') {
        KeyAction::Submit(line) => assert_eq!(line.len(), LINE_CAPACITY),
        _ => panic!("expected a submitted line"),
    }
}

#[test]
fn commands_are_recognised() {
    assert!(matches!(handle_command(b"help"), Command::Help));
    assert!(matches!(handle_command(b"  version  "), Command::Version));
    assert!(matches!(handle_command(b"clear"), Command::Clear));
    assert!(matches!(handle_command(b"panic"), Command::Panic));
    assert!(matches!(handle_command(b""), Command::Empty));
    assert!(matches!(handle_command(b" \t "), Command::Empty));
}

#[test]
fn echo_prints_the_rest() {
    match handle_command(b"echo   hello  world  ") {
        Command::Echo(rest) => assert_eq!(text(&rest), "hello  world"),
        _ => panic!("expected echo"),
    }
    match handle_command(b"echo") {
        Command::Echo(rest) => assert!(rest.is_empty()),
        _ => panic!("expected echo"),
    }
}

#[test]
fn unknown_and_invalid_input() {
    match handle_command(b"reboot now") {
        Command::Unknown(word) => assert_eq!(text(&word), "reboot"),
        _ => panic!("expected unknown"),
    }
    assert!(matches!(handle_command(&[0xff, 0xfe]), Command::Invalid));
    // "help" followed by a non-breaking space: the space is trimmed as white space.
    assert!(matches!(handle_command("help\u{a0}".as_bytes()), Command::Help));
    // The first word ends at ASCII white space only.
    match handle_command("helpé x".as_bytes()) {
        Command::Unknown(word) => assert_eq!(text(&word), "helpé"),
        _ => panic!("expected unknown"),
    }
}

#[test]
fn white_space_matches_std() {
    // Trimming agrees with `str::trim` on a line of mixed white space.
    let line = "\u{2003}\techo \u{3000}x\u{85} ";
    match handle_command(line.as_bytes()) {
        Command::Echo(rest) => assert_eq!(text(&rest), line.trim()["echo".len()..].trim_start()),
        _ => panic!("expected echo"),
    }
}
