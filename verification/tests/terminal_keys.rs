use pepper::platform::Key;
use pepper::platforms::unix_utils::parse_terminal_keys;

fn parse(bytes: &[u8], backspace_code: u8) -> Vec<Key> {
    let mut keys = Vec::new();
    parse_terminal_keys(bytes, backspace_code, &mut keys);
    keys
}

#[test]
fn printable_ascii_gives_one_char_per_byte() {
    assert_eq!(
        vec![Key::Char('a'), Key::Char('B'), Key::Char(' '), Key::Char('~')],
        parse(b"aB ~", 0x7f)
    );
}

#[test]
fn empty_input_gives_no_keys() {
    assert_eq!(Vec::<Key>::new(), parse(b"", 0x7f));
}

#[test]
fn keys_are_appended_after_existing_ones() {
    let mut keys = vec![Key::Enter];
    parse_terminal_keys(b"x", 0x7f, &mut keys);
    assert_eq!(vec![Key::Enter, Key::Char('x')], keys);
}

#[test]
fn arrow_and_page_sequences() {
    assert_eq!(
        vec![Key::Up, Key::Down, Key::Right, Key::Left, Key::PageUp, Key::PageDown],
        parse(b"\x1b[A\x1b[B\x1b[C\x1b[D\x1b[5~\x1b[6~", 0x7f)
    );
}

#[test]
fn home_end_and_delete_sequences() {
    assert_eq!(
        vec![Key::Home, Key::Home, Key::Home, Key::Home, Key::End, Key::End, Key::End, Key::End, Key::Delete],
        parse(b"\x1b[1~\x1b[7~\x1b[H\x1bOH\x1b[4~\x1b[8~\x1b[F\x1bOF\x1b[3~", 0x7f)
    );
}

#[test]
fn lone_or_unknown_escape_is_esc() {
    assert_eq!(vec![Key::Esc], parse(b"\x1b", 0x7f));
    assert_eq!(vec![Key::Esc, Key::Char('['), Key::Char('5')], parse(b"\x1b[5", 0x7f));
    assert_eq!(vec![Key::Esc, Key::Char('x')], parse(b"\x1bx", 0x7f));
}

#[test]
fn control_bytes() {
    assert_eq!(
        vec![Key::Enter, Key::Tab, Key::Backspace, Key::Ctrl('a'), Key::Ctrl('z'), Key::Ctrl('`')],
        parse(b"\r\t\x08\x01\x1a\x00", 0x7f)
    );
}

#[test]
fn backspace_code_comes_first() {
    assert_eq!(vec![Key::Backspace], parse(b"\x7f", 0x7f));
    assert_eq!(vec![Key::Delete], parse(b"\x7f", 0x08));
    assert_eq!(vec![Key::Backspace], parse(b"\x1b", 0x1b));
}

#[test]
fn non_ascii_run_gives_its_first_char() {
    assert_eq!(vec![Key::Char('é'), Key::Char('a')], parse("éa".as_bytes(), 0x7f));
    assert_eq!(vec![Key::Char('é'), Key::Char('!')], parse("éè!".as_bytes(), 0x7f));
    assert_eq!(vec![Key::Char('日')], parse("日".as_bytes(), 0x7f));
}

#[test]
fn invalid_utf8_gives_no_key() {
    assert_eq!(vec![Key::NoKey, Key::Char('a')], parse(b"\xff\xfea", 0x7f));
}
