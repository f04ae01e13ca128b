use lipi::tui::{highlight, key_from_byte, key_from_utf8, pad, Action, Key, TuiEditor};

fn editor() -> TuiEditor {
    TuiEditor::from_text("f.swami", "ab\ncd", 24, 80)
}

#[test]
fn opens_text_as_lines() {
    let e = editor();
    assert_eq!(e.line_count(), 2);
    assert_eq!(e.line(0), "ab");
    assert_eq!(e.line(1), "cd");
    assert_eq!((e.row(), e.col()), (0, 0));
    assert!(!e.modified());
    assert_eq!(e.contents(), "ab\ncd");
}

#[test]
fn typing_then_undo_and_redo() {
    let mut e = editor();
    assert!(matches!(e.handle_key(Key::Char('x')), Action::Continue));
    assert_eq!(e.line(0), "xab");
    assert_eq!(e.col(), 1);
    assert!(e.modified());
    // typing a character records no undo step
    e.handle_key(Key::CtrlZ);
    assert_eq!(e.line(0), "xab");
    assert_eq!(e.status(), ("Nothing to undo", false));
    e.handle_key(Key::Tab);
    assert_eq!(e.line(0), "x    ab");
    e.handle_key(Key::CtrlZ);
    assert_eq!(e.line(0), "xab");
    assert_eq!(e.col(), 1);
    e.handle_key(Key::CtrlY);
    assert_eq!(e.line(0), "x    ab");
}

#[test]
fn tab_inserts_four_spaces() {
    let mut e = editor();
    e.handle_key(Key::Tab);
    assert_eq!(e.line(0), "    ab");
    assert_eq!(e.col(), 4);
}

#[test]
fn duplicate_and_delete_line() {
    let mut e = editor();
    e.handle_key(Key::CtrlD);
    assert_eq!(e.line_count(), 3);
    assert_eq!(e.line(1), "ab");
    assert_eq!(e.row(), 1);
    e.handle_key(Key::CtrlK);
    assert_eq!(e.line_count(), 2);
    assert_eq!(e.clipboard_len(), 1);
    e.handle_key(Key::CtrlV);
    assert_eq!(e.line_count(), 3);
}

#[test]
fn toggle_comment_twice_restores() {
    let mut e = editor();
    e.handle_key(Key::CtrlSlash);
    assert_eq!(e.line(0), "# ab");
    e.handle_key(Key::CtrlSlash);
    assert_eq!(e.line(0), "ab");
}

#[test]
fn backspace_joins_lines() {
    let mut e = editor();
    e.handle_key(Key::Down);
    e.handle_key(Key::Bs);
    assert_eq!(e.line_count(), 1);
    assert_eq!(e.line(0), "abcd");
    assert_eq!(e.col(), 2);
}

#[test]
fn quit_when_unmodified() {
    let mut e = editor();
    assert!(matches!(e.handle_key(Key::CtrlQ), Action::Quit));
    let mut m = editor();
    m.handle_key(Key::Char('z'));
    assert!(matches!(m.handle_key(Key::CtrlQ), Action::ConfirmQuit));
}

#[test]
fn keys_from_bytes() {
    assert!(matches!(key_from_byte(0x1a), Some(Key::CtrlZ)));
    // printable bytes start a UTF-8 character, read in full before decoding
    assert!(key_from_byte(b'a').is_none());
    assert!(matches!(key_from_utf8(vec![b'a']), Key::Char('a')));
    assert!(matches!(key_from_utf8("न".as_bytes().to_vec()), Key::Char('न')));
}

#[test]
fn pad_fills_to_width() {
    assert_eq!(pad("ab", 4), "ab  ");
}

#[test]
fn highlight_keeps_plain_text() {
    let out = highlight("abc", 80, "", false);
    assert!(out.contains("abc"));
}

#[test]
fn highlight_function_name_with_unicode_letter() {
    // a word of letters followed by `(` is a function name
    let out = highlight("éx(1)", 80, "", false);
    assert!(out.contains("\x1b[38;5;183méx"));
}
