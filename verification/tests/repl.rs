use lipi::repl::{candidate, command, history_entry, history_start, needs_more, open_bracket_depth, output_delta, Command};

#[test]
fn repl_commands() {
    assert_eq!(command("  बाहर "), Command::Exit);
    assert_eq!(command("quit"), Command::Exit);
    assert_eq!(command(":history"), Command::History);
    assert_eq!(command(":सहायता"), Command::Help);
    assert_eq!(command(":reset"), Command::Reset);
    assert_eq!(command("   "), Command::Blank);
    assert_eq!(command("बताओ 1"), Command::Code);
}

#[test]
fn repl_bracket_depth() {
    assert_eq!(open_bracket_depth("f(a, [1, {2"), 3);
    assert_eq!(open_bracket_depth("x है \"(\" + \"[\""), 0);
    assert_eq!(open_bracket_depth("s है \"a\\\"(\""), 0);
    assert_eq!(open_bracket_depth("))"), -2);
}

#[test]
fn repl_continuation() {
    assert!(needs_more("यदि x:  "));
    assert!(needs_more("सूची है [1, 2,"));
    assert!(!needs_more("बताओ (1)"));
}

#[test]
fn repl_session_text() {
    assert_eq!(candidate("", "बताओ 1"), "बताओ 1");
    assert_eq!(candidate("x है 1", "बताओ x"), "x है 1\nबताओ x");
    assert_eq!(output_delta("1\n2\n", "1\n"), "2\n");
    assert_eq!(output_delta("9\n", "1\n"), "9\n");
    assert_eq!(history_entry("यदि x:\n    बताओ x"), "यदि x: ↵     बताओ x");
    assert_eq!(history_start(25), 5);
    assert_eq!(history_start(3), 0);
}
