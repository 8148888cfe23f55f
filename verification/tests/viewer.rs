use ngide::widget::TextWidget;
use ngide::{InputMode, KeyAction, KeyEvent};

fn sample() -> Vec<u8> {
    b"abc\ndef\nghi\n".to_vec()
}

fn rendered(rows: u16, cols: u16, content: &[u8]) -> TextWidget {
    let mut w = TextWidget::new(rows, cols);
    let chunk = content.to_vec();
    w.render(&chunk);
    w
}

#[test]
fn scenario_initial_render() {
    let content = sample();
    let mut w = TextWidget::new(4, 10);
    let consumed = w.render(&content);
    assert_eq!(w.buff, vec![b"abc".to_vec(), b"def".to_vec(), b"ghi".to_vec()]);
    assert_eq!(consumed, 12);
    assert!(!w.is_update);
    let grid = ngide::pagination::display_rows(&w.buff, w.rows);
    assert_eq!(grid.len(), 4);
    assert_eq!(grid[0], b"abc".to_vec());
    assert_eq!(grid[3], b"~".to_vec());
}

#[test]
fn scenario_move_down_to_last_row() {
    let content = sample();
    let mut w = rendered(4, 10, &content);
    w.key_cb(KeyEvent::Char('j'));
    w.key_cb(KeyEvent::Char('j'));
    assert_eq!(w.cursor_row, 2);
    assert_eq!(w.offset, 0);
    assert!(w.lines_len.is_empty());
}

#[test]
fn scenario_scroll_forward_from_last_row() {
    let content = sample();
    let mut w = rendered(4, 10, &content);
    w.key_cb(KeyEvent::Char('j'));
    w.key_cb(KeyEvent::Char('j'));
    assert_eq!(w.cursor_row, 2);
    // one more move-down from the last content row fires the forward scroll
    w.key_cb(KeyEvent::Char('j'));
    assert_eq!(w.offset, 4);
    assert_eq!(w.lines_len, vec![4]);
    assert!(w.is_update);
    let chunk = content[4..].to_vec();
    w.render(&chunk);
    assert_eq!(w.buff, vec![b"def".to_vec(), b"ghi".to_vec()]);
    assert_eq!(w.cursor_row, 1);
}

#[test]
fn scenario_scroll_back_restores_window() {
    let content = sample();
    let mut w = rendered(4, 10, &content);
    w.key_cb(KeyEvent::Char('j'));
    w.key_cb(KeyEvent::Char('j'));
    w.key_cb(KeyEvent::Char('j'));
    let chunk = content[4..].to_vec();
    w.render(&chunk);
    // climb back to the top row, then one more move-up pops the history
    w.key_cb(KeyEvent::Char('k'));
    assert_eq!(w.cursor_row, 0);
    assert_eq!(w.offset, 4);
    w.key_cb(KeyEvent::Char('k'));
    assert_eq!(w.offset, 0);
    assert!(w.lines_len.is_empty());
    w.render(&content);
    assert_eq!(w.buff, vec![b"abc".to_vec(), b"def".to_vec(), b"ghi".to_vec()]);
}

#[test]
fn scenario_command_write_quit() {
    let content = sample();
    let mut w = rendered(4, 10, &content);
    assert_eq!(w.key_cb(KeyEvent::Char(':')), KeyAction::Nothing);
    assert_eq!(w.mode, InputMode::Command);
    assert_eq!(w.key_cb(KeyEvent::Char('w')), KeyAction::Echo('w'));
    assert_eq!(w.key_cb(KeyEvent::Char('q')), KeyAction::Echo('q'));
    // the finished command asks for exactly one write, then termination
    assert_eq!(w.key_cb(KeyEvent::Enter), KeyAction::WriteQuit);
    assert_eq!(w.mode, InputMode::Normal);
    assert!(w.pending.is_empty());
}

#[test]
fn scenario_command_unknown_is_ignored() {
    let content = sample();
    let mut w = rendered(4, 10, &content);
    w.key_cb(KeyEvent::Char(':'));
    assert_eq!(w.key_cb(KeyEvent::Char('x')), KeyAction::Echo('x'));
    assert_eq!(w.key_cb(KeyEvent::Enter), KeyAction::Nothing);
    assert_eq!(w.mode, InputMode::Normal);
    assert!(w.pending.is_empty());
}

#[test]
fn command_backspace_erases() {
    let content = sample();
    let mut w = rendered(4, 10, &content);
    w.key_cb(KeyEvent::Char(':'));
    w.key_cb(KeyEvent::Char('q'));
    assert_eq!(w.key_cb(KeyEvent::Backspace), KeyAction::Erase);
    assert_eq!(w.key_cb(KeyEvent::Enter), KeyAction::Nothing);
}

#[test]
fn command_backspace_on_empty_pending() {
    let content = sample();
    let mut w = rendered(4, 10, &content);
    w.key_cb(KeyEvent::Char(':'));
    assert_eq!(w.key_cb(KeyEvent::Backspace), KeyAction::Nothing);
    assert!(w.pending.is_empty());
}

#[test]
fn cursor_clamp_left_right() {
    let content = sample();
    let mut w = rendered(4, 10, &content);
    for _ in 0..5 {
        w.key_cb(KeyEvent::Char('l'));
        assert!(w.cursor_col <= 2);
    }
    assert_eq!(w.cursor_col, 2);
    for _ in 0..4 {
        w.key_cb(KeyEvent::Char('h'));
    }
    assert_eq!(w.cursor_col, 0);
}

#[test]
fn cursor_clamps_onto_shorter_line() {
    let content = b"long line\nab\ncd\n".to_vec();
    let mut w = rendered(4, 20, &content);
    for _ in 0..8 {
        w.key_cb(KeyEvent::Char('l'));
    }
    assert_eq!(w.cursor_col, 8);
    // moving down onto "ab" clamps the column onto its last cell
    w.key_cb(KeyEvent::Char('j'));
    assert_eq!(w.cursor_row, 1);
    assert_eq!(w.cursor_col, 1);
}

#[test]
fn scroll_shortcut_keys_are_inverse() {
    let content = sample();
    let mut w = rendered(4, 10, &content);
    w.key_cb(KeyEvent::Char('A'));
    assert_eq!(w.offset, 4);
    assert_eq!(w.lines_len, vec![4]);
    w.key_cb(KeyEvent::Char('B'));
    assert_eq!(w.offset, 0);
    assert!(w.lines_len.is_empty());
    assert_eq!(w.cursor_row, 0);
}

#[test]
fn scroll_back_without_history_does_nothing() {
    let content = sample();
    let mut w = rendered(4, 10, &content);
    w.key_cb(KeyEvent::Char('B'));
    assert_eq!(w.offset, 0);
    assert!(w.lines_len.is_empty());
    w.key_cb(KeyEvent::Char('k'));
    assert_eq!(w.offset, 0);
    assert_eq!(w.cursor_row, 0);
}

#[test]
fn enter_moves_down_but_never_scrolls() {
    let content = sample();
    let mut w = rendered(4, 10, &content);
    w.key_cb(KeyEvent::Enter);
    w.key_cb(KeyEvent::Enter);
    assert_eq!(w.cursor_row, 2);
    w.key_cb(KeyEvent::Enter);
    assert_eq!(w.cursor_row, 2);
    assert_eq!(w.offset, 0);
    assert!(w.lines_len.is_empty());
}

#[test]
fn insert_key_reports_insert_action() {
    let content = sample();
    let mut w = rendered(4, 10, &content);
    assert_eq!(w.key_cb(KeyEvent::Char('i')), KeyAction::Insert);
    assert_eq!(w.mode, InputMode::Normal);
}

#[test]
fn cursor_offset_counts_lines_above() {
    let content = sample();
    let mut w = rendered(4, 10, &content);
    w.key_cb(KeyEvent::Char('j'));
    w.key_cb(KeyEvent::Char('j'));
    w.key_cb(KeyEvent::Char('l'));
    assert_eq!(w.cursor_row, 2);
    assert_eq!(w.cursor_col, 1);
    // two lines of three bytes, each with its newline, plus the column
    assert_eq!(w.cursor_offset(), 9);
    assert_eq!(w.insert_mode(), 10);
}

#[test]
fn write_serializes_window_with_newlines() {
    let content = sample();
    let w = rendered(4, 10, &content);
    assert_eq!(w.write(), content);
}

#[test]
fn write_back_round_trip() {
    let content = b"alpha\nbeta\ngamma\ndelta\n".to_vec();
    let mut w = rendered(8, 30, &content);
    let written = w.write();
    let before = w.buff.clone();
    w.resize_cb(9, 30);
    w.resize_cb(8, 30);
    assert!(w.is_update);
    w.render(&written);
    assert_eq!(w.buff, before);
}

#[test]
fn resize_marks_render_pending() {
    let content = sample();
    let mut w = rendered(4, 10, &content);
    w.resize_cb(4, 10);
    assert!(!w.is_update);
    w.resize_cb(5, 12);
    assert!(w.is_update);
    assert_eq!(w.rows, 5);
    assert_eq!(w.cols, 12);
}

#[test]
fn render_on_empty_file() {
    let mut w = TextWidget::new(3, 10);
    let consumed = w.render(&Vec::new());
    assert_eq!(consumed, 0);
    assert!(w.buff.is_empty());
    let grid = ngide::pagination::display_rows(&w.buff, w.rows);
    assert_eq!(grid, vec![b"~".to_vec(), b"~".to_vec(), b"~".to_vec()]);
    // keys on an empty window leave everything at zero
    let mut w2 = w;
    w2.key_cb(KeyEvent::Char('j'));
    w2.key_cb(KeyEvent::Char('k'));
    w2.key_cb(KeyEvent::Char('l'));
    w2.key_cb(KeyEvent::Char('h'));
    assert_eq!((w2.cursor_row, w2.cursor_col, w2.offset), (0, 0, 0));
}

#[test]
fn render_only_when_pending() {
    let content = sample();
    let mut w = rendered(4, 10, &content);
    let before = w.buff.clone();
    let other = b"zzz\n".to_vec();
    // with no render pending the pass changes nothing
    let consumed = w.render(&other);
    assert_eq!(consumed, 0);
    assert_eq!(w.buff, before);
}
