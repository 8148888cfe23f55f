use ngide::pagination::{display_rows, paginate};
use ngide::command::command_intent;
use ngide::KeyAction;

#[test]
fn paginate_splits_complete_lines() {
    let chunk = b"abc\ndef\nghi\n".to_vec();
    let (lines, consumed) = paginate(&chunk, 4);
    assert_eq!(lines, vec![b"abc".to_vec(), b"def".to_vec(), b"ghi".to_vec()]);
    assert_eq!(consumed, 12);
}

#[test]
fn paginate_discards_incomplete_tail() {
    let chunk = b"abc\nde".to_vec();
    let (lines, consumed) = paginate(&chunk, 4);
    assert_eq!(lines, vec![b"abc".to_vec()]);
    assert_eq!(consumed, 4);
}

#[test]
fn paginate_never_exceeds_viewport_rows() {
    let chunk = b"a\nb\nc\nd\ne\n".to_vec();
    let (lines, consumed) = paginate(&chunk, 2);
    assert_eq!(lines.len(), 2);
    assert_eq!(lines, vec![b"a".to_vec(), b"b".to_vec()]);
    assert_eq!(consumed, 4);
}

#[test]
fn paginate_empty_chunk() {
    let (lines, consumed) = paginate(&Vec::new(), 5);
    assert!(lines.is_empty());
    assert_eq!(consumed, 0);
}

#[test]
fn paginate_zero_rows() {
    let chunk = b"abc\n".to_vec();
    let (lines, consumed) = paginate(&chunk, 0);
    assert!(lines.is_empty());
    assert_eq!(consumed, 0);
}

#[test]
fn paginate_keeps_empty_lines() {
    let chunk = b"\n\nx\n".to_vec();
    let (lines, consumed) = paginate(&chunk, 5);
    assert_eq!(lines, vec![b"".to_vec(), b"".to_vec(), b"x".to_vec()]);
    assert_eq!(consumed, 4);
}

#[test]
fn render_is_a_pure_function_of_its_inputs() {
    let chunk = b"one\ntwo\nthree".to_vec();
    let first = paginate(&chunk, 3);
    let second = paginate(&chunk, 3);
    assert_eq!(first, second);
}

#[test]
fn display_pads_below_end_of_file() {
    let chunk = b"abc\n".to_vec();
    let (lines, _) = paginate(&chunk, 3);
    let grid = display_rows(&lines, 3);
    assert_eq!(grid, vec![b"abc".to_vec(), b"~".to_vec(), b"~".to_vec()]);
}

#[test]
fn command_intent_reads_write_and_quit() {
    assert_eq!(command_intent(&vec!['w']), KeyAction::Write);
    assert_eq!(command_intent(&vec!['q']), KeyAction::Quit);
    assert_eq!(command_intent(&vec!['w', 'q']), KeyAction::WriteQuit);
    assert_eq!(command_intent(&vec!['q', 'w']), KeyAction::WriteQuit);
    assert_eq!(command_intent(&vec!['x', 'q']), KeyAction::Quit);
    assert_eq!(command_intent(&vec![]), KeyAction::Nothing);
    assert_eq!(command_intent(&vec!['x', 'y']), KeyAction::Nothing);
}
