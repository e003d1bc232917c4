use merge_conflict_assistant::edits::{TextChange, apply_changes, index_for_position};
use merge_conflict_assistant::position::{Position, Span};

fn span(start_line: u32, start_char: u32, end_line: u32, end_char: u32) -> Span {
    Span {
        start: Position { line: start_line, character: start_char },
        end: Position { line: end_line, character: end_char },
    }
}

fn change(range: Span, text: &str) -> TextChange {
    TextChange { range: Some(range), text: text.as_bytes().to_vec() }
}

#[test]
fn character_position_when_line_is_zero() {
    let position = Position { line: 0, character: 5 };
    let value = b"something\nelse".to_vec();
    assert_eq!(Some(5), index_for_position(&position, &value));
}

#[test]
fn position_includes_line_when_line_is_greater_than_zero() {
    let position = Position { line: 1, character: 5 };
    let value = b"something\nand then more".to_vec();
    // len(something) + 1 for newline + character + 1
    assert_eq!(Some(15), index_for_position(&position, &value));
}

#[test]
fn apply_changes_does_mutate_text_at_beginning() {
    let text = b"initial text\nline 2\nline 3\nlast line".to_vec();
    let changes = vec![change(span(0, 0, 0, 1), "I")];
    let updated = apply_changes(&text, &changes);
    let expected = b"Initial text\nline 2\nline 3\nlast line".to_vec();
    assert_eq!(expected, updated);
}

#[test]
fn apply_changes_does_delete_character() {
    let text = b"initial text\nline 12\nline 3\nlast line".to_vec();
    let changes = vec![change(span(1, 5, 1, 6), "")];
    let updated = apply_changes(&text, &changes);
    let expected = b"initial text\nline 2\nline 3\nlast line".to_vec();
    assert_eq!(expected, updated);
}

#[test]
fn apply_changes_does_add_character() {
    let text = b"initial text\nline 2\nline 3\nlast line".to_vec();
    let changes = vec![change(span(1, 5, 1, 5), "1")];
    let updated = apply_changes(&text, &changes);
    let expected = b"initial text\nline 12\nline 3\nlast line".to_vec();
    assert_eq!(expected, updated);
}

#[test]
fn apply_changes_does_mutate_text() {
    let text = b"initial text\nline 2\nline 3\nlast line".to_vec();
    let changes = vec![
        change(span(1, 5, 1, 5), "1"),
        change(span(1, 6, 1, 6), "2"),
        change(span(2, 5, 2, 5), "2"),
    ];
    let updated = apply_changes(&text, &changes);
    let expected = b"initial text\nline 122\nline 23\nlast line".to_vec();
    assert_eq!(expected, updated);
}

#[test]
fn edits_apply_sequentially_not_independently() {
    let text = b"abc".to_vec();
    let changes = vec![change(span(0, 0, 0, 0), "X"), change(span(0, 1, 0, 1), "\n")];
    let updated = apply_changes(&text, &changes);
    assert_eq!(b"X\nabc".to_vec(), updated);
}

#[test]
fn whole_document_change_replaces_everything() {
    let text = b"old content".to_vec();
    let changes = vec![TextChange { range: None, text: b"new content".to_vec() }];
    let updated = apply_changes(&text, &changes);
    assert_eq!(b"new content".to_vec(), updated);
}

#[test]
fn position_past_last_line_resolves_to_nothing() {
    let value = b"one\ntwo".to_vec();
    let position = Position { line: 5, character: 0 };
    assert_eq!(None, index_for_position(&position, &value));
}

#[test]
fn position_past_end_of_document_resolves_to_nothing() {
    let value = b"one\ntwo".to_vec();
    let position = Position { line: 1, character: 50 };
    assert_eq!(None, index_for_position(&position, &value));
}

#[test]
fn out_of_range_edit_is_skipped_but_batch_continues() {
    let text = b"abc\ndef".to_vec();
    let changes = vec![
        change(span(9, 0, 9, 1), "zzz"),
        change(span(0, 0, 0, 1), "A"),
    ];
    let updated = apply_changes(&text, &changes);
    assert_eq!(b"Abc\ndef".to_vec(), updated);
}

#[test]
fn reversed_range_edit_is_skipped() {
    let text = b"abc\ndef".to_vec();
    let changes = vec![change(span(1, 1, 0, 0), "zzz")];
    let updated = apply_changes(&text, &changes);
    assert_eq!(text, updated);
}
