use merge_conflict_assistant::diagnostics::{next_cache, should_publish};
use merge_conflict_assistant::edits::TextChange;
use merge_conflict_assistant::position::{Position, Span};
use merge_conflict_assistant::scanner::Parser;
use merge_conflict_assistant::session::MergeConflictAssistant;
use merge_conflict_assistant::store::ConflictCache;

fn uri() -> Vec<u8> {
    b"file://foo.txt".to_vec()
}

fn conflict_text() -> Vec<u8> {
    b"a\n<<<<<<<\nb\n=======\nc\n>>>>>>>\nd\n".to_vec()
}

fn resolved_text() -> Vec<u8> {
    b"a\nb\nd\n".to_vec()
}

fn span(start_line: u32, start_char: u32, end_line: u32, end_char: u32) -> Span {
    Span {
        start: Position { line: start_line, character: start_char },
        end: Position { line: end_line, character: end_char },
    }
}

fn whole_document_change(text: &[u8]) -> Vec<TextChange> {
    vec![TextChange { range: None, text: text.to_vec() }]
}

#[test]
fn open_tracks_document_unparsed() {
    let mut assistant = MergeConflictAssistant::new();
    assistant.on_did_open(uri(), 1, resolved_text());
    let i = assistant.documents.index_of(&uri()).unwrap();
    let state = &assistant.documents.docs[i].state;
    assert_eq!(1, state.version);
    assert_eq!(resolved_text(), state.content);
    assert!(matches!(state.conflicts, ConflictCache::Unparsed));
}

#[test]
fn duplicate_open_does_not_clobber_state() {
    let mut assistant = MergeConflictAssistant::new();
    assistant.on_did_open(uri(), 1, conflict_text());
    assistant.on_did_open(uri(), 9, resolved_text());
    let i = assistant.documents.index_of(&uri()).unwrap();
    let state = &assistant.documents.docs[i].state;
    assert_eq!(1, state.version);
    assert_eq!(conflict_text(), state.content);
}

#[test]
fn change_applies_edits_and_updates_version() {
    let mut assistant = MergeConflictAssistant::new();
    assistant.on_did_open(uri(), 1, resolved_text());
    let accepted = assistant.on_did_change(&uri(), 2, &whole_document_change(&conflict_text()));
    assert!(accepted);
    let i = assistant.documents.index_of(&uri()).unwrap();
    let state = &assistant.documents.docs[i].state;
    assert_eq!(2, state.version);
    assert_eq!(conflict_text(), state.content);
}

#[test]
fn stale_change_leaves_content_unchanged() {
    let mut assistant = MergeConflictAssistant::new();
    assistant.on_did_open(uri(), 5, resolved_text());
    let accepted = assistant.on_did_change(&uri(), 3, &whole_document_change(&conflict_text()));
    assert!(!accepted);
    let i = assistant.documents.index_of(&uri()).unwrap();
    let state = &assistant.documents.docs[i].state;
    assert_eq!(5, state.version);
    assert_eq!(resolved_text(), state.content);
}

#[test]
fn change_for_unknown_document_is_ignored() {
    let mut assistant = MergeConflictAssistant::new();
    let accepted = assistant.on_did_change(&uri(), 1, &whole_document_change(b"x"));
    assert!(!accepted);
}

#[test]
fn close_forgets_document() {
    let mut assistant = MergeConflictAssistant::new();
    assistant.on_did_open(uri(), 1, conflict_text());
    assistant.on_did_close(&uri());
    assert!(assistant.documents.index_of(&uri()).is_none());
    assert!(assistant.on_document_update(&uri(), 1).is_none());
}

#[test]
fn shutdown_is_remembered() {
    let mut assistant = MergeConflictAssistant::new();
    assert!(!assistant.shutdown_requested);
    let already = assistant.on_shutdown();
    assert!(!already);
    assert!(assistant.shutdown_requested);
    let already = assistant.on_shutdown();
    assert!(already);
}

#[test]
fn update_publishes_one_diagnostic_for_conflict() {
    let mut assistant = MergeConflictAssistant::new();
    assistant.on_did_open(uri(), 1, conflict_text());
    let update = assistant.on_document_update(&uri(), 1).unwrap();
    assert_eq!(1, update.version);
    assert_eq!(1, update.diagnostics.len());
    assert_eq!(span(1, 0, 6, 0), update.diagnostics[0].range);
}

#[test]
fn update_without_conflicts_stays_silent() {
    let mut assistant = MergeConflictAssistant::new();
    assistant.on_did_open(uri(), 1, resolved_text());
    assert!(assistant.on_document_update(&uri(), 1).is_none());
}

#[test]
fn resolving_all_conflicts_publishes_empty_diagnostics() {
    let mut assistant = MergeConflictAssistant::new();
    assistant.on_did_open(uri(), 1, conflict_text());
    let first = assistant.on_document_update(&uri(), 1).unwrap();
    assert_eq!(1, first.diagnostics.len());
    let accepted = assistant.on_did_change(&uri(), 2, &whole_document_change(&resolved_text()));
    assert!(accepted);
    let second = assistant.on_document_update(&uri(), 2).unwrap();
    assert_eq!(2, second.version);
    assert!(second.diagnostics.is_empty());
}

#[test]
fn inserting_conflict_starts_publishing() {
    let mut assistant = MergeConflictAssistant::new();
    assistant.on_did_open(uri(), 1, resolved_text());
    assert!(assistant.on_document_update(&uri(), 1).is_none());
    let block = b"<<<<<<<\nX\n=======\nY\n>>>>>>>\n";
    let changes = vec![TextChange { range: Some(span(1, 0, 1, 0)), text: block.to_vec() }];
    let accepted = assistant.on_did_change(&uri(), 2, &changes);
    assert!(accepted);
    let update = assistant.on_document_update(&uri(), 2).unwrap();
    assert_eq!(1, update.diagnostics.len());
    assert_eq!(span(1, 0, 6, 0), update.diagnostics[0].range);
}

#[test]
fn edit_outside_markers_does_not_republish() {
    let mut assistant = MergeConflictAssistant::new();
    assistant.on_did_open(uri(), 1, conflict_text());
    assert!(assistant.on_document_update(&uri(), 1).is_some());
    let changes = vec![TextChange { range: Some(span(6, 1, 6, 1)), text: b"x".to_vec() }];
    let accepted = assistant.on_did_change(&uri(), 2, &changes);
    assert!(accepted);
    assert!(assistant.on_document_update(&uri(), 2).is_none());
}

#[test]
fn stale_update_is_ignored() {
    let mut assistant = MergeConflictAssistant::new();
    assistant.on_did_open(uri(), 6, conflict_text());
    assert!(assistant.on_document_update(&uri(), 3).is_none());
    let i = assistant.documents.index_of(&uri()).unwrap();
    assert_eq!(6, assistant.documents.docs[i].state.version);
}

#[test]
fn code_action_inside_span_offers_quick_fixes() {
    let mut assistant = MergeConflictAssistant::new();
    assistant.on_did_open(uri(), 1, conflict_text());
    assistant.on_document_update(&uri(), 1);
    let actions = assistant.on_code_action(&uri(), &span(2, 0, 2, 1));
    assert_eq!(3, actions.len());
    assert_eq!(b"Keep OURS".to_vec(), actions[0].title);
    assert_eq!(b"Keep THEIRS".to_vec(), actions[1].title);
    assert_eq!(b"Keep both".to_vec(), actions[2].title);
    for action in &actions {
        assert_eq!(span(1, 0, 6, 0), action.edit.range);
        assert_eq!(span(1, 0, 6, 0), action.diagnostic.range);
        assert!(!action.preferred);
    }
    assert_eq!(b"b\n".to_vec(), actions[0].edit.new_text);
    assert_eq!(b"c\n".to_vec(), actions[1].edit.new_text);
    assert_eq!(b"b\nc\n".to_vec(), actions[2].edit.new_text);
}

#[test]
fn code_action_uses_marker_labels_in_titles() {
    let mut assistant = MergeConflictAssistant::new();
    let text = b"<<<<<<< left\na\n||||||| base\nb\n=======\nc\n>>>>>>> right\n".to_vec();
    assistant.on_did_open(uri(), 1, text);
    assistant.on_document_update(&uri(), 1);
    let actions = assistant.on_code_action(&uri(), &span(0, 0, 0, 1));
    assert_eq!(4, actions.len());
    assert_eq!(b"Keep left".to_vec(), actions[0].title);
    assert_eq!(b"Keep right".to_vec(), actions[1].title);
    assert_eq!(b"Keep both".to_vec(), actions[2].title);
    assert_eq!(b"Keep base".to_vec(), actions[3].title);
    assert_eq!(b"a\n".to_vec(), actions[0].edit.new_text);
    assert_eq!(b"c\n".to_vec(), actions[1].edit.new_text);
    assert_eq!(b"a\nc\n".to_vec(), actions[2].edit.new_text);
    assert_eq!(b"b\n".to_vec(), actions[3].edit.new_text);
}

#[test]
fn code_action_outside_span_is_empty() {
    let mut assistant = MergeConflictAssistant::new();
    assistant.on_did_open(uri(), 1, conflict_text());
    assistant.on_document_update(&uri(), 1);
    assert!(assistant.on_code_action(&uri(), &span(0, 0, 0, 1)).is_empty());
}

#[test]
fn code_action_without_stored_parse_is_empty() {
    let mut assistant = MergeConflictAssistant::new();
    assistant.on_did_open(uri(), 1, conflict_text());
    assert!(assistant.on_code_action(&uri(), &span(2, 0, 2, 1)).is_empty());
}

#[test]
fn code_action_for_unknown_document_is_empty() {
    let assistant = MergeConflictAssistant::new();
    assert!(assistant.on_code_action(&uri(), &span(2, 0, 2, 1)).is_empty());
}

#[test]
fn publish_decision_table() {
    let conflicts = Parser::parse(&conflict_text());
    assert_eq!(1, conflicts.len());
    let none: Vec<_> = Vec::new();

    assert!(!should_publish(&ConflictCache::Unparsed, &none));
    assert!(should_publish(&ConflictCache::Unparsed, &conflicts));
    assert!(!should_publish(&ConflictCache::Empty, &none));
    assert!(should_publish(&ConflictCache::Empty, &conflicts));
    assert!(should_publish(&ConflictCache::Found(conflicts.clone()), &none));
    assert!(!should_publish(&ConflictCache::Found(conflicts.clone()), &conflicts));
    let other = Parser::parse(&b"x\nx\n<<<<<<<\nb\n=======\nc\n>>>>>>>\n".to_vec());
    assert!(should_publish(&ConflictCache::Found(other), &conflicts));
}

#[test]
fn cache_reconciliation_table() {
    let conflicts = Parser::parse(&conflict_text());
    let none: Vec<_> = Vec::new();

    assert!(matches!(next_cache(&ConflictCache::Unparsed, none.clone()), ConflictCache::Unparsed));
    assert!(matches!(next_cache(&ConflictCache::Empty, none.clone()), ConflictCache::Unparsed));
    assert!(matches!(
        next_cache(&ConflictCache::Found(conflicts.clone()), none),
        ConflictCache::Empty
    ));
    match next_cache(&ConflictCache::Unparsed, conflicts.clone()) {
        ConflictCache::Found(cs) => assert_eq!(conflicts, cs),
        other => panic!("unexpected cache: {other:?}"),
    }
}
