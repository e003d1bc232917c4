use merge_conflict_assistant::conflict::{Conflict, ConflictRegion, range_for_diagnostic_conflict};
use merge_conflict_assistant::markers;
use merge_conflict_assistant::position::{Position, Span};
use merge_conflict_assistant::scanner::Parser;

fn region(start: u32, end: u32, name: &str) -> ConflictRegion {
    ConflictRegion {
        start,
        end,
        name: if name.is_empty() { None } else { Some(name.as_bytes().to_vec()) },
    }
}

fn fixture_conflict() -> Conflict {
    // regions as recorded from markers at lines 4, 7, 10 and 12, with the
    // closing marker line 80 bytes long
    Conflict {
        ours: region(4, 6, ""),
        theirs: region(10, 12, ""),
        ancestor: Some(region(7, 9, "")),
        last_char: 80,
    }
}

#[test]
fn incomplete_conflict_markers_dropped() {
    let text = b"\nfoo\n<<<<<<<\nbar\nbaz\n".to_vec();
    let conflicts = Parser::parse(&text);
    assert!(conflicts.is_empty());
}

#[test]
fn range_one_line_is_in_conflict() {
    let conflict = fixture_conflict();
    for x in conflict.start().line..=conflict.end().line {
        let range = Span {
            start: Position { line: x, character: 0 },
            end: Position { line: x, character: 1 },
        };
        assert!(conflict.is_in_range(&range), "{range:?}");
    }
}

#[test]
fn range_one_line_is_not_in_conflict() {
    let conflict = fixture_conflict();
    for x in [conflict.start().line - 1, conflict.end().line + 1] {
        let range = Span {
            start: Position { line: x, character: 0 },
            end: Position { line: x, character: 1 },
        };
        assert!(!conflict.is_in_range(&range), "{range:?}");
    }
}

#[test]
fn range_matching_conflict_is_in_conflict() {
    let conflict = fixture_conflict();
    let range = range_for_diagnostic_conflict(&conflict);
    assert!(conflict.is_in_range(&range), "{conflict:?} v. {range:?}");
}

#[test]
fn range_wider_than_conflict_is_not_in_conflict() {
    let conflict = fixture_conflict();
    let range = Span {
        start: Position { line: conflict.start().line - 3, character: 0 },
        end: Position { line: conflict.end().line + 3, character: 1 },
    };
    assert!(!conflict.is_in_range(&range), "{range:?}");
}

#[test]
fn finds_conflict() {
    let input = b"some test
<<<<<<<
    other text.
    more text.
=======
    replaced text.
    last text.
>>>>>>>

the end.
"
    .to_vec();
    let conflicts = Parser::parse(&input);
    assert_eq!(1, conflicts.len());
    let expected = Conflict::new(region(1, 4, ""), region(4, 7, ""), 7).unwrap();
    assert_eq!(expected, conflicts[0]);
}

#[test]
fn finds_conflict_with_names() {
    let input = b"some test
<<<<<<< thing1
    other text.
    more text.
=======
    replaced text.
    last text.
>>>>>>> thing2

<<<<<<< thing1
    abcd
    efg
    hij
=======
    123
    456
    789
>>>>>>> thing2

the end.
"
    .to_vec();
    let conflicts = Parser::parse(&input);
    assert_eq!(2, conflicts.len());
    let expected = Conflict::new(region(1, 4, "thing1"), region(4, 7, "thing2"), 14).unwrap();
    assert_eq!(expected, conflicts[0]);
    let expected = Conflict::new(region(9, 13, "thing1"), region(13, 17, "thing2"), 14).unwrap();
    assert_eq!(expected, conflicts[1]);
}

#[test]
fn finds_diff3_conflict() {
    let input = b"some test
<<<<<<<
    other text.
    more text.
|||||||
    original text.
=======
    replaced text.
    last text.
>>>>>>>

the end.
"
    .to_vec();
    let conflicts = Parser::parse(&input);
    assert_eq!(1, conflicts.len());
    let expected =
        Conflict::new_with_ancestor(region(1, 4, ""), region(6, 9, ""), region(4, 6, ""), 7)
            .unwrap();
    assert_eq!(expected, conflicts[0]);
}

#[test]
fn finds_diff3_conflict_with_names() {
    let input = b"some test
<<<<<<< original
    other text.
    more text.
||||||| ancestor
    original text.
=======
    replaced text.
    last text.
>>>>>>> other

the end.
"
    .to_vec();
    let conflicts = Parser::parse(&input);
    assert_eq!(1, conflicts.len());
    let expected = Conflict::new_with_ancestor(
        region(1, 4, "original"),
        region(6, 9, "other"),
        region(4, 6, "ancestor"),
        13,
    )
    .unwrap();
    assert_eq!(expected, conflicts[0]);
}

#[test]
fn scenario_classic_conflict_positions() {
    let input = b"a\n<<<<<<<\nb\n=======\nc\n>>>>>>>\nd\n".to_vec();
    let conflicts = Parser::parse(&input);
    assert_eq!(1, conflicts.len());
    let c = &conflicts[0];
    assert_eq!(c.ours, region(1, 3, ""));
    assert_eq!(c.theirs, region(3, 5, ""));
    assert!(c.ancestor.is_none());
}

#[test]
fn scenario_diff3_conflict_names() {
    let input = b"<<<<<<< left\na\n||||||| base\nb\n=======\nc\n>>>>>>> right\n".to_vec();
    let conflicts = Parser::parse(&input);
    assert_eq!(1, conflicts.len());
    let c = &conflicts[0];
    assert!(c.ancestor.is_some());
    assert_eq!(c.ours.name, Some(b"left".to_vec()));
    assert_eq!(c.theirs.name, Some(b"right".to_vec()));
    assert_eq!(c.ancestor.as_ref().unwrap().name, Some(b"base".to_vec()));
    assert_eq!(c.ours.end, c.ancestor.as_ref().unwrap().start);
    assert_eq!(c.ancestor.as_ref().unwrap().end, c.theirs.start);
}

#[test]
fn marker_name_is_trimmed() {
    let input = b"<<<<<<<   spaced out  \na\n=======\nb\n>>>>>>>\n".to_vec();
    let conflicts = Parser::parse(&input);
    assert_eq!(1, conflicts.len());
    assert_eq!(conflicts[0].ours.name, Some(b"spaced out".to_vec()));
    assert_eq!(conflicts[0].theirs.name, None);
}

#[test]
fn adjacent_conflicts_parse_independently() {
    let input = b"<<<<<<<\na\n=======\nb\n>>>>>>>\n<<<<<<<\nc\n=======\nd\n>>>>>>>\n".to_vec();
    let conflicts = Parser::parse(&input);
    assert_eq!(2, conflicts.len());
    assert_eq!(conflicts[0].ours.start, 0);
    assert_eq!(conflicts[0].theirs.end, 4);
    assert_eq!(conflicts[1].ours.start, 5);
    assert_eq!(conflicts[1].theirs.end, 9);
}

#[test]
fn empty_input_has_no_conflicts() {
    let input = Vec::new();
    let conflicts = Parser::parse(&input);
    assert!(conflicts.is_empty());
}

#[test]
fn malformed_tail_keeps_earlier_conflicts() {
    let input = b"<<<<<<<\na\n=======\nb\n>>>>>>>\n<<<<<<<\ndangling\n".to_vec();
    let conflicts = Parser::parse(&input);
    assert_eq!(1, conflicts.len());
    assert_eq!(conflicts[0].ours.start, 0);
}

#[test]
fn invalid_regions_are_rejected() {
    assert!(Conflict::new(region(4, 4, ""), region(4, 7, ""), 7).is_err());
    assert!(Conflict::new(region(1, 4, ""), region(5, 7, ""), 7).is_err());
    assert!(
        Conflict::new_with_ancestor(region(4, 6, ""), region(10, 12, ""), region(7, 9, ""), 80)
            .is_err()
    );
}

#[test]
fn incomplete_conflict_markers() {
    let text = b"\nfoo\n<<<<<<<\nbar\nbaz\n".to_vec();
    let result = markers::parse(&text);
    assert!(result.is_err());
}

#[test]
fn parse_finds_conflict_regions() {
    let input = b"some test
<<<<<<<
    other text.
    more text.
=======
    replaced text.
    last text.
>>>>>>>

the end.
"
    .to_vec();
    let merge_conflict = markers::parse(&input).expect("unsuccessful parse").unwrap();
    assert_eq!(1, merge_conflict.conflicts.len());
    let expected =
        markers::ConflictRegion { head: 1, branch: 4, end: 7, ancestor: None };
    assert_eq!(expected, merge_conflict.conflicts[0]);
}

#[test]
fn parse_finds_diff3_conflict_region() {
    let input = b"some test
<<<<<<< original
    other text.
    more text.
||||||| ancestor
    original text.
=======
    replaced text.
    last text.
>>>>>>> other

the end.
"
    .to_vec();
    let merge_conflict = markers::parse(&input).expect("unsuccessful parse").unwrap();
    assert_eq!(1, merge_conflict.conflicts.len());
    let expected =
        markers::ConflictRegion { head: 1, ancestor: Some(4), branch: 6, end: 9 };
    assert_eq!(expected, merge_conflict.conflicts[0]);
    assert_eq!(merge_conflict.head, Some(b"original".to_vec()));
    assert_eq!(merge_conflict.branch, Some(b"other".to_vec()));
    assert_eq!(merge_conflict.ancestor, Some(b"ancestor".to_vec()));
}

#[test]
fn parse_with_no_markers_returns_nothing() {
    let input = b"plain text\nnothing here\n".to_vec();
    let result = markers::parse(&input).expect("unsuccessful parse");
    assert!(result.is_none());
}

#[test]
fn parse_captures_first_names_only() {
    let input = b"<<<<<<<\na\n=======\nb\n>>>>>>> second\n<<<<<<< first\nc\n=======\nd\n>>>>>>>\n"
        .to_vec();
    let merge_conflict = markers::parse(&input).expect("unsuccessful parse").unwrap();
    assert_eq!(2, merge_conflict.conflicts.len());
    assert_eq!(merge_conflict.head, Some(b"first".to_vec()));
    assert_eq!(merge_conflict.branch, Some(b"second".to_vec()));
    assert_eq!(merge_conflict.ancestor, None);
}

#[test]
fn marker_region_ranges() {
    let c = markers::ConflictRegion { head: 4, branch: 10, ancestor: Some(6), end: 12 };
    assert_eq!(c.head_range(), (4, 6));
    assert_eq!(c.branch_range(), (10, 12));
    assert_eq!(c.ancestor_range(), Some((6, 10)));
    let plain = markers::ConflictRegion { head: 1, branch: 4, ancestor: None, end: 7 };
    assert_eq!(plain.head_range(), (1, 4));
    assert_eq!(plain.ancestor_range(), None);
}

#[test]
fn marker_region_in_range() {
    let c = markers::ConflictRegion { head: 4, branch: 10, ancestor: Some(6), end: 12 };
    for x in 4..=12 {
        let range = Span {
            start: Position { line: x, character: 0 },
            end: Position { line: x, character: 1 },
        };
        assert!(c.is_in_range(&range), "{range:?}");
    }
    for x in [3u32, 13] {
        let range = Span {
            start: Position { line: x, character: 0 },
            end: Position { line: x, character: 1 },
        };
        assert!(!c.is_in_range(&range), "{range:?}");
    }
    let diag = markers::range_for_diagnostic_conflict(&c);
    assert_eq!(diag.start, Position { line: 4, character: 0 });
    assert_eq!(diag.end, Position { line: 13, character: 0 });
    assert!(c.is_in_range(&diag));
}
