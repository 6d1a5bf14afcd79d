use frog::buffer::Buffer;
use frog::console::{clear_cursors, execute_command, extract_matches, extract_spans, ConsoleRequest};
use frog::cursor::Cursor;

fn script(r: ConsoleRequest) -> String {
    match r {
        ConsoleRequest::Script(s) => s,
        _ => panic!("expected a script"),
    }
}

#[test]
fn text_without_a_colon_is_no_command() {
    let mut b = Buffer::new();
    assert_eq!(script(execute_command(&mut b, "q")), "");
    assert_eq!(script(execute_command(&mut b, ":")), "");
    assert_eq!(script(execute_command(&mut b, "")), "");
}

#[test]
fn quit_and_write_are_requests() {
    let mut b = Buffer::new();
    assert!(matches!(execute_command(&mut b, ":q"), ConsoleRequest::Quit));
    assert!(matches!(execute_command(&mut b, ":quit"), ConsoleRequest::Quit));
    assert!(matches!(execute_command(&mut b, ":w"), ConsoleRequest::Write));
    assert!(matches!(execute_command(&mut b, ":write"), ConsoleRequest::Write));
}

#[test]
fn edit_joins_its_arguments_into_a_path() {
    let mut b = Buffer::new();
    match execute_command(&mut b, ":e my notes.txt") {
        ConsoleRequest::Edit(p) => assert_eq!(p, "my notes.txt"),
        _ => panic!("expected an edit"),
    }
    match execute_command(&mut b, ":edit a.txt") {
        ConsoleRequest::Edit(p) => assert_eq!(p, "a.txt"),
        _ => panic!("expected an edit"),
    }
}

#[test]
fn unknown_commands_do_nothing() {
    let mut b = Buffer::new();
    assert_eq!(script(execute_command(&mut b, ":zz top")), "");
    assert_eq!(b.lines.len(), 3);
}

#[test]
fn cc_keeps_the_first_cursor() {
    let mut b = Buffer::new();
    b.cursors.push(Box::new(Cursor { line: 2, index: 0, line_range: 0, index_range: 0, range: false }));
    assert_eq!(script(execute_command(&mut b, ":cc")), "");
    assert_eq!(b.cursors.len(), 1);
    assert_eq!(b.cursors[0].line, 0);
    clear_cursors(&mut b);
    assert_eq!(b.cursors.len(), 1);
}

#[test]
fn x_selects_each_match() {
    let mut b = Buffer::new();
    assert_eq!(script(execute_command(&mut b, ":x Text")), "changeMode(\"selection\")");
    assert_eq!(b.cursors.len(), 1);
    assert_eq!(*b.cursors[0], Cursor { line: 2, index: 3, line_range: 2, index_range: 0, range: true });
}

#[test]
fn x_selects_every_match() {
    let mut b = Buffer::new();
    assert_eq!(script(execute_command(&mut b, ":x [a-z]t")), "changeMode(\"selection\")");
    let found: Vec<(usize, usize, usize, usize)> =
        b.cursors.iter().map(|c| (c.line, c.index, c.line_range, c.index_range)).collect();
    assert_eq!(found, vec![(0, 4, 0, 3), (2, 3, 2, 2)]);
}

#[test]
fn x_without_matches_keeps_the_cursors() {
    let mut b = Buffer::new();
    assert_eq!(script(execute_command(&mut b, ":x nothing")), "");
    assert_eq!(b.cursors.len(), 1);
    assert!(!b.cursors[0].range);
}

#[test]
fn x_with_a_bad_pattern_is_rejected() {
    let mut b = Buffer::new();
    assert!(matches!(execute_command(&mut b, ":x ("), ConsoleRequest::Rejected));
    assert_eq!(b.cursors.len(), 1);
}

#[test]
fn x_with_an_empty_match_at_the_start_is_rejected() {
    let mut b = Buffer::new();
    assert!(matches!(execute_command(&mut b, ":x ^"), ConsoleRequest::Rejected));
}

#[test]
fn extract_spans_makes_selections() {
    let mut b = Buffer::new();
    let r = extract_spans(&mut b, &vec![(8, 14), (16, 18)]);
    assert_eq!(r.as_deref(), Some("changeMode(\"selection\")"));
    let found: Vec<(usize, usize, usize, usize, bool)> =
        b.cursors.iter().map(|c| (c.line, c.index, c.line_range, c.index_range, c.range)).collect();
    assert_eq!(found, vec![(0, 13, 0, 8, true), (2, 1, 2, 0, true)]);
    let mut b = Buffer::new();
    assert_eq!(extract_spans(&mut b, &vec![]), None);
    assert_eq!(b.cursors.len(), 1);
}

#[test]
fn extract_matches_selects_each_found_span() {
    let mut b = Buffer::new();
    let r = extract_matches(&mut b, &vec![Some((0, 7)), Some((16, 20))]);
    assert_eq!(script(r), "changeMode(\"selection\")");
    assert_eq!(b.cursors.len(), 2);
    assert_eq!(*b.cursors[0], Cursor { line: 0, index: 6, line_range: 0, index_range: 0, range: true });
    assert_eq!(*b.cursors[1], Cursor { line: 2, index: 3, line_range: 2, index_range: 0, range: true });
}

#[test]
fn extract_matches_without_matches_keeps_the_cursors() {
    let mut b = Buffer::new();
    assert_eq!(script(extract_matches(&mut b, &vec![])), "");
    assert_eq!(b.cursors.len(), 1);
    assert_eq!(b.cursors[0].range, false);
}

#[test]
fn extract_matches_refuses_a_span_that_cannot_be_selected() {
    let mut b = Buffer::new();
    assert!(matches!(extract_matches(&mut b, &vec![Some((0, 0))]), ConsoleRequest::Rejected));
    assert!(matches!(extract_matches(&mut b, &vec![Some((14, 16))]), ConsoleRequest::Rejected));
    assert_eq!(b.cursors.len(), 1);
}
