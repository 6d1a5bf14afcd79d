use frog::cursor::Cursor;

fn cursor(line: usize, index: usize, line_range: usize, index_range: usize, range: bool) -> Cursor {
    Cursor { line, index, line_range, index_range, range }
}

#[test]
fn lower_and_higher_of_plain_cursor() {
    let c = cursor(2, 3, 0, 0, false);
    assert_eq!(c.get_lower(), (2, 3));
    assert_eq!(c.get_higher(), (2, 3));
    assert!(c.is_lower());
}

#[test]
fn selection_forward_on_one_line() {
    let c = cursor(1, 2, 1, 5, true);
    assert_eq!(c.get_lower(), (1, 2));
    assert_eq!(c.get_higher(), (1, 5));
    assert!(c.is_lower());
}

#[test]
fn selection_backward_on_one_line() {
    let c = cursor(1, 5, 1, 2, true);
    assert_eq!(c.get_lower(), (1, 2));
    assert_eq!(c.get_higher(), (1, 5));
    assert!(!c.is_lower());
}

#[test]
fn selection_across_lines() {
    let c = cursor(3, 0, 1, 9, true);
    assert_eq!(c.get_lower(), (1, 9));
    assert_eq!(c.get_higher(), (3, 0));
    assert!(!c.is_lower());
    let d = cursor(1, 9, 3, 0, true);
    assert_eq!(d.get_lower(), (1, 9));
    assert_eq!(d.get_higher(), (3, 0));
    assert!(d.is_lower());
}

#[test]
fn empty_selection_is_not_lower() {
    let c = cursor(2, 4, 2, 4, true);
    assert_eq!(c.get_lower(), (2, 4));
    assert_eq!(c.get_higher(), (2, 4));
    assert!(!c.is_lower());
}
