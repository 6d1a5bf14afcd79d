use frog::actions::{
    constrain_cursor, delete, delete_back, delete_char, delete_line, execute_action, insert_char,
    join_line, move_back, move_beginning, move_down, move_end, move_find, move_find_reverse,
    move_front, move_left, move_right, move_till, move_till_reverse, move_up, move_word,
    move_word_reverse, new_cursor_down, new_cursor_up, open_down, open_up, replace, split_line,
    swap_selection, toggle_char_case, toggle_selection, try_execute_action, viewport_down, viewport_up,
    action_allowed, move_word_reverse_to, move_word_to, EditAction,
};
use frog::buffer::Buffer;
use frog::cursor::Cursor;

fn buffer_at(line: usize, index: usize) -> Buffer {
    let mut b = Buffer::new();
    b.cursors[0] = Box::new(Cursor { line, index, line_range: 0, index_range: 0, range: false });
    b
}

fn buffer_with_selection(line: usize, index: usize, line_range: usize, index_range: usize) -> Buffer {
    let mut b = Buffer::new();
    b.cursors[0] = Box::new(Cursor { line, index, line_range, index_range, range: true });
    b
}

fn pos(b: &Buffer) -> (usize, usize) {
    (b.cursors[0].line, b.cursors[0].index)
}

fn lines(b: &Buffer) -> Vec<&str> {
    b.lines.iter().map(|l| l.as_str()).collect()
}

#[test]
fn constrain_cursor_clamps_the_column() {
    let mut b = buffer_at(2, 9);
    constrain_cursor(&mut b, 0, None);
    assert_eq!(pos(&b), (2, 4));
    let mut b = buffer_at(1, 9);
    constrain_cursor(&mut b, 0, None);
    assert_eq!(pos(&b), (1, 0));
    let mut b = buffer_at(0, 3);
    constrain_cursor(&mut b, 0, None);
    assert_eq!(pos(&b), (0, 3));
}

#[test]
fn move_up_and_down_stay_in_the_buffer() {
    let mut b = buffer_at(0, 0);
    move_up(&mut b, 0, None);
    assert_eq!(pos(&b), (0, 0));
    move_down(&mut b, 0, None);
    move_down(&mut b, 0, None);
    assert_eq!(pos(&b), (2, 0));
    move_down(&mut b, 0, None);
    assert_eq!(pos(&b), (2, 0));
    move_up(&mut b, 0, None);
    assert_eq!(pos(&b), (1, 0));
}

#[test]
fn move_left_and_right() {
    let mut b = buffer_at(2, 0);
    move_left(&mut b, 0, None);
    assert_eq!(pos(&b), (2, 0));
    move_right(&mut b, 0, None);
    assert_eq!(pos(&b), (2, 1));
    let mut b = buffer_at(2, 4);
    move_right(&mut b, 0, None);
    assert_eq!(pos(&b), (2, 4));
    let mut b = buffer_at(2, 9);
    move_left(&mut b, 0, None);
    assert_eq!(pos(&b), (2, 3));
}

#[test]
fn right_then_left_returns() {
    let mut b = buffer_at(0, 5);
    move_right(&mut b, 0, None);
    move_left(&mut b, 0, None);
    assert_eq!(pos(&b), (0, 5));
}

#[test]
fn move_front_and_back() {
    let mut b = buffer_at(0, 5);
    move_back(&mut b, 0, None);
    assert_eq!(pos(&b), (0, 13));
    move_front(&mut b, 0, None);
    assert_eq!(pos(&b), (0, 0));
    let mut b = buffer_at(1, 3);
    move_back(&mut b, 0, None);
    assert_eq!(pos(&b), (1, 3));
}

#[test]
fn move_find_goes_to_the_next_occurrence() {
    let mut b = buffer_at(0, 0);
    move_find(&mut b, 0, Some("f"));
    assert_eq!(pos(&b), (0, 10));
    move_find(&mut b, 0, Some("f"));
    assert_eq!(pos(&b), (0, 11));
    move_find(&mut b, 0, Some("f"));
    assert_eq!(pos(&b), (0, 11));
}

#[test]
fn move_find_reverse_goes_to_the_previous_occurrence() {
    let mut b = buffer_at(0, 13);
    move_find_reverse(&mut b, 0, Some("a"));
    assert_eq!(pos(&b), (0, 3));
    move_find_reverse(&mut b, 0, Some("S"));
    assert_eq!(pos(&b), (0, 0));
    let mut b = buffer_at(0, 13);
    move_find_reverse(&mut b, 0, Some("q"));
    assert_eq!(pos(&b), (0, 13));
}

#[test]
fn move_till_stops_before_the_key() {
    let mut b = buffer_at(0, 0);
    move_till(&mut b, 0, Some("f"));
    assert_eq!(pos(&b), (0, 9));
    let mut b = buffer_at(0, 13);
    move_till_reverse(&mut b, 0, Some("a"));
    assert_eq!(pos(&b), (0, 4));
}

#[test]
fn move_beginning_and_end_move_the_first_cursor() {
    let mut b = buffer_at(1, 0);
    move_end(&mut b, 0, None);
    assert_eq!(pos(&b), (2, 3));
    move_beginning(&mut b, 0, None);
    assert_eq!(pos(&b), (0, 0));
    let mut b = buffer_at(1, 0);
    move_end(&mut b, 1, None);
    assert_eq!(pos(&b), (1, 0));
}

#[test]
fn viewport_moves_change_nothing() {
    let mut b = buffer_at(1, 0);
    viewport_up(&mut b, 0, None);
    viewport_down(&mut b, 0, None);
    assert_eq!(pos(&b), (1, 0));
    assert_eq!(lines(&b), vec!["Scratch buffer", "", "Text"]);
}

#[test]
fn move_word_goes_to_the_end_of_the_next_word() {
    let mut b = buffer_at(0, 0);
    move_word(&mut b, 0, None);
    assert_eq!(pos(&b), (0, 6));
    move_word(&mut b, 0, None);
    assert_eq!(pos(&b), (0, 13));
    move_word(&mut b, 0, None);
    assert_eq!(pos(&b), (0, 13));
}

#[test]
fn move_word_reverse_goes_to_the_start_of_the_previous_word() {
    let mut b = buffer_at(0, 13);
    move_word_reverse(&mut b, 0, None);
    assert_eq!(pos(&b), (0, 8));
    move_word_reverse(&mut b, 0, None);
    assert_eq!(pos(&b), (0, 0));
    move_word_reverse(&mut b, 0, None);
    assert_eq!(pos(&b), (0, 0));
}

#[test]
fn new_cursor_down_adds_a_cursor_below() {
    let mut b = buffer_at(0, 3);
    new_cursor_down(&mut b, 0, None);
    assert_eq!(b.cursors.len(), 2);
    assert_eq!((b.cursors[1].line, b.cursors[1].index), (1, 3));
    let mut b = buffer_at(2, 3);
    new_cursor_down(&mut b, 0, None);
    assert_eq!(b.cursors.len(), 1);
}

#[test]
fn new_cursor_up_adds_a_cursor_above() {
    let mut b = buffer_at(2, 1);
    new_cursor_up(&mut b, 0, None);
    assert_eq!(b.cursors.len(), 2);
    assert_eq!((b.cursors[1].line, b.cursors[1].index), (1, 1));
    let mut b = buffer_at(0, 1);
    new_cursor_up(&mut b, 0, None);
    assert_eq!(b.cursors.len(), 1);
}

#[test]
fn toggle_and_swap_selection() {
    let mut b = buffer_at(0, 2);
    toggle_selection(&mut b, 0, None);
    assert!(b.cursors[0].range);
    assert_eq!((b.cursors[0].line_range, b.cursors[0].index_range), (0, 2));
    move_right(&mut b, 0, None);
    swap_selection(&mut b, 0, None);
    assert_eq!(pos(&b), (0, 2));
    assert_eq!((b.cursors[0].line_range, b.cursors[0].index_range), (0, 3));
    swap_selection(&mut b, 0, None);
    assert_eq!(pos(&b), (0, 3));
    toggle_selection(&mut b, 0, None);
    assert!(!b.cursors[0].range);
}

#[test]
fn delete_removes_the_selection() {
    let mut b = buffer_with_selection(0, 0, 0, 7);
    delete(&mut b, 0, None);
    assert_eq!(lines(&b), vec!["buffer", "", "Text"]);
    assert_eq!(pos(&b), (0, 0));
    let mut b = buffer_with_selection(0, 7, 0, 0);
    delete(&mut b, 0, None);
    assert_eq!(lines(&b), vec!["buffer", "", "Text"]);
    assert_eq!(pos(&b), (0, 0));
    let mut b = buffer_at(0, 0);
    delete(&mut b, 0, None);
    assert_eq!(lines(&b), vec!["Scratch buffer", "", "Text"]);
}

#[test]
fn delete_char_removes_one_character() {
    let mut b = buffer_at(2, 0);
    delete_char(&mut b, 0, None);
    assert_eq!(lines(&b), vec!["Scratch buffer", "", "ext"]);
    assert!(b.dirty);
    let mut b = buffer_at(2, 4);
    delete_char(&mut b, 0, None);
    assert_eq!(lines(&b), vec!["Scratch buffer", "", "Text"]);
    assert_eq!(pos(&b), (2, 3));
}

#[test]
fn delete_back_removes_the_previous_character() {
    let mut b = buffer_at(0, 3);
    delete_back(&mut b, 0, None);
    assert_eq!(b.lines[0], "Scatch buffer");
    assert_eq!(pos(&b), (0, 2));
}

#[test]
fn delete_back_at_line_start_joins_lines() {
    let mut b = buffer_at(2, 0);
    delete_back(&mut b, 0, None);
    assert_eq!(lines(&b), vec!["Scratch buffer", "Text"]);
    assert_eq!(pos(&b), (1, 0));
}

#[test]
fn replace_overwrites_the_selection() {
    let mut b = buffer_with_selection(0, 0, 0, 2);
    replace(&mut b, 0, Some("z"));
    assert_eq!(b.lines[0], "zzzatch buffer");
    let mut b = buffer_with_selection(0, 12, 2, 1);
    replace(&mut b, 0, Some("-"));
    assert_eq!(lines(&b), vec!["Scratch buff--", "", "--xt"]);
}

#[test]
fn toggle_char_case_flips_ascii_letters() {
    let mut b = buffer_with_selection(0, 0, 0, 8);
    toggle_char_case(&mut b, 0, None);
    assert_eq!(b.lines[0], "sCRATCH Buffer");
}

#[test]
fn insert_char_types_the_key() {
    let mut b = buffer_at(2, 2);
    insert_char(&mut b, 0, Some("x"));
    assert_eq!(b.lines[2], "Texxt");
    assert_eq!(pos(&b), (2, 2));
}

#[test]
fn insert_then_delete_char_returns() {
    let mut b = buffer_at(0, 4);
    insert_char(&mut b, 0, Some("Q"));
    delete_char(&mut b, 0, None);
    assert_eq!(lines(&b), vec!["Scratch buffer", "", "Text"]);
}

#[test]
fn delete_line_keeps_a_line() {
    let mut b = buffer_at(2, 0);
    delete_line(&mut b, 0, None);
    assert_eq!(lines(&b), vec!["Scratch buffer", ""]);
    assert_eq!(pos(&b), (1, 0));
    let mut b = Buffer::new();
    b.lines = vec!["only".to_string()];
    delete_line(&mut b, 0, None);
    assert_eq!(lines(&b), vec![""]);
}

#[test]
fn split_line_cuts_at_the_cursor() {
    let mut b = buffer_at(0, 7);
    split_line(&mut b, 0, None);
    assert_eq!(lines(&b), vec!["Scratch", " buffer", "", "Text"]);
    let mut b = buffer_at(1, 0);
    split_line(&mut b, 0, None);
    assert_eq!(lines(&b), vec!["Scratch buffer", "", "", "Text"]);
}

#[test]
fn split_then_join_returns() {
    let mut b = buffer_at(0, 7);
    split_line(&mut b, 0, None);
    join_line(&mut b, 0, None);
    assert_eq!(lines(&b), vec!["Scratch buffer", "", "Text"]);
    assert_eq!(pos(&b), (0, 7));
}

#[test]
fn join_line_moves_to_the_seam() {
    let mut b = buffer_at(1, 0);
    join_line(&mut b, 0, None);
    assert_eq!(lines(&b), vec!["Scratch buffer", "Text"]);
    assert_eq!(pos(&b), (1, 0));
    let mut b = buffer_at(0, 2);
    join_line(&mut b, 0, None);
    assert_eq!(lines(&b), vec!["Scratch buffer", "Text"]);
    assert_eq!(pos(&b), (0, 14));
}

#[test]
fn open_up_and_down_add_empty_lines() {
    let mut b = buffer_at(2, 0);
    open_up(&mut b, 0, None);
    assert_eq!(lines(&b), vec!["Scratch buffer", "", "", "Text"]);
    let mut b = buffer_at(0, 0);
    open_down(&mut b, 0, None);
    assert_eq!(lines(&b), vec!["Scratch buffer", "", "", "Text"]);
    assert!(b.dirty);
}

#[test]
fn open_up_then_delete_line_returns() {
    let mut b = buffer_at(2, 0);
    open_up(&mut b, 0, None);
    delete_line(&mut b, 0, None);
    assert_eq!(lines(&b), vec!["Scratch buffer", "", "Text"]);
}

#[test]
fn execute_action_runs_for_every_cursor() {
    let mut b = Buffer::new();
    b.cursors = vec![
        Box::new(Cursor { line: 0, index: 1, line_range: 0, index_range: 0, range: false }),
        Box::new(Cursor { line: 2, index: 2, line_range: 0, index_range: 0, range: false }),
    ];
    execute_action(EditAction::InsertChar, &mut b, Some("_"));
    assert_eq!(lines(&b), vec!["S_cratch buffer", "", "Te_xt"]);
    execute_action(EditAction::MoveRight, &mut b, None);
    assert_eq!((b.cursors[0].line, b.cursors[0].index), (0, 2));
    assert_eq!((b.cursors[1].line, b.cursors[1].index), (2, 3));
}

#[test]
fn execute_action_counts_the_cursors_once() {
    let mut b = buffer_at(2, 1);
    execute_action(EditAction::NewCursorUp, &mut b, None);
    assert_eq!(b.cursors.len(), 2);
}

#[test]
fn action_allowed_checks_character_boundaries() {
    let mut b = buffer_at(0, 0);
    b.lines[0] = "\u{e9}a".to_string();
    assert!(!action_allowed(EditAction::DeleteChar, &b, 0, None));
    assert!(action_allowed(EditAction::MoveRight, &b, 0, None));
    b.lines[0] = "ab".to_string();
    assert!(action_allowed(EditAction::DeleteChar, &b, 0, None));
}

#[test]
fn action_allowed_needs_the_cursor() {
    let b = buffer_at(0, 0);
    assert!(!action_allowed(EditAction::MoveUp, &b, 1, None));
    assert!(action_allowed(EditAction::MoveUp, &b, 0, None));
    assert!(action_allowed(EditAction::ViewportUp, &b, 5, None));
    assert!(!action_allowed(EditAction::MoveFind, &b, 0, None));
    assert!(action_allowed(EditAction::MoveFind, &b, 0, Some("t")));
    let off_the_end = buffer_at(7, 0);
    assert!(!action_allowed(EditAction::MoveLeft, &off_the_end, 0, None));
}

#[test]
fn try_execute_action_runs_like_execute_action() {
    let mut a = buffer_at(0, 0);
    let mut b = buffer_at(0, 0);
    execute_action(EditAction::DeleteChar, &mut a, None);
    assert!(try_execute_action(EditAction::DeleteChar, &mut b, None));
    assert_eq!(lines(&a), lines(&b));
    assert_eq!(pos(&a), pos(&b));
    assert_eq!(lines(&b)[0], "cratch buffer");
}

#[test]
fn try_execute_action_refuses_a_cut_inside_a_character() {
    let mut b = buffer_at(0, 0);
    b.lines[0] = "\u{e9}".to_string();
    assert!(!try_execute_action(EditAction::DeleteChar, &mut b, None));
    assert_eq!(lines(&b)[0], "\u{e9}");
}

#[test]
fn move_word_to_takes_the_first_span_after_the_cursor() {
    let mut b = buffer_at(0, 3);
    move_word_to(&mut b, 0, &vec![Some((2, 3)), Some((9, 10))]);
    assert_eq!(pos(&b), (0, 9));
    move_word_to(&mut b, 0, &vec![Some((2, 3)), Some((9, 10))]);
    assert_eq!(pos(&b), (0, 13));
}

#[test]
fn move_word_reverse_to_takes_the_last_span_before_the_cursor() {
    let mut b = buffer_at(0, 9);
    move_word_reverse_to(&mut b, 0, &vec![Some((0, 7)), Some((8, 14))]);
    assert_eq!(pos(&b), (0, 8));
    move_word_reverse_to(&mut b, 0, &vec![Some((3, 7))]);
    assert_eq!(pos(&b), (0, 3));
    move_word_reverse_to(&mut b, 0, &vec![Some((3, 7))]);
    assert_eq!(pos(&b), (0, 0));
}

#[test]
fn toggle_char_case_twice_gives_the_lines_back() {
    let mut b = buffer_with_selection(2, 2, 0, 3);
    let before: Vec<String> = b.lines.clone();
    toggle_char_case(&mut b, 0, None);
    assert_eq!(lines(&b), vec!["ScrATCH BUFFER", "", "tEXt"]);
    toggle_char_case(&mut b, 0, None);
    assert_eq!(b.lines, before);
}
