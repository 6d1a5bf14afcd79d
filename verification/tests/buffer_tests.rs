use frog::buffer::Buffer;
use frog::cursor::Cursor;

fn at(line: usize, index: usize) -> Box<Cursor> {
    Box::new(Cursor { line, index, line_range: 0, index_range: 0, range: false })
}

fn sel(line: usize, index: usize, line_range: usize, index_range: usize) -> Box<Cursor> {
    Box::new(Cursor { line, index, line_range, index_range, range: true })
}

fn lines(b: &Buffer) -> Vec<&str> {
    b.lines.iter().map(|l| l.as_str()).collect()
}

#[test]
fn new_buffer_is_the_scratch_buffer() {
    let b = Buffer::new();
    assert_eq!(lines(&b), vec!["Scratch buffer", "", "Text"]);
    assert_eq!(b.file_as_string, "Scratch buffer\n\nText");
    assert_eq!(b.path, None);
    assert_eq!(b.viewport, 0);
    assert_eq!(b.height, 50);
    assert!(!b.dirty);
    assert_eq!(b.cursors.len(), 1);
    assert_eq!(*b.cursors[0], Cursor { line: 0, index: 0, line_range: 0, index_range: 0, range: false });
}

#[test]
fn add_before_cursor_inserts_at_byte_offset() {
    let mut b = Buffer::new();
    b.add_before_cursor(&at(0, 7), "X");
    assert_eq!(lines(&b), vec!["ScratchX buffer", "", "Text"]);
    assert!(b.dirty);
}

#[test]
fn add_before_cursor_appends_past_the_end() {
    let mut b = Buffer::new();
    b.add_before_cursor(&at(2, 100), "!");
    assert_eq!(b.lines[2], "Text!");
}

#[test]
fn add_before_cursor_uses_the_lower_end_of_a_selection() {
    let mut b = Buffer::new();
    b.add_before_cursor(&sel(0, 8, 0, 0), "<");
    assert_eq!(b.lines[0], "<Scratch buffer");
}

#[test]
fn add_before_cursor_after_a_multibyte_character() {
    let mut b = Buffer::new();
    b.lines[2] = "héllo".to_string();
    b.add_before_cursor(&at(2, 3), "-");
    assert_eq!(b.lines[2], "hé-llo");
}

#[test]
fn get_in_cursor_on_one_line() {
    let mut b = Buffer::new();
    assert_eq!(b.get_in_cursor(&sel(0, 0, 0, 6)), "Scratch");
    assert_eq!(b.get_in_cursor(&sel(0, 6, 0, 0)), "Scratch");
    assert_eq!(b.get_in_cursor(&sel(0, 8, 0, 100)), "buffer");
    assert_eq!(b.get_in_cursor(&sel(1, 0, 1, 0)), "");
}

#[test]
fn get_in_cursor_without_selection_is_one_character() {
    let mut b = Buffer::new();
    assert_eq!(b.get_in_cursor(&at(2, 1)), "e");
}

#[test]
fn get_in_cursor_across_lines() {
    let mut b = Buffer::new();
    assert_eq!(b.get_in_cursor(&sel(0, 8, 2, 1)), "buffer\n\nTe");
    assert_eq!(b.get_in_cursor(&sel(2, 1, 0, 8)), "buffer\n\nTe");
    assert_eq!(lines(&b), vec!["Scratch buffer", "", "Text"]);
}

#[test]
fn get_in_cursor_off_a_character_boundary_is_empty() {
    let mut b = Buffer::new();
    b.lines[2] = "aé".to_string();
    assert_eq!(b.get_in_cursor(&sel(2, 0, 2, 1)), "");
    assert_eq!(b.get_in_cursor(&sel(2, 0, 2, 2)), "aé");
}

#[test]
fn sub_cursor_on_one_line() {
    let mut b = Buffer::new();
    b.sub_cursor(&sel(0, 0, 0, 6), "Empty");
    assert_eq!(lines(&b), vec!["Empty buffer", "", "Text"]);
    assert!(b.dirty);
}

#[test]
fn sub_cursor_on_an_empty_line_appends() {
    let mut b = Buffer::new();
    b.sub_cursor(&at(1, 0), "new");
    assert_eq!(lines(&b), vec!["Scratch buffer", "new", "Text"]);
}

#[test]
fn sub_cursor_splits_at_newlines() {
    let mut b = Buffer::new();
    b.sub_cursor(&sel(0, 0, 0, 6), "A\nB");
    assert_eq!(lines(&b), vec!["A", "B buffer", "", "Text"]);
}

#[test]
fn sub_cursor_across_lines() {
    let mut b = Buffer::new();
    b.sub_cursor(&sel(0, 8, 2, 1), "X");
    assert_eq!(lines(&b), vec!["Scratch Xxt"]);
}

#[test]
fn sub_cursor_across_lines_with_several_pieces() {
    let mut b = Buffer::new();
    b.sub_cursor(&sel(0, 8, 2, 1), "1\n2\n3");
    assert_eq!(lines(&b), vec!["Scratch 1", "2", "3xt"]);
}

#[test]
fn sub_cursor_with_the_selected_text_changes_nothing() {
    let mut b = Buffer::new();
    let c = sel(0, 3, 2, 2);
    let text = b.get_in_cursor(&c);
    b.sub_cursor(&c, &text);
    assert_eq!(lines(&b), vec!["Scratch buffer", "", "Text"]);
}

#[test]
fn get_as_string_recomputes_when_dirty() {
    let mut b = Buffer::new();
    b.lines[2] = "More".to_string();
    assert_eq!(b.get_as_string(), "Scratch buffer\n\nText");
    b.dirty = true;
    assert_eq!(b.get_as_string(), "Scratch buffer\n\nMore");
    assert_eq!(b.file_as_string, "Scratch buffer\n\nMore");
}

#[test]
fn string_idx_to_cursor_idx_counts_lines_and_columns() {
    let mut b = Buffer::new();
    assert_eq!(b.string_idx_to_cursor_idx(3), (0, 3));
    assert_eq!(b.string_idx_to_cursor_idx(13), (0, 13));
    assert_eq!(b.string_idx_to_cursor_idx(16), (2, 0));
    assert_eq!(b.string_idx_to_cursor_idx(19), (2, 3));
}

#[test]
fn load_lines_takes_the_file() {
    let mut b = Buffer::new();
    b.load_lines("notes.txt", vec!["one".to_string(), "two".to_string()]);
    assert_eq!(lines(&b), vec!["one", "two"]);
    assert_eq!(b.path.as_deref(), Some("notes.txt"));
    assert!(b.dirty);
    assert_eq!(b.cursors.len(), 1);
}

#[test]
fn write_of_the_scratch_buffer_is_refused() {
    let b = Buffer::new();
    assert!(b.write().is_none());
}

#[test]
fn write_joins_the_lines() {
    let mut b = Buffer::new();
    b.load_lines("notes.txt", vec!["one".to_string(), "".to_string(), "two".to_string()]);
    let (path, contents) = b.write().unwrap();
    assert_eq!(path, "notes.txt");
    assert_eq!(contents, "one\n\ntwo");
}

#[test]
fn sort_cursors_puts_the_last_position_first() {
    let mut b = Buffer::new();
    b.cursors = vec![at(0, 5), at(2, 1), at(0, 9), sel(2, 1, 0, 0)];
    b.sort_cursors();
    let order: Vec<(usize, usize, bool)> = b.cursors.iter().map(|c| (c.line, c.index, c.range)).collect();
    assert_eq!(order, vec![(2, 1, false), (2, 1, true), (0, 9, false), (0, 5, false)]);
}

#[test]
fn cursor_at_and_set_cursor() {
    let mut b = Buffer::new();
    let c = Cursor { line: 2, index: 1, line_range: 0, index_range: 0, range: false };
    b.set_cursor(0, c);
    assert_eq!(b.cursor_at(0), c);
    b.set_line(1, "middle".to_string());
    assert_eq!(b.lines[1], "middle");
}

#[test]
fn every_offset_lands_on_its_own_byte() {
    let mut b = Buffer::new();
    b.lines = vec!["h\u{e9}".to_string(), "".to_string(), "ab".to_string()];
    b.dirty = true;
    let text = b.get_as_string().to_string();
    let bytes = text.as_bytes().to_vec();
    for idx in 0..bytes.len() {
        let boundary_after = text.is_char_boundary(idx + 1);
        if bytes[idx] == b'\n' || !boundary_after {
            continue;
        }
        let (l, i) = b.string_idx_to_cursor_idx(idx);
        assert!(l < b.lines.len());
        assert!(i < b.lines[l].len());
        assert_eq!(b.lines[l].as_bytes()[i], bytes[idx]);
    }
}
