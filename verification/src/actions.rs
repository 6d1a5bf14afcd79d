use crate::buffer::{
    add_before_cursor_ok, add_before_cursor_result, selected_text, selection_in_buffer,
    sub_cursor_ok, sub_cursor_result, Buffer, BufferModel,
};
use crate::cursor::{sorted_last_first, Cursor};
use crate::text::{
    ascii_case_toggled, byte_len, byte_length, byte_replace, byte_slice, first_char, is_boundary,
    is_single_char, overwrite_chars, replace_bytes, sat_dec, toggle_chars, views,
};
use crate::pattern::{all_present, pattern_captures, pattern_captures_in, pattern_compiles};
use vstd::prelude::*;
use vstd::utf8::*;

verus! {

broadcast use {vstd::utf8::group_utf8_lib, crate::text::lemma_views, crate::cursor::lemma_cursor_views};

// ---------------------------------------------------------------------------
// The model of each action
// ---------------------------------------------------------------------------

/// The view of an optional key.
pub open spec fn key_view(key: Option<&str>) -> Option<Seq<char>> {
    match key {
        Some(k) => Some(k@),
        None => None,
    }
}

/// A key is given and holds at least one character.
pub open spec fn key_given(key: Option<Seq<char>>) -> bool {
    key is Some && key.unwrap().len() > 0
}

/// The first character of the key.
pub open spec fn key_char(key: Option<Seq<char>>) -> char {
    key.unwrap()[0]
}

/// Cursor `c` exists.
pub open spec fn has_cursor(m: BufferModel, c: int) -> bool {
    0 <= c < m.cursors.len()
}

/// Cursor `c` exists and stands on a line of the buffer.
pub open spec fn cursor_on_line(m: BufferModel, c: int) -> bool {
    has_cursor(m, c) && m.cursors[c].line < m.lines.len()
}

/// The line of cursor `c`.
pub open spec fn line_at(m: BufferModel, c: int) -> Seq<char> {
    m.lines[m.cursors[c].line as int]
}

/// The buffer with cursor `c` replaced.
pub open spec fn with_cursor(m: BufferModel, c: int, cur: Cursor) -> BufferModel {
    BufferModel { cursors: m.cursors.update(c, cur), ..m }
}

/// The buffer with cursor `c` moved to column `i`.
pub open spec fn with_index(m: BufferModel, c: int, i: usize) -> BufferModel {
    with_cursor(m, c, Cursor { index: i, ..m.cursors[c] })
}

/// The buffer with cursor `c` moved to line `l`.
pub open spec fn with_line(m: BufferModel, c: int, l: usize) -> BufferModel {
    with_cursor(m, c, Cursor { line: l, ..m.cursors[c] })
}

/// The buffer with different lines, marked dirty.
pub open spec fn with_lines(m: BufferModel, lines: Seq<Seq<char>>) -> BufferModel {
    BufferModel { lines, dirty: true, ..m }
}

/// The buffer marked dirty.
pub open spec fn marked_dirty(m: BufferModel) -> BufferModel {
    BufferModel { dirty: true, ..m }
}

/// The first position from `i` on where `s` holds `ch`.
pub open spec fn first_from(s: Seq<char>, i: int, ch: char) -> Option<int>
    decreases s.len() - i,
{
    if i < 0 || i >= s.len() {
        None
    } else if s[i] == ch {
        Some(i)
    } else {
        first_from(s, i + 1, ch)
    }
}

/// The last position before `r` where `s` holds `ch`.
pub open spec fn last_before(s: Seq<char>, r: int, ch: char) -> Option<int>
    decreases r,
{
    if r <= 0 || r > s.len() {
        None
    } else if s[r - 1] == ch {
        Some(r - 1)
    } else {
        last_before(s, r - 1, ch)
    }
}

/// What `last_before` finds lies before `r` and holds `ch`.
proof fn lemma_last_before(s: Seq<char>, r: int, ch: char)
    ensures
        last_before(s, r, ch) matches Some(p) ==> 0 <= p < r && s[p] == ch,
    decreases r,
{
    if r > 0 && r <= s.len() && s[r - 1] != ch {
        lemma_last_before(s, r - 1, ch);
    }
}

/// `constrain_cursor`: on an empty line the column goes to 0; past the
/// line's last character it goes to the number of characters.
pub open spec fn constrain_cursor_result(m: BufferModel, c: int) -> BufferModel {
    let n = line_at(m, c).len();
    let i = m.cursors[c].index;
    with_index(
        m,
        c,
        if n == 0 {
            0
        } else if i > n {
            n as usize
        } else {
            i
        },
    )
}

/// `move_up`: one line up unless on the first line.
pub open spec fn move_up_result(m: BufferModel, c: int) -> BufferModel {
    let l = m.cursors[c].line;
    if l > 0 {
        with_line(m, c, (l - 1) as usize)
    } else {
        m
    }
}

/// `move_down`: one line down unless on the last line.
pub open spec fn move_down_result(m: BufferModel, c: int) -> BufferModel {
    let l = m.cursors[c].line;
    if l < m.lines.len() - 1 {
        with_line(m, c, (l + 1) as usize)
    } else {
        m
    }
}

/// `move_left`: constrain, then one column left unless at column 0.
pub open spec fn move_left_result(m: BufferModel, c: int) -> BufferModel {
    let m1 = constrain_cursor_result(m, c);
    let i = m1.cursors[c].index;
    if i > 0 {
        with_index(m1, c, (i - 1) as usize)
    } else {
        m1
    }
}

/// `move_right`: one column right, then constrain.
pub open spec fn move_right_result(m: BufferModel, c: int) -> BufferModel {
    constrain_cursor_result(with_index(m, c, (m.cursors[c].index + 1) as usize), c)
}

/// `move_front`: to column 0.
pub open spec fn move_front_result(m: BufferModel, c: int) -> BufferModel {
    with_index(m, c, 0)
}

/// `move_back`: to the last character of a non-empty line.
pub open spec fn move_back_result(m: BufferModel, c: int) -> BufferModel {
    let n = line_at(m, c).len();
    if n != 0 {
        with_index(m, c, (n - 1) as usize)
    } else {
        m
    }
}

/// `move_find`: to the next occurrence, after the cursor, of the key's first
/// character on the line; nowhere when there is none.
pub open spec fn move_find_result(m: BufferModel, c: int, key: Option<Seq<char>>) -> BufferModel {
    match first_from(line_at(m, c), m.cursors[c].index + 1, key_char(key)) {
        Some(j) => with_index(m, c, j as usize),
        None => m,
    }
}

/// How many characters of the line `move_find_reverse` scans: those left
/// once as many characters as the line has bytes from the cursor on are
/// skipped from the end.
pub open spec fn reverse_scan_len(m: BufferModel, c: int) -> int {
    let n = line_at(m, c).len() as int;
    let skipped = byte_len(line_at(m, c)) - m.cursors[c].index;
    if n >= skipped {
        n - skipped
    } else {
        0
    }
}

/// `move_find_reverse`: scanning back over the first `reverse_scan_len`
/// characters, to the last occurrence of the key's first character, with
/// the column counted down from the cursor's one step per character.
pub open spec fn move_find_reverse_result(m: BufferModel, c: int, key: Option<Seq<char>>) -> BufferModel {
    let r = reverse_scan_len(m, c);
    match last_before(line_at(m, c), r, key_char(key)) {
        Some(p) => with_index(m, c, (m.cursors[c].index + p - r) as usize),
        None => m,
    }
}

/// `move_till`: `move_find`, then one step back when the cursor ends on the key.
pub open spec fn move_till_result(m: BufferModel, c: int, key: Option<Seq<char>>) -> BufferModel {
    let m1 = move_find_result(m, c, key);
    let i = m1.cursors[c].index;
    let line = line_at(m1, c);
    if i < line.len() && key.unwrap() == seq![line[i as int]] {
        move_left_result(m1, c)
    } else {
        m1
    }
}

/// `move_till_reverse`: `move_find_reverse`, then one step forward when the
/// cursor ends on the key.
pub open spec fn move_till_reverse_result(m: BufferModel, c: int, key: Option<Seq<char>>) -> BufferModel {
    let m1 = move_find_reverse_result(m, c, key);
    let i = m1.cursors[c].index;
    let line = line_at(m1, c);
    if i < line.len() && key.unwrap() == seq![line[i as int]] {
        move_right_result(m1, c)
    } else {
        m1
    }
}

/// `move_beginning`: the first cursor goes to the start of the buffer.
pub open spec fn move_beginning_result(m: BufferModel, c: int) -> BufferModel {
    if c != 0 {
        m
    } else {
        with_cursor(m, c, Cursor { line: 0, index: 0, ..m.cursors[c] })
    }
}

/// `move_end`: the first cursor goes to the last line, on its last byte.
pub open spec fn move_end_result(m: BufferModel, c: int) -> BufferModel {
    if c != 0 {
        m
    } else {
        let l = sat_dec(m.lines.len() as int);
        let len = if l < m.lines.len() {
            byte_len(m.lines[l])
        } else {
            0
        };
        with_cursor(m, c, Cursor { line: l as usize, index: sat_dec(len as int) as usize, ..m.cursors[c] })
    }
}

/// A fresh cursor at (`line`, `index`), without a selection.
pub open spec fn plain_cursor(line: usize, index: usize) -> Cursor {
    Cursor { line, index, line_range: 0, index_range: 0, range: false }
}

/// The buffer with its cursors sorted from the last position to the first.
pub open spec fn with_sorted_cursors(m: BufferModel) -> BufferModel {
    BufferModel { cursors: sorted_last_first(m.cursors), ..m }
}

/// `new_cursor_up`: sort the cursors; then the last of them, unless on the
/// first line, gets a new cursor one line above.
pub open spec fn new_cursor_up_result(m: BufferModel, c: int) -> BufferModel {
    let m1 = with_sorted_cursors(m);
    let cur = m1.cursors[c];
    if cur.line == 0 || c != m1.cursors.len() - 1 {
        m1
    } else {
        BufferModel { cursors: m1.cursors.push(plain_cursor((cur.line - 1) as usize, cur.index)), ..m1 }
    }
}

/// `new_cursor_down`: sort the cursors; then the first of them, unless on
/// the last line, gets a new cursor one line below.
pub open spec fn new_cursor_down_result(m: BufferModel, c: int) -> BufferModel {
    let m1 = with_sorted_cursors(m);
    let cur = m1.cursors[c];
    if cur.line >= m1.lines.len() - 1 || c != 0 {
        m1
    } else {
        BufferModel { cursors: m1.cursors.push(plain_cursor((cur.line + 1) as usize, cur.index)), ..m1 }
    }
}

/// `toggle_selection`: flip the selection and anchor it at the cursor.
pub open spec fn toggle_selection_result(m: BufferModel, c: int) -> BufferModel {
    let cur = m.cursors[c];
    with_cursor(
        m,
        c,
        Cursor { range: !cur.range, line_range: cur.line, index_range: cur.index, ..cur },
    )
}

/// `swap_selection`: exchange the cursor's position and its anchor.
pub open spec fn swap_selection_result(m: BufferModel, c: int) -> BufferModel {
    let cur = m.cursors[c];
    with_cursor(
        m,
        c,
        Cursor {
            line: cur.line_range,
            index: cur.index_range,
            line_range: cur.line,
            index_range: cur.index,
            range: cur.range,
        },
    )
}

/// After replacing a selection, the cursor moves to its lower end.
pub open spec fn to_lower_end(m: BufferModel, c: int, cur: Cursor) -> BufferModel {
    if !cur.head_is_lower() {
        swap_selection_result(m, c)
    } else {
        m
    }
}

/// `delete`: remove the selected text, if there is a selection.
pub open spec fn delete_result(m: BufferModel, c: int) -> BufferModel {
    let cur = m.cursors[c];
    if cur.range {
        to_lower_end(sub_cursor_result(m, cur, seq![]), c, cur)
    } else {
        m
    }
}

/// `delete_char`: constrain, then remove the byte at the cursor's column
/// when it is within the line; otherwise move left.
pub open spec fn delete_char_result(m: BufferModel, c: int) -> BufferModel {
    let m1 = constrain_cursor_result(m, c);
    let i = m1.cursors[c].index;
    let line = line_at(m1, c);
    let m2 = if line.len() > 0 && i < line.len() {
        with_lines(
            m1,
            m1.lines.update(m1.cursors[c].line as int, byte_replace(line, i as int, i + 1, seq![])),
        )
    } else {
        move_left_result(m1, c)
    };
    marked_dirty(m2)
}

/// Cursor `c` may run `delete_char`: the byte it removes is a whole character.
pub open spec fn delete_char_ok(m: BufferModel, c: int) -> bool {
    let m1 = constrain_cursor_result(m, c);
    let i = m1.cursors[c].index;
    let line = line_at(m1, c);
    &&& cursor_on_line(m, c)
    &&& line.len() > 0 && i < line.len() ==> is_boundary(line, i as int) && is_boundary(
        line,
        i + 1,
    )
}

/// `join_line`: append the next line to the cursor's line (the cursor goes
/// to the byte where they meet), then constrain.
pub open spec fn join_line_result(m: BufferModel, c: int) -> BufferModel {
    let l = m.cursors[c].line as int;
    let m1 = if l < m.lines.len() - 1 {
        with_index(
            with_lines(m, m.lines.update(l, m.lines[l] + m.lines[l + 1]).remove(l + 1)),
            c,
            byte_len(m.lines[l]) as usize,
        )
    } else {
        m
    };
    marked_dirty(constrain_cursor_result(m1, c))
}

/// `delete_back`: in a line, move left and delete the character there; at
/// the start of a line, join it to the line above.
pub open spec fn delete_back_result(m: BufferModel, c: int) -> BufferModel {
    let cur = m.cursors[c];
    let m1 = if cur.index > 0 {
        delete_char_result(move_left_result(m, c), c)
    } else if cur.line > 0 {
        join_line_result(move_up_result(m, c), c)
    } else {
        m
    };
    marked_dirty(m1)
}

/// Cursor `c` may run `delete_back`.
pub open spec fn delete_back_ok(m: BufferModel, c: int) -> bool {
    let cur = m.cursors[c];
    &&& has_cursor(m, c)
    &&& cur.index > 0 ==> cursor_on_line(m, c) && delete_char_ok(move_left_result(m, c), c)
    &&& cur.index == 0 && cur.line > 0 ==> cursor_on_line(move_up_result(m, c), c)
}

/// Every character but a newline replaced by `k`.
pub open spec fn overwritten_with(t: Seq<char>, k: char) -> Seq<char> {
    t.map_values(|ch: char| if ch == '\n' { '\n' } else { k })
}

/// Every character but a newline with its ASCII case toggled.
pub open spec fn case_toggled(t: Seq<char>) -> Seq<char> {
    t.map_values(|ch: char| if ch == '\n' { '\n' } else { ascii_case_toggled(ch) })
}

/// `replace`: every selected character but the newlines becomes the key's
/// first character; the cursor goes to the lower end.
pub open spec fn replace_result(m: BufferModel, c: int, key: Option<Seq<char>>) -> BufferModel {
    let cur = m.cursors[c];
    to_lower_end(
        sub_cursor_result(m, cur, overwritten_with(selected_text(m, cur), key_char(key))),
        c,
        cur,
    )
}

/// `toggle_char_case`: every selected character toggles its ASCII case; the
/// cursor goes to the lower end.
pub open spec fn toggle_char_case_result(m: BufferModel, c: int) -> BufferModel {
    let cur = m.cursors[c];
    to_lower_end(sub_cursor_result(m, cur, case_toggled(selected_text(m, cur))), c, cur)
}

/// `insert_char`: the key goes in at the cursor's lower position.
pub open spec fn insert_char_result(m: BufferModel, c: int, key: Option<Seq<char>>) -> BufferModel {
    add_before_cursor_result(m, m.cursors[c], key.unwrap())
}

/// `delete_line`: the cursor's line goes; the cursor moves up when it was the
/// last one, and an emptied buffer gets one empty line.
pub open spec fn delete_line_result(m: BufferModel, c: int) -> BufferModel {
    let m1 = BufferModel { lines: m.lines.remove(m.cursors[c].line as int), ..m };
    let m2 = if m1.cursors[c].line >= m1.lines.len() {
        move_up_result(m1, c)
    } else {
        m1
    };
    let m3 = if m2.lines.len() == 0 {
        BufferModel { lines: m2.lines.push(seq![]), ..m2 }
    } else {
        m2
    };
    marked_dirty(m3)
}

/// `open_up`: an empty line above the cursor's line.
pub open spec fn open_up_result(m: BufferModel, c: int) -> BufferModel {
    with_lines(m, m.lines.insert(m.cursors[c].line as int, seq![]))
}

/// `open_down`: an empty line below the cursor's line.
pub open spec fn open_down_result(m: BufferModel, c: int) -> BufferModel {
    with_lines(m, m.lines.insert(m.cursors[c].line + 1, seq![]))
}

/// `split_line`: the cursor's line is cut in two at the cursor's column (a
/// byte offset); an empty line gets an empty line below it.
pub open spec fn split_line_result(m: BufferModel, c: int) -> BufferModel {
    let l = m.cursors[c].line as int;
    let i = m.cursors[c].index as int;
    let line = m.lines[l];
    if byte_len(line) > 0 {
        with_lines(
            m,
            m.lines.update(l, byte_slice(line, 0, i)).insert(
                l + 1,
                byte_slice(line, i, byte_len(line) as int),
            ),
        )
    } else {
        open_down_result(m, c)
    }
}

// ---------------------------------------------------------------------------
// The actions
// ---------------------------------------------------------------------------

/// The first position from `from` on where `line` holds `k`.
fn find_forward(line: &str, from: usize, k: char) -> (r: Option<usize>)
    ensures
        match r {
            Some(j) => first_from(line@, from as int, k) == Some(j as int),
            None => first_from(line@, from as int, k) is None,
        },
{
    let n = line.unicode_len();
    let mut i = from;
    while i < n
        invariant
            n == line@.len(),
            from <= i,
            first_from(line@, from as int, k) == first_from(line@, i as int, k),
        decreases n - i,
    {
        if line.get_char(i) == k {
            return Some(i);
        }
        i = i + 1;
    }
    None
}

/// The last position before `r` where `line` holds `k`.
fn find_backward(line: &str, r: usize, k: char) -> (res: Option<usize>)
    requires
        r <= line@.len(),
    ensures
        match res {
            Some(p) => last_before(line@, r as int, k) == Some(p as int),
            None => last_before(line@, r as int, k) is None,
        },
{
    let mut pos = r;
    while pos > 0
        invariant
            pos <= r <= line@.len(),
            last_before(line@, r as int, k) == last_before(line@, pos as int, k),
        decreases pos,
    {
        if line.get_char(pos - 1) == k {
            return Some(pos - 1);
        }
        pos = pos - 1;
    }
    None
}

/// The number of characters of the line of cursor `c`.
fn line_chars(buffer: &Buffer, c: usize) -> (n: usize)
    requires
        cursor_on_line(buffer@, c as int),
    ensures
        n == line_at(buffer@, c as int).len(),
{
    let l = buffer.cursor_at(c).line;
    buffer.lines[l].as_str().unicode_len()
}

/// Moves the cursor's column into its line: to 0 on an empty line, to the
/// number of characters when past the last one.
pub fn constrain_cursor(buffer: &mut Buffer, c: usize, _key: Option<&str>)
    requires
        cursor_on_line(old(buffer)@, c as int),
    ensures
        final(buffer)@ == constrain_cursor_result(old(buffer)@, c as int),
{
    let mut cur = buffer.cursor_at(c);
    let n = line_chars(buffer, c);
    if n == 0 {
        cur.index = 0;
    } else if cur.index > n {
        cur.index = n;
    }
    buffer.set_cursor(c, cur);
}

/// Moves the cursor one line up.
pub fn move_up(buffer: &mut Buffer, c: usize, _key: Option<&str>)
    requires
        has_cursor(old(buffer)@, c as int),
    ensures
        final(buffer)@ == move_up_result(old(buffer)@, c as int),
{
    let mut cur = buffer.cursor_at(c);
    if cur.line > 0 {
        cur.line = cur.line - 1;
        buffer.set_cursor(c, cur);
    }
}

/// Moves the cursor one line down.
pub fn move_down(buffer: &mut Buffer, c: usize, _key: Option<&str>)
    requires
        has_cursor(old(buffer)@, c as int),
        old(buffer)@.lines.len() >= 1,
    ensures
        final(buffer)@ == move_down_result(old(buffer)@, c as int),
{
    let mut cur = buffer.cursor_at(c);
    if cur.line < buffer.lines.len() - 1 {
        cur.line = cur.line + 1;
        buffer.set_cursor(c, cur);
    }
}

/// Moves the cursor one character left.
pub fn move_left(buffer: &mut Buffer, c: usize, _key: Option<&str>)
    requires
        cursor_on_line(old(buffer)@, c as int),
    ensures
        final(buffer)@ == move_left_result(old(buffer)@, c as int),
{
    constrain_cursor(buffer, c, None);
    assert(buffer@.cursors.len() == buffer.cursors@.len());
    let mut cur = buffer.cursor_at(c);
    if cur.index > 0 {
        cur.index = cur.index - 1;
        buffer.set_cursor(c, cur);
    }
}

/// Moves the cursor one character right.
pub fn move_right(buffer: &mut Buffer, c: usize, _key: Option<&str>)
    requires
        cursor_on_line(old(buffer)@, c as int),
        old(buffer)@.cursors[c as int].index < usize::MAX,
    ensures
        final(buffer)@ == move_right_result(old(buffer)@, c as int),
{
    let mut cur = buffer.cursor_at(c);
    cur.index = cur.index + 1;
    buffer.set_cursor(c, cur);
    constrain_cursor(buffer, c, None);
}

/// Moves the cursor to the start of its line.
pub fn move_front(buffer: &mut Buffer, c: usize, _key: Option<&str>)
    requires
        has_cursor(old(buffer)@, c as int),
    ensures
        final(buffer)@ == move_front_result(old(buffer)@, c as int),
{
    let mut cur = buffer.cursor_at(c);
    cur.index = 0;
    buffer.set_cursor(c, cur);
}

/// Moves the cursor to the last character of its line.
pub fn move_back(buffer: &mut Buffer, c: usize, _key: Option<&str>)
    requires
        cursor_on_line(old(buffer)@, c as int),
    ensures
        final(buffer)@ == move_back_result(old(buffer)@, c as int),
{
    let n = line_chars(buffer, c);
    if n != 0 {
        let mut cur = buffer.cursor_at(c);
        cur.index = n - 1;
        buffer.set_cursor(c, cur);
    }
}

/// Cursor `c` may run `move_find` with `key`.
pub open spec fn move_find_ok(m: BufferModel, c: int, key: Option<Seq<char>>) -> bool {
    &&& cursor_on_line(m, c)
    &&& key_given(key)
    &&& m.cursors[c].index < usize::MAX
}

/// Moves the cursor to the next occurrence of the key on its line.
pub fn move_find(buffer: &mut Buffer, c: usize, _key: Option<&str>)
    requires
        move_find_ok(old(buffer)@, c as int, key_view(_key)),
    ensures
        final(buffer)@ == move_find_result(old(buffer)@, c as int, key_view(_key)),
{
    let mut cur = buffer.cursor_at(c);
    let key_as_char = first_char(_key.unwrap()).unwrap();
    let target = find_forward(buffer.lines[cur.line].as_str(), cur.index + 1, key_as_char);
    match target {
        Some(j) => {
            cur.index = j;
            buffer.set_cursor(c, cur);
        },
        None => {},
    }
}

/// Cursor `c` may run `move_find_reverse` with `key`: its line is not
/// empty, its column lies within the line's bytes, and the column does not
/// count down below 0 during the scan.
pub open spec fn move_find_reverse_ok(m: BufferModel, c: int, key: Option<Seq<char>>) -> bool {
    let line = line_at(m, c);
    let i = m.cursors[c].index as int;
    let r = reverse_scan_len(m, c);
    &&& cursor_on_line(m, c)
    &&& key_given(key)
    &&& byte_len(line) >= 1
    &&& i <= byte_len(line) - 1
    &&& match last_before(line, r, key_char(key)) {
        Some(p) => i + p >= r,
        None => i >= r,
    }
}

/// Moves the cursor back to the previous occurrence of the key on its line.
pub fn move_find_reverse(buffer: &mut Buffer, c: usize, _key: Option<&str>)
    requires
        move_find_reverse_ok(old(buffer)@, c as int, key_view(_key)),
    ensures
        final(buffer)@ == move_find_reverse_result(old(buffer)@, c as int, key_view(_key)),
{
    let mut cur = buffer.cursor_at(c);
    let key_as_char = first_char(_key.unwrap()).unwrap();
    let n = line_chars(buffer, c);
    let lb = byte_length(buffer.lines[cur.line].as_str());
    let skipped = lb - cur.index;
    let r = if n >= skipped {
        n - skipped
    } else {
        0
    };
    assert(r == reverse_scan_len(buffer@, c as int));
    let target = find_backward(buffer.lines[cur.line].as_str(), r, key_as_char);
    proof {
        lemma_last_before(line_at(buffer@, c as int), r as int, key_as_char);
    }
    match target {
        Some(p) => {
            cur.index = cur.index - (r - p);
            buffer.set_cursor(c, cur);
        },
        None => {},
    }
}

/// Moves the cursor to just before the next occurrence of the key.
pub fn move_till(buffer: &mut Buffer, c: usize, _key: Option<&str>)
    requires
        move_find_ok(old(buffer)@, c as int, key_view(_key)),
    ensures
        final(buffer)@ == move_till_result(old(buffer)@, c as int, key_view(_key)),
{
    move_find(buffer, c, _key);
    let cur = buffer.cursor_at(c);
    let n = line_chars(buffer, c);
    if cur.index < n {
        let x = buffer.lines[cur.line].as_str().get_char(cur.index);
        if is_single_char(_key.unwrap(), x) {
            move_left(buffer, c, _key);
        }
    }
}

/// Moves the cursor to just after the previous occurrence of the key.
pub fn move_till_reverse(buffer: &mut Buffer, c: usize, _key: Option<&str>)
    requires
        move_find_reverse_ok(old(buffer)@, c as int, key_view(_key)),
    ensures
        final(buffer)@ == move_till_reverse_result(old(buffer)@, c as int, key_view(_key)),
{
    move_find_reverse(buffer, c, _key);
    let cur = buffer.cursor_at(c);
    let n = line_chars(buffer, c);
    if cur.index < n {
        let x = buffer.lines[cur.line].as_str().get_char(cur.index);
        if is_single_char(_key.unwrap(), x) {
            move_right(buffer, c, _key);
        }
    }
}

/// Moves the first cursor to the start of the buffer.
pub fn move_beginning(buffer: &mut Buffer, c: usize, _key: Option<&str>)
    requires
        c != 0 || has_cursor(old(buffer)@, 0),
    ensures
        final(buffer)@ == move_beginning_result(old(buffer)@, c as int),
{
    if c != 0 {
        return ;
    }
    let mut cur = buffer.cursor_at(c);
    cur.line = 0;
    cur.index = 0;
    buffer.set_cursor(c, cur);
}

/// Moves the first cursor to the last byte of the last line.
pub fn move_end(buffer: &mut Buffer, c: usize, _key: Option<&str>)
    requires
        c != 0 || has_cursor(old(buffer)@, 0),
    ensures
        final(buffer)@ == move_end_result(old(buffer)@, c as int),
{
    if c != 0 {
        return ;
    }
    let mut cur = buffer.cursor_at(c);
    let count = buffer.lines.len();
    cur.line = if count > 0 {
        count - 1
    } else {
        0
    };
    let len = if cur.line < count {
        byte_length(buffer.lines[cur.line].as_str())
    } else {
        0
    };
    cur.index = if len > 0 {
        len - 1
    } else {
        0
    };
    buffer.set_cursor(c, cur);
}

/// Scrolls the view up; the view does not scroll yet.
pub fn viewport_up(buffer: &mut Buffer, c: usize, _key: Option<&str>)
    ensures
        final(buffer)@ == old(buffer)@,
{
    if c != 0 {
        return ;
    }
}

/// Scrolls the view down; the view does not scroll yet.
pub fn viewport_down(buffer: &mut Buffer, c: usize, _key: Option<&str>)
    ensures
        final(buffer)@ == old(buffer)@,
{
    if c != 0 {
        return ;
    }
}

/// Sorts the cursors, then adds a cursor one line above the last of them.
pub fn new_cursor_up(buffer: &mut Buffer, c: usize, _key: Option<&str>)
    requires
        has_cursor(old(buffer)@, c as int),
    ensures
        final(buffer)@ == new_cursor_up_result(old(buffer)@, c as int),
{
    proof {
        crate::cursor::lemma_sorted_last_first(buffer@.cursors);
    }
    buffer.sort_cursors();
    let cur = buffer.cursor_at(c);
    if cur.line == 0 || c != buffer.cursors.len() - 1 {
        return ;
    }
    let ghost before = buffer@;
    buffer.cursors.push(
        Box::new(
            Cursor {
                line: cur.line - 1,
                index: cur.index,
                line_range: 0,
                index_range: 0,
                range: false,
            },
        ),
    );
    assert(buffer@.cursors =~= before.cursors.push(plain_cursor((cur.line - 1) as usize, cur.index)));
}

/// Sorts the cursors, then adds a cursor one line below the first of them.
pub fn new_cursor_down(buffer: &mut Buffer, c: usize, _key: Option<&str>)
    requires
        has_cursor(old(buffer)@, c as int),
        old(buffer)@.lines.len() >= 1,
    ensures
        final(buffer)@ == new_cursor_down_result(old(buffer)@, c as int),
{
    proof {
        crate::cursor::lemma_sorted_last_first(buffer@.cursors);
    }
    buffer.sort_cursors();
    let cur = buffer.cursor_at(c);
    if cur.line >= buffer.lines.len() - 1 || c != 0 {
        return ;
    }
    let ghost before = buffer@;
    buffer.cursors.push(
        Box::new(
            Cursor {
                line: cur.line + 1,
                index: cur.index,
                line_range: 0,
                index_range: 0,
                range: false,
            },
        ),
    );
    assert(buffer@.cursors =~= before.cursors.push(plain_cursor((cur.line + 1) as usize, cur.index)));
}

/// Starts or ends a selection anchored at the cursor.
pub fn toggle_selection(buffer: &mut Buffer, c: usize, _key: Option<&str>)
    requires
        has_cursor(old(buffer)@, c as int),
    ensures
        final(buffer)@ == toggle_selection_result(old(buffer)@, c as int),
{
    let mut cur = buffer.cursor_at(c);
    cur.range = !cur.range;
    cur.line_range = cur.line;
    cur.index_range = cur.index;
    buffer.set_cursor(c, cur);
}

/// Exchanges the cursor's position and its selection's anchor.
pub fn swap_selection(buffer: &mut Buffer, c: usize, _key: Option<&str>)
    requires
        has_cursor(old(buffer)@, c as int),
    ensures
        final(buffer)@ == swap_selection_result(old(buffer)@, c as int),
{
    let mut cur = buffer.cursor_at(c);
    let temp_line = cur.line;
    cur.line = cur.line_range;
    cur.line_range = temp_line;
    let temp_index = cur.index;
    cur.index = cur.index_range;
    cur.index_range = temp_index;
    buffer.set_cursor(c, cur);
}

/// Cursor `c` may run `delete`.
pub open spec fn delete_ok(m: BufferModel, c: int) -> bool {
    &&& has_cursor(m, c)
    &&& m.cursors[c].range ==> sub_cursor_ok(m, m.cursors[c])
}

/// Deletes the selected text.
pub fn delete(buffer: &mut Buffer, c: usize, _key: Option<&str>)
    requires
        delete_ok(old(buffer)@, c as int),
    ensures
        final(buffer)@ == delete_result(old(buffer)@, c as int),
{
    let cur = buffer.cursor_at(c);
    if cur.range {
        let empty = "";
        proof {
            reveal_strlit("");
        }
        assert(empty@ =~= seq![]);
        buffer.sub_cursor(&Box::new(cur), empty);
        if !buffer.cursor_at(c).is_lower() {
            swap_selection(buffer, c, _key);
        }
    }
}

/// Deletes the character under the cursor, or moves left past the end.
pub fn delete_char(buffer: &mut Buffer, c: usize, _key: Option<&str>)
    requires
        delete_char_ok(old(buffer)@, c as int),
    ensures
        final(buffer)@ == delete_char_result(old(buffer)@, c as int),
{
    constrain_cursor(buffer, c, None);
    let cur = buffer.cursor_at(c);
    let n = line_chars(buffer, c);
    if n > 0 && cur.index < n {
        let mut line = buffer.lines[cur.line].clone();
        let empty = "";
        proof {
            reveal_strlit("");
        }
        assert(empty@ =~= seq![]);
        replace_bytes(&mut line, cur.index, cur.index + 1, empty);
        buffer.set_line(cur.line, line);
    } else {
        move_left(buffer, c, _key);
    }
    buffer.dirty = true;
}

/// Cursor `c` may run `join_line`.
pub open spec fn join_line_ok(m: BufferModel, c: int) -> bool {
    cursor_on_line(m, c)
}

/// Appends the next line to the cursor's line.
pub fn join_line(buffer: &mut Buffer, c: usize, _key: Option<&str>)
    requires
        join_line_ok(old(buffer)@, c as int),
    ensures
        final(buffer)@ == join_line_result(old(buffer)@, c as int),
{
    let ghost m = buffer@;
    let mut cur = buffer.cursor_at(c);
    let l = cur.line;
    if l < buffer.lines.len() - 1 {
        let next_line = buffer.lines[l + 1].clone();
        let line_len = byte_length(buffer.lines[l].as_str());
        let mut line = buffer.lines[l].clone();
        line.append(next_line.as_str());
        buffer.set_line(l, line);
        let ghost mid = buffer@;
        buffer.lines.remove(l + 1);
        assert(buffer@.lines =~= mid.lines.remove(l + 1));
        cur.index = line_len;
        buffer.set_cursor(c, cur);
        buffer.dirty = true;
        assert(buffer@ == with_index(
            with_lines(m, m.lines.update(l as int, m.lines[l as int] + m.lines[l + 1]).remove(l + 1)),
            c as int,
            byte_len(m.lines[l as int]) as usize,
        ));
    }
    constrain_cursor(buffer, c, None);
    buffer.dirty = true;
}

/// Deletes the character before the cursor, joining lines at a line start.
pub fn delete_back(buffer: &mut Buffer, c: usize, _key: Option<&str>)
    requires
        delete_back_ok(old(buffer)@, c as int),
    ensures
        final(buffer)@ == delete_back_result(old(buffer)@, c as int),
{
    let cur = buffer.cursor_at(c);
    if cur.index > 0 {
        move_left(buffer, c, _key);
        delete_char(buffer, c, _key);
    } else if cur.line > 0 {
        move_up(buffer, c, _key);
        join_line(buffer, c, _key);
    }
    buffer.dirty = true;
}

/// Cursor `c` may run `replace` or `toggle_char_case`.
pub open spec fn rewrite_ok(m: BufferModel, c: int) -> bool {
    &&& has_cursor(m, c)
    &&& selection_in_buffer(m, m.cursors[c])
    &&& sub_cursor_ok(m, m.cursors[c])
}

/// Overwrites every selected character but the newlines with the key.
pub fn replace(buffer: &mut Buffer, c: usize, _key: Option<&str>)
    requires
        rewrite_ok(old(buffer)@, c as int),
        key_given(key_view(_key)),
    ensures
        final(buffer)@ == replace_result(old(buffer)@, c as int, key_view(_key)),
{
    let cur = buffer.cursor_at(c);
    let to_sub_text = buffer.get_in_cursor(&Box::new(cur));
    let key = first_char(_key.unwrap()).unwrap();
    let to_sub_text = overwrite_chars(to_sub_text.as_str(), key);
    buffer.sub_cursor(&Box::new(cur), to_sub_text.as_str());
    if !buffer.cursor_at(c).is_lower() {
        swap_selection(buffer, c, _key);
    }
}

/// Toggles the ASCII case of every selected character.
pub fn toggle_char_case(buffer: &mut Buffer, c: usize, _key: Option<&str>)
    requires
        rewrite_ok(old(buffer)@, c as int),
    ensures
        final(buffer)@ == toggle_char_case_result(old(buffer)@, c as int),
{
    let cur = buffer.cursor_at(c);
    let to_sub_text = buffer.get_in_cursor(&Box::new(cur));
    let to_sub_text = toggle_chars(to_sub_text.as_str());
    buffer.sub_cursor(&Box::new(cur), to_sub_text.as_str());
    if !buffer.cursor_at(c).is_lower() {
        swap_selection(buffer, c, _key);
    }
}

/// Cursor `c` may run `insert_char` with `key`.
pub open spec fn insert_char_ok(m: BufferModel, c: int, key: Option<Seq<char>>) -> bool {
    &&& has_cursor(m, c)
    &&& key is Some
    &&& add_before_cursor_ok(m, m.cursors[c])
}

/// Inserts the key at the cursor.
pub fn insert_char(buffer: &mut Buffer, c: usize, _key: Option<&str>)
    requires
        insert_char_ok(old(buffer)@, c as int, key_view(_key)),
    ensures
        final(buffer)@ == insert_char_result(old(buffer)@, c as int, key_view(_key)),
{
    let cur = buffer.cursor_at(c);
    buffer.add_before_cursor(&Box::new(cur), _key.unwrap());
}

/// Deletes the cursor's line.
pub fn delete_line(buffer: &mut Buffer, c: usize, _key: Option<&str>)
    requires
        cursor_on_line(old(buffer)@, c as int),
    ensures
        final(buffer)@ == delete_line_result(old(buffer)@, c as int),
{
    let ghost m = buffer@;
    let cur = buffer.cursor_at(c);
    buffer.lines.remove(cur.line);
    assert(buffer@.lines =~= m.lines.remove(cur.line as int));
    if cur.line >= buffer.lines.len() {
        move_up(buffer, c, _key);
    }
    if buffer.lines.len() == 0 {
        let ghost before = buffer@;
        buffer.lines.push(String::new());
        assert(buffer@.lines =~= before.lines.push(seq![]));
    }
    buffer.dirty = true;
}

/// Cursor `c` may run `open_up`.
pub open spec fn open_up_ok(m: BufferModel, c: int) -> bool {
    has_cursor(m, c) && m.cursors[c].line <= m.lines.len()
}

/// Opens an empty line above the cursor's line.
pub fn open_up(buffer: &mut Buffer, c: usize, _key: Option<&str>)
    requires
        open_up_ok(old(buffer)@, c as int),
    ensures
        final(buffer)@ == open_up_result(old(buffer)@, c as int),
{
    let ghost m = buffer@;
    let cur = buffer.cursor_at(c);
    buffer.lines.insert(cur.line, String::new());
    assert(buffer@.lines =~= m.lines.insert(cur.line as int, seq![]));
    buffer.dirty = true;
}

/// Cursor `c` may run `open_down`.
pub open spec fn open_down_ok(m: BufferModel, c: int) -> bool {
    has_cursor(m, c) && m.cursors[c].line < m.lines.len()
}

/// Opens an empty line below the cursor's line.
pub fn open_down(buffer: &mut Buffer, c: usize, _key: Option<&str>)
    requires
        open_down_ok(old(buffer)@, c as int),
    ensures
        final(buffer)@ == open_down_result(old(buffer)@, c as int),
{
    let ghost m = buffer@;
    let cur = buffer.cursor_at(c);
    let count = buffer.lines.len();
    assert(cur.line < count);
    buffer.lines.insert(cur.line + 1, String::new());
    assert(buffer@.lines =~= m.lines.insert(cur.line + 1, seq![]));
    buffer.dirty = true;
}

/// Cursor `c` may run `split_line`.
pub open spec fn split_line_ok(m: BufferModel, c: int) -> bool {
    &&& cursor_on_line(m, c)
    &&& byte_len(line_at(m, c)) > 0 ==> is_boundary(line_at(m, c), m.cursors[c].index as int)
}

/// Cuts the cursor's line in two at the cursor.
pub fn split_line(buffer: &mut Buffer, c: usize, _key: Option<&str>)
    requires
        split_line_ok(old(buffer)@, c as int),
    ensures
        final(buffer)@ == split_line_result(old(buffer)@, c as int),
{
    let ghost m = buffer@;
    let cur = buffer.cursor_at(c);
    let l = cur.line;
    if byte_length(buffer.lines[l].as_str()) > 0 {
        let (front_split, back_split) = {
            let s = buffer.lines[l].as_str();
            let (front, back) = s.split_at(cur.index);
            (front.to_owned(), back.to_owned())
        };
        buffer.set_line(l, front_split);
        let count = buffer.lines.len();
        assert(l < count);
        let ghost mid = buffer@;
        buffer.lines.insert(l + 1, back_split);
        assert(buffer@.lines =~= mid.lines.insert(l + 1, back_split@));
        buffer.dirty = true;
    } else {
        open_down(buffer, c, _key);
    }
    buffer.dirty = true;
}

// ---------------------------------------------------------------------------
// Running an action on every cursor
// ---------------------------------------------------------------------------

/// The editing actions that run once per cursor.
#[derive(Clone, Copy, Debug, PartialEq, Eq)]
pub enum EditAction {
    ConstrainCursor,
    MoveUp,
    MoveDown,
    MoveLeft,
    MoveRight,
    MoveFront,
    MoveBack,
    MoveFind,
    MoveFindReverse,
    MoveTill,
    MoveTillReverse,
    MoveBeginning,
    MoveEnd,
    ViewportUp,
    ViewportDown,
    NewCursorUp,
    NewCursorDown,
    ToggleSelection,
    SwapSelection,
    Delete,
    DeleteChar,
    DeleteBack,
    Replace,
    ToggleCharCase,
    InsertChar,
    DeleteLine,
    SplitLine,
    JoinLine,
    OpenUp,
    OpenDown,
}

/// Cursor `c` may run action `a` with `key`.
pub open spec fn action_ok(a: EditAction, m: BufferModel, c: int, key: Option<Seq<char>>) -> bool {
    match a {
        EditAction::ConstrainCursor => cursor_on_line(m, c),
        EditAction::MoveUp => has_cursor(m, c),
        EditAction::MoveDown => has_cursor(m, c) && m.lines.len() >= 1,
        EditAction::MoveLeft => cursor_on_line(m, c),
        EditAction::MoveRight => cursor_on_line(m, c) && m.cursors[c].index < usize::MAX,
        EditAction::MoveFront => has_cursor(m, c),
        EditAction::MoveBack => cursor_on_line(m, c),
        EditAction::MoveFind => move_find_ok(m, c, key),
        EditAction::MoveFindReverse => move_find_reverse_ok(m, c, key),
        EditAction::MoveTill => move_find_ok(m, c, key),
        EditAction::MoveTillReverse => move_find_reverse_ok(m, c, key),
        EditAction::MoveBeginning => c != 0 || has_cursor(m, 0),
        EditAction::MoveEnd => c != 0 || has_cursor(m, 0),
        EditAction::ViewportUp => true,
        EditAction::ViewportDown => true,
        EditAction::NewCursorUp => has_cursor(m, c),
        EditAction::NewCursorDown => has_cursor(m, c) && m.lines.len() >= 1,
        EditAction::ToggleSelection => has_cursor(m, c),
        EditAction::SwapSelection => has_cursor(m, c),
        EditAction::Delete => delete_ok(m, c),
        EditAction::DeleteChar => delete_char_ok(m, c),
        EditAction::DeleteBack => delete_back_ok(m, c),
        EditAction::Replace => rewrite_ok(m, c) && key_given(key),
        EditAction::ToggleCharCase => rewrite_ok(m, c),
        EditAction::InsertChar => insert_char_ok(m, c, key),
        EditAction::DeleteLine => cursor_on_line(m, c),
        EditAction::SplitLine => split_line_ok(m, c),
        EditAction::JoinLine => join_line_ok(m, c),
        EditAction::OpenUp => open_up_ok(m, c),
        EditAction::OpenDown => open_down_ok(m, c),
    }
}

/// The buffer after cursor `c` runs action `a` with `key`.
pub open spec fn action_result(a: EditAction, m: BufferModel, c: int, key: Option<Seq<char>>) -> BufferModel {
    match a {
        EditAction::ConstrainCursor => constrain_cursor_result(m, c),
        EditAction::MoveUp => move_up_result(m, c),
        EditAction::MoveDown => move_down_result(m, c),
        EditAction::MoveLeft => move_left_result(m, c),
        EditAction::MoveRight => move_right_result(m, c),
        EditAction::MoveFront => move_front_result(m, c),
        EditAction::MoveBack => move_back_result(m, c),
        EditAction::MoveFind => move_find_result(m, c, key),
        EditAction::MoveFindReverse => move_find_reverse_result(m, c, key),
        EditAction::MoveTill => move_till_result(m, c, key),
        EditAction::MoveTillReverse => move_till_reverse_result(m, c, key),
        EditAction::MoveBeginning => move_beginning_result(m, c),
        EditAction::MoveEnd => move_end_result(m, c),
        EditAction::ViewportUp => m,
        EditAction::ViewportDown => m,
        EditAction::NewCursorUp => new_cursor_up_result(m, c),
        EditAction::NewCursorDown => new_cursor_down_result(m, c),
        EditAction::ToggleSelection => toggle_selection_result(m, c),
        EditAction::SwapSelection => swap_selection_result(m, c),
        EditAction::Delete => delete_result(m, c),
        EditAction::DeleteChar => delete_char_result(m, c),
        EditAction::DeleteBack => delete_back_result(m, c),
        EditAction::Replace => replace_result(m, c, key),
        EditAction::ToggleCharCase => toggle_char_case_result(m, c),
        EditAction::InsertChar => insert_char_result(m, c, key),
        EditAction::DeleteLine => delete_line_result(m, c),
        EditAction::SplitLine => split_line_result(m, c),
        EditAction::JoinLine => join_line_result(m, c),
        EditAction::OpenUp => open_up_result(m, c),
        EditAction::OpenDown => open_down_result(m, c),
    }
}

/// Runs action `a` for cursor `c`.
pub fn apply_action(a: EditAction, buffer: &mut Buffer, c: usize, key: Option<&str>)
    requires
        action_ok(a, old(buffer)@, c as int, key_view(key)),
    ensures
        final(buffer)@ == action_result(a, old(buffer)@, c as int, key_view(key)),
{
    match a {
        EditAction::ConstrainCursor => constrain_cursor(buffer, c, key),
        EditAction::MoveUp => move_up(buffer, c, key),
        EditAction::MoveDown => move_down(buffer, c, key),
        EditAction::MoveLeft => move_left(buffer, c, key),
        EditAction::MoveRight => move_right(buffer, c, key),
        EditAction::MoveFront => move_front(buffer, c, key),
        EditAction::MoveBack => move_back(buffer, c, key),
        EditAction::MoveFind => move_find(buffer, c, key),
        EditAction::MoveFindReverse => move_find_reverse(buffer, c, key),
        EditAction::MoveTill => move_till(buffer, c, key),
        EditAction::MoveTillReverse => move_till_reverse(buffer, c, key),
        EditAction::MoveBeginning => move_beginning(buffer, c, key),
        EditAction::MoveEnd => move_end(buffer, c, key),
        EditAction::ViewportUp => viewport_up(buffer, c, key),
        EditAction::ViewportDown => viewport_down(buffer, c, key),
        EditAction::NewCursorUp => new_cursor_up(buffer, c, key),
        EditAction::NewCursorDown => new_cursor_down(buffer, c, key),
        EditAction::ToggleSelection => toggle_selection(buffer, c, key),
        EditAction::SwapSelection => swap_selection(buffer, c, key),
        EditAction::Delete => delete(buffer, c, key),
        EditAction::DeleteChar => delete_char(buffer, c, key),
        EditAction::DeleteBack => delete_back(buffer, c, key),
        EditAction::Replace => replace(buffer, c, key),
        EditAction::ToggleCharCase => toggle_char_case(buffer, c, key),
        EditAction::InsertChar => insert_char(buffer, c, key),
        EditAction::DeleteLine => delete_line(buffer, c, key),
        EditAction::SplitLine => split_line(buffer, c, key),
        EditAction::JoinLine => join_line(buffer, c, key),
        EditAction::OpenUp => open_up(buffer, c, key),
        EditAction::OpenDown => open_down(buffer, c, key),
    }
}

/// The buffer after cursors `0..k` ran action `a`, one after the other.
pub open spec fn run_action(a: EditAction, m: BufferModel, key: Option<Seq<char>>, k: nat) -> BufferModel
    decreases k,
{
    if k == 0 {
        m
    } else {
        action_result(a, run_action(a, m, key, (k - 1) as nat), k - 1, key)
    }
}

/// Each of the cursors `0..k` may run action `a` in its turn.
pub open spec fn run_action_ok(a: EditAction, m: BufferModel, key: Option<Seq<char>>, k: nat) -> bool {
    forall|j: nat| j < k ==> action_ok(a, #[trigger] run_action(a, m, key, j), j as int, key)
}

/// Runs `action` for each cursor in turn, as many cursors as the buffer has
/// when it starts.
pub fn execute_action(action: EditAction, buffer: &mut Buffer, key: Option<&str>)
    requires
        run_action_ok(action, old(buffer)@, key_view(key), old(buffer)@.cursors.len()),
    ensures
        final(buffer)@ == run_action(action, old(buffer)@, key_view(key), old(buffer)@.cursors.len()),
{
    let ghost m = buffer@;
    let n = buffer.cursors.len();
    let mut c: usize = 0;
    while c < n
        invariant
            c <= n,
            n == m.cursors.len(),
            run_action_ok(action, m, key_view(key), n as nat),
            buffer@ == run_action(action, m, key_view(key), c as nat),
        decreases n - c,
    {
        assert(action_ok(action, run_action(action, m, key_view(key), c as nat), c as int, key_view(key)));
        apply_action(action, buffer, c, key);
        c = c + 1;
    }
}

// ---------------------------------------------------------------------------
// Checking an action before it runs
// ---------------------------------------------------------------------------

/// Whether cursor `c` exists.
fn cursor_exists(buffer: &Buffer, c: usize) -> (r: bool)
    ensures
        r == has_cursor(buffer@, c as int),
{
    c < buffer.cursors.len()
}

/// Whether cursor `c` exists and stands on a line of the buffer.
fn cursor_on_a_line(buffer: &Buffer, c: usize) -> (r: bool)
    ensures
        r == cursor_on_line(buffer@, c as int),
{
    c < buffer.cursors.len() && buffer.cursor_at(c).line < buffer.lines.len()
}

/// Whether the key has a first character.
fn key_present(key: Option<&str>) -> (r: bool)
    ensures
        r == key_given(key_view(key)),
{
    match key {
        Some(k) => first_char(k).is_some(),
        None => false,
    }
}

/// Whether deleting the character at column `index` of `line`, once the
/// column is constrained to the line, cuts the line at character boundaries.
fn char_deletable(line: &str, index: usize) -> (r: bool)
    ensures
        r == ({
            let n = line@.len() as int;
            let i = if n == 0 {
                0
            } else if index > n {
                n
            } else {
                index as int
            };
            n > 0 && i < n ==> is_boundary(line@, i) && is_boundary(line@, i + 1)
        }),
{
    let n = line.unicode_len();
    let i = if n == 0 {
        0
    } else if index > n {
        n
    } else {
        index
    };
    if n > 0 && i < n {
        line.is_char_boundary(i) && line.is_char_boundary(i + 1)
    } else {
        true
    }
}

/// Whether cursor `c` may run `delete_char`.
fn delete_char_allowed(buffer: &Buffer, c: usize) -> (r: bool)
    ensures
        r == delete_char_ok(buffer@, c as int),
{
    if !cursor_on_a_line(buffer, c) {
        return false;
    }
    let cur = buffer.cursor_at(c);
    char_deletable(buffer.lines[cur.line].as_str(), cur.index)
}

/// Whether cursor `c` may run `delete_back`.
fn delete_back_allowed(buffer: &Buffer, c: usize) -> (r: bool)
    ensures
        r == delete_back_ok(buffer@, c as int),
{
    if !cursor_exists(buffer, c) {
        return false;
    }
    let cur = buffer.cursor_at(c);
    if cur.index > 0 {
        if cur.line >= buffer.lines.len() {
            return false;
        }
        let line = buffer.lines[cur.line].as_str();
        let n = line.unicode_len();
        let i = if n == 0 {
            0
        } else if cur.index > n {
            n
        } else {
            cur.index
        };
        let left = if i > 0 {
            i - 1
        } else {
            i
        };
        char_deletable(line, left)
    } else if cur.line > 0 {
        cur.line - 1 < buffer.lines.len()
    } else {
        true
    }
}

/// Whether cursor `c` may run `move_find` or `move_till` with `key`.
fn move_find_allowed(buffer: &Buffer, c: usize, key: Option<&str>) -> (r: bool)
    ensures
        r == move_find_ok(buffer@, c as int, key_view(key)),
{
    cursor_on_a_line(buffer, c) && key_present(key) && buffer.cursor_at(c).index < usize::MAX
}

/// Whether cursor `c` may run `move_find_reverse` or `move_till_reverse`
/// with `key`.
fn move_find_reverse_allowed(buffer: &Buffer, c: usize, key: Option<&str>) -> (r: bool)
    ensures
        r == move_find_reverse_ok(buffer@, c as int, key_view(key)),
{
    if !cursor_on_a_line(buffer, c) || !key_present(key) {
        return false;
    }
    let cur = buffer.cursor_at(c);
    let k = first_char(key.unwrap()).unwrap();
    let line = buffer.lines[cur.line].as_str();
    let lb = byte_length(line);
    if lb < 1 || cur.index > lb - 1 {
        return false;
    }
    let n = line.unicode_len();
    let skipped = lb - cur.index;
    let r = if n >= skipped {
        n - skipped
    } else {
        0
    };
    assert(r == reverse_scan_len(buffer@, c as int));
    match find_backward(line, r, k) {
        Some(p) => {
            proof {
                lemma_last_before(line@, r as int, k);
            }
            cur.index >= r - p
        },
        None => cur.index >= r,
    }
}

/// Whether cursor `c` may run `delete`.
fn delete_allowed(buffer: &Buffer, c: usize) -> (r: bool)
    ensures
        r == delete_ok(buffer@, c as int),
{
    if !cursor_exists(buffer, c) {
        return false;
    }
    let cur = buffer.cursor_at(c);
    !cur.range || buffer.sub_cursor_allowed(cur)
}

/// Whether cursor `c` may rewrite its selection.
fn rewrite_allowed(buffer: &Buffer, c: usize) -> (r: bool)
    ensures
        r == rewrite_ok(buffer@, c as int),
{
    cursor_exists(buffer, c) && buffer.sub_cursor_allowed(buffer.cursor_at(c))
}

/// Whether cursor `c` may run `insert_char` with `key`.
fn insert_char_allowed(buffer: &Buffer, c: usize, key: Option<&str>) -> (r: bool)
    ensures
        r == insert_char_ok(buffer@, c as int, key_view(key)),
{
    cursor_exists(buffer, c) && key.is_some() && buffer.add_before_cursor_allowed(buffer.cursor_at(c))
}

/// Whether cursor `c` may run `split_line`.
fn split_line_allowed(buffer: &Buffer, c: usize) -> (r: bool)
    ensures
        r == split_line_ok(buffer@, c as int),
{
    if !cursor_on_a_line(buffer, c) {
        return false;
    }
    let cur = buffer.cursor_at(c);
    let line = buffer.lines[cur.line].as_str();
    byte_length(line) == 0 || line.is_char_boundary(cur.index)
}

/// Whether cursor `c` may run action `a` with `key` (see [`action_ok`]).
pub fn action_allowed(a: EditAction, buffer: &Buffer, c: usize, key: Option<&str>) -> (r: bool)
    ensures
        r == action_ok(a, buffer@, c as int, key_view(key)),
{
    match a {
        EditAction::ConstrainCursor => cursor_on_a_line(buffer, c),
        EditAction::MoveUp => cursor_exists(buffer, c),
        EditAction::MoveDown => cursor_exists(buffer, c) && buffer.lines.len() >= 1,
        EditAction::MoveLeft => cursor_on_a_line(buffer, c),
        EditAction::MoveRight => cursor_on_a_line(buffer, c) && buffer.cursor_at(c).index
            < usize::MAX,
        EditAction::MoveFront => cursor_exists(buffer, c),
        EditAction::MoveBack => cursor_on_a_line(buffer, c),
        EditAction::MoveFind => move_find_allowed(buffer, c, key),
        EditAction::MoveFindReverse => move_find_reverse_allowed(buffer, c, key),
        EditAction::MoveTill => move_find_allowed(buffer, c, key),
        EditAction::MoveTillReverse => move_find_reverse_allowed(buffer, c, key),
        EditAction::MoveBeginning => c != 0 || cursor_exists(buffer, 0),
        EditAction::MoveEnd => c != 0 || cursor_exists(buffer, 0),
        EditAction::ViewportUp => true,
        EditAction::ViewportDown => true,
        EditAction::NewCursorUp => cursor_exists(buffer, c),
        EditAction::NewCursorDown => cursor_exists(buffer, c) && buffer.lines.len() >= 1,
        EditAction::ToggleSelection => cursor_exists(buffer, c),
        EditAction::SwapSelection => cursor_exists(buffer, c),
        EditAction::Delete => delete_allowed(buffer, c),
        EditAction::DeleteChar => delete_char_allowed(buffer, c),
        EditAction::DeleteBack => delete_back_allowed(buffer, c),
        EditAction::Replace => rewrite_allowed(buffer, c) && key_present(key),
        EditAction::ToggleCharCase => rewrite_allowed(buffer, c),
        EditAction::InsertChar => insert_char_allowed(buffer, c, key),
        EditAction::DeleteLine => cursor_on_a_line(buffer, c),
        EditAction::SplitLine => split_line_allowed(buffer, c),
        EditAction::JoinLine => cursor_on_a_line(buffer, c),
        EditAction::OpenUp => cursor_exists(buffer, c) && buffer.cursor_at(c).line
            <= buffer.lines.len(),
        EditAction::OpenDown => cursor_on_a_line(buffer, c),
    }
}

/// When the cursors `0..k` may run `a` in turn and cursor `k` may in its
/// turn, so may the cursors `0..k+1`.
proof fn lemma_run_action_ok_extends(a: EditAction, m: BufferModel, key: Option<Seq<char>>, k: nat)
    requires
        run_action_ok(a, m, key, k),
        action_ok(a, run_action(a, m, key, k), k as int, key),
    ensures
        run_action_ok(a, m, key, k + 1),
{
    assert forall|j: nat| j < k + 1 implies action_ok(
        a,
        #[trigger] run_action(a, m, key, j),
        j as int,
        key,
    ) by {
        if j < k {
            assert(action_ok(a, run_action(a, m, key, j), j as int, key));
        }
    }
}

/// When cursor `k` may not run `a` in its turn, the cursors `0..n` may not,
/// for any `n` past `k`.
proof fn lemma_run_action_stops(a: EditAction, m: BufferModel, key: Option<Seq<char>>, k: nat, n: nat)
    requires
        k < n,
        !action_ok(a, run_action(a, m, key, k), k as int, key),
    ensures
        !run_action_ok(a, m, key, n),
{
}

/// Runs action `a` for cursor `c` when it may run; answers whether it ran.
fn try_apply_action(a: EditAction, buffer: &mut Buffer, c: usize, key: Option<&str>) -> (r: bool)
    ensures
        r == action_ok(a, old(buffer)@, c as int, key_view(key)),
        r ==> final(buffer)@ == action_result(a, old(buffer)@, c as int, key_view(key)),
{
    if !action_allowed(a, buffer, c, key) {
        return false;
    }
    apply_action(a, buffer, c, key);
    true
}

/// Runs `action` for each cursor in turn, as [`execute_action`] does, while
/// each cursor may run it in its turn; stops before the first that may not,
/// and then answers `false`.
pub fn try_execute_action(action: EditAction, buffer: &mut Buffer, key: Option<&str>) -> (r: bool)
    ensures
        r == run_action_ok(action, old(buffer)@, key_view(key), old(buffer)@.cursors.len()),
        r ==> final(buffer)@ == run_action(
            action,
            old(buffer)@,
            key_view(key),
            old(buffer)@.cursors.len(),
        ),
{
    let ghost m = buffer@;
    let n = buffer.cursors.len();
    let mut c: usize = 0;
    while c < n
        invariant
            c <= n,
            m == old(buffer)@,
            n == m.cursors.len(),
            run_action_ok(action, m, key_view(key), c as nat),
            buffer@ == run_action(action, m, key_view(key), c as nat),
        decreases n - c,
    {
        if !try_apply_action(action, buffer, c, key) {
            proof {
                lemma_run_action_stops(action, m, key_view(key), c as nat, n as nat);
            }
            return false;
        }
        proof {
            lemma_run_action_ok_extends(action, m, key_view(key), c as nat);
        }
        c = c + 1;
    }
    true
}

// ---------------------------------------------------------------------------
// Word motions
// ---------------------------------------------------------------------------

/// Scanning the spans in order, each one read before the first that starts
/// after `index` is present (the scan unwraps them).
pub open spec fn word_scan_ok(spans: Seq<Option<(usize, usize)>>, index: usize) -> bool
    decreases spans.len(),
{
    if spans.len() == 0 {
        true
    } else {
        match spans[0] {
            Some(s) => s.0 > index || word_scan_ok(spans.drop_first(), index),
            None => false,
        }
    }
}

/// The start of the first span that starts after `index`.
pub open spec fn next_word_start(spans: Seq<Option<(usize, usize)>>, index: usize) -> Option<usize>
    decreases spans.len(),
{
    if spans.len() == 0 {
        None
    } else {
        match spans[0] {
            Some(s) => if s.0 > index {
                Some(s.0)
            } else {
                next_word_start(spans.drop_first(), index)
            },
            None => None,
        }
    }
}

/// `move_word` given the spans of the last letter of each word on the
/// cursor's line: to the first of them after the cursor, else to the end of
/// the line.
pub open spec fn move_word_to_result(m: BufferModel, c: int, spans: Seq<Option<(usize, usize)>>) -> BufferModel {
    match next_word_start(spans, m.cursors[c].index) {
        Some(s) => with_index(m, c, s),
        None => move_back_result(m, c),
    }
}

/// The start of the last span that starts before `index`.
pub open spec fn prev_word_start(spans: Seq<Option<(usize, usize)>>, index: usize) -> Option<usize>
    decreases spans.len(),
{
    if spans.len() == 0 {
        None
    } else if spans.last().unwrap().0 < index {
        Some(spans.last().unwrap().0)
    } else {
        prev_word_start(spans.drop_last(), index)
    }
}

/// `move_word_reverse` given the spans of the words on the cursor's line: to
/// the start of the last of them that starts before the cursor, else to the
/// start of the line.
pub open spec fn move_word_reverse_to_result(m: BufferModel, c: int, spans: Seq<Option<(usize, usize)>>) -> BufferModel {
    match prev_word_start(spans, m.cursors[c].index) {
        Some(s) => with_index(m, c, s),
        None => move_front_result(m, c),
    }
}

/// The words of a line: runs of ASCII letters, the characters between `Z`
/// and `a`, digits and underscores.
pub const WORD_PATTERN: &'static str = "([A-z]|[0-9]|_)+";

/// Whether `word_scan_ok` holds of `spans` and `index`.
fn word_spans_usable(spans: &Vec<Option<(usize, usize)>>, index: usize) -> (r: bool)
    ensures
        r == word_scan_ok(spans@, index),
{
    let mut i: usize = 0;
    assert(spans@.skip(0) =~= spans@);
    while i < spans.len()
        invariant
            i <= spans.len(),
            word_scan_ok(spans@, index) == word_scan_ok(spans@.skip(i as int), index),
        decreases spans.len() - i,
    {
        assert(spans@.skip(i as int).drop_first() =~= spans@.skip(i + 1));
        assert(spans@.skip(i as int)[0] == spans@[i as int]);
        match spans[i] {
            Some(s) => {
                if s.0 > index {
                    return true;
                }
            },
            None => {
                return false;
            },
        }
        i = i + 1;
    }
    true
}

/// The start of the first span that starts after `index`.
fn next_word_target(spans: &Vec<Option<(usize, usize)>>, index: usize) -> (r: Option<usize>)
    requires
        word_scan_ok(spans@, index),
    ensures
        r == next_word_start(spans@, index),
{
    let mut i: usize = 0;
    assert(spans@.skip(0) =~= spans@);
    while i < spans.len()
        invariant
            i <= spans.len(),
            word_scan_ok(spans@.skip(i as int), index),
            next_word_start(spans@, index) == next_word_start(spans@.skip(i as int), index),
        decreases spans.len() - i,
    {
        assert(spans@.skip(i as int).drop_first() =~= spans@.skip(i + 1));
        assert(spans@.skip(i as int)[0] == spans@[i as int]);
        let start = spans[i].unwrap().0;
        if start > index {
            return Some(start);
        }
        i = i + 1;
    }
    None
}

/// Moves the cursor to the last letter of the next word, given the spans of
/// capture group 1 (a word's last letter) of each word match on its line
/// (see [`move_word_to_result`]).
pub fn move_word_to(buffer: &mut Buffer, c: usize, spans: &Vec<Option<(usize, usize)>>)
    requires
        cursor_on_line(old(buffer)@, c as int),
        word_scan_ok(spans@, old(buffer)@.cursors[c as int].index),
    ensures
        final(buffer)@ == move_word_to_result(old(buffer)@, c as int, spans@),
{
    let mut cur = buffer.cursor_at(c);
    match next_word_target(spans, cur.index) {
        Some(start) => {
            cur.index = start;
            buffer.set_cursor(c, cur);
        },
        None => {
            move_back(buffer, c, None);
        },
    }
}

/// Moves the cursor to the last letter of the next word on its line: to
/// where the letter group of the first word match starts when that is after
/// the cursor (the group captures a word's last letter), else to the end of
/// the line (see
/// [`move_word_to_result`]). When the word pattern does not compile, or a
/// match read before that one lacks its letter group, the buffer stays as
/// it is.
pub fn move_word(buffer: &mut Buffer, c: usize, _key: Option<&str>)
    requires
        cursor_on_line(old(buffer)@, c as int),
    ensures
        ({
            let spans = pattern_captures(WORD_PATTERN@, line_at(old(buffer)@, c as int), 1);
            if pattern_compiles(WORD_PATTERN@) && word_scan_ok(
                spans,
                old(buffer)@.cursors[c as int].index,
            ) {
                final(buffer)@ == move_word_to_result(old(buffer)@, c as int, spans)
            } else {
                final(buffer)@ == old(buffer)@
            }
        }),
{
    let cur = buffer.cursor_at(c);
    match pattern_captures_in(WORD_PATTERN, buffer.lines[cur.line].as_str(), 1) {
        Ok(spans) => {
            if word_spans_usable(&spans, cur.index) {
                move_word_to(buffer, c, &spans);
            }
        },
        Err(_) => {},
    }
}

/// The start of the last span that starts before `index`.
fn prev_word_target(spans: &Vec<Option<(usize, usize)>>, index: usize) -> (r: Option<usize>)
    requires
        all_present(spans@),
    ensures
        r == prev_word_start(spans@, index),
{
    let mut i: usize = spans.len();
    assert(spans@.take(i as int) =~= spans@);
    while i > 0
        invariant
            i <= spans.len(),
            all_present(spans@),
            prev_word_start(spans@, index) == prev_word_start(spans@.take(i as int), index),
        decreases i,
    {
        assert(spans@.take(i as int).drop_last() =~= spans@.take(i - 1));
        assert(spans@.take(i as int).last() == spans@[i - 1]);
        assert(spans@[i - 1] is Some);
        let start = spans[i - 1].unwrap().0;
        if start < index {
            return Some(start);
        }
        i = i - 1;
    }
    None
}

/// Moves the cursor to the start of the last word, among the given spans of
/// word matches on its line, that starts before it, else to the start of
/// the line (see [`move_word_reverse_to_result`]).
pub fn move_word_reverse_to(buffer: &mut Buffer, c: usize, spans: &Vec<Option<(usize, usize)>>)
    requires
        has_cursor(old(buffer)@, c as int),
        all_present(spans@),
    ensures
        final(buffer)@ == move_word_reverse_to_result(old(buffer)@, c as int, spans@),
{
    let mut cur = buffer.cursor_at(c);
    match prev_word_target(spans, cur.index) {
        Some(start) => {
            cur.index = start;
            buffer.set_cursor(c, cur);
        },
        None => {
            move_front(buffer, c, None);
        },
    }
}

/// Moves the cursor back to the start of the previous word on its line,
/// else to the start of the line (see [`move_word_reverse_to_result`]).
/// When the word pattern does not compile the buffer stays as it is.
pub fn move_word_reverse(buffer: &mut Buffer, c: usize, _key: Option<&str>)
    requires
        cursor_on_line(old(buffer)@, c as int),
    ensures
        ({
            let spans = pattern_captures(WORD_PATTERN@, line_at(old(buffer)@, c as int), 0);
            if pattern_compiles(WORD_PATTERN@) {
                final(buffer)@ == move_word_reverse_to_result(old(buffer)@, c as int, spans)
            } else {
                final(buffer)@ == old(buffer)@
            }
        }),
{
    let cur = buffer.cursor_at(c);
    match pattern_captures_in(WORD_PATTERN, buffer.lines[cur.line].as_str(), 0) {
        Ok(spans) => {
            move_word_reverse_to(buffer, c, &spans);
        },
        Err(_) => {},
    }
}

} // verus!
