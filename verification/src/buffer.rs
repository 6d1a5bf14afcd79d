use crate::cursor::{cursor_views, insertion_point, lemma_selection_bounds, sorted_last_first, Cursor};
use crate::text::{
    byte_len, byte_length, byte_replace, byte_slice, get_bytes_or_empty, insert_at_byte,
    is_boundary, join_lines, join_with_newlines, lemma_join_split, lemma_split_newlines_nonempty,
    newline_terminated, replace_bytes, sat_dec, slice_or_empty, split_at_newlines, split_newlines,
    views,
};
use vstd::prelude::*;
use vstd::utf8::*;

verus! {

broadcast use {vstd::utf8::group_utf8_lib, crate::text::lemma_views, crate::cursor::lemma_cursor_views};

/// An open file (or the scratch buffer): its lines and its cursors.
pub struct Buffer {
    pub path: Option<String>,
    pub viewport: usize,
    pub height: usize,
    pub lines: Vec<String>,
    pub file_as_string: String,
    pub dirty: bool,
    pub cursors: Vec<Box<Cursor>>,
}

/// The mathematical model of a [`Buffer`]: texts as character sequences.
pub struct BufferModel {
    pub path: Option<Seq<char>>,
    pub viewport: usize,
    pub height: usize,
    pub lines: Seq<Seq<char>>,
    pub file_as_string: Seq<char>,
    pub dirty: bool,
    pub cursors: Seq<Cursor>,
}

/// The view of an optional string.
pub open spec fn opt_view(p: Option<String>) -> Option<Seq<char>> {
    match p {
        Some(s) => Some(s@),
        None => None,
    }
}

impl View for Buffer {
    type V = BufferModel;

    open spec fn view(&self) -> BufferModel {
        BufferModel {
            path: opt_view(self.path),
            viewport: self.viewport,
            height: self.height,
            lines: views(self.lines@),
            file_as_string: self.file_as_string@,
            dirty: self.dirty,
            cursors: cursor_views(self.cursors@),
        }
    }
}

/// The lines of a fresh scratch buffer.
pub open spec fn scratch_lines() -> Seq<Seq<char>> {
    seq!["Scratch buffer"@, ""@, "Text"@]
}

/// A cursor at the start of the buffer, without a selection.
pub open spec fn origin_cursor() -> Cursor {
    Cursor { line: 0, index: 0, line_range: 0, index_range: 0, range: false }
}

/// A column clamped to the last byte of its line (to 0 on an empty line).
pub open spec fn clamped_col(m: BufferModel, p: (usize, usize)) -> int {
    let cap = sat_dec(byte_len(m.lines[p.0 as int]) as int);
    if p.1 <= cap {
        p.1 as int
    } else {
        cap
    }
}

/// Both ends of the cursor's selection lie on lines of the buffer.
pub open spec fn selection_in_buffer(m: BufferModel, cur: Cursor) -> bool {
    &&& cur.lower().0 < m.lines.len()
    &&& cur.higher().0 < m.lines.len()
}

/// The selected text: on one line the bytes between the clamped columns
/// (both included); across lines the rest of the first line, the lines in
/// between and the start of the last line, joined by newlines.
pub open spec fn selected_text(m: BufferModel, cur: Cursor) -> Seq<char> {
    let lo = cur.lower();
    let hi = cur.higher();
    let a = clamped_col(m, lo);
    let b = clamped_col(m, hi);
    if lo.0 == hi.0 {
        if byte_len(m.lines[lo.0 as int]) == 0 {
            seq![]
        } else {
            slice_or_empty(m.lines[lo.0 as int], a, b + 1)
        }
    } else {
        slice_or_empty(m.lines[lo.0 as int], a, byte_len(m.lines[lo.0 as int]) as int) + seq!['\n']
            + newline_terminated(m.lines.subrange(lo.0 + 1, hi.0 as int)) + slice_or_empty(
            m.lines[hi.0 as int],
            0,
            b + 1,
        )
    }
}

/// Text can be inserted at the cursor's lower position.
pub open spec fn add_before_cursor_ok(m: BufferModel, cur: Cursor) -> bool {
    let (l, i) = cur.lower();
    &&& l < m.lines.len()
    &&& i < byte_len(m.lines[l as int]) ==> is_boundary(m.lines[l as int], i as int)
}

/// The buffer after inserting `t` at the cursor's lower position (a byte
/// offset); at or past the end of the line, `t` is appended.
pub open spec fn add_before_cursor_result(m: BufferModel, cur: Cursor, t: Seq<char>) -> BufferModel {
    let (l, i) = cur.lower();
    let line = m.lines[l as int];
    let new_line = if i >= byte_len(line) {
        line + t
    } else {
        byte_replace(line, i as int, i as int, t)
    };
    BufferModel { lines: m.lines.update(l as int, new_line), dirty: true, ..m }
}

/// `pieces` with `pre` put before the first of them and `suf` after the
/// last (both around the same piece when there is only one).
pub open spec fn glued(pre: Seq<char>, pieces: Seq<Seq<char>>, suf: Seq<char>) -> Seq<Seq<char>> {
    let p1 = pieces.update(0, pre + pieces[0]);
    p1.update(p1.len() - 1, p1.last() + suf)
}

/// The selection of `cur` can be replaced: its lines exist and the byte
/// offsets that are cut lie on character boundaries.
pub open spec fn sub_cursor_ok(m: BufferModel, cur: Cursor) -> bool {
    let lo = cur.lower();
    let hi = cur.higher();
    let a = clamped_col(m, lo);
    let b = clamped_col(m, hi);
    &&& selection_in_buffer(m, cur)
    &&& if lo.0 == hi.0 {
        byte_len(m.lines[lo.0 as int]) == 0 || (is_boundary(m.lines[lo.0 as int], a)
            && is_boundary(m.lines[lo.0 as int], b + 1))
    } else {
        is_boundary(m.lines[lo.0 as int], a)
    }
}

/// The buffer after replacing the selection of `cur` by `t`. Within one
/// line, the selected bytes are replaced (an empty line takes `t`) and the
/// line is split at its newlines. Across lines, the selected lines give way
/// to the pieces of `t` between its newlines, the first piece preceded by
/// the start of the first line and the last one followed by the rest of the
/// last line.
pub open spec fn sub_cursor_result(m: BufferModel, cur: Cursor, t: Seq<char>) -> BufferModel {
    let lo = cur.lower();
    let hi = cur.higher();
    let a = clamped_col(m, lo);
    let b = clamped_col(m, hi);
    if lo.0 == hi.0 {
        let line = m.lines[lo.0 as int];
        let new_line = if byte_len(line) == 0 {
            line + t
        } else {
            byte_replace(line, a, b + 1, t)
        };
        BufferModel {
            lines: m.lines.take(lo.0 as int) + split_newlines(new_line) + m.lines.skip(lo.0 + 1),
            dirty: true,
            ..m
        }
    } else {
        let pre = byte_slice(m.lines[lo.0 as int], 0, a);
        let suf = slice_or_empty(
            m.lines[hi.0 as int],
            b + 1,
            byte_len(m.lines[hi.0 as int]) as int,
        );
        BufferModel {
            lines: m.lines.take(lo.0 as int) + glued(pre, split_newlines(t), suf) + m.lines.skip(
                hi.0 + 1,
            ),
            dirty: true,
            ..m
        }
    }
}

/// Byte offset `idx` of the buffer's text can be turned into a position:
/// it lies in the text, ends a character and is not a newline.
pub open spec fn offset_convertible(s: Seq<char>, idx: int) -> bool {
    &&& 0 <= idx < byte_len(s)
    &&& is_boundary(s, idx + 1)
    &&& encode_utf8(s)[idx] != 10u8
}

/// The number of newline bytes in `b`.
pub open spec fn newline_count(b: Seq<u8>) -> nat
    decreases b.len(),
{
    if b.len() == 0 {
        0
    } else {
        newline_count(b.drop_last()) + if b.last() == 10u8 {
            1nat
        } else {
            0nat
        }
    }
}

/// The offset of the last newline byte in `b`, or -1 when it has none.
pub open spec fn last_newline(b: Seq<u8>) -> int
    decreases b.len(),
{
    if b.len() == 0 {
        -1
    } else if b.last() == 10u8 {
        b.len() - 1
    } else {
        last_newline(b.drop_last())
    }
}

/// The (line, column) of byte offset `idx` in text `s`: the line is the
/// number of newlines up to and including `idx`, the column the distance
/// from the byte after the last of them.
pub open spec fn offset_to_position(s: Seq<char>, idx: int) -> (usize, usize) {
    let prefix = encode_utf8(s).take(idx + 1);
    let line = newline_count(prefix);
    if line == 0 {
        (0, idx as usize)
    } else {
        (line as usize, (idx - last_newline(prefix) - 1) as usize)
    }
}

/// Where the last newline byte can be, and how it relates to the count of
/// newline bytes.
pub proof fn lemma_last_newline_bounds(b: Seq<u8>)
    ensures
        -1 <= last_newline(b) < b.len(),
        last_newline(b) >= 0 ==> b[last_newline(b)] == 10u8,
        newline_count(b) > 0 <==> last_newline(b) >= 0,
        newline_count(b) <= b.len(),
        forall|k: int| last_newline(b) < k < b.len() ==> b[k] != 10u8,
    decreases b.len(),
{
    if b.len() > 0 {
        lemma_last_newline_bounds(b.drop_last());
        assert forall|k: int| last_newline(b) < k < b.len() implies b[k] != 10u8 by {
            if k < b.len() - 1 {
                assert(b.drop_last()[k] == b[k]);
            }
        }
    }
}

/// The buffer with its text brought up to date: when it is marked dirty the
/// text is recomputed as the lines joined by newlines.
pub open spec fn refreshed(m: BufferModel) -> BufferModel {
    if m.dirty {
        BufferModel { file_as_string: join_lines(m.lines), ..m }
    } else {
        m
    }
}

impl Buffer {
    /// A fresh scratch buffer holding three lines and one cursor at the start.
    pub fn new() -> (b: Buffer)
        ensures
            b@ == (BufferModel {
                path: None,
                viewport: 0,
                height: 50,
                lines: scratch_lines(),
                file_as_string: join_lines(scratch_lines()),
                dirty: false,
                cursors: seq![origin_cursor()],
            }),
    {
        let lines = vec!["Scratch buffer".to_string(), "".to_string(), "Text".to_string()];
        let joined = join_with_newlines(&lines);
        let b = Buffer {
            path: None,
            viewport: 0,
            height: 50,
            lines,
            file_as_string: joined,
            dirty: false,
            cursors: vec![
                Box::new(
                    Cursor { line: 0, index: 0, line_range: 0, index_range: 0, range: false },
                ),
            ],
        };
        assert(b@.lines =~= scratch_lines());
        assert(b@.cursors =~= seq![origin_cursor()]);
        b
    }

    /// The cursor at position `c`.
    pub fn cursor_at(&self, c: usize) -> (r: Cursor)
        requires
            c < self.cursors.len(),
        ensures
            r == self@.cursors[c as int],
    {
        let b: &Box<Cursor> = &self.cursors[c];
        **b
    }

    /// Replaces the cursor at position `c`.
    pub fn set_cursor(&mut self, c: usize, cur: Cursor)
        requires
            c < old(self).cursors.len(),
        ensures
            final(self)@ == (BufferModel {
                cursors: old(self)@.cursors.update(c as int, cur),
                ..old(self)@
            }),
    {
        self.cursors.set(c, Box::new(cur));
        assert(self@.cursors =~= old(self)@.cursors.update(c as int, cur));
    }

    /// Replaces line `i`.
    pub fn set_line(&mut self, i: usize, s: String)
        requires
            i < old(self).lines.len(),
        ensures
            final(self)@ == (BufferModel { lines: old(self)@.lines.update(i as int, s@), ..old(self)@ }),
    {
        self.lines.set(i, s);
        assert(self@.lines =~= old(self)@.lines.update(i as int, s@));
    }

    /// Takes the lines read from the file at `path` as the buffer's content.
    pub fn load_lines(&mut self, path: &str, lines: Vec<String>)
        ensures
            final(self)@ == (BufferModel {
                lines: views(lines@),
                path: Some(path@),
                dirty: true,
                ..old(self)@
            }),
    {
        self.lines = lines;
        self.path = Some(path.to_owned());
        self.dirty = true;
    }

    /// What writing the buffer stores: the path and the lines joined with
    /// newlines, or `None` for the scratch buffer, which has no path.
    pub fn write(&self) -> (r: Option<(String, String)>)
        ensures
            self@.path is None ==> r is None,
            self@.path matches Some(p) ==> r matches Some(w) && w.0@ == p && w.1@ == join_lines(
                self@.lines,
            ),
    {
        match &self.path {
            None => None,
            Some(p) => Some((p.clone(), join_with_newlines(&self.lines))),
        }
    }

    /// Whether text can be inserted before `cur` (see [`add_before_cursor_ok`]).
    pub fn add_before_cursor_allowed(&self, cur: Cursor) -> (r: bool)
        ensures
            r == add_before_cursor_ok(self@, cur),
    {
        let lower = cur.get_lower();
        if lower.0 >= self.lines.len() {
            return false;
        }
        let line = self.lines[lower.0].as_str();
        lower.1 >= byte_length(line) || line.is_char_boundary(lower.1)
    }

    /// Whether the selection of `cur` can be replaced (see [`sub_cursor_ok`]).
    pub fn sub_cursor_allowed(&self, cur: Cursor) -> (r: bool)
        ensures
            r == sub_cursor_ok(self@, cur),
    {
        let ghost m = self@;
        let lower = cur.get_lower();
        let higher = cur.get_higher();
        if lower.0 >= self.lines.len() || higher.0 >= self.lines.len() {
            return false;
        }
        let lo_line = self.lines[lower.0].as_str();
        let lo_len = byte_length(lo_line);
        let hi_len = byte_length(self.lines[higher.0].as_str());
        let lo_cap = if lo_len > 0 { lo_len - 1 } else { 0 };
        let hi_cap = if hi_len > 0 { hi_len - 1 } else { 0 };
        let a = if lower.1 <= lo_cap { lower.1 } else { lo_cap };
        let b = if higher.1 <= hi_cap { higher.1 } else { hi_cap };
        assert(a == clamped_col(m, cur.lower()));
        assert(b == clamped_col(m, cur.higher()));
        if lower.0 == higher.0 {
            lo_len == 0 || (lo_line.is_char_boundary(a) && lo_line.is_char_boundary(b + 1))
        } else {
            lo_line.is_char_boundary(a)
        }
    }

    /// Inserts `new_content` at the cursor's lower position, a byte offset
    /// into its line; at or past the end of the line it is appended.
    pub fn add_before_cursor(&mut self, cursor: &Box<Cursor>, new_content: &str)
        requires
            add_before_cursor_ok(old(self)@, **cursor),
        ensures
            final(self)@ == add_before_cursor_result(old(self)@, **cursor, new_content@),
    {
        let lower = cursor.get_lower();
        let mut line = self.lines[lower.0].clone();
        if lower.1 >= byte_length(line.as_str()) {
            line.append(new_content);
        } else {
            insert_at_byte(&mut line, lower.1, new_content);
        }
        self.set_line(lower.0, line);
        self.dirty = true;
    }

    /// The selected text of `cursor` (see [`selected_text`]).
    pub fn get_in_cursor(&mut self, cursor: &Box<Cursor>) -> (out: String)
        requires
            selection_in_buffer(old(self)@, **cursor),
        ensures
            final(self)@ == old(self)@,
            out@ == selected_text(old(self)@, **cursor),
    {
        let ghost m = self@;
        let cur: Cursor = **cursor;
        let mut out = String::new();
        let mut lower = cursor.get_lower();
        let mut higher = cursor.get_higher();
        let lo_len = byte_length(self.lines[lower.0].as_str());
        let hi_len = byte_length(self.lines[higher.0].as_str());
        lower.1 = if lower.1 <= (if lo_len > 0 { lo_len - 1 } else { 0 }) {
            lower.1
        } else {
            if lo_len > 0 { lo_len - 1 } else { 0 }
        };
        higher.1 = if higher.1 <= (if hi_len > 0 { hi_len - 1 } else { 0 }) {
            higher.1
        } else {
            if hi_len > 0 { hi_len - 1 } else { 0 }
        };
        assert(lower.1 == clamped_col(m, cur.lower()));
        assert(higher.1 == clamped_col(m, cur.higher()));
        if lower.0 == higher.0 {
            if lo_len != 0 {
                let piece = get_bytes_or_empty(self.lines[lower.0].as_str(), lower.1, higher.1 + 1);
                out.append(piece.as_str());
            }
        } else {
            let first = get_bytes_or_empty(self.lines[lower.0].as_str(), lower.1, lo_len);
            out.append(first.as_str());
            let nl = "\n";
            proof {
                reveal_strlit("\n");
            }
            out.append(nl);
            let ghost head = out@;
            let mut i = lower.0 + 1;
            while i < higher.0
                invariant
                    m == self@,
                    lower.0 < i <= higher.0,
                    higher.0 < self.lines.len(),
                    nl@ == seq!['\n'],
                    out@ == head + newline_terminated(m.lines.subrange(lower.0 + 1, i as int)),
                decreases higher.0 - i,
            {
                assert(m.lines.subrange(lower.0 + 1, i + 1).drop_last() =~= m.lines.subrange(
                    lower.0 + 1,
                    i as int,
                ));
                out.append(self.lines[i].as_str());
                out.append(nl);
                i = i + 1;
            }
            let last = get_bytes_or_empty(self.lines[higher.0].as_str(), 0, higher.1 + 1);
            out.append(last.as_str());
        }
        assert(out@ =~= selected_text(m, cur));
        out
    }

    /// The buffer's whole text, recomputed from the lines when it is dirty.
    pub fn get_as_string(&mut self) -> (r: &str)
        ensures
            final(self)@ == refreshed(old(self)@),
            r@ == refreshed(old(self)@).file_as_string,
    {
        if self.dirty {
            self.file_as_string = join_with_newlines(&self.lines);
        }
        self.file_as_string.as_str()
    }

    /// The (line, column) of byte offset `idx` in the buffer's text (see
    /// [`offset_to_position`]).
    pub fn string_idx_to_cursor_idx(&mut self, idx: usize) -> (r: (usize, usize))
        requires
            offset_convertible(refreshed(old(self)@).file_as_string, idx as int),
        ensures
            final(self)@ == refreshed(old(self)@),
            r == offset_to_position(refreshed(old(self)@).file_as_string, idx as int),
    {
        let ghost text = refreshed(self@).file_as_string;
        let s: &str = self.get_as_string();
        let bytes = s.as_bytes();
        let ghost b = encode_utf8(text);
        let ghost prefix = b.take(idx + 1);
        assert(bytes@ == b);
        let mut line: usize = 0;
        let mut k: usize = 0;
        while k <= idx
            invariant
                bytes@ == b,
                idx < b.len(),
                k <= idx + 1,
                line == newline_count(b.take(k as int)),
                line <= k,
            decreases idx + 1 - k,
        {
            assert(b.take(k + 1).drop_last() =~= b.take(k as int));
            if bytes[k] == 10u8 {
                line = line + 1;
            }
            k = k + 1;
        }
        assert(line == newline_count(prefix));
        if line == 0 {
            return (0, idx);
        }
        proof {
            lemma_last_newline_bounds(prefix);
        }
        let mut si: usize = idx;
        #[verifier::loop_isolation(false)]
        loop
            invariant
                bytes@ == b,
                si <= idx < b.len(),
                prefix == b.take(idx + 1),
                last_newline(prefix) >= 0,
                last_newline(prefix) <= si,
                forall|j: int| last_newline(prefix) < j < prefix.len() ==> prefix[j] != 10u8,
                prefix[idx as int] != 10u8,
            decreases si,
        {
            if bytes[si] == 10u8 {
                assert(prefix[si as int] == 10u8);
                assert(si as int == last_newline(prefix));
                return (line, idx - si - 1);
            }
            assert(prefix[si as int] != 10u8);
            si = si - 1;
        }
    }

    /// Replaces line `l` by the lines `pieces`.
    fn splice_line(&mut self, l: usize, pieces: &Vec<String>)
        requires
            l < old(self).lines.len(),
        ensures
            final(self)@ == (BufferModel {
                lines: old(self)@.lines.take(l as int) + views(pieces@) + old(self)@.lines.skip(
                    l + 1,
                ),
                ..old(self)@
            }),
    {
        let ghost m = self@;
        let ghost before = views(self.lines@);
        self.lines.remove(l);
        assert(views(self.lines@) =~= before.remove(l as int));
        assert(views(self.lines@) =~= m.lines.take(l as int) + views(pieces@).take(0)
            + m.lines.skip(l + 1));
        let mut j: usize = 0;
        while j < pieces.len()
            invariant
                j <= pieces.len(),
                l < m.lines.len(),
                views(self.lines@) == m.lines.take(l as int) + views(pieces@).take(j as int)
                    + m.lines.skip(l + 1),
                self.lines@.len() == m.lines.len() - 1 + j,
                self@.cursors == m.cursors,
                self@.path == m.path,
                self@.viewport == m.viewport,
                self@.height == m.height,
                self@.file_as_string == m.file_as_string,
                self@.dirty == m.dirty,
            decreases pieces.len() - j,
        {
            let piece = pieces[j].clone();
            let ghost prev = views(self.lines@);
            let cur_len = self.lines.len();
            assert(l + j <= cur_len);
            self.lines.insert(l + j, piece);
            assert(views(self.lines@) =~= prev.insert(l + j, piece@));
            assert(views(pieces@).take(j + 1) =~= views(pieces@).take(j as int).push(piece@));
            assert(views(self.lines@) =~= m.lines.take(l as int) + views(pieces@).take(j + 1)
                + m.lines.skip(l + 1));
            j = j + 1;
        }
        assert(views(pieces@).take(pieces.len() as int) =~= views(pieces@));
        assert(self@ == (BufferModel {
            lines: m.lines.take(l as int) + views(pieces@) + m.lines.skip(l + 1),
            ..m
        }));
    }

    /// Removes the lines strictly between `l` and `h`.
    fn remove_lines_between(&mut self, l: usize, h: usize)
        requires
            l < h < old(self).lines.len(),
        ensures
            final(self)@ == (BufferModel {
                lines: old(self)@.lines.take(l + 1) + old(self)@.lines.skip(h as int),
                ..old(self)@
            }),
    {
        let ghost m = self@;
        let mut i: usize = h - 1;
        assert(m.lines =~= m.lines.take(i + 1) + m.lines.skip(h as int));
        while i > l
            invariant
                l <= i < h,
                h < m.lines.len(),
                views(self.lines@) == m.lines.take(i + 1) + m.lines.skip(h as int),
                self.lines@.len() == i + 1 + m.lines.len() - h,
                self@.cursors == m.cursors,
                self@.path == m.path,
                self@.viewport == m.viewport,
                self@.height == m.height,
                self@.file_as_string == m.file_as_string,
                self@.dirty == m.dirty,
            decreases i,
        {
            let ghost before = views(self.lines@);
            self.lines.remove(i);
            assert(views(self.lines@) =~= before.remove(i as int));
            assert(views(self.lines@) =~= m.lines.take(i as int) + m.lines.skip(h as int));
            i = i - 1;
        }
        assert(self@ == (BufferModel {
            lines: m.lines.take(l + 1) + m.lines.skip(h as int),
            ..m
        }));
    }

    /// Inserts `pieces[1..]`, in order, after line `l`.
    fn insert_pieces_after(&mut self, l: usize, pieces: &Vec<String>)
        requires
            l < old(self).lines.len(),
            pieces.len() >= 1,
        ensures
            final(self)@ == (BufferModel {
                lines: old(self)@.lines.take(l + 1) + views(pieces@).skip(1) + old(
                    self,
                )@.lines.skip(l + 1),
                ..old(self)@
            }),
    {
        let ghost m = self@;
        let n = pieces.len();
        let ghost ps = views(pieces@);
        let mut j: usize = n;
        assert(m.lines =~= m.lines.take(l + 1) + ps.subrange(n as int, n as int) + m.lines.skip(
            l + 1,
        ));
        while j > 1
            invariant
                1 <= j <= n,
                n == pieces.len(),
                ps == views(pieces@),
                l < m.lines.len(),
                views(self.lines@) == m.lines.take(l + 1) + ps.subrange(j as int, n as int)
                    + m.lines.skip(l + 1),
                self.lines@.len() == views(self.lines@).len(),
                self@.cursors == m.cursors,
                self@.path == m.path,
                self@.viewport == m.viewport,
                self@.height == m.height,
                self@.file_as_string == m.file_as_string,
                self@.dirty == m.dirty,
            decreases j,
        {
            j = j - 1;
            let piece = pieces[j].clone();
            let ghost before = views(self.lines@);
            let cur_len = self.lines.len();
            assert(views(self.lines@).len() == self.lines@.len());
            assert(l + 1 <= cur_len);
            self.lines.insert(l + 1, piece);
            assert(views(self.lines@) =~= before.insert(l + 1, piece@));
            assert(views(self.lines@) =~= m.lines.take(l + 1) + ps.subrange(j as int, n as int)
                + m.lines.skip(l + 1));
        }
        assert(ps.subrange(1, n as int) =~= ps.skip(1));
    }

    /// The single-line case of [`Buffer::sub_cursor`].
    fn sub_within_line(&mut self, l: usize, a: usize, b: usize, new_content: &str)
        requires
            l < old(self).lines.len(),
            a <= b,
            byte_len(old(self)@.lines[l as int]) == 0 || (is_boundary(
                old(self)@.lines[l as int],
                a as int,
            ) && is_boundary(old(self)@.lines[l as int], b + 1)),
            b < usize::MAX,
        ensures
            ({
                let line = old(self)@.lines[l as int];
                let new_line = if byte_len(line) == 0 {
                    line + new_content@
                } else {
                    byte_replace(line, a as int, b + 1, new_content@)
                };
                final(self)@ == (BufferModel {
                    lines: old(self)@.lines.take(l as int) + split_newlines(new_line)
                        + old(self)@.lines.skip(l + 1),
                    ..old(self)@
                })
            }),
    {
        let ghost m = self@;
        let mut line = self.lines[l].clone();
        if byte_length(line.as_str()) == 0 {
            line.append(new_content);
        } else {
            replace_bytes(&mut line, a, b + 1, new_content);
        }
        let ghost new_line = line@;
        let newline_split = split_at_newlines(line.as_str());
        self.set_line(l, line);
        assert(views(self.lines@).len() == self.lines@.len());
        if newline_split.len() > 1 {
            self.splice_line(l, &newline_split);
            assert(self@.lines =~= m.lines.take(l as int) + split_newlines(new_line)
                + m.lines.skip(l + 1));
        } else {
            proof {
                lemma_split_newlines_nonempty(new_line);
                lemma_join_split(new_line);
                assert(split_newlines(new_line) =~= seq![split_newlines(new_line)[0]]);
            }
            assert(self@.lines =~= m.lines.take(l as int) + split_newlines(new_line)
                + m.lines.skip(l + 1));
        }
    }

    /// The multi-line case of [`Buffer::sub_cursor`].
    fn sub_across_lines(&mut self, l: usize, a: usize, h: usize, b: usize, pieces: &Vec<String>)
        requires
            l < h < old(self).lines.len(),
            is_boundary(old(self)@.lines[l as int], a as int),
            b < usize::MAX,
            pieces.len() >= 1,
        ensures
            final(self)@ == (BufferModel {
                lines: old(self)@.lines.take(l as int) + glued(
                    byte_slice(old(self)@.lines[l as int], 0, a as int),
                    views(pieces@),
                    slice_or_empty(
                        old(self)@.lines[h as int],
                        b + 1,
                        byte_len(old(self)@.lines[h as int]) as int,
                    ),
                ) + old(self)@.lines.skip(h + 1),
                ..old(self)@
            }),
    {
        let ghost m = self@;
        self.remove_lines_between(l, h);
        assert(views(self.lines@).len() == self.lines@.len());
        assert(views(self.lines@)[l as int] == self.lines@[l as int]@);
        let ghost pre = byte_slice(m.lines[l as int], 0, a as int);
        let mut first = self.lines[l].clone();
        assert(first@ == m.lines[l as int]);
        let first_len = byte_length(first.as_str());
        proof {
            vstd::utf8::is_char_boundary_start_end_of_seq(encode_utf8(first@));
        }
        replace_bytes(&mut first, a, first_len, "");
        proof {
            reveal_strlit("");
            assert(encode_utf8(""@) =~= seq![]);
            assert(encode_utf8(m.lines[l as int]).skip(first_len as int) =~= seq![]);
            assert(encode_utf8(m.lines[l as int]).take(a as int) + encode_utf8(""@) + encode_utf8(
                m.lines[l as int],
            ).skip(first_len as int) =~= encode_utf8(m.lines[l as int]).subrange(0, a as int));
        }
        assert(first@ == pre);
        first.append(pieces[0].as_str());
        self.set_line(l, first);
        assert(views(self.lines@).len() == self.lines@.len());
        assert(views(self.lines@)[l + 1] == self.lines@[l + 1]@);
        assert(views(self.lines@)[l + 1] == m.lines[h as int]);
        let higher_line = self.lines[l + 1].clone();
        assert(higher_line@ == m.lines[h as int]);
        let ghost mid = self@;
        self.lines.remove(l + 1);
        assert(views(self.lines@) =~= mid.lines.remove(l + 1));
        self.insert_pieces_after(l, pieces);
        let n = pieces.len();
        let hi_len = byte_length(higher_line.as_str());
        let suffix = get_bytes_or_empty(higher_line.as_str(), b + 1, hi_len);
        assert(views(self.lines@) =~= m.lines.take(l as int) + seq![pre + views(pieces@)[0]]
            + views(pieces@).skip(1) + m.lines.skip(h + 1));
        assert(self.lines@.len() == views(self.lines@).len());
        let total = self.lines.len();
        assert(l + n <= total);
        let mut last = self.lines[l + n - 1].clone();
        assert(views(self.lines@)[l + n - 1] == last@);
        last.append(suffix.as_str());
        self.set_line(l + n - 1, last);
        assert(self@.lines =~= m.lines.take(l as int) + glued(pre, views(pieces@), suffix@)
            + m.lines.skip(h + 1));
    }

    /// Replaces the selection of `cursor` by `new_content` (see
    /// [`sub_cursor_result`]).
    pub fn sub_cursor(&mut self, cursor: &Box<Cursor>, new_content: &str)
        requires
            sub_cursor_ok(old(self)@, **cursor),
        ensures
            final(self)@ == sub_cursor_result(old(self)@, **cursor, new_content@),
    {
        let ghost m = self@;
        let cur: Cursor = **cursor;
        let new_content_vec = split_at_newlines(new_content);
        proof {
            lemma_split_newlines_nonempty(new_content@);
        }
        let mut lower = cursor.get_lower();
        let mut higher = cursor.get_higher();
        proof {
            lemma_selection_bounds(cur);
        }
        let lo_len = byte_length(self.lines[lower.0].as_str());
        let hi_len = byte_length(self.lines[higher.0].as_str());
        lower.1 = if lower.1 <= (if lo_len > 0 { lo_len - 1 } else { 0 }) {
            lower.1
        } else {
            if lo_len > 0 { lo_len - 1 } else { 0 }
        };
        higher.1 = if higher.1 <= (if hi_len > 0 { hi_len - 1 } else { 0 }) {
            higher.1
        } else {
            if hi_len > 0 { hi_len - 1 } else { 0 }
        };
        assert(lower.1 == clamped_col(m, cur.lower()));
        assert(higher.1 == clamped_col(m, cur.higher()));
        if lower.0 == higher.0 {
            self.sub_within_line(lower.0, lower.1, higher.1, new_content);
        } else {
            self.sub_across_lines(lower.0, lower.1, higher.0, higher.1, &new_content_vec);
        }
        self.dirty = true;
        assert(self@ == sub_cursor_result(m, cur, new_content@));
    }

    /// Sorts the cursors, stably, from the last position to the first (see
    /// [`sorted_last_first`]).
    pub fn sort_cursors(&mut self)
        ensures
            final(self)@ == (BufferModel {
                cursors: sorted_last_first(old(self)@.cursors),
                ..old(self)@
            }),
    {
        let ghost m = self@;
        let ghost s = m.cursors;
        let mut out: Vec<Box<Cursor>> = Vec::new();
        let n = self.cursors.len();
        let mut i: usize = 0;
        assert(s.take(0) =~= seq![]);
        assert(cursor_views(out@) =~= seq![]);
        while i < n
            invariant
                n == self.cursors.len(),
                s == cursor_views(self.cursors@),
                s.len() == n,
                i <= n,
                cursor_views(out@) == sorted_last_first(s.take(i as int)),
                out.len() == i,
            decreases n - i,
        {
            let x = self.cursor_at(i);
            assert(s.take(i + 1).drop_last() =~= s.take(i as int));
            assert(s.take(i + 1).last() == x);
            let ghost sorted = cursor_views(out@);
            let mut j = out.len();
            assert(sorted.take(j as int) =~= sorted);
            while j > 0 && (out[j - 1].line < x.line || (out[j - 1].line == x.line
                && out[j - 1].index < x.index))
                invariant
                    j <= out.len(),
                    sorted == cursor_views(out@),
                    insertion_point(sorted, x) == insertion_point(sorted.take(j as int), x),
                decreases j,
            {
                assert(sorted.take(j as int).drop_last() =~= sorted.take(j - 1));
                assert(sorted.take(j as int).last() == sorted[j - 1]);
                j = j - 1;
            }
            proof {
                if j > 0 {
                    assert(sorted.take(j as int).last() == sorted[j - 1]);
                }
            }
            assert(insertion_point(sorted, x) == j);
            out.insert(j, Box::new(x));
            assert(cursor_views(out@) =~= sorted.insert(j as int, x));
            i = i + 1;
        }
        assert(s.take(n as int) =~= s);
        self.cursors = out;
    }
}

} // verus!
