use crate::actions::{
    case_toggled, first_from, key_char, move_till_result, key_given, overwritten_with, replace_result, last_before, move_find_ok, move_find_result,
    move_find_reverse_ok, move_find_reverse_result, new_cursor_down_result, new_cursor_up_result, constrain_cursor_result, cursor_on_line, delete_char_result, delete_line_result,
    has_cursor, insert_char_result, join_line_result, line_at, move_left_result,
    move_right_result, open_up_result, rewrite_ok, split_line_result, swap_selection_result,
    toggle_char_case_result, toggle_selection_result,
};
use crate::buffer::{
    clamped_col, glued, last_newline, newline_count, offset_to_position, selected_text,
    selection_in_buffer, sub_cursor_ok, sub_cursor_result, BufferModel,
};
use crate::cursor::{lemma_selection_bounds, lemma_sorted_last_first, pos_le, sorted_last_first, Cursor};
use crate::keymap::{executor_settled, key_result, keys_result, KeyExecutorModel};
use crate::text::{
    ascii_case_toggled, byte_len, byte_replace, byte_slice, is_boundary, join_lines, lemma_cut_at_boundary,
    lemma_encode_concat, lemma_join_around, lemma_split_join, lemma_split_no_sep, newline_terminated,
    slice_or_empty, split_newlines,
};
use vstd::prelude::*;
use vstd::utf8::*;

verus! {

broadcast use vstd::utf8::group_utf8_lib;

/// Swapping a cursor's position and anchor twice gives the buffer back.
pub proof fn law_swap_selection_twice(m: BufferModel, c: int)
    requires
        has_cursor(m, c),
    ensures
        swap_selection_result(swap_selection_result(m, c), c) == m,
{
    let m2 = swap_selection_result(swap_selection_result(m, c), c);
    assert(m2.cursors =~= m.cursors);
}

/// Toggling the selection twice restores whether there is one, and leaves
/// the selection anchored at the cursor; everything else is unchanged.
pub proof fn law_toggle_selection_twice(m: BufferModel, c: int)
    requires
        has_cursor(m, c),
    ensures
        ({
            let m2 = toggle_selection_result(toggle_selection_result(m, c), c);
            let cur = m.cursors[c];
            m2 == (BufferModel {
                cursors: m.cursors.update(
                    c,
                    Cursor { line_range: cur.line, index_range: cur.index, ..cur },
                ),
                ..m
            })
        }),
{
    let m2 = toggle_selection_result(toggle_selection_result(m, c), c);
    let cur = m.cursors[c];
    assert(m2.cursors =~= m.cursors.update(
        c,
        Cursor { line_range: cur.line, index_range: cur.index, ..cur },
    ));
}

/// Constraining a cursor twice is constraining it once.
pub proof fn law_constrain_idempotent(m: BufferModel, c: int)
    requires
        cursor_on_line(m, c),
    ensures
        constrain_cursor_result(constrain_cursor_result(m, c), c) == constrain_cursor_result(m, c),
{
    let m1 = constrain_cursor_result(m, c);
    assert(constrain_cursor_result(m1, c).cursors =~= m1.cursors);
}

/// Within a line, a step right and a step left give the buffer back.
pub proof fn law_right_then_left(m: BufferModel, c: int)
    requires
        cursor_on_line(m, c),
        m.cursors[c].index < line_at(m, c).len(),
        m.cursors[c].index < usize::MAX,
    ensures
        move_left_result(move_right_result(m, c), c) == m,
{
    let cur = m.cursors[c];
    let r = move_right_result(m, c);
    assert(r.cursors[c] == Cursor { index: (cur.index + 1) as usize, ..cur });
    assert(line_at(r, c) == line_at(m, c));
    let k = constrain_cursor_result(r, c);
    assert(k.cursors[c] == Cursor { index: (cur.index + 1) as usize, ..cur });
    let m2 = move_left_result(r, c);
    assert(m2 == crate::actions::with_index(k, c, cur.index));
    assert(m2.cursors[c].index == cur.index);
    assert(m2.cursors[c].line == cur.line);
    assert(m2.cursors[c] == cur);
    assert(m2.cursors =~= m.cursors);
}

/// Deleting a line always leaves at least one line.
pub proof fn law_delete_line_keeps_a_line(m: BufferModel, c: int)
    requires
        cursor_on_line(m, c),
    ensures
        delete_line_result(m, c).lines.len() >= 1,
{
}

/// Opening a line above the cursor and deleting the cursor's line gives the
/// lines back.
pub proof fn law_open_up_then_delete_line(m: BufferModel, c: int)
    requires
        cursor_on_line(m, c),
    ensures
        delete_line_result(open_up_result(m, c), c).lines == m.lines,
{
    let l = m.cursors[c].line as int;
    assert(m.lines.insert(l, seq![]).remove(l) =~= m.lines);
}

/// Splitting a non-empty line at a character boundary and joining it again
/// gives the lines back.
pub proof fn law_split_then_join(m: BufferModel, c: int)
    requires
        cursor_on_line(m, c),
        byte_len(line_at(m, c)) > 0,
        is_boundary(line_at(m, c), m.cursors[c].index as int),
    ensures
        join_line_result(split_line_result(m, c), c).lines == m.lines,
{
    let l = m.cursors[c].line as int;
    let i = m.cursors[c].index as int;
    let line = m.lines[l];
    let b = encode_utf8(line);
    let front = byte_slice(line, 0, i);
    let back = byte_slice(line, i, b.len() as int);
    decode_utf8_split(b, i);
    assert(b.subrange(0, b.len() as int) =~= b);
    assert(front + back == line);
    let m1 = split_line_result(m, c);
    assert(m1.lines == m.lines.update(l, front).insert(l + 1, back));
    assert(m1.lines.update(l, m1.lines[l] + m1.lines[l + 1]).remove(l + 1) =~= m.lines);
}

/// Typing a one-byte (ASCII) key at a cursor without a selection and then
/// deleting the character under the cursor gives the lines back, when the
/// cursor's column is a character boundary that is also within the line's
/// character count.
pub proof fn law_insert_then_delete_char(m: BufferModel, c: int, key: Seq<char>)
    requires
        cursor_on_line(m, c),
        !m.cursors[c].range,
        key.len() == 1,
        is_ascii_chars(key),
        is_boundary(line_at(m, c), m.cursors[c].index as int),
        m.cursors[c].index <= line_at(m, c).len(),
    ensures
        delete_char_result(insert_char_result(m, c, Some(key)), c).lines == m.lines,
{
    let l = m.cursors[c].line as int;
    let i = m.cursors[c].index as int;
    let line = m.lines[l];
    let b = encode_utf8(line);
    let (p, s) = lemma_cut_at_boundary(line, i);
    is_ascii_chars_encode_utf8(key);
    assert(encode_utf8(key).len() == 1);
    lemma_encode_concat(p, key);
    lemma_encode_concat(p + key, s);
    let joined = p + key + s;
    assert(encode_utf8(joined) == encode_utf8(p) + encode_utf8(key) + encode_utf8(s));
    let m1 = insert_char_result(m, c, Some(key));
    assert(m1.lines[l] == joined) by {
        if i >= byte_len(line) {
            assert(encode_utf8(s) =~= seq![]);
            assert(s == decode_utf8(encode_utf8(s)));
            assert(s =~= seq![]);
            assert(p =~= line);
            assert(joined =~= line + key);
        } else {
            assert(b.take(i) + encode_utf8(key) + b.skip(i) == encode_utf8(joined));
        }
    }
    assert(joined.len() == line.len() + 1);
    assert(m1.cursors == m.cursors);
    let k = constrain_cursor_result(m1, c);
    assert(k.cursors[c] == m.cursors[c]);
    assert(k.lines == m1.lines);
    let e = encode_utf8(joined);
    assert(encode_utf8(p).len() == i);
    assert(e.take(i) =~= encode_utf8(p));
    assert(e.skip(i + 1) =~= encode_utf8(s));
    assert(encode_utf8(Seq::<char>::empty()) =~= seq![]);
    lemma_encode_concat(p, s);
    assert(e.take(i) + encode_utf8(Seq::<char>::empty()) + e.skip(i + 1) =~= encode_utf8(p + s));
    assert(byte_replace(joined, i, i + 1, seq![]) == line);
    assert(m1.lines.update(l, line) =~= m.lines);
}

/// No line of the buffer holds a newline.
pub open spec fn lines_without_newlines(m: BufferModel) -> bool {
    forall|i: int| 0 <= i < m.lines.len() ==> !(#[trigger] m.lines[i]).contains('\n')
}

/// A part of a text without newlines has no newline either.
proof fn lemma_part_without_newline(whole: Seq<char>, p: Seq<char>, s: Seq<char>)
    requires
        p + s == whole,
        !whole.contains('\n'),
    ensures
        !p.contains('\n'),
        !s.contains('\n'),
{
    if p.contains('\n') {
        let k = choose|k: int| 0 <= k < p.len() && p[k] == '\n';
        assert(whole[k] == '\n');
    }
    if s.contains('\n') {
        let k = choose|k: int| 0 <= k < s.len() && s[k] == '\n';
        assert(whole[p.len() + k] == '\n');
    }
}

/// The bytes of `s` between two character boundaries decode to a text whose
/// UTF-8 form is those bytes.
proof fn lemma_middle_bytes(s: Seq<char>, a: int, e: int)
    requires
        0 <= a < e,
        is_boundary(s, a),
        is_boundary(s, e),
    ensures
        encode_utf8(byte_slice(s, a, e)) == encode_utf8(s).subrange(a, e),
{
    let b = encode_utf8(s);
    let (p, rest) = lemma_cut_at_boundary(s, e);
    let pb = encode_utf8(p);
    assert(pb == b.take(e));
    assert(pb.len() == e);
    is_char_boundary_iff_not_is_continuation_byte(b, a);
    is_char_boundary_iff_not_is_continuation_byte(pb, a);
    assert(pb[a] == b[a]);
    assert(is_boundary(p, a));
    let (p0, mid) = lemma_cut_at_boundary(p, a);
    assert(encode_utf8(mid) == pb.skip(a));
    assert(pb.skip(a) =~= b.subrange(a, e));
    assert(byte_slice(s, a, e) == decode_utf8(encode_utf8(mid)));
}

/// Replacing a selection by its own text gives the lines back, when no line
/// holds a newline and, across lines, the selection ends on a character
/// boundary of its last line (or that line is empty).
pub proof fn law_replace_selection_by_itself(m: BufferModel, cur: Cursor)
    requires
        sub_cursor_ok(m, cur),
        lines_without_newlines(m),
        cur.lower().0 != cur.higher().0 ==> byte_len(m.lines[cur.higher().0 as int]) == 0
            || is_boundary(m.lines[cur.higher().0 as int], clamped_col(m, cur.higher()) + 1),
    ensures
        sub_cursor_result(m, cur, selected_text(m, cur)).lines == m.lines,
{
    lemma_selection_bounds(cur);
    let lo = cur.lower();
    let hi = cur.higher();
    let a = clamped_col(m, lo);
    let b = clamped_col(m, hi);
    let text = selected_text(m, cur);
    let result = sub_cursor_result(m, cur, text);
    if lo.0 == hi.0 {
        let l = lo.0 as int;
        let line = m.lines[l];
        assert(!line.contains('\n'));
        lemma_split_no_sep(line, '\n');
        let new_line = if byte_len(line) == 0 {
            line + text
        } else {
            byte_replace(line, a, b + 1, text)
        };
        if byte_len(line) == 0 {
            assert(text =~= seq![]);
            assert(new_line =~= line);
        } else {
            assert(a <= b);
            lemma_middle_bytes(line, a, b + 1);
            let bs = encode_utf8(line);
            assert(bs.take(a) + encode_utf8(text) + bs.skip(b + 1) =~= bs);
            assert(new_line == line);
        }
        assert(split_newlines(new_line) == seq![line]);
        assert(result.lines =~= m.lines);
    } else {
        let l0 = lo.0 as int;
        let l1 = hi.0 as int;
        let first = m.lines[l0];
        let last = m.lines[l1];
        let mid = m.lines.subrange(l0 + 1, l1);
        let (p0, s0) = lemma_cut_at_boundary(first, a);
        is_char_boundary_start_end_of_seq(encode_utf8(first));
        assert(slice_or_empty(first, a, byte_len(first) as int) == s0);
        assert(!first.contains('\n'));
        lemma_part_without_newline(first, p0, s0);
        let (p1, s1) = if byte_len(last) == 0 {
            assert(last == decode_utf8(encode_utf8(last)));
            assert(last =~= seq![]);
            assert(slice_or_empty(last, 0, b + 1) =~= seq![]);
            assert(slice_or_empty(last, b + 1, byte_len(last) as int) =~= seq![]);
            (Seq::<char>::empty(), Seq::<char>::empty())
        } else {
            let (p1, s1) = lemma_cut_at_boundary(last, b + 1);
            assert(is_boundary(last, 0));
            assert(slice_or_empty(last, 0, b + 1) == p1);
            assert(slice_or_empty(last, b + 1, byte_len(last) as int) == s1);
            (p1, s1)
        };
        assert(p1 + s1 =~= last);
        assert(slice_or_empty(last, 0, b + 1) == p1);
        assert(slice_or_empty(last, b + 1, byte_len(last) as int) == s1);
        assert(!last.contains('\n'));
        lemma_part_without_newline(last, p1, s1);
        assert(text == s0 + seq!['\n'] + newline_terminated(mid) + p1);
        lemma_join_around(s0, mid, p1);
        let pieces = seq![s0] + mid + seq![p1];
        assert forall|i: int| 0 <= i < pieces.len() implies !(#[trigger] pieces[i]).contains('\n') by {
            if 1 <= i < pieces.len() - 1 {
                assert(pieces[i] == m.lines[l0 + i]);
            }
        }
        lemma_split_join(pieces, '\n');
        assert(split_newlines(text) == pieces);
        assert(glued(p0, pieces, s1) =~= seq![first] + mid + seq![last]);
        assert(result.lines =~= m.lines);
    }
}

/// A character other than a newline has no newline byte in its UTF-8 form.
proof fn lemma_scalar_without_newline(c: char)
    requires
        c != '\n',
    ensures
        forall|k: int|
            0 <= k < encode_scalar(c as u32).len() ==> #[trigger] encode_scalar(c as u32)[k] != 10u8,
{
    let v = c as u32;
    assert(v != 10);
    if has_width_1_encoding(v) {
        assert(leading_byte_width_1(v) != 10u8) by (bit_vector)
            requires
                v <= 0x7F,
                v != 10,
        ;
    } else {
        assert(forall|x: u8| (0x80u8 | x) != 10u8) by (bit_vector);
        assert(leading_byte_width_2(v) != 10u8) by (bit_vector);
        assert(leading_byte_width_3(v) != 10u8) by (bit_vector);
        assert(leading_byte_width_4(v) != 10u8) by (bit_vector);
        assert(last_continuation_byte(v) != 10u8) by (bit_vector);
        assert(second_last_continuation_byte(v) != 10u8) by (bit_vector);
        assert(third_last_continuation_byte(v) != 10u8) by (bit_vector);
    }
}

/// A text without newlines has no newline byte in its UTF-8 form.
proof fn lemma_text_without_newline(s: Seq<char>)
    requires
        !s.contains('\n'),
    ensures
        forall|k: int| 0 <= k < encode_utf8(s).len() ==> #[trigger] encode_utf8(s)[k] != 10u8,
    decreases s.len(),
{
    if s.len() > 0 {
        assert(s[0] != '\n');
        lemma_scalar_without_newline(s[0]);
        assert(!s.drop_first().contains('\n')) by {
            if s.drop_first().contains('\n') {
                let j = choose|j: int| 0 <= j < s.drop_first().len() && s.drop_first()[j] == '\n';
                assert(s[j + 1] == '\n');
            }
        }
        lemma_text_without_newline(s.drop_first());
        let h = encode_scalar(s[0] as u32);
        let t = encode_utf8(s.drop_first());
        assert(encode_utf8(s) == h + t);
        assert forall|k: int| 0 <= k < encode_utf8(s).len() implies #[trigger] encode_utf8(s)[k]
            != 10u8 by {
            if k < h.len() {
                assert(encode_utf8(s)[k] == h[k]);
            } else {
                assert(encode_utf8(s)[k] == t[k - h.len()]);
            }
        }
    }
}

/// Newlines in two byte strings one after the other are counted apart.
proof fn lemma_newline_count_concat(a: Seq<u8>, b: Seq<u8>)
    ensures
        newline_count(a + b) == newline_count(a) + newline_count(b),
    decreases b.len(),
{
    if b.len() == 0 {
        assert(a + b =~= a);
    } else {
        assert((a + b).drop_last() =~= a + b.drop_last());
        lemma_newline_count_concat(a, b.drop_last());
    }
}

/// Bytes without a newline byte hold no newline, and the last newline of
/// what they follow stays the last.
proof fn lemma_no_newline_bytes(a: Seq<u8>, c: Seq<u8>)
    requires
        forall|k: int| 0 <= k < c.len() ==> #[trigger] c[k] != 10u8,
    ensures
        newline_count(c) == 0,
        last_newline(a + c) == last_newline(a),
    decreases c.len(),
{
    if c.len() == 0 {
        assert(a + c =~= a);
    } else {
        assert((a + c).drop_last() =~= a + c.drop_last());
        lemma_no_newline_bytes(a, c.drop_last());
    }
}

/// A single newline byte is one newline, the last one at offset 0.
proof fn lemma_one_newline_byte()
    ensures
        newline_count(seq![10u8]) == 1,
        last_newline(seq![10u8]) == 0,
{
    assert(seq![10u8].drop_last() =~= Seq::<u8>::empty());
    assert(newline_count(Seq::<u8>::empty()) == 0);
}

/// The UTF-8 form of lines joined with newlines: the form of all lines but
/// the last, a newline byte, the form of the last line.
proof fn lemma_encode_joined(lines: Seq<Seq<char>>)
    requires
        lines.len() >= 2,
    ensures
        encode_utf8(join_lines(lines)) == encode_utf8(join_lines(lines.drop_last())) + seq![10u8]
            + encode_utf8(lines.last()),
{
    let front = join_lines(lines.drop_last());
    lemma_encode_concat(front + seq!['\n'], lines.last());
    lemma_encode_concat(front, seq!['\n']);
    assert(encode_utf8(seq!['\n']) =~= seq![10u8]) by {
        let nl = seq!['\n'];
        assert(nl[0] as u32 == 10u32);
        assert(nl.drop_first() =~= Seq::<char>::empty());
        assert(encode_utf8(nl.drop_first()) =~= Seq::<u8>::empty());
        assert(leading_byte_width_1(10u32) == 10u8) by (bit_vector);
        assert(encode_scalar(10u32) =~= seq![10u8]);
        assert(encode_utf8(nl) == encode_scalar(nl[0] as u32) + encode_utf8(nl.drop_first()));
    }
}

/// Lines without newlines, joined with newlines, hold one newline byte
/// fewer than there are lines.
proof fn lemma_joined_newline_count(lines: Seq<Seq<char>>)
    requires
        lines.len() >= 1,
        forall|j: int| 0 <= j < lines.len() ==> !(#[trigger] lines[j]).contains('\n'),
    ensures
        newline_count(encode_utf8(join_lines(lines))) == lines.len() - 1,
    decreases lines.len(),
{
    if lines.len() == 1 {
        assert(join_lines(lines) == lines[0]);
        lemma_text_without_newline(lines[0]);
        lemma_no_newline_bytes(seq![], encode_utf8(lines[0]));
    } else {
        let front = lines.drop_last();
        assert forall|j: int| 0 <= j < front.len() implies !(#[trigger] front[j]).contains('\n') by {
            assert(front[j] == lines[j]);
        }
        lemma_joined_newline_count(front);
        lemma_encode_joined(lines);
        lemma_text_without_newline(lines.last());
        lemma_no_newline_bytes(seq![], encode_utf8(lines.last()));
        let p = encode_utf8(join_lines(front));
        lemma_newline_count_concat(p + seq![10u8], encode_utf8(lines.last()));
        lemma_newline_count_concat(p, seq![10u8]);
        lemma_one_newline_byte();
        assert(newline_count(p) == front.len() - 1);
        assert(newline_count(encode_utf8(lines.last())) == 0);
    }
}

/// In lines without newlines, a byte offset of their joined text that is
/// not on a newline turns into the (line, column) of that same byte: the
/// line is one of the lines, the column one of its bytes, and the byte
/// there is the byte at the offset.
pub proof fn law_offset_to_position_lands_on_its_byte(lines: Seq<Seq<char>>, idx: int)
    requires
        forall|j: int| 0 <= j < lines.len() ==> !(#[trigger] lines[j]).contains('\n'),
        0 <= idx < byte_len(join_lines(lines)),
        idx < usize::MAX,
        encode_utf8(join_lines(lines))[idx] != 10u8,
    ensures
        ({
            let (l, i) = offset_to_position(join_lines(lines), idx);
            &&& l < lines.len()
            &&& i < byte_len(lines[l as int])
            &&& encode_utf8(lines[l as int])[i as int] == encode_utf8(join_lines(lines))[idx]
        }),
    decreases lines.len(),
{
    let b = encode_utf8(join_lines(lines));
    let prefix = b.take(idx + 1);
    if lines.len() == 1 {
        assert(join_lines(lines) == lines[0]);
        lemma_text_without_newline(lines[0]);
        assert forall|k: int| 0 <= k < prefix.len() implies #[trigger] prefix[k] != 10u8 by {
            assert(prefix[k] == b[k]);
        }
        lemma_no_newline_bytes(seq![], prefix);
        assert(offset_to_position(join_lines(lines), idx) == (0usize, idx as usize));
    } else {
        let front = lines.drop_last();
        assert forall|j: int| 0 <= j < front.len() implies !(#[trigger] front[j]).contains('\n') by {
            assert(front[j] == lines[j]);
        }
        lemma_encode_joined(lines);
        let p = encode_utf8(join_lines(front));
        let e = encode_utf8(lines.last());
        assert(b == p + seq![10u8] + e);
        if idx < p.len() {
            assert(prefix =~= p.take(idx + 1));
            assert(b[idx] == p[idx]);
            law_offset_to_position_lands_on_its_byte(front, idx);
            assert(offset_to_position(join_lines(lines), idx) == offset_to_position(
                join_lines(front),
                idx,
            ));
            let (l, i) = offset_to_position(join_lines(front), idx);
            assert(lines[l as int] == front[l as int]);
        } else {
            assert(idx != p.len());
            let rest = e.take(idx - p.len());
            assert(prefix =~= p + seq![10u8] + rest);
            lemma_joined_newline_count(front);
            lemma_text_without_newline(lines.last());
            lemma_no_newline_bytes(p + seq![10u8], rest);
            lemma_newline_count_concat(p + seq![10u8], rest);
            lemma_newline_count_concat(p, seq![10u8]);
            lemma_one_newline_byte();
            assert((p + seq![10u8]).drop_last() =~= p);
            assert((p + seq![10u8]).last() == 10u8);
            assert(last_newline(p + seq![10u8]) == p.len());
            assert(newline_count(prefix) == lines.len() - 1);
            assert(last_newline(prefix) == p.len());
            assert(offset_to_position(join_lines(lines), idx) == ((lines.len() - 1) as usize, (idx
                - p.len() - 1) as usize));
            assert(b[idx] == e[idx - p.len() - 1]);
            crate::buffer::lemma_last_newline_bounds(prefix);
            assert(lines[lines.len() - 1] == lines.last());
        }
    }
}

/// A key press keeps the executor settled: afterwards nothing is pending in
/// insert mode, and elsewhere the pending keys start some normal-mode
/// mapping without being exactly the keys of any.
pub proof fn law_key_keeps_executor_settled(k: KeyExecutorModel, key: Seq<char>, b: BufferModel)
    requires
        executor_settled(k),
    ensures
        executor_settled(key_result(k, key, b).0),
{
}

/// From a settled executor (a fresh one has nothing pending), any sequence
/// of key presses leaves it settled.
pub proof fn law_keys_keep_executor_settled(
    k: KeyExecutorModel,
    keys: Seq<Seq<char>>,
    b: BufferModel,
)
    requires
        executor_settled(k),
    ensures
        executor_settled(keys_result(k, keys, b).0),
    decreases keys.len(),
{
    if keys.len() > 0 {
        law_keys_keep_executor_settled(k, keys.drop_last(), b);
        let (k1, b1) = keys_result(k, keys.drop_last(), b);
        law_key_keeps_executor_settled(k1, keys.last(), b1);
    }
}

/// Every character of `s` is ASCII.
pub open spec fn ascii_text(s: Seq<char>) -> bool {
    forall|j: int| 0 <= j < s.len() ==> ((#[trigger] s[j]) as u32) < 0x80
}

/// Every line of the buffer is ASCII text without a newline.
pub open spec fn ascii_lines(m: BufferModel) -> bool {
    forall|i: int|
        0 <= i < m.lines.len() ==> ascii_text(#[trigger] m.lines[i]) && !m.lines[i].contains('\n')
}

/// Toggling the case of an ASCII character twice gives it back; the result
/// is ASCII, and a newline only when the character was one.
proof fn lemma_toggle_ascii_char(ch: char)
    requires
        (ch as u32) < 0x80,
    ensures
        (ascii_case_toggled(ch) as u32) < 0x80,
        ascii_case_toggled(ascii_case_toggled(ch)) == ch,
        (ascii_case_toggled(ch) == '\n') == (ch == '\n'),
{
}

/// The UTF-8 form of ASCII text is its characters, one byte each.
proof fn lemma_ascii_encode(s: Seq<char>)
    requires
        ascii_text(s),
    ensures
        encode_utf8(s).len() == s.len(),
        forall|j: int| 0 <= j < s.len() ==> #[trigger] encode_utf8(s)[j] == s[j] as u32 as u8,
        forall|j: int| 0 <= j < s.len() ==> (#[trigger] encode_utf8(s)[j]) < 0x80,
    decreases s.len(),
{
    if s.len() > 0 {
        let rest = s.drop_first();
        assert forall|j: int| 0 <= j < rest.len() implies ((#[trigger] rest[j]) as u32) < 0x80 by {
            assert(rest[j] == s[j + 1]);
        }
        lemma_ascii_encode(rest);
        let v = s[0] as u32;
        assert(v < 0x80);
        assert(leading_byte_width_1(v) == v as u8 && (v as u8) < 0x80) by (bit_vector)
            requires
                v < 0x80,
        ;
        assert(encode_scalar(v) =~= seq![v as u8]);
        assert(encode_utf8(s) == encode_scalar(v) + encode_utf8(rest));
        assert forall|j: int| 0 <= j < s.len() implies #[trigger] encode_utf8(s)[j] == s[j] as u32
            as u8 && encode_utf8(s)[j] < 0x80 by {
            if j > 0 {
                assert(encode_utf8(s)[j] == encode_utf8(rest)[j - 1]);
                assert(rest[j - 1] == s[j]);
            }
        }
    }
}

/// Two ASCII texts with the same characters have the same UTF-8 form, and
/// every offset up to the length of ASCII text is a character boundary.
proof fn lemma_ascii_bytes(s: Seq<char>)
    requires
        ascii_text(s),
    ensures
        forall|i: int| 0 <= i <= s.len() ==> #[trigger] is_boundary(s, i),
{
    lemma_ascii_encode(s);
    let b = encode_utf8(s);
    is_char_boundary_start_end_of_seq(b);
    assert forall|i: int| 0 <= i <= s.len() implies #[trigger] is_boundary(s, i) by {
        if i < s.len() {
            let x = b[i];
            assert(!is_continuation_byte(x)) by (bit_vector)
                requires
                    x < 0x80,
            ;
            is_char_boundary_iff_not_is_continuation_byte(b, i);
        }
    }
}

/// Parts of ASCII text are ASCII text.
proof fn lemma_ascii_parts(s: Seq<char>, a: int, e: int)
    requires
        ascii_text(s),
        0 <= a <= e <= s.len(),
    ensures
        ascii_text(s.subrange(a, e)),
        ascii_text(s.take(a)),
        ascii_text(s.skip(a)),
{
    assert forall|j: int| 0 <= j < s.subrange(a, e).len() implies ((#[trigger] s.subrange(a, e)[j]) as u32)
        < 0x80 by {
        assert(s.subrange(a, e)[j] == s[a + j]);
    }
    assert forall|j: int| 0 <= j < s.take(a).len() implies ((#[trigger] s.take(a)[j]) as u32)
        < 0x80 by {
        assert(s.take(a)[j] == s[j]);
    }
    assert forall|j: int| 0 <= j < s.skip(a).len() implies ((#[trigger] s.skip(a)[j]) as u32)
        < 0x80 by {
        assert(s.skip(a)[j] == s[a + j]);
    }
}

/// On ASCII text, byte offsets are character offsets: a byte slice is a
/// subrange.
proof fn lemma_ascii_slice(s: Seq<char>, a: int, e: int)
    requires
        ascii_text(s),
        0 <= a <= e <= s.len(),
    ensures
        byte_slice(s, a, e) == s.subrange(a, e),
        slice_or_empty(s, a, e) == s.subrange(a, e),
{
    lemma_ascii_bytes(s);
    lemma_ascii_parts(s, a, e);
    lemma_ascii_encode(s);
    lemma_ascii_encode(s.subrange(a, e));
    assert(encode_utf8(s).subrange(a, e) =~= encode_utf8(s.subrange(a, e)));
}

/// On ASCII texts, a byte replacement is a replacement of characters.
proof fn lemma_ascii_replace(s: Seq<char>, a: int, e: int, t: Seq<char>)
    requires
        ascii_text(s),
        ascii_text(t),
        0 <= a <= e <= s.len(),
    ensures
        byte_replace(s, a, e, t) == s.take(a) + t + s.skip(e),
{
    let r = s.take(a) + t + s.skip(e);
    lemma_ascii_parts(s, a, e);
    lemma_ascii_parts(s, e, e);
    assert forall|j: int| 0 <= j < r.len() implies ((#[trigger] r[j]) as u32) < 0x80 by {
        if j < a {
            assert(r[j] == s[j]);
        } else if j < a + t.len() {
            assert(r[j] == t[j - a]);
        } else {
            assert(r[j] == s[e + j - a - t.len()]);
        }
    }
    lemma_ascii_encode(s);
    lemma_ascii_encode(t);
    lemma_ascii_encode(r);
    assert(encode_utf8(s).take(a) + encode_utf8(t) + encode_utf8(s).skip(e) =~= encode_utf8(r));
}

/// Every character but a newline passed through `f`.
pub open spec fn chars_mapped(t: Seq<char>, f: spec_fn(char) -> char) -> Seq<char> {
    t.map_values(|ch: char| if ch == '\n' { '\n' } else { f(ch) })
}

/// `f` maps ASCII characters other than a newline to ASCII characters other
/// than a newline.
pub open spec fn ascii_map(f: spec_fn(char) -> char) -> bool {
    forall|ch: char|
        ((ch as u32) < 0x80) && ch != '\n' ==> ((#[trigger] f(ch)) as u32) < 0x80 && f(ch) != '\n'
}

/// The lines with `f` applied to every character between (lo, a) and
/// (hi, b).
pub open spec fn span_mapped(
    lines: Seq<Seq<char>>,
    lo: int,
    a: int,
    hi: int,
    b: int,
    f: spec_fn(char) -> char,
) -> Seq<Seq<char>> {
    Seq::new(
        lines.len(),
        |i: int|
            Seq::new(
                lines[i].len(),
                |j: int|
                    if in_span(lo, a, hi, b, i, j) {
                        f(lines[i][j])
                    } else {
                        lines[i][j]
                    },
            ),
    )
}

/// Position (i, j) lies between (lo, a) and (hi, b), both included.
pub open spec fn in_span(lo: int, a: int, hi: int, b: int, i: int, j: int) -> bool {
    &&& i > lo || (i == lo && j >= a)
    &&& i < hi || (i == hi && j <= b)
}

/// The lines with the case of every character between (lo, a) and (hi, b)
/// toggled.
pub open spec fn span_case_toggled(lines: Seq<Seq<char>>, lo: int, a: int, hi: int, b: int) -> Seq<
    Seq<char>,
> {
    Seq::new(
        lines.len(),
        |i: int|
            Seq::new(
                lines[i].len(),
                |j: int|
                    if in_span(lo, a, hi, b, i, j) {
                        ascii_case_toggled(lines[i][j])
                    } else {
                        lines[i][j]
                    },
            ),
    )
}

/// Toggling case maps ASCII text to ASCII text of the same length, keeps
/// newlines where they are and makes none, and toggles every other
/// character.
proof fn lemma_mapped_text(t: Seq<char>, f: spec_fn(char) -> char)
    requires
        ascii_text(t),
        ascii_map(f),
    ensures
        chars_mapped(t, f).len() == t.len(),
        ascii_text(chars_mapped(t, f)),
        forall|j: int|
            0 <= j < t.len() && t[j] != '\n' ==> #[trigger] chars_mapped(t, f)[j]
                == f(t[j]),
        !t.contains('\n') ==> !chars_mapped(t, f).contains('\n'),
{
    assert forall|j: int| 0 <= j < t.len() implies ((#[trigger] chars_mapped(t, f)[j]) as u32) < 0x80
        && (chars_mapped(t, f)[j] == '\n') == (t[j] == '\n') by {
        assert(((t[j] as u32) < 0x80));
    }
    if !t.contains('\n') && chars_mapped(t, f).contains('\n') {
        let k = choose|k: int| 0 <= k < chars_mapped(t, f).len() && chars_mapped(t, f)[k] == '\n';
        assert(t[k] == '\n');
    }
}

/// Toggling case goes character by character over texts one after the other.
proof fn lemma_mapped_concat(x: Seq<char>, y: Seq<char>, f: spec_fn(char) -> char)
    ensures
        chars_mapped(x + y, f) == chars_mapped(x, f) + chars_mapped(y, f),
{
    assert(chars_mapped(x + y, f) =~= chars_mapped(x, f) + chars_mapped(y, f));
}

/// Toggling case of newline-terminated lines toggles each line.
proof fn lemma_mapped_terminated(mid: Seq<Seq<char>>, f: spec_fn(char) -> char)
    ensures
        chars_mapped(newline_terminated(mid), f) == newline_terminated(
            mid.map_values(|t: Seq<char>| chars_mapped(t, f)),
        ),
    decreases mid.len(),
{
    let fm = mid.map_values(|t: Seq<char>| chars_mapped(t, f));
    if mid.len() == 0 {
        assert(chars_mapped(Seq::<char>::empty(), f) =~= Seq::<char>::empty());
    } else {
        lemma_mapped_terminated(mid.drop_last(), f);
        assert(mid.drop_last().map_values(|t: Seq<char>| chars_mapped(t, f)) =~= fm.drop_last());
        let front = newline_terminated(mid.drop_last());
        lemma_mapped_concat(front + mid.last(), seq!['\n'], f);
        lemma_mapped_concat(front, mid.last(), f);
        assert(chars_mapped(seq!['\n'], f) =~= seq!['\n']);
    }
}

/// `lemma_map_selection_text` for a selection within one line.
#[verifier::spinoff_prover]
proof fn lemma_map_within_line(m: BufferModel, cur: Cursor, f: spec_fn(char) -> char)
    requires
        ascii_lines(m),
        ascii_map(f),
        selection_in_buffer(m, cur),
        cur.lower().0 == cur.higher().0,
    ensures
        sub_cursor_ok(m, cur),
        sub_cursor_result(m, cur, chars_mapped(selected_text(m, cur), f)).lines == span_mapped(
            m.lines,
            cur.lower().0 as int,
            clamped_col(m, cur.lower()),
            cur.higher().0 as int,
            clamped_col(m, cur.higher()),
            f,
        ),
{
    lemma_selection_bounds(cur);
    let lo = cur.lower();
    let hi = cur.higher();
    let a = clamped_col(m, lo);
    let b = clamped_col(m, hi);
    let sel = selected_text(m, cur);
    let t = chars_mapped(sel, f);
    let result = sub_cursor_result(m, cur, t).lines;
    let goal = span_mapped(m.lines, lo.0 as int, a, hi.0 as int, b, f);
    let l0 = lo.0 as int;
    let l1 = hi.0 as int;
    let first = m.lines[l0];
    let last = m.lines[l1];
    assert(ascii_text(first) && !first.contains('\n'));
    assert(ascii_text(last) && !last.contains('\n'));
    lemma_ascii_encode(first);
    lemma_ascii_encode(last);
    lemma_ascii_bytes(first);
    lemma_ascii_bytes(last);
    let n = first.len() as int;
    if n == 0 {
        assert(sel =~= seq![]);
        assert(t =~= seq![]);
        assert(first + t =~= first);
        lemma_split_no_sep(first, '\n');
        assert forall|i: int| 0 <= i < result.len() implies #[trigger] result[i] =~= goal[i] by {
            if i == l0 {
                assert(result[i] == first);
            } else if i < l0 {
                assert(result[i] == m.lines[i]);
            } else {
                assert(result[i] == m.lines[i]);
            }
        }
    } else {
        assert(a <= b < n);
        lemma_ascii_slice(first, a, b + 1);
        assert(sel == first.subrange(a, b + 1));
        lemma_ascii_parts(first, a, b + 1);
        lemma_mapped_text(first.subrange(a, b + 1), f);
        lemma_ascii_replace(first, a, b + 1, t);
        let new_line = first.take(a) + t + first.skip(b + 1);
        assert(new_line =~= goal[l0]) by {
            assert forall|j: int| 0 <= j < n implies new_line[j] == goal[l0][j] by {
                if a <= j <= b {
                    assert(new_line[j] == t[j - a]);
                    assert(first.subrange(a, b + 1)[j - a] == first[j]);
                }
            }
        }
        assert(!new_line.contains('\n')) by {
            if new_line.contains('\n') {
                let k = choose|k: int| 0 <= k < new_line.len() && new_line[k] == '\n';
                assert(first[k] != '\n');
                assert(((first[k] as u32) < 0x80));
                assert(goal[l0][k] == new_line[k]);
                if a <= k <= b {
                    assert(f(first[k]) != '\n');
                }
            }
        }
        lemma_split_no_sep(new_line, '\n');
        assert forall|i: int| 0 <= i < result.len() implies #[trigger] result[i] =~= goal[i] by {
            if i != l0 {
                assert(result[i] == m.lines[i]);
            }
        }
    }
    assert(result =~= goal);
}

/// `lemma_map_selection_text` for a selection across lines.
#[verifier::spinoff_prover]
proof fn lemma_map_across_lines(m: BufferModel, cur: Cursor, f: spec_fn(char) -> char)
    requires
        ascii_lines(m),
        ascii_map(f),
        selection_in_buffer(m, cur),
        cur.lower().0 != cur.higher().0,
    ensures
        sub_cursor_ok(m, cur),
        sub_cursor_result(m, cur, chars_mapped(selected_text(m, cur), f)).lines == span_mapped(
            m.lines,
            cur.lower().0 as int,
            clamped_col(m, cur.lower()),
            cur.higher().0 as int,
            clamped_col(m, cur.higher()),
            f,
        ),
{
    lemma_selection_bounds(cur);
    let lo = cur.lower();
    let hi = cur.higher();
    let a = clamped_col(m, lo);
    let b = clamped_col(m, hi);
    let sel = selected_text(m, cur);
    let t = chars_mapped(sel, f);
    let result = sub_cursor_result(m, cur, t).lines;
    let goal = span_mapped(m.lines, lo.0 as int, a, hi.0 as int, b, f);
    let l0 = lo.0 as int;
    let l1 = hi.0 as int;
    let first = m.lines[l0];
    let last = m.lines[l1];
    assert(ascii_text(first) && !first.contains('\n'));
    assert(ascii_text(last) && !last.contains('\n'));
    lemma_ascii_encode(first);
    lemma_ascii_encode(last);
    lemma_ascii_bytes(first);
    lemma_ascii_bytes(last);
    assert(l0 < l1);
    let mid = m.lines.subrange(l0 + 1, l1);
    let s0 = first.skip(a);
    lemma_ascii_slice(first, a, first.len() as int);
    lemma_ascii_slice(first, 0, a);
    assert(first.subrange(a, first.len() as int) =~= s0);
    assert(first.subrange(0, a) =~= first.take(a));
    let p1 = if last.len() == 0 {
        Seq::<char>::empty()
    } else {
        last.take(b + 1)
    };
    let suf = if last.len() == 0 {
        Seq::<char>::empty()
    } else {
        last.skip(b + 1)
    };
    if last.len() == 0 {
        assert(!is_boundary(last, b + 1));
        assert(slice_or_empty(last, 0, b + 1) =~= p1);
        assert(slice_or_empty(last, b + 1, byte_len(last) as int) =~= suf);
    } else {
        lemma_ascii_slice(last, 0, b + 1);
        lemma_ascii_slice(last, b + 1, last.len() as int);
        assert(last.subrange(0, b + 1) =~= p1);
        assert(last.subrange(b + 1, last.len() as int) =~= suf);
    }
    assert(sel == s0 + seq!['\n'] + newline_terminated(mid) + p1);
    lemma_ascii_parts(first, a, first.len() as int);
    if last.len() > 0 {
        lemma_ascii_parts(last, b + 1, last.len() as int);
    }
    assert(ascii_text(p1));
    lemma_mapped_text(s0, f);
    lemma_mapped_text(p1, f);
    lemma_part_without_newline(first, first.take(a), s0);
    assert(first.take(a) + s0 =~= first);
    if last.len() > 0 {
        assert(p1 + suf =~= last);
        lemma_part_without_newline(last, p1, suf);
    }
    let cmid = mid.map_values(|x: Seq<char>| chars_mapped(x, f));
    lemma_mapped_concat(s0 + seq!['\n'] + newline_terminated(mid), p1, f);
    lemma_mapped_concat(s0 + seq!['\n'], newline_terminated(mid), f);
    lemma_mapped_concat(s0, seq!['\n'], f);
    assert(chars_mapped(seq!['\n'], f) =~= seq!['\n']);
    lemma_mapped_terminated(mid, f);
    let c0 = chars_mapped(s0, f);
    let c1 = chars_mapped(p1, f);
    assert(t == c0 + seq!['\n'] + newline_terminated(cmid) + c1);
    lemma_join_around(c0, cmid, c1);
    let pieces = seq![c0] + cmid + seq![c1];
    assert forall|i: int| 0 <= i < pieces.len() implies !(#[trigger] pieces[i]).contains('\n') by {
        if 1 <= i < pieces.len() - 1 {
            assert(pieces[i] == chars_mapped(m.lines[l0 + i], f));
            lemma_mapped_text(m.lines[l0 + i], f);
        }
    }
    lemma_split_join(pieces, '\n');
    assert(split_newlines(t) == pieces);
    let g = glued(first.take(a), pieces, suf);
    assert(result == m.lines.take(l0) + g + m.lines.skip(l1 + 1));
    assert forall|i: int| 0 <= i < result.len() implies #[trigger] result[i] =~= goal[i] by {
        if i < l0 {
            assert(result[i] == m.lines[i]);
        } else if i == l0 {
            assert(result[i] == first.take(a) + c0);
            assert forall|j: int| 0 <= j < first.len() implies result[i][j] == goal[i][j] by {
                if j >= a {
                    assert(c0[j - a] == f(s0[j - a]));
                }
            }
        } else if i < l1 {
            assert(result[i] == cmid[i - l0 - 1]);
            assert(mid[i - l0 - 1] == m.lines[i]);
            lemma_mapped_text(m.lines[i], f);
        } else if i == l1 {
            assert(result[i] == c1 + suf);
            if last.len() > 0 {
                assert forall|j: int| 0 <= j < last.len() implies result[i][j] == goal[i][j] by {
                    if j <= b {
                        assert(c1[j] == f(p1[j]));
                    }
                }
            }
        } else {
            assert(result[i] == m.lines[i]);
        }
    }
    assert(result =~= goal);
}

/// On ASCII lines without newlines, replacing a selection by its text with
/// the case toggled toggles the case between its two clamped ends.
proof fn lemma_map_selection_text(m: BufferModel, cur: Cursor, f: spec_fn(char) -> char)
    requires
        ascii_lines(m),
        ascii_map(f),
        selection_in_buffer(m, cur),
    ensures
        sub_cursor_ok(m, cur),
        sub_cursor_result(m, cur, chars_mapped(selected_text(m, cur), f)).lines == span_mapped(
            m.lines,
            cur.lower().0 as int,
            clamped_col(m, cur.lower()),
            cur.higher().0 as int,
            clamped_col(m, cur.higher()),
            f,
        ),
{
    if cur.lower().0 == cur.higher().0 {
        lemma_map_within_line(m, cur, f);
    } else {
        lemma_map_across_lines(m, cur, f);
    }
}

/// On ASCII lines without newlines, replacing a selection by its text with
/// the case toggled toggles the case between its two clamped ends.
proof fn lemma_toggle_selection_text(m: BufferModel, cur: Cursor)
    requires
        ascii_lines(m),
        selection_in_buffer(m, cur),
    ensures
        sub_cursor_ok(m, cur),
        sub_cursor_result(m, cur, case_toggled(selected_text(m, cur))).lines == span_case_toggled(
            m.lines,
            cur.lower().0 as int,
            clamped_col(m, cur.lower()),
            cur.higher().0 as int,
            clamped_col(m, cur.higher()),
        ),
{
    let tog = |ch: char| ascii_case_toggled(ch);
    assert forall|ch: char| ((ch as u32) < 0x80) && ch != '\n' implies ((#[trigger] tog(ch)) as u32)
        < 0x80 && tog(ch) != '\n' by {
        lemma_toggle_ascii_char(ch);
    }
    lemma_map_selection_text(m, cur, tog);
    let sel = selected_text(m, cur);
    assert(case_toggled(sel) =~= chars_mapped(sel, tog));
    let lo = cur.lower();
    let hi = cur.higher();
    let a = clamped_col(m, lo);
    let b = clamped_col(m, hi);
    let x = span_case_toggled(m.lines, lo.0 as int, a, hi.0 as int, b);
    let y = span_mapped(m.lines, lo.0 as int, a, hi.0 as int, b, tog);
    assert forall|i: int| 0 <= i < x.len() implies #[trigger] x[i] =~= y[i] by {}
    assert(x =~= y);
}

/// Toggling the case of a selection twice, with the same cursor, gives the
/// lines back when every line is ASCII text without a newline; each toggle
/// can run, and keeps the number of lines and the length of every line.
pub proof fn law_toggle_case_twice(m: BufferModel, c: int)
    requires
        has_cursor(m, c),
        ascii_lines(m),
        selection_in_buffer(m, m.cursors[c]),
    ensures
        rewrite_ok(m, c),
        rewrite_ok(toggle_char_case_result(m, c), c),
        toggle_char_case_result(m, c).lines.len() == m.lines.len(),
        forall|i: int|
            0 <= i < m.lines.len() ==> (#[trigger] toggle_char_case_result(m, c).lines[i]).len()
                == m.lines[i].len(),
        toggle_char_case_result(toggle_char_case_result(m, c), c).lines == m.lines,
{
    let cur = m.cursors[c];
    lemma_selection_bounds(cur);
    lemma_toggle_selection_text(m, cur);
    let lo = cur.lower();
    let hi = cur.higher();
    let a = clamped_col(m, lo);
    let b = clamped_col(m, hi);
    let s1 = sub_cursor_result(m, cur, case_toggled(selected_text(m, cur)));
    let m1 = toggle_char_case_result(m, c);
    let r1 = span_case_toggled(m.lines, lo.0 as int, a, hi.0 as int, b);
    assert(m1.lines == r1);
    assert(s1.cursors == m.cursors);
    let cur1 = m1.cursors[c];
    lemma_selection_bounds(cur1);
    assert(cur1.lower() == lo && cur1.higher() == hi);
    assert forall|i: int| 0 <= i < m1.lines.len() implies ascii_text(#[trigger] m1.lines[i])
        && !m1.lines[i].contains('\n') by {
        assert(ascii_text(m.lines[i]) && !m.lines[i].contains('\n'));
        assert forall|j: int| 0 <= j < m1.lines[i].len() implies ((#[trigger] m1.lines[i][j]) as u32)
            < 0x80 && m1.lines[i][j] != '\n' by {
            lemma_toggle_ascii_char(m.lines[i][j]);
            assert(m.lines[i][j] != '\n');
        }
    }
    assert(selection_in_buffer(m1, cur1));
    lemma_ascii_encode(m.lines[lo.0 as int]);
    lemma_ascii_encode(m.lines[hi.0 as int]);
    lemma_ascii_encode(m1.lines[lo.0 as int]);
    lemma_ascii_encode(m1.lines[hi.0 as int]);
    assert(clamped_col(m1, lo) == a);
    assert(clamped_col(m1, hi) == b);
    lemma_toggle_selection_text(m1, cur1);
    let r2 = toggle_char_case_result(m1, c).lines;
    assert(r2 == span_case_toggled(r1, lo.0 as int, a, hi.0 as int, b));
    assert forall|i: int| 0 <= i < r2.len() implies #[trigger] r2[i] =~= m.lines[i] by {
        assert(ascii_text(m.lines[i]));
        assert forall|j: int| 0 <= j < m.lines[i].len() implies r2[i][j] == m.lines[i][j] by {
            lemma_toggle_ascii_char(m.lines[i][j]);
        }
    }
    assert(r2 =~= m.lines);
}

/// Deleting the cursor's line removes exactly that line (an emptied buffer
/// is left with one empty line). The cursor keeps its line index while that
/// is still a line of the buffer, and otherwise moves up to the new last
/// line; its column, its selection and the other cursors stay as they were.
pub proof fn law_delete_line_removes_the_line(m: BufferModel, c: int)
    requires
        cursor_on_line(m, c),
    ensures
        ({
            let r = delete_line_result(m, c);
            let l = m.cursors[c].line as int;
            &&& m.lines.len() > 1 ==> r.lines == m.lines.remove(l)
            &&& m.lines.len() == 1 ==> r.lines == seq![Seq::<char>::empty()]
            &&& r.cursors.len() == m.cursors.len()
            &&& l + 1 < m.lines.len() ==> r.cursors[c] == m.cursors[c]
            &&& l + 1 == m.lines.len() && l > 0 ==> r.cursors[c] == (Cursor {
                line: (l - 1) as usize,
                ..m.cursors[c]
            })
            &&& l == 0 && m.lines.len() == 1 ==> r.cursors[c] == m.cursors[c]
            &&& forall|q: int| 0 <= q < m.cursors.len() && q != c ==> r.cursors[q] == m.cursors[q]
        }),
{
    let r = delete_line_result(m, c);
    let l = m.cursors[c].line as int;
    if m.lines.len() == 1 {
        assert(m.lines.remove(l) =~= Seq::<Seq<char>>::empty());
        assert(r.lines =~= seq![Seq::<char>::empty()]);
    }
}

/// Whether `x` stands at or after every cursor of `s`.
pub open spec fn greatest_position(s: Seq<Cursor>, x: Cursor) -> bool {
    forall|q: int| 0 <= q < s.len() ==> pos_le((#[trigger] s[q]).head(), x.head())
}

/// Whether `x` stands at or before every cursor of `s`.
pub open spec fn least_position(s: Seq<Cursor>, x: Cursor) -> bool {
    forall|q: int| 0 <= q < s.len() ==> pos_le(x.head(), (#[trigger] s[q]).head())
}

/// The first of the sorted cursors stands at or after all of them and the
/// last at or before all of them; both are cursors of the buffer.
proof fn lemma_sorted_ends(s: Seq<Cursor>)
    requires
        s.len() > 0,
    ensures
        s.contains(sorted_last_first(s)[0]),
        greatest_position(s, sorted_last_first(s)[0]),
        s.contains(sorted_last_first(s).last()),
        least_position(s, sorted_last_first(s).last()),
{
    broadcast use vstd::seq_lib::group_to_multiset_ensures;

    let t = sorted_last_first(s);
    lemma_sorted_last_first(s);
    assert(t.to_multiset().count(t[0]) > 0);
    assert(t.to_multiset().count(t.last()) > 0);
    assert forall|q: int| 0 <= q < s.len() implies pos_le((#[trigger] s[q]).head(), t[0].head())
        && pos_le(t.last().head(), s[q].head()) by {
        assert(s.to_multiset().count(s[q]) > 0);
        assert(t.contains(s[q]));
        let k = choose|k: int| 0 <= k < t.len() && t[k] == s[q];
        if k > 0 {
            assert(crate::cursor::stands_at_or_after(t[0], t[k]));
        }
        if k < t.len() - 1 {
            assert(crate::cursor::stands_at_or_after(t[k], t[t.len() - 1]));
        }
    }
}

/// `new_cursor_down` for the first cursor keeps the cursors (as a multiset)
/// and adds, exactly when no cursor is on the last line, a plain cursor one
/// line below the cursor that stands at or after all the others, in its
/// column. The new cursor is below every cursor, so it is none of them.
pub proof fn law_new_cursor_down_below_the_last(m: BufferModel)
    requires
        has_cursor(m, 0),
        1 <= m.lines.len() <= usize::MAX,
    ensures
        ({
            let r = new_cursor_down_result(m, 0);
            let added = forall|q: int|
                0 <= q < m.cursors.len() ==> (#[trigger] m.cursors[q]).line + 1 < m.lines.len();
            &&& r.lines == m.lines
            &&& !added ==> r.cursors.to_multiset() == m.cursors.to_multiset()
            &&& added ==> r.cursors.len() == m.cursors.len() + 1
            &&& added ==> r.cursors.drop_last().to_multiset() == m.cursors.to_multiset()
            &&& added ==> exists|g: Cursor|
                #![trigger m.cursors.contains(g)]
                m.cursors.contains(g) && greatest_position(m.cursors, g) && r.cursors.last() == (
                Cursor { line: (g.line + 1) as usize, index: g.index, line_range: 0, index_range: 0, range: false })
            &&& added ==> forall|q: int|
                0 <= q < m.cursors.len() ==> (#[trigger] m.cursors[q]).line < r.cursors.last().line
        }),
{
    let s = m.cursors;
    let t = sorted_last_first(s);
    lemma_sorted_last_first(s);
    lemma_sorted_ends(s);
    let g = t[0];
    let r = new_cursor_down_result(m, 0);
    let added = forall|q: int|
        0 <= q < m.cursors.len() ==> (#[trigger] m.cursors[q]).line + 1 < m.lines.len();
    if added {
        assert(s.contains(g));
        let k = choose|k: int| 0 <= k < s.len() && s[k] == g;
        assert(g == s[k]);
        assert(g.line + 1 < m.lines.len());
        assert(r.cursors.drop_last() =~= t);
        assert(m.cursors.contains(g) && greatest_position(m.cursors, g));
        assert(r.cursors.last() == (Cursor { line: (g.line + 1) as usize, index: g.index, line_range: 0, index_range: 0, range: false }));
        assert forall|q: int| 0 <= q < m.cursors.len() implies (#[trigger] m.cursors[q]).line < r.cursors.last().line by {
            assert(pos_le(s[q].head(), g.head()));
        }
    } else {
        let q = choose|q: int| 0 <= q < s.len() && !((#[trigger] s[q]).line + 1 < m.lines.len());
        assert(pos_le(s[q].head(), g.head()));
        assert(r.cursors == t);
    }
}

/// `new_cursor_up` for the last cursor keeps the cursors (as a multiset) and
/// adds, exactly when no cursor is on the first line, a plain cursor one
/// line above the cursor that stands at or before all the others, in its
/// column. The new cursor is above every cursor, so it is none of them.
pub proof fn law_new_cursor_up_above_the_first(m: BufferModel)
    requires
        m.cursors.len() > 0,
    ensures
        ({
            let c = m.cursors.len() - 1;
            let r = new_cursor_up_result(m, c);
            let added = forall|q: int| 0 <= q < m.cursors.len() ==> (#[trigger] m.cursors[q]).line > 0;
            &&& r.lines == m.lines
            &&& !added ==> r.cursors.to_multiset() == m.cursors.to_multiset()
            &&& added ==> r.cursors.len() == m.cursors.len() + 1
            &&& added ==> r.cursors.drop_last().to_multiset() == m.cursors.to_multiset()
            &&& added ==> exists|g: Cursor|
                #![trigger m.cursors.contains(g)]
                m.cursors.contains(g) && least_position(m.cursors, g) && r.cursors.last() == (
                Cursor { line: (g.line - 1) as usize, index: g.index, line_range: 0, index_range: 0, range: false })
            &&& added ==> forall|q: int|
                0 <= q < m.cursors.len() ==> (#[trigger] m.cursors[q]).line > r.cursors.last().line
        }),
{
    let s = m.cursors;
    let t = sorted_last_first(s);
    lemma_sorted_last_first(s);
    lemma_sorted_ends(s);
    let g = t.last();
    let c = m.cursors.len() - 1;
    let r = new_cursor_up_result(m, c);
    assert(t[c] == g);
    let added = forall|q: int| 0 <= q < m.cursors.len() ==> (#[trigger] m.cursors[q]).line > 0;
    if added {
        let k = choose|k: int| 0 <= k < s.len() && s[k] == g;
        assert(g.line > 0);
        assert(r.cursors.drop_last() =~= t);
        assert(m.cursors.contains(g) && least_position(m.cursors, g));
    } else {
        let q = choose|q: int| 0 <= q < s.len() && !((#[trigger] s[q]).line > 0);
        assert(pos_le(g.head(), s[q].head()));
    }
}

/// What `first_from` finds is the nearest occurrence from `i` on; when it
/// finds none there is none.
proof fn lemma_first_from_nearest(s: Seq<char>, i: int, ch: char)
    requires
        0 <= i,
    ensures
        match first_from(s, i, ch) {
            Some(j) => i <= j < s.len() && s[j] == ch && forall|q: int| i <= q < j ==> s[q] != ch,
            None => forall|q: int| i <= q < s.len() ==> s[q] != ch,
        },
    decreases s.len() - i,
{
    if i < s.len() && s[i] != ch {
        lemma_first_from_nearest(s, i + 1, ch);
    }
}

/// What `last_before` finds is the nearest occurrence before `r`; when it
/// finds none there is none.
proof fn lemma_last_before_nearest(s: Seq<char>, r: int, ch: char)
    requires
        0 <= r <= s.len(),
    ensures
        match last_before(s, r, ch) {
            Some(p) => 0 <= p < r && s[p] == ch && forall|q: int| p < q < r ==> s[q] != ch,
            None => forall|q: int| 0 <= q < r ==> s[q] != ch,
        },
    decreases r,
{
    if r > 0 && s[r - 1] != ch {
        lemma_last_before_nearest(s, r - 1, ch);
    }
}

/// `move_find` moves the cursor to the nearest occurrence of the key's first
/// character after it on its line, and leaves it where it is when there is
/// none; only the cursor's column changes.
pub proof fn law_move_find_goes_to_the_next_occurrence(m: BufferModel, c: int, key: Option<Seq<char>>)
    requires
        move_find_ok(m, c, key),
        line_at(m, c).len() <= usize::MAX,
    ensures
        ({
            let r = move_find_result(m, c, key);
            let line = line_at(m, c);
            let k = key_char(key);
            let i = m.cursors[c].index as int;
            let j = r.cursors[c].index as int;
            &&& r.lines == m.lines
            &&& r.cursors.len() == m.cursors.len()
            &&& r.cursors[c] == (Cursor { index: r.cursors[c].index, ..m.cursors[c] })
            &&& forall|q: int| 0 <= q < m.cursors.len() && q != c ==> r.cursors[q] == m.cursors[q]
            &&& i <= j
            &&& i < j ==> j < line.len() && line[j] == k && forall|q: int| i < q < j ==> line[q] != k
            &&& i == j ==> forall|q: int| i < q < line.len() ==> line[q] != k
        }),
{
    let line = line_at(m, c);
    lemma_first_from_nearest(line, m.cursors[c].index + 1, key_char(key));
}

/// On a line of ASCII text, `move_find_reverse` moves the cursor to the
/// nearest occurrence of the key's first character before it, and leaves it
/// where it is when there is none; only the cursor's column changes.
pub proof fn law_move_find_reverse_goes_to_the_previous_occurrence(
    m: BufferModel,
    c: int,
    key: Option<Seq<char>>,
)
    requires
        move_find_reverse_ok(m, c, key),
        ascii_text(line_at(m, c)),
    ensures
        ({
            let r = move_find_reverse_result(m, c, key);
            let line = line_at(m, c);
            let k = key_char(key);
            let i = m.cursors[c].index as int;
            let j = r.cursors[c].index as int;
            &&& r.lines == m.lines
            &&& r.cursors.len() == m.cursors.len()
            &&& r.cursors[c] == (Cursor { index: r.cursors[c].index, ..m.cursors[c] })
            &&& forall|q: int| 0 <= q < m.cursors.len() && q != c ==> r.cursors[q] == m.cursors[q]
            &&& j <= i
            &&& j < i ==> line[j] == k && forall|q: int| j < q < i ==> line[q] != k
            &&& j == i ==> forall|q: int| 0 <= q < i ==> line[q] != k
        }),
{
    let line = line_at(m, c);
    lemma_ascii_encode(line);
    let i = m.cursors[c].index as int;
    assert(crate::actions::reverse_scan_len(m, c) == i);
    lemma_last_before_nearest(line, i, key_char(key));
}

/// `y` is `x` with its ASCII letter case swapped: an upper-case letter
/// becomes the same letter in lower case and the other way round; any other
/// character stays.
pub open spec fn letter_case_swapped(x: char, y: char) -> bool {
    &&& 'A' <= x <= 'Z' ==> (y as u32) == (x as u32) + 32
    &&& 'a' <= x <= 'z' ==> (y as u32) + 32 == (x as u32)
    &&& !('A' <= x <= 'Z') && !('a' <= x <= 'z') ==> y == x
}

/// Toggling the ASCII case of a character (what `toggle_ascii_case`
/// computes) swaps the case of a letter and leaves every other character
/// alone.
pub proof fn law_case_toggle_swaps_only_letters(ch: char)
    ensures
        letter_case_swapped(ch, ascii_case_toggled(ch)),
        'A' <= ch <= 'Z' ==> 'a' <= ascii_case_toggled(ch) <= 'z',
        'a' <= ch <= 'z' ==> 'A' <= ascii_case_toggled(ch) <= 'Z',
{
}

/// On ASCII lines without newlines, `toggle_char_case` swaps the letter
/// case of every character between the two clamped ends of the selection,
/// leaves all other characters (digits, punctuation, `_`, spaces) alone,
/// and changes no character outside the selection, no line count and no
/// line length.
pub proof fn law_toggle_char_case_swaps_letters_in_the_selection(m: BufferModel, c: int)
    requires
        has_cursor(m, c),
        ascii_lines(m),
        selection_in_buffer(m, m.cursors[c]),
    ensures
        rewrite_ok(m, c),
        ({
            let r = toggle_char_case_result(m, c);
            let cur = m.cursors[c];
            let lo = cur.lower().0 as int;
            let a = clamped_col(m, cur.lower());
            let hi = cur.higher().0 as int;
            let b = clamped_col(m, cur.higher());
            &&& r.lines.len() == m.lines.len()
            &&& forall|i: int| 0 <= i < m.lines.len() ==> (#[trigger] r.lines[i]).len() == m.lines[i].len()
            &&& forall|i: int, j: int|
                0 <= i < m.lines.len() && 0 <= j < m.lines[i].len() ==> {
                    &&& in_span(lo, a, hi, b, i, j) ==> letter_case_swapped(
                        m.lines[i][j],
                        #[trigger] r.lines[i][j],
                    )
                    &&& !in_span(lo, a, hi, b, i, j) ==> r.lines[i][j] == m.lines[i][j]
                }
        }),
{
    let cur = m.cursors[c];
    lemma_toggle_selection_text(m, cur);
    let r = toggle_char_case_result(m, c);
    assert(r.lines == sub_cursor_result(m, cur, case_toggled(selected_text(m, cur))).lines);
}

/// On ASCII lines without newlines, `replace` with a key whose first
/// character `k` is ASCII and not a newline makes every character between
/// the two clamped ends of the selection `k` (spaces included) and changes
/// no character outside the selection, no line count and no line length.
pub proof fn law_replace_overwrites_the_selection(m: BufferModel, c: int, key: Option<Seq<char>>)
    requires
        has_cursor(m, c),
        ascii_lines(m),
        selection_in_buffer(m, m.cursors[c]),
        key_given(key),
        (key_char(key) as u32) < 0x80,
        key_char(key) != '\n',
    ensures
        rewrite_ok(m, c),
        ({
            let r = replace_result(m, c, key);
            let cur = m.cursors[c];
            let lo = cur.lower().0 as int;
            let a = clamped_col(m, cur.lower());
            let hi = cur.higher().0 as int;
            let b = clamped_col(m, cur.higher());
            &&& r.lines.len() == m.lines.len()
            &&& forall|i: int| 0 <= i < m.lines.len() ==> (#[trigger] r.lines[i]).len() == m.lines[i].len()
            &&& forall|i: int, j: int|
                0 <= i < m.lines.len() && 0 <= j < m.lines[i].len() ==> {
                    &&& in_span(lo, a, hi, b, i, j) ==> #[trigger] r.lines[i][j] == key_char(key)
                    &&& !in_span(lo, a, hi, b, i, j) ==> r.lines[i][j] == m.lines[i][j]
                }
        }),
{
    let cur = m.cursors[c];
    let k = key_char(key);
    let fk = |ch: char| k;
    assert forall|ch: char| ((ch as u32) < 0x80) && ch != '\n' implies ((#[trigger] fk(ch)) as u32)
        < 0x80 && fk(ch) != '\n' by {}
    lemma_map_selection_text(m, cur, fk);
    let sel = selected_text(m, cur);
    assert(overwritten_with(sel, k) =~= chars_mapped(sel, fk));
    let r = replace_result(m, c, key);
    assert(r.lines == sub_cursor_result(m, cur, chars_mapped(sel, fk)).lines);
}

/// `move_till` with a one-character key `k` stops just before the nearest
/// `k` after the cursor on its line. When there is none the cursor stays,
/// except that it steps one column left when it already stands on a `k`
/// (and is not in the first column). Only the cursor's column changes.
pub proof fn law_move_till_stops_before_the_next_occurrence(m: BufferModel, c: int, k: char)
    requires
        move_find_ok(m, c, Some(seq![k])),
        line_at(m, c).len() <= usize::MAX,
    ensures
        ({
            let r = move_till_result(m, c, Some(seq![k]));
            let line = line_at(m, c);
            let i = m.cursors[c].index as int;
            let j = r.cursors[c].index as int;
            let found = exists|q: int| i < q < line.len() && #[trigger] line[q] == k;
            &&& r.lines == m.lines
            &&& r.cursors.len() == m.cursors.len()
            &&& r.cursors[c] == (Cursor { index: r.cursors[c].index, ..m.cursors[c] })
            &&& forall|q: int| 0 <= q < m.cursors.len() && q != c ==> r.cursors[q] == m.cursors[q]
            &&& found ==> i <= j && j + 1 < line.len() && line[j + 1] == k && forall|q: int|
                i < q <= j ==> line[q] != k
            &&& !found && i < line.len() && line[i] == k && i > 0 ==> j == i - 1
            &&& !found && !(i < line.len() && line[i] == k && i > 0) ==> j == i
        }),
{
    let line = line_at(m, c);
    let i = m.cursors[c].index as int;
    lemma_first_from_nearest(line, i + 1, k);
    let m1 = move_find_result(m, c, Some(seq![k]));
    let found = exists|q: int| i < q < line.len() && #[trigger] line[q] == k;
    if found {
        let q = choose|q: int| i < q < line.len() && #[trigger] line[q] == k;
        assert(first_from(line, i + 1, k) is Some);
        let p = first_from(line, i + 1, k)->0;
        assert(m1.cursors[c].index == p);
        assert(seq![k] == seq![line[p]]);
    } else {
        assert(first_from(line, i + 1, k) is None) by {
            if first_from(line, i + 1, k) is Some {
                let p = first_from(line, i + 1, k)->0;
                assert(line[p] == k);
            }
        }
        if i < line.len() && seq![k] == seq![line[i]] {
            assert(line[i] == seq![line[i]][0]);
        }
        if i < line.len() && line[i] == k {
            assert(seq![k] =~= seq![line[i]]);
        }
    }
}

} // verus!
