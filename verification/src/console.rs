use crate::buffer::{offset_convertible, offset_to_position, refreshed, Buffer, BufferModel};
use crate::cursor::{cursor_views, Cursor};
use crate::pattern::{all_present, pattern_captures, pattern_captures_in, pattern_compiles};
use crate::text::{byte_len, byte_length, first_char, join_strings, join_with, split_at_char, split_on, str_equal, views};
use vstd::prelude::*;

verus! {

broadcast use {crate::text::lemma_views, crate::cursor::lemma_cursor_views};

/// What a console command leaves to the program around the library.
pub enum ConsoleRequest {
    /// Done; this script (often empty) goes to the view.
    Script(String),
    /// Exit the program.
    Quit,
    /// Load the file at this path into the buffer.
    Edit(String),
    /// Write the buffer to its file.
    Write,
    /// The search pattern does not compile, or one of its matches cannot
    /// become a selection.
    Rejected,
}

/// The text is a console command: a colon and at least one more byte.
pub open spec fn is_console_command(s: Seq<char>) -> bool {
    s.len() > 0 && s[0] == ':' && byte_len(s) >= 2
}

/// The words of a console command, split at spaces after the colon.
pub open spec fn command_words(s: Seq<char>) -> Seq<Seq<char>> {
    split_on(s.drop_first(), ' ')
}

/// The command's name: its first word.
pub open spec fn command_name(s: Seq<char>) -> Seq<char> {
    command_words(s)[0]
}

/// The command's arguments: the words after the name.
pub open spec fn command_args(s: Seq<char>) -> Seq<Seq<char>> {
    command_words(s).drop_first()
}

/// A match span (start, end) can become a selection: it ends after byte 0,
/// and its last byte and its first byte can be turned into positions.
pub open spec fn span_convertible(text: Seq<char>, span: (usize, usize)) -> bool {
    span.1 >= 1 && offset_convertible(text, span.1 - 1) && offset_convertible(text, span.0 as int)
}

/// The selection made from a match span: the cursor on its last byte, the
/// anchor on its first.
pub open spec fn selection_of_span(text: Seq<char>, span: (usize, usize)) -> Cursor {
    let lower = offset_to_position(text, span.1 - 1);
    let higher = offset_to_position(text, span.0 as int);
    Cursor { line: lower.0, index: lower.1, line_range: higher.0, index_range: higher.1, range: true }
}

/// Every span can become a selection.
pub open spec fn spans_convertible(text: Seq<char>, spans: Seq<(usize, usize)>) -> bool {
    forall|i: int| 0 <= i < spans.len() ==> span_convertible(text, #[trigger] spans[i])
}

/// The buffer after `extract` on the given match spans: its text is brought
/// up to date, and when there are spans the cursors become one selection
/// per span.
pub open spec fn extract_result(m: BufferModel, spans: Seq<(usize, usize)>) -> BufferModel {
    let m1 = refreshed(m);
    if spans.len() > 0 {
        BufferModel {
            cursors: spans.map_values(|sp: (usize, usize)| selection_of_span(m1.file_as_string, sp)),
            ..m1
        }
    } else {
        m1
    }
}

/// The script that switches the view to selection mode.
pub open spec fn selection_mode_script() -> Seq<char> {
    "changeMode(\"selection\")"@
}

/// Replaces the cursors by one selection per match span (see
/// [`extract_result`]); gives the script that switches the view to selection
/// mode when there was at least one span.
pub fn extract_spans(buffer: &mut Buffer, spans: &Vec<(usize, usize)>) -> (r: Option<String>)
    requires
        spans_convertible(refreshed(old(buffer)@).file_as_string, spans@),
    ensures
        final(buffer)@ == extract_result(old(buffer)@, spans@),
        spans.len() > 0 ==> (r matches Some(t) && t@ == selection_mode_script()),
        spans.len() == 0 ==> r is None,
{
    let ghost m = buffer@;
    let _ = buffer.get_as_string();
    let ghost m1 = buffer@;
    assert(m1 == refreshed(m));
    assert(refreshed(m1) == m1);
    let ghost text = m1.file_as_string;
    let mut new_cursors: Vec<Box<Cursor>> = Vec::new();
    let mut i: usize = 0;
    while i < spans.len()
        invariant
            i <= spans.len(),
            buffer@ == m1,
            refreshed(m1) == m1,
            text == m1.file_as_string,
            spans_convertible(text, spans@),
            cursor_views(new_cursors@) == spans@.take(i as int).map_values(
                |sp: (usize, usize)| selection_of_span(text, sp),
            ),
        decreases spans.len() - i,
    {
        let r = spans[i];
        assert(span_convertible(text, spans@[i as int]));
        let lower = buffer.string_idx_to_cursor_idx(r.1 - 1);
        let higher = buffer.string_idx_to_cursor_idx(r.0);
        assert(lower == offset_to_position(text, r.1 - 1));
        assert(higher == offset_to_position(text, r.0 as int));
        let ghost prev = cursor_views(new_cursors@);
        new_cursors.push(
            Box::new(
                Cursor {
                    line: lower.0,
                    index: lower.1,
                    line_range: higher.0,
                    index_range: higher.1,
                    range: true,
                },
            ),
        );
        assert(cursor_views(new_cursors@) =~= prev.push(selection_of_span(text, r)));
        assert(spans@.take(i + 1) =~= spans@.take(i as int).push(spans@[i as int]));
        assert(cursor_views(new_cursors@) =~= spans@.take(i + 1).map_values(
            |sp: (usize, usize)| selection_of_span(text, sp),
        ));
        i = i + 1;
    }
    assert(spans@.take(spans.len() as int) =~= spans@);
    if new_cursors.len() > 0 {
        buffer.cursors = new_cursors;
        let script = "changeMode(\"selection\")";
        return Some(script.to_owned());
    }
    None
}

/// Keeps the first cursor only.
pub fn clear_cursors(buffer: &mut Buffer)
    ensures
        final(buffer)@ == (BufferModel {
            cursors: if old(buffer)@.cursors.len() > 1 {
                old(buffer)@.cursors.take(1)
            } else {
                old(buffer)@.cursors
            },
            ..old(buffer)@
        }),
{
    let ghost m = buffer@;
    buffer.cursors.truncate(1);
    assert(buffer@.cursors =~= (if m.cursors.len() > 1 {
        m.cursors.take(1)
    } else {
        m.cursors
    }));
}

/// Spans of all the matches: each present span, in order.
fn present_spans(spans: &Vec<Option<(usize, usize)>>) -> (r: Vec<(usize, usize)>)
    requires
        all_present(spans@),
    ensures
        r@ == present(spans@),
{
    let mut r: Vec<(usize, usize)> = Vec::new();
    let mut i: usize = 0;
    while i < spans.len()
        invariant
            i <= spans.len(),
            all_present(spans@),
            r@ == present(spans@.take(i as int)),
        decreases spans.len() - i,
    {
        assert(spans@[i as int] is Some);
        r.push(spans[i].unwrap());
        assert(spans@.take(i + 1) =~= spans@.take(i as int).push(spans@[i as int]));
        assert(r@ =~= present(spans@.take(i + 1)));
        i = i + 1;
    }
    assert(spans@.take(spans.len() as int) =~= spans@);
    r
}

/// Whether every span can become a selection of `text`.
fn all_convertible(text: &str, spans: &Vec<(usize, usize)>) -> (r: bool)
    ensures
        r == spans_convertible(text@, spans@),
{
    let bytes = text.as_bytes();
    let n = bytes.len();
    let mut i: usize = 0;
    while i < spans.len()
        invariant
            i <= spans.len(),
            bytes@ == vstd::utf8::encode_utf8(text@),
            n == bytes@.len(),
            forall|k: int| 0 <= k < i ==> span_convertible(text@, #[trigger] spans@[k]),
        decreases spans.len() - i,
    {
        let sp = spans[i];
        if sp.1 < 1 || sp.1 - 1 >= n || sp.0 >= n {
            return false;
        }
        if !text.is_char_boundary(sp.1) || !text.is_char_boundary(sp.0 + 1) {
            return false;
        }
        if bytes[sp.1 - 1] == 10u8 || bytes[sp.0] == 10u8 {
            return false;
        }
        i = i + 1;
    }
    true
}

/// The spans of matches that are all present.
pub open spec fn present(found: Seq<Option<(usize, usize)>>) -> Seq<(usize, usize)> {
    found.map_values(|o: Option<(usize, usize)>| o.unwrap())
}

/// The script `x` hands back: selection mode when there were matches.
pub open spec fn extract_script(spans: Seq<(usize, usize)>) -> Seq<char> {
    if spans.len() > 0 {
        selection_mode_script()
    } else {
        Seq::<char>::empty()
    }
}

/// Turns the match spans found in the buffer's text into one selection per
/// match (see [`extract_result`]); refused, with the text brought up to
/// date, when one of them cannot become a selection.
pub fn extract_matches(buffer: &mut Buffer, found: &Vec<Option<(usize, usize)>>) -> (r: ConsoleRequest)
    requires
        all_present(found@),
    ensures
        ({
            let text = refreshed(old(buffer)@).file_as_string;
            let spans = present(found@);
            if spans_convertible(text, spans) {
                r matches ConsoleRequest::Script(t) && t@ == extract_script(spans) && final(buffer)@
                    == extract_result(old(buffer)@, spans)
            } else {
                r is Rejected && final(buffer)@ == refreshed(old(buffer)@)
            }
        }),
{
    let ghost m = buffer@;
    let spans = present_spans(found);
    let convertible = {
        let text = buffer.get_as_string();
        all_convertible(text, &spans)
    };
    if !convertible {
        return ConsoleRequest::Rejected;
    }
    assert(refreshed(buffer@) == buffer@);
    let out = extract_spans(buffer, &spans);
    assert(extract_result(m, spans@) == buffer@);
    match out {
        Some(t) => ConsoleRequest::Script(t),
        None => ConsoleRequest::Script(String::new()),
    }
}

/// Runs a console command (`:name args...`): the commands that only touch
/// the buffer are done here; quitting, loading and writing are handed back
/// as requests.
pub fn execute_command(buffer: &mut Buffer, command_string: &str) -> (r: ConsoleRequest)
    ensures
        !is_console_command(command_string@) ==> (r matches ConsoleRequest::Script(t) && t@
            == Seq::<char>::empty() && final(buffer)@ == old(buffer)@),
        is_console_command(command_string@) ==> ({
            let name = command_name(command_string@);
            let args = command_args(command_string@);
            if name == "quit"@ || name == "q"@ {
                r is Quit && final(buffer)@ == old(buffer)@
            } else if name == "edit"@ || name == "e"@ {
                r matches ConsoleRequest::Edit(p) && p@ == join_with(args, " "@) && final(buffer)@
                    == old(buffer)@
            } else if name == "write"@ || name == "w"@ {
                r is Write && final(buffer)@ == old(buffer)@
            } else if name == "x"@ {
                let text = refreshed(old(buffer)@).file_as_string;
                let pattern = join_with(args, ""@);
                let spans = present(pattern_captures(pattern, text, 0));
                if pattern_compiles(pattern) && spans_convertible(text, spans) {
                    r matches ConsoleRequest::Script(t) && t@ == extract_script(spans) && final(buffer)@
                        == extract_result(old(buffer)@, spans)
                } else {
                    r is Rejected && final(buffer)@ == refreshed(old(buffer)@)
                }
            } else if name == "cc"@ {
                r matches ConsoleRequest::Script(t) && t@ == Seq::<char>::empty() && final(buffer)@ == (BufferModel {
                    cursors: if old(buffer)@.cursors.len() > 1 {
                        old(buffer)@.cursors.take(1)
                    } else {
                        old(buffer)@.cursors
                    },
                    ..old(buffer)@
                })
            } else {
                r matches ConsoleRequest::Script(t) && t@ == Seq::<char>::empty() && final(buffer)@ == old(buffer)@
            }
        }),
{
    let ghost m = buffer@;
    let s = command_string;
    if first_char(s) != Some(':') || byte_length(s) < 2 {
        return ConsoleRequest::Script(String::new());
    }
    let n = s.unicode_len();
    let rest = s.substring_char(1, n);
    assert(rest@ =~= s@.drop_first());
    let split_command_string = split_at_char(rest, ' ');
    proof {
        crate::text::lemma_split_nonempty(rest@, ' ');
    }
    let command_slice = split_command_string[0].as_str();
    let mut args_slice: Vec<String> = Vec::new();
    let mut i: usize = 1;
    while i < split_command_string.len()
        invariant
            1 <= i <= split_command_string.len(),
            views(args_slice@) == views(split_command_string@).subrange(1, i as int),
        decreases split_command_string.len() - i,
    {
        let ghost before = views(args_slice@);
        args_slice.push(split_command_string[i].clone());
        assert(views(args_slice@) =~= before.push(split_command_string@[i as int]@));
        assert(views(split_command_string@).subrange(1, i + 1) =~= views(
            split_command_string@,
        ).subrange(1, i as int).push(split_command_string@[i as int]@));
        i = i + 1;
    }
    assert(views(args_slice@) =~= command_args(s@));
    assert(command_slice@ == command_name(s@));
    if str_equal(command_slice, "quit") || str_equal(command_slice, "q") {
        return ConsoleRequest::Quit;
    }
    if str_equal(command_slice, "edit") || str_equal(command_slice, "e") {
        let path = join_strings(&args_slice, " ");
        return ConsoleRequest::Edit(path);
    }
    if str_equal(command_slice, "write") || str_equal(command_slice, "w") {
        return ConsoleRequest::Write;
    }
    if str_equal(command_slice, "x") {
        let search = join_strings(&args_slice, "");
        let found = {
            let text = buffer.get_as_string();
            pattern_captures_in(search.as_str(), text, 0)
        };
        return match found {
            Ok(found) => extract_matches(buffer, &found),
            Err(_) => ConsoleRequest::Rejected,
        };
    }
    if str_equal(command_slice, "cc") {
        clear_cursors(buffer);
        return ConsoleRequest::Script(String::new());
    }
    ConsoleRequest::Script(String::new())
}

} // verus!
