use vstd::prelude::*;
use vstd::utf8::*;

verus! {

broadcast use vstd::utf8::group_utf8_lib;

/// The number of bytes of the UTF-8 form of `s` (what `str::len` returns).
pub open spec fn byte_len(s: Seq<char>) -> nat {
    encode_utf8(s).len()
}

/// Whether byte offset `i` of the UTF-8 form of `s` starts a character or
/// is its end (what `str::is_char_boundary` answers).
pub open spec fn is_boundary(s: Seq<char>, i: int) -> bool {
    is_char_boundary(encode_utf8(s), i)
}

/// The text between byte offsets `a` and `b` of `s`.
pub open spec fn byte_slice(s: Seq<char>, a: int, b: int) -> Seq<char> {
    decode_utf8(encode_utf8(s).subrange(a, b))
}

/// `s` with the bytes between offsets `a` and `b` replaced by `t`.
pub open spec fn byte_replace(s: Seq<char>, a: int, b: int, t: Seq<char>) -> Seq<char> {
    decode_utf8(encode_utf8(s).take(a) + encode_utf8(t) + encode_utf8(s).skip(b))
}

/// What `str::get(a..b)` gives, with the empty text where it gives `None`.
pub open spec fn slice_or_empty(s: Seq<char>, a: int, b: int) -> Seq<char> {
    if a <= b && is_boundary(s, a) && is_boundary(s, b) {
        byte_slice(s, a, b)
    } else {
        seq![]
    }
}

/// `x - 1`, or 0 when `x` is 0.
pub open spec fn sat_dec(x: int) -> int {
    if x > 0 {
        x - 1
    } else {
        0
    }
}

/// The pieces joined with `sep` between each two of them.
pub open spec fn join_with(pieces: Seq<Seq<char>>, sep: Seq<char>) -> Seq<char>
    decreases pieces.len(),
{
    if pieces.len() == 0 {
        seq![]
    } else if pieces.len() == 1 {
        pieces[0]
    } else {
        join_with(pieces.drop_last(), sep) + sep + pieces.last()
    }
}

/// The lines joined with a newline between each two of them.
pub open spec fn join_lines(lines: Seq<Seq<char>>) -> Seq<char> {
    join_with(lines, seq!['\n'])
}

/// Each line followed by a newline, all of them one after the other.
pub open spec fn newline_terminated(lines: Seq<Seq<char>>) -> Seq<char>
    decreases lines.len(),
{
    if lines.len() == 0 {
        seq![]
    } else {
        newline_terminated(lines.drop_last()) + lines.last() + seq!['\n']
    }
}

/// The pieces of `s` between its occurrences of `sep` (what `s.split(sep)`
/// yields): there is always one more piece than there are separators.
pub open spec fn split_on(s: Seq<char>, sep: char) -> Seq<Seq<char>>
    decreases s.len(),
{
    if s.len() == 0 {
        seq![seq![]]
    } else {
        let rest = split_on(s.drop_last(), sep);
        if s.last() == sep {
            rest.push(seq![])
        } else {
            rest.update(rest.len() - 1, rest.last().push(s.last()))
        }
    }
}

/// The pieces of `s` between its newlines.
pub open spec fn split_newlines(s: Seq<char>) -> Seq<Seq<char>> {
    split_on(s, '\n')
}

/// The views of a vector of strings.
pub open spec fn views(v: Seq<String>) -> Seq<Seq<char>> {
    v.map_values(|s: String| s@)
}

/// A vector of strings and its views have the same length, element by element.
pub broadcast proof fn lemma_views(v: Seq<String>)
    ensures
        #[trigger] views(v).len() == v.len(),
        forall|i: int| 0 <= i < v.len() ==> #[trigger] views(v)[i] == v[i]@,
{
}

/// A split yields at least one piece.
pub proof fn lemma_split_nonempty(s: Seq<char>, sep: char)
    ensures
        split_on(s, sep).len() >= 1,
    decreases s.len(),
{
    if s.len() > 0 {
        lemma_split_nonempty(s.drop_last(), sep);
    }
}

/// A text has at least one line.
pub proof fn lemma_split_newlines_nonempty(s: Seq<char>)
    ensures
        split_newlines(s).len() >= 1,
{
    lemma_split_nonempty(s, '\n');
}

/// Joining the pieces of a split with the separator gives the text back.
pub proof fn lemma_join_split_on(s: Seq<char>, sep: char)
    ensures
        join_with(split_on(s, sep), seq![sep]) == s,
    decreases s.len(),
{
    if s.len() > 0 {
        let r = split_on(s.drop_last(), sep);
        lemma_join_split_on(s.drop_last(), sep);
        lemma_split_nonempty(s.drop_last(), sep);
        if s.last() == sep {
            assert(r.push(seq![]).drop_last() =~= r);
            assert(s =~= s.drop_last() + seq![sep] + seq![]);
        } else {
            let u = r.update(r.len() - 1, r.last().push(s.last()));
            if r.len() == 1 {
                assert(s =~= s.drop_last().push(s.last()));
            } else {
                assert(u.drop_last() =~= r.drop_last());
                assert(join_with(r, seq![sep]) == join_with(r.drop_last(), seq![sep]) + seq![sep]
                    + r.last());
                assert(s =~= s.drop_last().push(s.last()));
                assert((join_with(r.drop_last(), seq![sep]) + seq![sep] + r.last()).push(s.last())
                    =~= join_with(r.drop_last(), seq![sep]) + seq![sep] + r.last().push(s.last()));
                assert(s =~= join_with(u.drop_last(), seq![sep]) + seq![sep] + u.last());
            }
        }
    }
}

/// Joining the pieces of a split with newlines gives the text back.
pub proof fn lemma_join_split(s: Seq<char>)
    ensures
        join_lines(split_newlines(s)) == s,
{
    lemma_join_split_on(s, '\n');
}

/// Text without the separator splits into itself alone.
pub proof fn lemma_split_no_sep(s: Seq<char>, sep: char)
    requires
        !s.contains(sep),
    ensures
        split_on(s, sep) == seq![s],
    decreases s.len(),
{
    if s.len() > 0 {
        assert(!s.drop_last().contains(sep)) by {
            if s.drop_last().contains(sep) {
                let k = choose|k: int| 0 <= k < s.drop_last().len() && s.drop_last()[k] == sep;
                assert(s[k] == sep);
            }
        }
        lemma_split_no_sep(s.drop_last(), sep);
        assert(s[s.len() - 1] == s.last());
        assert(s.last() != sep);
        assert(s.drop_last().push(s.last()) =~= s);
        assert(split_on(s, sep) =~= seq![s]);
    } else {
        assert(s =~= seq![]);
    }
}

/// The UTF-8 form of two texts one after the other is their two forms one
/// after the other.
pub proof fn lemma_encode_concat(a: Seq<char>, b: Seq<char>)
    ensures
        encode_utf8(a + b) == encode_utf8(a) + encode_utf8(b),
    decreases a.len(),
{
    if a.len() == 0 {
        assert(a + b =~= b);
        assert(encode_utf8(a) =~= seq![]);
        assert(encode_utf8(a) + encode_utf8(b) =~= encode_utf8(b));
    } else {
        lemma_encode_concat(a.drop_first(), b);
        assert((a + b)[0] == a[0]);
        assert((a + b).drop_first() =~= a.drop_first() + b);
        assert(encode_utf8(a + b) =~= encode_scalar(a[0] as u32) + (encode_utf8(a.drop_first())
            + encode_utf8(b)));
    }
}

/// A text cut at a character boundary: the part before the boundary and the
/// part after it, whose UTF-8 forms are the bytes before and after it.
pub proof fn lemma_cut_at_boundary(s: Seq<char>, i: int) -> (r: (Seq<char>, Seq<char>))
    requires
        is_boundary(s, i),
    ensures
        r.0 + r.1 == s,
        encode_utf8(r.0) == encode_utf8(s).take(i),
        encode_utf8(r.1) == encode_utf8(s).skip(i),
        r.0 == byte_slice(s, 0, i),
        r.1 == byte_slice(s, i, byte_len(s) as int),
{
    let b = encode_utf8(s);
    decode_utf8_split(b, i);
    valid_utf8_split(b, i);
    assert(b.subrange(0, i) =~= b.take(i));
    assert(b.subrange(i, b.len() as int) =~= b.skip(i));
    (decode_utf8(b.take(i)), decode_utf8(b.skip(i)))
}

/// The pieces joined by `sep` split back into themselves when none of them
/// holds `sep`.
pub proof fn lemma_split_join(ps: Seq<Seq<char>>, sep: char)
    requires
        ps.len() >= 1,
        forall|i: int| 0 <= i < ps.len() ==> !(#[trigger] ps[i]).contains(sep),
    ensures
        split_on(join_with(ps, seq![sep]), sep) == ps,
    decreases ps.len(),
{
    if ps.len() == 1 {
        lemma_split_no_sep(ps[0], sep);
        assert(ps =~= seq![ps[0]]);
    } else {
        let front = ps.drop_last();
        assert forall|i: int| 0 <= i < front.len() implies !(#[trigger] front[i]).contains(sep) by {
            assert(front[i] == ps[i]);
        }
        lemma_split_join(front, sep);
        assert(!ps[ps.len() - 1].contains(sep));
        lemma_split_after_sep(join_with(front, seq![sep]), ps.last(), sep);
        assert(front.push(ps.last()) =~= ps);
    }
}

/// Splitting `x`, the separator and then `y` (which holds no separator)
/// gives the pieces of `x` followed by `y`.
pub proof fn lemma_split_after_sep(x: Seq<char>, y: Seq<char>, sep: char)
    requires
        !y.contains(sep),
    ensures
        split_on(x + seq![sep] + y, sep) == split_on(x, sep).push(y),
    decreases y.len(),
{
    if y.len() == 0 {
        assert(x + seq![sep] + y =~= x.push(sep));
        assert((x.push(sep)).drop_last() =~= x);
        assert(y =~= seq![]);
    } else {
        let y1 = y.drop_last();
        assert(!y1.contains(sep)) by {
            if y1.contains(sep) {
                let k = choose|k: int| 0 <= k < y1.len() && y1[k] == sep;
                assert(y[k] == sep);
            }
        }
        lemma_split_after_sep(x, y1, sep);
        let whole = x + seq![sep] + y;
        assert(whole.drop_last() =~= x + seq![sep] + y1);
        assert(whole.last() == y.last());
        assert(y[y.len() - 1] != sep);
        lemma_split_nonempty(x, sep);
        assert(y1.push(y.last()) =~= y);
        let r = split_on(x, sep).push(y1);
        assert(r.update(r.len() - 1, r.last().push(whole.last())) =~= split_on(x, sep).push(y));
    }
}

/// `a`, a newline, the newline-terminated lines `mid` and then `b` is the
/// join of `a`, `mid` and `b` with newlines.
pub proof fn lemma_join_around(a: Seq<char>, mid: Seq<Seq<char>>, b: Seq<char>)
    ensures
        a + seq!['\n'] + newline_terminated(mid) + b == join_lines(seq![a] + mid + seq![b]),
    decreases mid.len(),
{
    let ps = seq![a] + mid + seq![b];
    assert(ps.drop_last() =~= seq![a] + mid);
    assert(ps.last() == b);
    if mid.len() == 0 {
        assert(seq![a] + mid =~= seq![a]);
        assert(newline_terminated(mid) =~= seq![]);
        assert(a + seq!['\n'] + newline_terminated(mid) + b =~= a + seq!['\n'] + b);
        assert(join_lines(seq![a]) == a);
    } else {
        let m1 = mid.drop_last();
        let x = mid.last();
        lemma_join_around(a, m1, x);
        assert(seq![a] + m1 + seq![x] =~= seq![a] + mid);
        assert(join_lines(ps) == join_lines(seq![a] + mid) + seq!['\n'] + b);
        assert(a + seq!['\n'] + newline_terminated(mid) + b =~= (a + seq!['\n'] + newline_terminated(
            m1,
        ) + x) + seq!['\n'] + b);
    }
}

/// Wrapper for `String::insert_str`: inserts `t` at byte offset `idx`, which
/// must be a character boundary (the method panics otherwise).
#[verifier::external_body]
pub(crate) fn string_insert_str(s: &mut String, idx: usize, t: &str)
    requires
        is_boundary(old(s)@, idx as int),
    ensures
        encode_utf8(final(s)@) == encode_utf8(old(s)@).take(idx as int) + encode_utf8(t@)
            + encode_utf8(old(s)@).skip(idx as int),
{
    s.insert_str(idx, t)
}

/// Wrapper for `String::replace_range` on `start..end`: replaces those bytes
/// by `t`; both ends must be character boundaries and in order (the method
/// panics otherwise).
#[verifier::external_body]
pub(crate) fn string_replace_range(s: &mut String, start: usize, end: usize, t: &str)
    requires
        start <= end,
        is_boundary(old(s)@, start as int),
        is_boundary(old(s)@, end as int),
    ensures
        encode_utf8(final(s)@) == encode_utf8(old(s)@).take(start as int) + encode_utf8(t@)
            + encode_utf8(old(s)@).skip(end as int),
{
    s.replace_range(start..end, t)
}

/// Wrapper for `str::get` on `start..end`: the bytes between the two offsets,
/// or `None` when they are out of order, past the end or not character
/// boundaries.
#[verifier::external_body]
pub(crate) fn str_get(s: &str, start: usize, end: usize) -> (r: Option<&str>)
    ensures
        r is Some <==> (start <= end && is_boundary(s@, start as int) && is_boundary(
            s@,
            end as int,
        )),
        r matches Some(t) ==> encode_utf8(t@) == encode_utf8(s@).subrange(
            start as int,
            end as int,
        ),
{
    s.get(start..end)
}

/// Wrapper for `String::push`: appends one character.
#[verifier::external_body]
pub(crate) fn string_push(s: &mut String, c: char)
    ensures
        final(s)@ == old(s)@.push(c),
{
    s.push(c)
}


/// Inserts `t` at byte offset `idx` of `s`.
pub fn insert_at_byte(s: &mut String, idx: usize, t: &str)
    requires
        is_boundary(old(s)@, idx as int),
    ensures
        final(s)@ == byte_replace(old(s)@, idx as int, idx as int, t@),
{
    string_insert_str(s, idx, t);
}

/// Replaces the bytes `start..end` of `s` by `t`.
pub fn replace_bytes(s: &mut String, start: usize, end: usize, t: &str)
    requires
        start <= end,
        is_boundary(old(s)@, start as int),
        is_boundary(old(s)@, end as int),
    ensures
        final(s)@ == byte_replace(old(s)@, start as int, end as int, t@),
{
    string_replace_range(s, start, end, t);
}

/// The bytes `start..end` of `s`, as `str::get` gives them.
pub fn get_bytes(s: &str, start: usize, end: usize) -> (r: Option<String>)
    ensures
        r is Some <==> (start <= end && is_boundary(s@, start as int) && is_boundary(
            s@,
            end as int,
        )),
        r matches Some(t) ==> t@ == byte_slice(s@, start as int, end as int),
{
    match str_get(s, start, end) {
        Some(t) => Some(t.to_owned()),
        None => None,
    }
}

/// The bytes `start..end` of `s`, or the empty string where `str::get`
/// gives `None`.
pub fn get_bytes_or_empty(s: &str, start: usize, end: usize) -> (r: String)
    ensures
        r@ == slice_or_empty(s@, start as int, end as int),
{
    match get_bytes(s, start, end) {
        Some(t) => t,
        None => String::new(),
    }
}

/// The number of bytes of `s` (`str::len`).
pub fn byte_length(s: &str) -> (n: usize)
    ensures
        n == byte_len(s@),
{
    let b = s.as_bytes();
    b.len()
}

/// The strings joined with `sep` (`pieces.join(sep)`).
pub fn join_strings(pieces: &Vec<String>, sep: &str) -> (r: String)
    ensures
        r@ == join_with(views(pieces@), sep@),
{
    let mut r = String::new();
    let ghost v = views(pieces@);
    let mut i: usize = 0;
    while i < pieces.len()
        invariant
            i <= pieces.len(),
            v == views(pieces@),
            r@ == join_with(v.take(i as int), sep@),
        decreases pieces.len() - i,
    {
        assert(v.take(i + 1).drop_last() =~= v.take(i as int));
        if i > 0 {
            r.append(sep);
        }
        r.append(pieces[i].as_str());
        proof {
            if i == 0 {
                assert(r@ =~= join_with(v.take(1), sep@));
            }
        }
        i = i + 1;
    }
    assert(v.take(pieces.len() as int) =~= v);
    r
}

/// The lines joined with newlines (`lines.join("\n")`).
pub fn join_with_newlines(lines: &Vec<String>) -> (r: String)
    ensures
        r@ == join_lines(views(lines@)),
{
    let nl = "\n";
    proof {
        reveal_strlit("\n");
    }
    assert(nl@ =~= seq!['\n']);
    join_strings(lines, nl)
}

/// The pieces of `s` between its occurrences of `sep` (`s.split(sep)`).
pub fn split_at_char(s: &str, sep: char) -> (r: Vec<String>)
    ensures
        views(r@) == split_on(s@, sep),
{
    let n = s.unicode_len();
    let mut r: Vec<String> = Vec::new();
    let mut start: usize = 0;
    let mut i: usize = 0;
    assert(s@.take(0) =~= seq![]);
    assert(views(r@).push(s@.subrange(0, 0)) =~= seq![seq![]]);
    while i < n
        invariant
            n == s@.len(),
            start <= i <= n,
            split_on(s@.take(i as int), sep) == views(r@).push(s@.subrange(start as int, i as int)),
        decreases n - i,
    {
        let c = s.get_char(i);
        let ghost pre = s@.take(i as int);
        assert(s@.take(i + 1).drop_last() =~= pre);
        assert(s@.take(i + 1).last() == c);
        if c == sep {
            let piece = s.substring_char(start, i).to_owned();
            r.push(piece);
            start = i + 1;
            assert(s@.subrange(start as int, i + 1) =~= seq![]);
        } else {
            assert(s@.subrange(start as int, i + 1) =~= s@.subrange(start as int, i as int).push(c));
        }
        i = i + 1;
    }
    let last = s.substring_char(start, n).to_owned();
    r.push(last);
    assert(s@.take(n as int) =~= s@);
    assert(views(r@) =~= split_on(s@, sep));
    r
}

/// The pieces of `s` between its newlines (`s.split('\n')`).
pub fn split_at_newlines(s: &str) -> (r: Vec<String>)
    ensures
        views(r@) == split_newlines(s@),
{
    split_at_char(s, '\n')
}

/// Whether two strings hold the same text.
pub fn str_equal(a: &str, b: &str) -> (r: bool)
    ensures
        r == (a@ == b@),
{
    let n = a.unicode_len();
    if n != b.unicode_len() {
        return false;
    }
    let mut i: usize = 0;
    while i < n
        invariant
            n == a@.len(),
            n == b@.len(),
            i <= n,
            forall|k: int| 0 <= k < i ==> a@[k] == b@[k],
        decreases n - i,
    {
        if a.get_char(i) != b.get_char(i) {
            return false;
        }
        i = i + 1;
    }
    assert(a@ =~= b@);
    true
}

/// The first character of `s`, if it has one (`s.chars().next()`).
pub fn first_char(s: &str) -> (r: Option<char>)
    ensures
        s@.len() == 0 ==> r is None,
        s@.len() > 0 ==> r == Some(s@[0]),
{
    if s.unicode_len() == 0 {
        None
    } else {
        Some(s.get_char(0))
    }
}

/// Whether `s` is exactly the one character `x` (`x.to_string() == s`).
pub fn is_single_char(s: &str, x: char) -> (r: bool)
    ensures
        r == (s@ == seq![x]),
{
    if s.unicode_len() != 1 {
        return false;
    }
    let y = s.get_char(0);
    if y == x {
        assert(s@ =~= seq![x]);
        true
    } else {
        false
    }
}

/// Every character of `s` passed through `f`, newlines excepted: the
/// character `k` in place of each of the others.
pub fn overwrite_chars(s: &str, k: char) -> (r: String)
    ensures
        r@ == s@.map_values(|ch: char| if ch == '\n' { '\n' } else { k }),
{
    let n = s.unicode_len();
    let mut r = String::new();
    let mut i: usize = 0;
    while i < n
        invariant
            n == s@.len(),
            i <= n,
            r@ == s@.take(i as int).map_values(|ch: char| if ch == '\n' { '\n' } else { k }),
        decreases n - i,
    {
        let ch = s.get_char(i);
        if ch == '\n' {
            string_push(&mut r, '\n');
        } else {
            string_push(&mut r, k);
        }
        assert(s@.take(i + 1) =~= s@.take(i as int).push(ch));
        assert(r@ =~= s@.take(i + 1).map_values(|ch: char| if ch == '\n' { '\n' } else { k }));
        i = i + 1;
    }
    assert(s@.take(n as int) =~= s@);
    r
}

/// The character with its ASCII case toggled: `A`-`Z` to lower case,
/// `a`-`z` to upper case, anything else unchanged.
pub open spec fn ascii_case_toggled(ch: char) -> char {
    if 'A' <= ch <= 'Z' {
        ((ch as u32) + 32) as char
    } else if 'a' <= ch <= 'z' {
        ((ch as u32) - 32) as char
    } else {
        ch
    }
}

/// `ch.to_ascii_lowercase()` for an upper-case letter, `to_ascii_uppercase()`
/// for anything else.
pub fn toggle_ascii_case(ch: char) -> (r: char)
    ensures
        r == ascii_case_toggled(ch),
{
    if 'A' <= ch && ch <= 'Z' {
        let v: u32 = (ch as u32) + 32;
        let b: u8 = v as u8;
        b as char
    } else if 'a' <= ch && ch <= 'z' {
        let v: u32 = (ch as u32) - 32;
        let b: u8 = v as u8;
        b as char
    } else {
        ch
    }
}

/// Every character of `s` with its ASCII case toggled, newlines excepted.
pub fn toggle_chars(s: &str) -> (r: String)
    ensures
        r@ == s@.map_values(|ch: char| if ch == '\n' { '\n' } else { ascii_case_toggled(ch) }),
{
    let n = s.unicode_len();
    let mut r = String::new();
    let mut i: usize = 0;
    while i < n
        invariant
            n == s@.len(),
            i <= n,
            r@ == s@.take(i as int).map_values(
                |ch: char| if ch == '\n' { '\n' } else { ascii_case_toggled(ch) },
            ),
        decreases n - i,
    {
        let ch = s.get_char(i);
        if ch == '\n' {
            string_push(&mut r, '\n');
        } else {
            string_push(&mut r, toggle_ascii_case(ch));
        }
        assert(s@.take(i + 1) =~= s@.take(i as int).push(ch));
        assert(r@ =~= s@.take(i + 1).map_values(
            |ch: char| if ch == '\n' { '\n' } else { ascii_case_toggled(ch) },
        ));
        i = i + 1;
    }
    assert(s@.take(n as int) =~= s@);
    r
}

} // verus!
