use vstd::prelude::*;

verus! {

/// A cursor in a buffer. `line` and `index` are where the cursor stands;
/// when `range` is set, `line_range`/`index_range` mark the other end of a
/// selection.
#[derive(Clone, Copy, Debug, PartialEq, Eq)]
pub struct Cursor {
    pub line: usize,
    pub index: usize,
    pub line_range: usize,
    pub index_range: usize,
    pub range: bool,
}

/// The cursors of a vector of boxed cursors.
pub open spec fn cursor_views(cs: Seq<Box<Cursor>>) -> Seq<Cursor> {
    cs.map_values(|c: Box<Cursor>| *c)
}

/// A vector of boxed cursors and its view have the same length, element by element.
pub broadcast proof fn lemma_cursor_views(v: Seq<Box<Cursor>>)
    ensures
        #[trigger] cursor_views(v).len() == v.len(),
        forall|i: int| 0 <= i < v.len() ==> #[trigger] cursor_views(v)[i] == *v[i],
{
}

/// Lexicographic order on (line, column) positions.
pub open spec fn pos_le(a: (usize, usize), b: (usize, usize)) -> bool {
    a.0 < b.0 || (a.0 == b.0 && a.1 <= b.1)
}

/// Strict lexicographic order on (line, column) positions.
pub open spec fn pos_lt(a: (usize, usize), b: (usize, usize)) -> bool {
    a.0 < b.0 || (a.0 == b.0 && a.1 < b.1)
}

impl Cursor {
    /// Where the cursor stands.
    pub open spec fn head(self) -> (usize, usize) {
        (self.line, self.index)
    }

    /// The other end of the selection.
    pub open spec fn anchor(self) -> (usize, usize) {
        (self.line_range, self.index_range)
    }

    /// The first position of the selection (the cursor itself without one).
    pub open spec fn lower(self) -> (usize, usize) {
        if !self.range {
            self.head()
        } else if pos_lt(self.head(), self.anchor()) {
            self.head()
        } else {
            self.anchor()
        }
    }

    /// The last position of the selection (the cursor itself without one).
    pub open spec fn higher(self) -> (usize, usize) {
        if !self.range {
            self.head()
        } else if pos_lt(self.head(), self.anchor()) {
            self.anchor()
        } else {
            self.head()
        }
    }

    /// Whether the cursor's own position comes first in its selection.
    pub open spec fn head_is_lower(self) -> bool {
        !self.range || pos_lt(self.head(), self.anchor())
    }

    /// The first position of the selection (see [`Cursor::lower`]).
    pub fn get_lower(&self) -> (r: (usize, usize))
        ensures
            r == self.lower(),
    {
        if !self.range {
            return (self.line, self.index);
        }
        if self.line == self.line_range {
            if self.index < self.index_range {
                return (self.line, self.index);
            } else {
                return (self.line_range, self.index_range);
            }
        } else if self.line < self.line_range {
            return (self.line, self.index);
        } else {
            return (self.line_range, self.index_range);
        }
    }

    /// The last position of the selection (see [`Cursor::higher`]).
    pub fn get_higher(&self) -> (r: (usize, usize))
        ensures
            r == self.higher(),
    {
        if !self.range {
            return (self.line, self.index);
        }
        if self.line == self.line_range {
            if self.index < self.index_range {
                return (self.line_range, self.index_range);
            } else {
                return (self.line, self.index);
            }
        } else if self.line < self.line_range {
            return (self.line_range, self.index_range);
        } else {
            return (self.line, self.index);
        }
    }

    /// Whether the cursor's own position comes first in its selection.
    pub fn is_lower(&self) -> (r: bool)
        ensures
            r == self.head_is_lower(),
    {
        if !self.range {
            return true;
        }
        if self.line == self.line_range {
            if self.index < self.index_range {
                true
            } else {
                false
            }
        } else if self.line < self.line_range {
            true
        } else {
            false
        }
    }
}

/// The selection's bounds are ordered, and they are its two ends: the lower
/// one is the smaller of the two and the higher one the larger.
pub proof fn lemma_selection_bounds(c: Cursor)
    ensures
        pos_le(c.lower(), c.higher()),
        c.range ==> pos_le(c.lower(), c.head()) && pos_le(c.lower(), c.anchor()),
        c.range ==> pos_le(c.head(), c.higher()) && pos_le(c.anchor(), c.higher()),
        c.range ==> (c.lower() == c.head() && c.higher() == c.anchor()) || (c.lower()
            == c.anchor() && c.higher() == c.head()),
        !c.range ==> c.lower() == c.head() && c.higher() == c.head(),
{
}

/// `is_lower` tells which end of the selection comes first: when it holds the
/// cursor's position is the lower bound, otherwise the anchor is.
pub proof fn lemma_is_lower_picks_lower(c: Cursor)
    ensures
        c.head_is_lower() ==> c.lower() == c.head(),
        !c.head_is_lower() ==> c.lower() == c.anchor() && c.higher() == c.head(),
{
}

/// `a` stands at the same position as `b` or after it.
pub open spec fn stands_at_or_after(a: Cursor, b: Cursor) -> bool {
    pos_le(b.head(), a.head())
}

/// Where `x` goes in `s` (ordered from the last position to the first):
/// after every cursor that stands at or after it.
pub open spec fn insertion_point(s: Seq<Cursor>, x: Cursor) -> int
    decreases s.len(),
{
    if s.len() == 0 {
        0
    } else if stands_at_or_after(s.last(), x) {
        s.len() as int
    } else {
        insertion_point(s.drop_last(), x)
    }
}

/// The cursors in a stable order from the last position to the first: each
/// cursor goes after those that stand at or after it, so cursors at the
/// same position keep their relative order.
pub open spec fn sorted_last_first(s: Seq<Cursor>) -> Seq<Cursor>
    decreases s.len(),
{
    if s.len() == 0 {
        s
    } else {
        let r = sorted_last_first(s.drop_last());
        r.insert(insertion_point(r, s.last()), s.last())
    }
}

/// Whether the cursors go from the last position to the first.
pub open spec fn is_last_first(s: Seq<Cursor>) -> bool {
    forall|i: int, j: int| 0 <= i < j < s.len() ==> stands_at_or_after(s[i], s[j])
}

proof fn lemma_insertion_point(s: Seq<Cursor>, x: Cursor)
    requires
        is_last_first(s),
    ensures
        0 <= insertion_point(s, x) <= s.len(),
        forall|i: int| 0 <= i < insertion_point(s, x) ==> stands_at_or_after(s[i], x),
        forall|i: int| insertion_point(s, x) <= i < s.len() ==> !stands_at_or_after(s[i], x),
    decreases s.len(),
{
    if s.len() > 0 {
        let p = insertion_point(s, x);
        if stands_at_or_after(s.last(), x) {
            assert forall|i: int| 0 <= i < p implies stands_at_or_after(s[i], x) by {
                if i < s.len() - 1 {
                    assert(stands_at_or_after(s[i], s[s.len() - 1]));
                }
            }
        } else {
            lemma_insertion_point(s.drop_last(), x);
            assert forall|i: int| p <= i < s.len() implies !stands_at_or_after(s[i], x) by {
                if i < s.len() - 1 {
                    assert(s.drop_last()[i] == s[i]);
                }
            }
            assert forall|i: int| 0 <= i < p implies stands_at_or_after(s[i], x) by {
                assert(s.drop_last()[i] == s[i]);
            }
        }
    }
}

/// Sorting orders the cursors from the last position to the first, keeps
/// their number and keeps each of them (as a multiset).
pub proof fn lemma_sorted_last_first(s: Seq<Cursor>)
    ensures
        is_last_first(sorted_last_first(s)),
        sorted_last_first(s).len() == s.len(),
        sorted_last_first(s).to_multiset() == s.to_multiset(),
    decreases s.len(),
{
    broadcast use vstd::seq_lib::group_to_multiset_ensures;

    if s.len() > 0 {
        let r = sorted_last_first(s.drop_last());
        lemma_sorted_last_first(s.drop_last());
        let x = s.last();
        let p = insertion_point(r, x);
        lemma_insertion_point(r, x);
        let out = r.insert(p, x);
        assert forall|i: int, j: int| 0 <= i < j < out.len() implies stands_at_or_after(
            out[i],
            out[j],
        ) by {
            if j < p {
            } else if j == p {
            } else if i < p {
                assert(out[j] == r[j - 1]);
                assert(stands_at_or_after(r[i], r[j - 1]));
            } else if i == p {
                assert(out[j] == r[j - 1]);
                assert(!stands_at_or_after(r[j - 1], x));
            } else {
                assert(out[i] == r[i - 1]);
                assert(out[j] == r[j - 1]);
            }
        }
        assert(out.to_multiset() =~= r.to_multiset().insert(x));
        assert(s =~= s.drop_last().push(x));
    }
}

} // verus!
