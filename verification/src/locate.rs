//! Line and column of an offset, counted in characters.
//!
//! Lines and columns start at 1. A carriage return, a line feed, and a
//! carriage return directly followed by a line feed each end one line.

use crate::error::InputError;
use vstd::prelude::*;
use vstd::std_specs::iter::IteratorSpec;

verus! {

/// True when `c` is one of the two characters that take part in a line end.
pub open spec fn is_line_end(c: char) -> bool {
    c == '\r' || c == '\n'
}

/// True when the character at index `j` starts a new line: every carriage
/// return does, and a line feed does unless it completes a `"\r\n"` pair,
/// whose carriage return has already been counted.
pub open spec fn breaks_line(text: Seq<char>, j: int) -> bool {
    text[j] == '\r' || (text[j] == '\n' && !(j > 0 && text[j - 1] == '\r'))
}

/// The 1-based line reached after `k` characters of `text`.
pub open spec fn line_at(text: Seq<char>, k: nat) -> nat
    decreases k,
{
    if k == 0 {
        1
    } else if breaks_line(text, k - 1) {
        line_at(text, (k - 1) as nat) + 1
    } else {
        line_at(text, (k - 1) as nat)
    }
}

/// The 1-based column reached after `k` characters of `text`: one more than
/// the number of characters since the last carriage return or line feed.
pub open spec fn col_at(text: Seq<char>, k: nat) -> nat
    decreases k,
{
    if k == 0 {
        1
    } else if is_line_end(text[k - 1]) {
        1
    } else {
        col_at(text, (k - 1) as nat) + 1
    }
}

/// True when `offset` has a line and column in `text`: it is at most the
/// number of characters. The offset `usize::MAX` lies beyond any buffer that
/// a machine can hold and is never located.
pub open spec fn locatable(text: Seq<char>, offset: usize) -> bool {
    offset <= text.len() && offset < usize::MAX
}

/// What `locate` returns for `offset` in `text`.
pub open spec fn located(text: Seq<char>, offset: usize) -> Result<(usize, usize), InputError> {
    if locatable(text, offset) {
        Ok((line_at(text, offset as nat) as usize, col_at(text, offset as nat) as usize))
    } else {
        Err(InputError::OutOfBounds)
    }
}

/// Neither counter can run ahead of the offset by more than one.
pub proof fn lemma_line_col_bounds(text: Seq<char>, k: nat)
    ensures
        1 <= line_at(text, k) <= k + 1,
        1 <= col_at(text, k) <= k + 1,
    decreases k,
{
    if k > 0 {
        lemma_line_col_bounds(text, (k - 1) as nat);
    }
}

/// The start of every text is line 1, column 1.
pub proof fn lemma_origin(text: Seq<char>)
    ensures
        located(text, 0) == Ok::<(usize, usize), InputError>((1, 1)),
{
}

/// Lines never decrease along the text: a later offset is on the same line
/// or on a later one.
pub proof fn lemma_line_monotonic(text: Seq<char>, p1: nat, p2: nat)
    requires
        p1 <= p2,
    ensures
        line_at(text, p1) <= line_at(text, p2),
    decreases p2,
{
    if p1 < p2 {
        lemma_line_monotonic(text, p1, (p2 - 1) as nat);
    }
}

/// True when `p` lies between the two characters of a `"\r\n"` pair.
pub open spec fn splits_pair(text: Seq<char>, p: nat) -> bool {
    1 <= p < text.len() && text[p - 1] == '\r' && text[p as int] == '\n'
}

/// On one line, columns never decrease.
pub proof fn lemma_col_monotonic(text: Seq<char>, p1: nat, p2: nat)
    requires
        p1 <= p2 <= text.len(),
        line_at(text, p1) == line_at(text, p2),
    ensures
        col_at(text, p1) <= col_at(text, p2),
    decreases p2,
{
    if p1 < p2 {
        let q = (p2 - 1) as nat;
        lemma_line_monotonic(text, p1, q);
        lemma_line_monotonic(text, q, p2);
        if is_line_end(text[q as int]) {
            // A line feed that is no break: its carriage return is at q - 1,
            // and must lie before p1, so p1 == q and the column there is 1.
            assert(text[q as int] == '\n' && q > 0 && text[q - 1] == '\r');
            if p1 < q {
                lemma_line_monotonic(text, p1, (q - 1) as nat);
                lemma_line_monotonic(text, (q - 1) as nat, q);
                assert(breaks_line(text, q - 1));
            }
            assert(p1 == q);
        } else {
            lemma_col_monotonic(text, p1, q);
        }
    }
}

/// On one line, a later offset has a greater column. The one exception is an
/// offset between the two characters of a `"\r\n"` pair and the offset right
/// after it: both are column 1 of the new line.
pub proof fn lemma_col_increasing(text: Seq<char>, p1: nat, p2: nat)
    requires
        p1 < p2 <= text.len(),
        line_at(text, p1) == line_at(text, p2),
        !(splits_pair(text, p1) && p2 == p1 + 1),
    ensures
        col_at(text, p1) < col_at(text, p2),
{
    let q = (p2 - 1) as nat;
    lemma_line_monotonic(text, p1, q);
    lemma_line_monotonic(text, q, p2);
    lemma_col_monotonic(text, p1, q);
    if is_line_end(text[q as int]) {
        assert(text[q as int] == '\n' && q > 0 && text[q - 1] == '\r');
        if p1 < q {
            lemma_line_monotonic(text, p1, (q - 1) as nat);
            lemma_line_monotonic(text, (q - 1) as nat, q);
            assert(breaks_line(text, q - 1));
        }
        assert(p1 == q);
    }
}

/// The two offsets around the line feed of a `"\r\n"` pair have the same
/// line and the same column.
pub proof fn lemma_pair_is_one_break(text: Seq<char>, p: nat)
    requires
        splits_pair(text, p),
    ensures
        line_at(text, p + 1) == line_at(text, p),
        col_at(text, p + 1) == 1,
        col_at(text, p) == 1,
{
}

/// The line and column reached by walking `text` from index `at`, where the
/// walk stands at `line` and `col`, until `left` more characters are
/// consumed. A `"\r\n"` pair is taken in one step that consumes both of its
/// characters, or the one that is still asked for, and ends one line.
pub open spec fn walk(text: Seq<char>, at: int, left: nat, line: nat, col: nat) -> (nat, nat)
    decreases left,
{
    if left == 0 || at < 0 || at >= text.len() {
        (line, col)
    } else if text[at] == '\r' {
        if at + 1 < text.len() && text[at + 1] == '\n' {
            if left == 1 {
                walk(text, at + 2, 0, line + 1, 1)
            } else {
                walk(text, at + 2, (left - 2) as nat, line + 1, 1)
            }
        } else {
            walk(text, at + 1, (left - 1) as nat, line + 1, 1)
        }
    } else if text[at] == '\n' {
        walk(text, at + 1, (left - 1) as nat, line + 1, 1)
    } else {
        walk(text, at + 1, (left - 1) as nat, line, col + 1)
    }
}

/// A walk that does not start between the characters of a pair reaches the
/// line and column of the offset where it stops.
pub proof fn lemma_walk_reaches(text: Seq<char>, at: nat, left: nat)
    requires
        at + left <= text.len(),
        !splits_pair(text, at),
    ensures
        walk(text, at as int, left, line_at(text, at), col_at(text, at)) == (
            line_at(text, at + left),
            col_at(text, at + left),
        ),
    decreases left,
{
    if left > 0 {
        let c = text[at as int];
        let line = line_at(text, at);
        let col = col_at(text, at);
        assert(breaks_line(text, at as int) == is_line_end(c));
        assert(line_at(text, at + 1) == if is_line_end(c) {
            line + 1
        } else {
            line
        });
        assert(col_at(text, at + 1) == if is_line_end(c) {
            1
        } else {
            col + 1
        });
        if c == '\r' && at + 1 < text.len() && text[at as int + 1] == '\n' {
            if left == 1 {
                assert(walk(text, at as int + 2, 0, line + 1, 1) == (line + 1, 1nat));
            } else {
                assert(!breaks_line(text, at as int + 1));
                assert(line_at(text, at + 2) == line + 1);
                assert(col_at(text, at + 2) == 1);
                lemma_walk_reaches(text, at + 2, (left - 2) as nat);
            }
        } else {
            lemma_walk_reaches(text, at + 1, (left - 1) as nat);
        }
    }
}

/// Walking from the start of the text, one character or one `"\r\n"` pair at
/// a time, gives the line and column of every offset in it.
pub proof fn lemma_walk_from_start(text: Seq<char>, offset: nat)
    requires
        offset <= text.len(),
    ensures
        walk(text, 0, offset, 1, 1) == (line_at(text, offset), col_at(text, offset)),
{
    lemma_walk_reaches(text, 0, offset);
}

/// Finds the line and column of `offset` in one pass over the characters of
/// `text`, stopping as soon as `offset` of them have been read.
pub fn locate(text: &str, offset: usize) -> (r: Result<(usize, usize), InputError>)
    ensures
        r == located(text@, offset),
        r matches Ok(lc) ==> lc.0 == line_at(text@, offset as nat) && lc.1 == col_at(
            text@,
            offset as nat,
        ),
{
    if offset == usize::MAX {
        return Err(InputError::OutOfBounds);
    }
    let mut chars = text.chars();
    let mut read: usize = 0;
    let mut line: usize = 1;
    let mut col: usize = 1;
    let mut after_cr: bool = false;
    while read < offset
        invariant
            read <= offset < usize::MAX,
            read <= text@.len(),
            chars.remaining() == text@.skip(read as int),
            line == line_at(text@, read as nat),
            col == col_at(text@, read as nat),
            after_cr == (read > 0 && text@[read - 1] == '\r'),
        decreases offset - read,
    {
        proof {
            lemma_line_col_bounds(text@, read as nat);
        }
        match chars.next() {
            None => {
                return Err(InputError::OutOfBounds);
            },
            Some(c) => {
                assert(c == text@[read as int]);
                assert(text@.skip(read as int).drop_first() =~= text@.skip(read + 1));
                if c == '\r' {
                    line = line + 1;
                    col = 1;
                } else if c == '\n' {
                    if !after_cr {
                        line = line + 1;
                    }
                    col = 1;
                } else {
                    col = col + 1;
                }
                after_cr = c == '\r';
                read = read + 1;
            },
        }
    }
    proof {
        lemma_line_col_bounds(text@, offset as nat);
    }
    Ok((line, col))
}

} // verus!
