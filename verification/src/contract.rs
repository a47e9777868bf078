//! What a matching engine may ask of its input, whatever holds the text.
//!
//! An input is a text and a cursor. The cursor and every range are counted
//! in bytes of the text's UTF-8 encoding; only `line_col` counts characters.

use crate::error::InputError;
use crate::locate::{col_at, line_at, located};
use crate::utf8::{lemma_encoding_len, lemma_single_char, lemma_width_monotonic, width_of};
use vstd::prelude::*;
use vstd::string::StringSliceAdditionalSpecFns;
use vstd::utf8::*;

verus! {

/// True when `literal` stands in `bytes` at `pos`, byte for byte. The empty
/// literal stands everywhere.
pub open spec fn occurs_at(bytes: Seq<u8>, pos: int, literal: Seq<u8>) -> bool {
    forall|i: int|
        0 <= i < literal.len() ==> pos + i < bytes.len() && bytes[pos + i] == #[trigger] literal[i]
}

/// True when the `width_of(low)` bytes of `bytes` at `pos` are there, are
/// well-formed, and start with a character from `low` to `high`, both
/// included.
pub open spec fn in_range_at(bytes: Seq<u8>, pos: int, low: char, high: char) -> bool {
    let window = bytes.subrange(pos, pos + width_of(low));
    &&& pos + width_of(low) <= bytes.len()
    &&& valid_utf8(window)
    &&& low <= decode_utf8(window)[0] <= high
}

/// The part of `text` whose encoding is the bytes from `start` up to `end`,
/// or the reason why there is no such part.
pub open spec fn sliced(text: Seq<char>, start: usize, end: usize) -> Result<
    Seq<char>,
    InputError,
> {
    let bytes = encode_utf8(text);
    if !(start <= end <= bytes.len()) {
        Err(InputError::OutOfBounds)
    } else if !(is_char_boundary(bytes, start as int) && is_char_boundary(bytes, end as int)) {
        Err(InputError::NotCharBoundary)
    } else {
        Ok(decode_utf8(bytes.subrange(start as int, end as int)))
    }
}

/// True when `cursor` is inside the encoding of `text` or at its end, and
/// not inside an encoded character.
pub open spec fn on_boundary(text: Seq<char>, cursor: int) -> bool {
    0 <= cursor <= encode_utf8(text).len() && is_char_boundary(encode_utf8(text), cursor)
}

/// The operations of an input. A match that fails is an answer, not an
/// error, and leaves the cursor where it was.
pub trait Input {
    /// The characters of the buffer, fixed at construction.
    spec fn text(&self) -> Seq<char>;

    /// The cursor, a byte offset.
    spec fn cursor(&self) -> int;

    /// The length of the buffer in bytes.
    fn len(&self) -> (n: usize)
        ensures
            n == encode_utf8(self.text()).len(),
    ;

    /// The cursor.
    fn pos(&self) -> (p: usize)
        ensures
            p == self.cursor(),
    ;

    /// Moves the cursor to `pos`, whatever `pos` is. A caller that restores
    /// a saved cursor keeps it valid; any other has to see to that itself.
    fn set_pos(&mut self, pos: usize)
        ensures
            final(self).cursor() == pos,
            final(self).text() == old(self).text(),
    ;

    /// The part of the text between the byte offsets `start` and `end`. The
    /// cursor plays no part in it.
    fn slice(&self, start: usize, end: usize) -> (r: Result<&str, InputError>)
        ensures
            match r {
                Ok(part) => sliced(self.text(), start, end) == Ok::<Seq<char>, InputError>(part@)
                    && part.spec_bytes() == encode_utf8(self.text()).subrange(
                    start as int,
                    end as int,
                ),
                Err(e) => sliced(self.text(), start, end) == Err::<Seq<char>, InputError>(e),
            },
    ;

    /// The line and column, both from 1, of the character offset `offset`.
    fn line_col(&self, offset: usize) -> (r: Result<(usize, usize), InputError>)
        ensures
            r == located(self.text(), offset),
            r matches Ok(lc) ==> lc.0 == line_at(self.text(), offset as nat) && lc.1 == col_at(
                self.text(),
                offset as nat,
            ),
            offset == 0 ==> r == Ok::<(usize, usize), InputError>((1, 1)),
    ;

    /// Consumes `literal` if it stands at the cursor, and says whether it
    /// did. The cursor moves past the literal, or not at all.
    fn matches(&mut self, literal: &str) -> (hit: bool)
        ensures
            final(self).text() == old(self).text(),
            hit == occurs_at(
                encode_utf8(old(self).text()),
                old(self).cursor(),
                literal.spec_bytes(),
            ),
            final(self).cursor() == if hit {
                old(self).cursor() + literal.spec_bytes().len()
            } else {
                old(self).cursor()
            },
            literal@.len() == 0 ==> hit && final(self).cursor() == old(self).cursor(),
            on_boundary(old(self).text(), old(self).cursor()) ==> on_boundary(
                final(self).text(),
                final(self).cursor(),
            ),
    ;

    /// Consumes one character if the bytes at the cursor encode one from
    /// `low` to `high`, and says whether it did. The two limits must be of
    /// one encoded width, which is the number of bytes read and, on success,
    /// the distance the cursor moves. Bytes that are no well-formed text are
    /// no match.
    fn between(&mut self, low: char, high: char) -> (r: Result<bool, InputError>)
        ensures
            final(self).text() == old(self).text(),
            width_of(low) != width_of(high) ==> r == Err::<bool, InputError>(
                InputError::RangeWidthMismatch,
            ),
            width_of(low) == width_of(high) ==> r == Ok::<bool, InputError>(
                in_range_at(encode_utf8(old(self).text()), old(self).cursor(), low, high),
            ),
            final(self).cursor() == if r == Ok::<bool, InputError>(true) {
                old(self).cursor() + width_of(low)
            } else {
                old(self).cursor()
            },
            on_boundary(old(self).text(), old(self).cursor()) ==> on_boundary(
                final(self).text(),
                final(self).cursor(),
            ),
    ;
}

/// A range of one width matches at `pos` exactly when the bytes there are the
/// encoding of one character of the range: a match never reads part of a
/// character, nor more than one.
pub proof fn lemma_range_match_is_one_char(bytes: Seq<u8>, pos: int, low: char, high: char)
    requires
        0 <= pos,
        width_of(low) == width_of(high),
    ensures
        in_range_at(bytes, pos, low, high) <==> exists|c: char|
            low <= c <= high && #[trigger] occurs_at(bytes, pos, encode_scalar(c as u32)),
{
    let width = width_of(low);
    let window = bytes.subrange(pos, pos + width);
    if in_range_at(bytes, pos, low, high) {
        let c = decode_utf8(window)[0];
        lemma_width_monotonic(low, c);
        lemma_width_monotonic(c, high);
        decode_utf8_first_scalar(window);
        assert(c == decode_first_scalar(window) as char);
        assert(take_first_scalar(window) =~= window);
        assert(occurs_at(bytes, pos, encode_scalar(c as u32)));
    }
    if exists|c: char| low <= c <= high && #[trigger] occurs_at(bytes, pos, encode_scalar(c as u32)) {
        let c = choose|c: char|
            low <= c <= high && #[trigger] occurs_at(bytes, pos, encode_scalar(c as u32));
        let code = encode_scalar(c as u32);
        lemma_width_monotonic(low, c);
        lemma_width_monotonic(c, high);
        lemma_single_char(c);
        assert(bytes[pos + (width - 1)] == code[width - 1]);
        assert(window =~= code);
    }
}

/// An offset greater than the length in bytes has no line and column: the
/// text has no more characters than bytes.
pub proof fn lemma_past_length_not_located(text: Seq<char>, offset: usize)
    requires
        offset > encode_utf8(text).len(),
    ensures
        located(text, offset) == Err::<(usize, usize), InputError>(InputError::OutOfBounds),
{
    lemma_encoding_len(text);
}

/// The part from the first byte to the last is the whole text.
pub proof fn lemma_slice_whole(text: Seq<char>)
    requires
        encode_utf8(text).len() <= usize::MAX,
    ensures
        sliced(text, 0, encode_utf8(text).len() as usize) == Ok::<Seq<char>, InputError>(text),
{
    let bytes = encode_utf8(text);
    encode_utf8_valid_utf8(text);
    is_char_boundary_start_end_of_seq(bytes);
    assert(bytes.subrange(0, bytes.len() as int) =~= bytes);
    encode_utf8_decode_utf8(text);
}

} // verus!
