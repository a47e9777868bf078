//! An input held whole in memory.

use crate::contract::{occurs_at, on_boundary, Input};
use crate::error::InputError;
use crate::locate::locate;
use crate::utf8::{
    encoded_width, lemma_boundary_after_run, lemma_boundary_in_prefix, lemma_encoding_len, text_of,
};
use vstd::prelude::*;
use vstd::slice::slice_subrange;
use vstd::string::StringSliceAdditionalSpecFns;
use vstd::utf8::*;

verus! {

/// A text and a cursor into its bytes.
pub struct StringInput {
    text: String,
    pos: usize,
}

impl StringInput {
    /// Copies `string` into a new input whose cursor is at the start.
    pub fn new(string: &str) -> (input: StringInput)
        ensures
            input.text() == string@,
            input.cursor() == 0,
            on_boundary(input.text(), input.cursor()),
    {
        proof {
            encode_utf8_valid_utf8(string@);
        }
        StringInput { text: string.to_owned(), pos: 0 }
    }
}

impl Input for StringInput {
    closed spec fn text(&self) -> Seq<char> {
        self.text@
    }

    closed spec fn cursor(&self) -> int {
        self.pos as int
    }

    fn len(&self) -> (n: usize) {
        self.text.as_str().as_bytes().len()
    }

    fn pos(&self) -> (p: usize) {
        self.pos
    }

    fn set_pos(&mut self, pos: usize) {
        self.pos = pos;
    }

    fn slice(&self, start: usize, end: usize) -> (r: Result<&str, InputError>) {
        let whole = self.text.as_str();
        let ghost bytes = encode_utf8(self.text());
        proof {
            encode_utf8_valid_utf8(self.text());
        }
        if start > end || end > whole.as_bytes().len() {
            Err(InputError::OutOfBounds)
        } else if !whole.is_char_boundary(start) || !whole.is_char_boundary(end) {
            Err(InputError::NotCharBoundary)
        } else {
            let (head, _) = whole.split_at(end);
            proof {
                lemma_boundary_in_prefix(bytes, start as int, end as int);
            }
            let (_, part) = head.split_at(start);
            proof {
                assert(part.spec_bytes() =~= bytes.subrange(start as int, end as int));
                encode_utf8_decode_utf8(part@);
            }
            Ok(part)
        }
    }

    fn line_col(&self, offset: usize) -> (r: Result<(usize, usize), InputError>) {
        locate(self.text.as_str(), offset)
    }

    fn matches(&mut self, literal: &str) -> (hit: bool) {
        let ghost hay = encode_utf8(self.text());
        let ghost lit = literal.spec_bytes();
        proof {
            lemma_encoding_len(literal@);
            encode_utf8_valid_utf8(literal@);
            encode_utf8_valid_utf8(self.text());
        }
        let bytes = self.text.as_str().as_bytes();
        let wanted = literal.as_bytes();
        let from = self.pos;
        let n = wanted.len();
        if n == 0 {
            return true;
        }
        if from > bytes.len() || n > bytes.len() - from {
            proof {
                if occurs_at(hay, from as int, lit) {
                    let last = n - 1;
                    assert(hay[from + last] == lit[last]);
                }
            }
            return false;
        }
        let mut i: usize = 0;
        while i < n
            invariant
                i <= n,
                n == wanted@.len(),
                from + n <= bytes@.len() <= usize::MAX,
                bytes@ == hay,
                hay == encode_utf8(old(self).text()),
                wanted@ == lit,
                lit == literal.spec_bytes(),
                from == old(self).cursor() == self.cursor(),
                self.text() == old(self).text(),
                forall|j: int| 0 <= j < i ==> bytes@[from + j] == #[trigger] wanted@[j],
            decreases n - i,
        {
            if bytes[from + i] != wanted[i] {
                proof {
                    if occurs_at(hay, from as int, lit) {
                        assert(hay[from + i] == lit[i as int]);
                    }
                }
                return false;
            }
            i = i + 1;
        }
        proof {
            assert(hay.subrange(from as int, from + n) =~= lit);
            if on_boundary(self.text(), from as int) {
                lemma_boundary_after_run(hay, from as int, n as int);
            }
        }
        self.pos = from + n;
        true
    }

    fn between(&mut self, low: char, high: char) -> (r: Result<bool, InputError>) {
        let ghost hay = encode_utf8(self.text());
        proof {
            encode_utf8_valid_utf8(self.text());
        }
        let width = encoded_width(low);
        if width != encoded_width(high) {
            return Err(InputError::RangeWidthMismatch);
        }
        let bytes = self.text.as_str().as_bytes();
        if self.pos > bytes.len() || width > bytes.len() - self.pos {
            return Ok(false);
        }
        let to = self.pos + width;
        let window = slice_subrange(bytes, self.pos, to);
        match text_of(window) {
            None => Ok(false),
            Some(read) => {
                proof {
                    lemma_encoding_len(read@);
                    encode_utf8_decode_utf8(read@);
                    if on_boundary(self.text(), self.pos as int) {
                        lemma_boundary_after_run(hay, self.pos as int, width as int);
                    }
                }
                let c = read.get_char(0);
                let hit = low <= c && c <= high;
                if hit {
                    self.pos = to;
                }
                Ok(hit)
            },
        }
    }
}

} // verus!
