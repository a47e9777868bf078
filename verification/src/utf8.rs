//! The few facts about UTF-8 that the input relies on.

use vstd::prelude::*;
use vstd::utf8::*;

verus! {

/// The number of bytes that encode `c`.
pub open spec fn width_of(c: char) -> nat {
    encode_scalar(c as u32).len()
}

/// Computes the number of bytes that encode `c`.
pub fn encoded_width(c: char) -> (w: usize)
    ensures
        w == width_of(c),
        1 <= w <= 4,
{
    if c <= '\u{7f}' {
        1
    } else if c <= '\u{7ff}' {
        2
    } else if c <= '\u{ffff}' {
        3
    } else {
        4
    }
}

/// A greater character is never encoded in fewer bytes.
pub proof fn lemma_width_monotonic(a: char, b: char)
    requires
        a <= b,
    ensures
        width_of(a) <= width_of(b),
{
}

/// One character alone is encoded as well-formed text that decodes to it.
pub proof fn lemma_single_char(c: char)
    ensures
        encode_utf8(seq![c]) == encode_scalar(c as u32),
        valid_utf8(encode_scalar(c as u32)),
        decode_utf8(encode_scalar(c as u32)) == seq![c],
{
    let one = seq![c];
    assert(encode_utf8(one.drop_first()) =~= Seq::<u8>::empty()) by {
        assert(one.drop_first().len() == 0);
    }
    assert(encode_utf8(one) =~= encode_scalar(c as u32));
    encode_utf8_valid_utf8(one);
    encode_utf8_decode_utf8(one);
}

/// Reads `bytes` as text. The contract states of `core::str::from_utf8` what
/// its documentation does: it succeeds exactly on well-formed UTF-8, and the
/// text it returns is made of the very bytes it was given.
#[verifier::external_body]
pub(crate) fn text_of(bytes: &[u8]) -> (r: Option<&str>)
    ensures
        r is Some <==> valid_utf8(bytes@),
        r matches Some(s) ==> encode_utf8(s@) == bytes@,
{
    match core::str::from_utf8(bytes) {
        Ok(s) => Some(s),
        Err(_) => None,
    }
}

/// Text is never encoded in fewer bytes than it has characters, and only the
/// empty text is encoded in none.
pub proof fn lemma_encoding_len(chars: Seq<char>)
    ensures
        chars.len() <= encode_utf8(chars).len(),
        chars.len() == 0 <==> encode_utf8(chars).len() == 0,
    decreases chars.len(),
{
    if chars.len() > 0 {
        lemma_encoding_len(chars.drop_first());
    }
}

/// A well-formed sequence that starts with a well-formed sequence of `n`
/// bytes has a character boundary at `n`.
pub proof fn lemma_valid_prefix_ends_on_boundary(bytes: Seq<u8>, n: int)
    requires
        valid_utf8(bytes),
        0 <= n <= bytes.len(),
        valid_utf8(bytes.subrange(0, n)),
    ensures
        is_char_boundary(bytes, n),
    decreases n,
{
    if n > 0 {
        let head = bytes.subrange(0, n);
        let step = length_of_first_scalar(bytes);
        assert(valid_first_scalar(head));
        assert(length_of_first_scalar(head) == step);
        assert(pop_first_scalar(head) =~= pop_first_scalar(bytes).subrange(0, n - step));
        lemma_valid_prefix_ends_on_boundary(pop_first_scalar(bytes), n - step);
    }
}

/// A boundary of the part of `bytes` that starts at the boundary `from` is a
/// boundary of `bytes`, and the other way round.
pub proof fn lemma_boundary_shift(bytes: Seq<u8>, from: int, n: int)
    requires
        valid_utf8(bytes),
        is_char_boundary(bytes, from),
        0 <= from,
        0 <= n,
        from + n <= bytes.len(),
    ensures
        is_char_boundary(bytes, from + n) == is_char_boundary(
            bytes.subrange(from, bytes.len() as int),
            n,
        ),
{
    let tail = bytes.subrange(from, bytes.len() as int);
    valid_utf8_split(bytes, from);
    if from + n == bytes.len() {
        is_char_boundary_start_end_of_seq(bytes);
        is_char_boundary_start_end_of_seq(tail);
    } else {
        is_char_boundary_iff_not_is_continuation_byte(bytes, from + n);
        is_char_boundary_iff_not_is_continuation_byte(tail, n);
    }
}

/// A run of well-formed bytes that starts on a boundary of `bytes` ends on
/// one.
pub proof fn lemma_boundary_after_run(bytes: Seq<u8>, from: int, n: int)
    requires
        valid_utf8(bytes),
        is_char_boundary(bytes, from),
        0 <= from,
        0 <= n,
        from + n <= bytes.len(),
        valid_utf8(bytes.subrange(from, from + n)),
    ensures
        is_char_boundary(bytes, from + n),
{
    let tail = bytes.subrange(from, bytes.len() as int);
    valid_utf8_split(bytes, from);
    assert(tail.subrange(0, n) =~= bytes.subrange(from, from + n));
    lemma_valid_prefix_ends_on_boundary(tail, n);
    lemma_boundary_shift(bytes, from, n);
}

/// A boundary of `bytes` at or before the boundary `to` is a boundary of the
/// first `to` bytes.
pub proof fn lemma_boundary_in_prefix(bytes: Seq<u8>, at: int, to: int)
    requires
        valid_utf8(bytes),
        0 <= at <= to <= bytes.len(),
        is_char_boundary(bytes, at),
        is_char_boundary(bytes, to),
    ensures
        valid_utf8(bytes.subrange(0, to)),
        is_char_boundary(bytes.subrange(0, to), at),
{
    let head = bytes.subrange(0, to);
    valid_utf8_split(bytes, to);
    if at == to {
        is_char_boundary_start_end_of_seq(head);
    } else {
        is_char_boundary_iff_not_is_continuation_byte(bytes, at);
        is_char_boundary_iff_not_is_continuation_byte(head, at);
    }
}

} // verus!
