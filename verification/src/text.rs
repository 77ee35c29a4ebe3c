//! Byte positions in UTF-8 text: the character that starts at a position,
//! how many bytes it takes, and the line a position is on.

use vstd::prelude::*;
use vstd::utf8::*;

verus! {

/// The character whose encoding starts at byte `pos`.
pub open spec fn char_at(bytes: Seq<u8>, pos: int) -> char {
    decode_first_scalar(bytes.subrange(pos, bytes.len() as int)) as char
}

/// The number of bytes taken by the character that starts at byte `pos`.
pub open spec fn char_width(bytes: Seq<u8>, pos: int) -> int {
    length_of_first_scalar(bytes.subrange(pos, bytes.len() as int))
}

/// The position just after the character at `pos`; `pos` itself at the end
/// of the text.
pub open spec fn next_pos(bytes: Seq<u8>, pos: int) -> int {
    if 0 <= pos < bytes.len() {
        pos + char_width(bytes, pos)
    } else {
        pos
    }
}

/// The character at `pos`, or NUL where the text has ended.
pub open spec fn peek_at(bytes: Seq<u8>, pos: int) -> char {
    if 0 <= pos < bytes.len() {
        char_at(bytes, pos)
    } else {
        '\0'
    }
}

/// How many newline bytes lie before byte `pos`.
pub open spec fn newlines_before(bytes: Seq<u8>, pos: int) -> nat
    decreases pos,
{
    if pos <= 0 {
        0
    } else if bytes[pos - 1] == '\n' as u8 {
        newlines_before(bytes, pos - 1) + 1
    } else {
        newlines_before(bytes, pos - 1)
    }
}

/// The 1-based line that byte `pos` is on.
pub open spec fn line_at(bytes: Seq<u8>, pos: int) -> nat {
    1 + newlines_before(bytes, pos)
}

/// There are at most as many newlines before a position as bytes.
pub proof fn lemma_newlines_bound(bytes: Seq<u8>, pos: int)
    requires
        0 <= pos,
    ensures
        newlines_before(bytes, pos) <= pos,
    decreases pos,
{
    if pos > 0 {
        lemma_newlines_bound(bytes, pos - 1);
    }
}

/// Later positions are on later or equal lines.
pub proof fn lemma_newlines_monotone(bytes: Seq<u8>, from: int, to: int)
    requires
        from <= to,
    ensures
        newlines_before(bytes, from) <= newlines_before(bytes, to),
    decreases to - from,
{
    if from < to {
        lemma_newlines_monotone(bytes, from, to - 1);
    }
}

/// A stretch without a newline byte stays on one line.
pub proof fn lemma_newlines_skip(bytes: Seq<u8>, from: int, to: int)
    requires
        0 <= from <= to,
        forall|i: int| from <= i < to ==> bytes[i] != '\n' as u8,
    ensures
        newlines_before(bytes, to) == newlines_before(bytes, from),
    decreases to - from,
{
    if from < to {
        lemma_newlines_skip(bytes, from, to - 1);
    }
}

/// What one step over a character does: it stays inside the text, lands on
/// a character boundary, and crosses continuation bytes only. An ASCII byte
/// is its own character; any other leading byte starts a wider, non-ASCII
/// one.
pub proof fn lemma_char_step(bytes: Seq<u8>, pos: int)
    requires
        valid_utf8(bytes),
        is_char_boundary(bytes, pos),
        0 <= pos < bytes.len(),
    ensures
        1 <= char_width(bytes, pos) <= 4,
        pos + char_width(bytes, pos) <= bytes.len(),
        is_char_boundary(bytes, pos + char_width(bytes, pos)),
        valid_first_scalar(bytes.subrange(pos, bytes.len() as int)),
        forall|i: int|
            pos < i < pos + char_width(bytes, pos) ==> is_continuation_byte(#[trigger] bytes[i]),
        bytes[pos] < 0x80 ==> char_width(bytes, pos) == 1 && char_at(bytes, pos) as u32
            == bytes[pos],
        bytes[pos] >= 0x80 ==> char_width(bytes, pos) >= 2 && char_at(bytes, pos) as u32 >= 0x80
            && bytes[pos] >= 0xc0,
        char_width(bytes, pos) == if bytes[pos] < 0x80 {
            1int
        } else if bytes[pos] < 0xe0 {
            2int
        } else if bytes[pos] < 0xf0 {
            3int
        } else {
            4int
        },
{
    let len = bytes.len() as int;
    let rest = bytes.subrange(pos, len);
    let width = length_of_first_scalar(rest);
    valid_utf8_split(bytes, pos);
    assert(valid_first_scalar(rest) && valid_utf8(pop_first_scalar(rest)));
    assert(rest[0] == bytes[pos]);
    assert forall|i: int| pos < i < pos + width implies is_continuation_byte(
        #[trigger] bytes[i],
    ) by {
        assert(bytes[i] == rest[i - pos]);
    }
    let after = pop_first_scalar(rest);
    assert(after =~= bytes.subrange(pos + width, len));
    if pos + width == len {
        is_char_boundary_start_end_of_seq(bytes);
    } else {
        assert(valid_first_scalar(after));
        assert(after[0] == bytes[pos + width]);
        is_char_boundary_iff_not_is_continuation_byte(bytes, pos + width);
    }
    let scalar = decode_first_scalar(rest);
    let first = bytes[pos];
    if first < 0x80 {
        assert(first & 0x7f == first) by (bit_vector)
            requires
                first < 0x80,
        ;
    } else {
        assert(scalar >= 0x80);
        assert(scalar <= 0x10ffff) by {
            lemma_scalar_range(rest);
        }
    }
}

/// A well-formed first scalar is a Unicode scalar value.
proof fn lemma_scalar_range(bytes: Seq<u8>)
    requires
        valid_first_scalar(bytes),
    ensures
        decode_first_scalar(bytes) <= 0x10ffff,
{
    let b0 = bytes[0];
    if is_leading_byte_width_1(b0) {
        assert(b0 & 0x7f <= 0x7f) by (bit_vector);
    } else if is_leading_byte_width_2(b0) {
        let b1 = bytes[1];
        assert((((b0 & 0x1f) as u32) << 6) | ((b1 & 0x3f) as u32) <= 0x7ff) by (bit_vector);
    } else if is_leading_byte_width_3(b0) {
        let b1 = bytes[1];
        let b2 = bytes[2];
        assert((((b0 & 0x0f) as u32) << 12) | (((b1 & 0x3f) as u32) << 6) | ((b2 & 0x3f) as u32)
            <= 0xffff) by (bit_vector);
    } else {
    }
}

/// A boundary of the text that lies inside a prefix cut at another boundary
/// is a boundary of that prefix too.
pub proof fn lemma_boundary_in_prefix(bytes: Seq<u8>, pos: int, cut: int)
    requires
        valid_utf8(bytes),
        0 <= pos <= cut <= bytes.len(),
        is_char_boundary(bytes, pos),
        is_char_boundary(bytes, cut),
    ensures
        valid_utf8(bytes.subrange(0, cut)),
        is_char_boundary(bytes.subrange(0, cut), pos),
{
    let prefix = bytes.subrange(0, cut);
    valid_utf8_split(bytes, cut);
    if pos == cut {
        is_char_boundary_start_end_of_seq(prefix);
    } else {
        assert(prefix[pos] == bytes[pos]);
        is_char_boundary_iff_not_is_continuation_byte(bytes, pos);
        is_char_boundary_iff_not_is_continuation_byte(prefix, pos);
    }
}

} // verus!
