//! Text by byte offsets: which offsets a text can be cut at, and what stands
//! between two of them.

use vstd::prelude::*;
use vstd::utf8::*;

verus! {

/// The number of bytes that a text takes in UTF-8.
pub open spec fn byte_len(text: Seq<char>) -> int {
    encode_utf8(text).len() as int
}

/// Whether a text can be cut at byte offset `at`.
pub open spec fn boundary(text: Seq<char>, at: int) -> bool {
    &&& 0 <= at <= byte_len(text)
    &&& is_char_boundary(encode_utf8(text), at)
}

/// The characters between the byte offsets `start` and `end` of a text.
pub open spec fn piece(text: Seq<char>, start: int, end: int) -> Seq<char> {
    decode_utf8(encode_utf8(text).subrange(start, end))
}

/// A text in which `fragment` takes the place of what stands between the byte
/// offsets `start` and `end`.
pub open spec fn splice(text: Seq<char>, start: int, end: int, fragment: Seq<char>) -> Seq<char> {
    piece(text, 0, start) + fragment + piece(text, end, byte_len(text))
}

/// The encoding of two texts in a row is their encodings in a row.
pub proof fn encode_concat(a: Seq<char>, b: Seq<char>)
    ensures
        encode_utf8(a + b) == encode_utf8(a) + encode_utf8(b),
    decreases a.len(),
{
    if a.len() == 0 {
        assert(a + b =~= b);
        assert(encode_utf8(a) + encode_utf8(b) =~= encode_utf8(b));
    } else {
        assert((a + b).drop_first() =~= a.drop_first() + b);
        encode_concat(a.drop_first(), b);
        assert((a + b)[0] == a[0]);
        assert(encode_utf8(a + b) =~= encode_utf8(a) + encode_utf8(b));
    }
}

/// A text can be cut at its two ends.
pub proof fn ends_are_boundaries(text: Seq<char>)
    ensures
        boundary(text, 0),
        boundary(text, byte_len(text)),
{
    encode_utf8_valid_utf8(text);
    is_char_boundary_start_end_of_seq(encode_utf8(text));
}

/// What stands between two cuts is itself well-formed, and its encoding is the
/// bytes between them.
pub proof fn piece_bytes(text: Seq<char>, start: int, end: int)
    requires
        boundary(text, start),
        boundary(text, end),
        start <= end,
    ensures
        encode_utf8(piece(text, start, end)) == encode_utf8(text).subrange(start, end),
        byte_len(piece(text, start, end)) == end - start,
{
    let bytes = encode_utf8(text);
    encode_utf8_valid_utf8(text);
    valid_utf8_split(bytes, end);
    let head = bytes.subrange(0, end);
    assert(is_char_boundary(head, start)) by {
        if start < end {
            is_char_boundary_iff_not_is_continuation_byte(bytes, start);
            is_char_boundary_iff_not_is_continuation_byte(head, start);
            assert(head[start] == bytes[start]);
        } else {
            is_char_boundary_start_end_of_seq(head);
        }
    }
    valid_utf8_split(head, start);
    assert(head.subrange(start, head.len() as int) =~= bytes.subrange(start, end));
    decode_utf8_encode_utf8(bytes.subrange(start, end));
}

/// The cuts of a piece are the cuts of the whole text that fall inside it.
pub proof fn piece_boundary(text: Seq<char>, start: int, end: int, at: int)
    requires
        boundary(text, start),
        boundary(text, end),
        start <= end,
        0 <= at <= end - start,
    ensures
        boundary(piece(text, start, end), at) == boundary(text, start + at),
{
    let part = piece(text, start, end);
    piece_bytes(text, start, end);
    encode_utf8_valid_utf8(text);
    encode_utf8_valid_utf8(part);
    if at < end - start {
        is_char_boundary_iff_not_is_continuation_byte(encode_utf8(text), start + at);
        is_char_boundary_iff_not_is_continuation_byte(encode_utf8(part), at);
        assert(encode_utf8(part)[at] == encode_utf8(text)[start + at]);
    } else {
        ends_are_boundaries(part);
    }
}

/// A piece of a piece is a piece of the whole.
pub proof fn piece_of_piece(text: Seq<char>, start: int, end: int, from: int, to: int)
    requires
        boundary(text, start),
        boundary(text, end),
        0 <= from <= to <= end - start,
    ensures
        piece(piece(text, start, end), from, to) == piece(text, start + from, start + to),
{
    piece_bytes(text, start, end);
    assert(encode_utf8(piece(text, start, end)).subrange(from, to) =~= encode_utf8(text).subrange(
        start + from,
        start + to,
    ));
}

/// Two adjoining pieces make one.
pub proof fn pieces_join(text: Seq<char>, start: int, mid: int, end: int)
    requires
        boundary(text, start),
        boundary(text, mid),
        boundary(text, end),
        start <= mid <= end,
    ensures
        piece(text, start, mid) + piece(text, mid, end) == piece(text, start, end),
{
    let whole = piece(text, start, end);
    piece_bytes(text, start, end);
    piece_boundary(text, start, end, mid - start);
    encode_utf8_valid_utf8(whole);
    encode_utf8_decode_utf8(whole);
    decode_utf8_split(encode_utf8(whole), mid - start);
    let bytes = encode_utf8(text);
    assert(encode_utf8(whole).subrange(0, mid - start) =~= bytes.subrange(start, mid));
    assert(encode_utf8(whole).subrange(mid - start, end - start) =~= bytes.subrange(mid, end));
}

/// The piece between a text's two ends is the text.
pub proof fn piece_whole(text: Seq<char>)
    ensures
        piece(text, 0, byte_len(text)) == text,
{
    assert(encode_utf8(text).subrange(0, byte_len(text)) =~= encode_utf8(text));
    encode_utf8_decode_utf8(text);
}

/// Two texts in a row can be cut where they meet.
pub proof fn seam_is_boundary(a: Seq<char>, b: Seq<char>)
    ensures
        boundary(a + b, byte_len(a)),
        byte_len(a + b) == byte_len(a) + byte_len(b),
{
    encode_concat(a, b);
    let bytes = encode_utf8(a + b);
    ends_are_boundaries(a + b);
    if byte_len(b) > 0 {
        encode_utf8_valid_utf8(a + b);
        encode_utf8_valid_utf8(b);
        ends_are_boundaries(b);
        is_char_boundary_iff_not_is_continuation_byte(encode_utf8(b), 0);
        is_char_boundary_iff_not_is_continuation_byte(bytes, byte_len(a));
        assert(bytes[byte_len(a)] == encode_utf8(b)[0]);
    }
}

proof fn no_char_is_less(c: char)
    ensures
        '\0' <= c,
{
}

/// A text is one of ASCII if no character of it is above those of ASCII.
pub proof fn ascii_text(text: Seq<char>)
    requires
        forall|i: int| 0 <= i < text.len() ==> #[trigger] text[i] <= '\u{7f}',
    ensures
        is_ascii_chars(text),
{
    assert forall|i: int| 0 <= i < text.len() implies '\0' <= #[trigger] text[i] <= '\u{7f}' by {
        no_char_is_less(text[i]);
    }
}

/// A text of ASCII characters has a byte for each of them and can be cut anywhere.
pub proof fn ascii_pieces(text: Seq<char>, start: int, end: int)
    requires
        is_ascii_chars(text),
        0 <= start <= end <= text.len(),
    ensures
        byte_len(text) == text.len(),
        boundary(text, start),
        boundary(text, end),
        piece(text, start, end) == text.subrange(start, end),
        byte_len(piece(text, start, end)) == end - start,
{
    is_ascii_chars_encode_utf8(text);
    let part = text.subrange(start, end);
    is_ascii_chars_encode_utf8(part);
    assert forall|i: int| 0 <= i < part.len() implies encode_utf8(part)[i] == encode_utf8(
        text,
    ).subrange(start, end)[i] by {
        assert(part[i] == text[start + i]);
        assert(part[i] as u8 == encode_utf8(part)[i]);
        assert(text[start + i] as u8 == encode_utf8(text)[start + i]);
    }
    assert(encode_utf8(part) =~= encode_utf8(text).subrange(start, end));
    encode_utf8_decode_utf8(part);
    ascii_cut(text, start);
    ascii_cut(text, end);
}

proof fn ascii_cut(text: Seq<char>, at: int)
    requires
        is_ascii_chars(text),
        0 <= at <= text.len(),
    ensures
        boundary(text, at),
{
    is_ascii_chars_encode_utf8(text.take(at));
    seam_is_boundary(text.take(at), text.skip(at));
    assert(text.take(at) + text.skip(at) =~= text);
}

/// The number of bytes in a text, as a number that is known to fit.
pub fn length(text: &str) -> (n: usize)
    ensures
        n == byte_len(text@),
{
    text.as_bytes().len()
}

/// Calls `std::str::from_utf8`, which accepts exactly the bytes that are UTF-8 and
/// then gives the text that they encode.
#[verifier::external_body]
pub(crate) fn decode(bytes: &[u8]) -> (text: Option<&str>)
    ensures
        text is Some <==> valid_utf8(bytes@),
        text matches Some(found) ==> encode_utf8(found@) == bytes@,
{
    std::str::from_utf8(bytes).ok()
}

/// The part of a text between two byte offsets.
pub fn slice<'a>(text: &'a str, start: usize, end: usize) -> (part: &'a str)
    requires
        start <= end,
        boundary(text@, start as int),
        boundary(text@, end as int),
    ensures
        part@ == piece(text@, start as int, end as int),
        byte_len(part@) == end - start,
{
    proof {
        let bytes = encode_utf8(text@);
        piece_bytes(text@, start as int, end as int);
        ends_are_boundaries(text@);
        piece_bytes(text@, 0, end as int);
        piece_boundary(text@, 0, end as int, start as int);
        assert(bytes.subrange(0, end as int).subrange(start as int, end as int) =~= bytes.subrange(
            start as int,
            end as int,
        ));
    }
    let head: &'a str = text.split_at(end).0;
    proof {
        encode_utf8_decode_utf8(head@);
    }
    let part: &'a str = head.split_at(start).1;
    proof {
        encode_utf8_decode_utf8(part@);
    }
    part
}

} // verus!
