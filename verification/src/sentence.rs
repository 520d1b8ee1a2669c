//! Texts as bytes: where characters begin, and the text between two such places.

use vstd::prelude::*;
use vstd::utf8::{
    decode_utf8, decode_utf8_encode_utf8, encode_utf8, encode_utf8_decode_utf8,
    encode_utf8_valid_utf8, is_char_boundary, is_char_boundary_iff_not_is_continuation_byte,
    is_char_boundary_start_end_of_seq, is_continuation_byte, length_of_first_scalar,
    pop_first_scalar, valid_first_scalar, valid_utf8, valid_utf8_split,
};

verus! {

/// A character begins at byte `i`, or the text ends there.
pub open spec fn boundary(bytes: Seq<u8>, i: int) -> bool {
    0 <= i <= bytes.len() && (i < bytes.len() ==> !is_continuation_byte(bytes[i]))
}

/// How many bytes the character that begins at byte `i` has.
pub open spec fn char_len(bytes: Seq<u8>, i: int) -> int {
    if bytes[i] < 0x80 {
        1
    } else if bytes[i] < 0xe0 {
        2
    } else if bytes[i] < 0xf0 {
        3
    } else {
        4
    }
}

/// The characters of a piece of a text, given by its first byte and the byte after its last.
pub open spec fn piece_text(bytes: Seq<u8>, start: int, end: int) -> Seq<char> {
    decode_utf8(bytes.subrange(start, end))
}

/// In valid UTF-8, the two notions of a place between characters agree.
pub proof fn lemma_boundary(bytes: Seq<u8>, i: int)
    requires
        valid_utf8(bytes),
    ensures
        boundary(bytes, i) <==> is_char_boundary(bytes, i),
{
    if 0 <= i < bytes.len() {
        is_char_boundary_iff_not_is_continuation_byte(bytes, i);
    } else if i == bytes.len() {
        is_char_boundary_start_end_of_seq(bytes);
    } else {
        assert(!is_char_boundary(bytes, i));
    }
}

/// What follows a place between characters is valid UTF-8.
pub proof fn lemma_tail_valid(bytes: Seq<u8>, i: int)
    requires
        valid_utf8(bytes),
        boundary(bytes, i),
    ensures
        valid_utf8(bytes.subrange(i, bytes.len() as int)),
        valid_utf8(bytes.subrange(0, i)),
{
    lemma_boundary(bytes, i);
    valid_utf8_split(bytes, i);
}

/// The text between two places between characters is valid UTF-8.
pub proof fn lemma_piece_valid(bytes: Seq<u8>, start: int, end: int)
    requires
        valid_utf8(bytes),
        boundary(bytes, start),
        boundary(bytes, end),
        start <= end,
    ensures
        valid_utf8(bytes.subrange(start, end)),
        encode_utf8(piece_text(bytes, start, end)) == bytes.subrange(start, end),
{
    lemma_tail_valid(bytes, end);
    let head = bytes.subrange(0, end);
    lemma_tail_valid(head, start);
    assert(head.subrange(start, head.len() as int) =~= bytes.subrange(start, end));
    decode_utf8_encode_utf8(bytes.subrange(start, end));
}

/// The next character ends at the next place between characters.
pub proof fn lemma_char_step(bytes: Seq<u8>, i: int)
    requires
        valid_utf8(bytes),
        boundary(bytes, i),
        i < bytes.len(),
    ensures
        1 <= char_len(bytes, i) <= 4,
        boundary(bytes, i + char_len(bytes, i)),
        forall|j: int| i < j < i + char_len(bytes, i) ==> !boundary(bytes, j),
{
    lemma_tail_valid(bytes, i);
    let tail = bytes.subrange(i, bytes.len() as int);
    assert(valid_first_scalar(tail));
    assert(tail[0] == bytes[i]);
    let n = length_of_first_scalar(tail);
    assert(n == char_len(bytes, i));
    assert forall|j: int| i < j < i + n implies !boundary(bytes, j) by {
        assert(tail[j - i] == bytes[j]);
    }
    let rest = pop_first_scalar(tail);
    assert(valid_utf8(rest));
    if i + n < bytes.len() {
        assert(rest[0] == bytes[i + n]);
        assert(valid_first_scalar(rest));
    }
}

/// Where a prefix of valid UTF-8 is itself valid UTF-8, it ends between characters.
proof fn lemma_valid_prefix(bytes: Seq<u8>, n: int)
    requires
        valid_utf8(bytes),
        0 <= n <= bytes.len(),
        valid_utf8(bytes.subrange(0, n)),
    ensures
        boundary(bytes, n),
    decreases n,
{
    let head = bytes.subrange(0, n);
    if n > 0 {
        assert(valid_first_scalar(head));
        assert(head[0] == bytes[0]);
        let first = length_of_first_scalar(head);
        assert(first == length_of_first_scalar(bytes));
        let rest = pop_first_scalar(bytes);
        assert(rest.subrange(0, n - first) =~= pop_first_scalar(head));
        lemma_valid_prefix(rest, n - first);
        if n < bytes.len() {
            assert(rest[n - first] == bytes[n]);
        }
    } else if bytes.len() > 0 {
        assert(valid_first_scalar(bytes));
    }
}

/// A piece of valid UTF-8 that begins between characters and is itself valid UTF-8 also ends
/// between characters.
pub proof fn lemma_valid_piece_end(bytes: Seq<u8>, start: int, end: int)
    requires
        valid_utf8(bytes),
        boundary(bytes, start),
        start <= end <= bytes.len(),
        valid_utf8(bytes.subrange(start, end)),
    ensures
        boundary(bytes, end),
{
    lemma_tail_valid(bytes, start);
    let tail = bytes.subrange(start, bytes.len() as int);
    assert(tail.subrange(0, end - start) =~= bytes.subrange(start, end));
    lemma_valid_prefix(tail, end - start);
    if end < bytes.len() {
        assert(tail[end - start] == bytes[end]);
    }
}

/// Two texts with the same bytes are the same.
pub proof fn lemma_same_bytes(a: Seq<char>, b: Seq<char>)
    requires
        encode_utf8(a) == encode_utf8(b),
    ensures
        a == b,
{
    encode_utf8_decode_utf8(a);
    encode_utf8_decode_utf8(b);
}

/// The bytes of a text that is followed by another.
pub proof fn lemma_encode_concat(a: Seq<char>, b: Seq<char>)
    ensures
        encode_utf8(a + b) == encode_utf8(a) + encode_utf8(b),
    decreases a.len(),
{
    if a.len() == 0 {
        assert(a + b =~= b);
        assert(encode_utf8(a) + encode_utf8(b) =~= encode_utf8(b));
    } else {
        assert((a + b).drop_first() =~= a.drop_first() + b);
        lemma_encode_concat(a.drop_first(), b);
        assert(encode_utf8(a + b) =~= encode_utf8(a) + encode_utf8(b));
    }
}

/// A text is empty exactly where it has no bytes.
pub proof fn lemma_empty_text(text: Seq<char>)
    ensures
        text.len() == 0 <==> encode_utf8(text).len() == 0,
{
    if encode_utf8(text).len() == 0 {
        encode_utf8_decode_utf8(text);
        encode_utf8_valid_utf8(text);
    }
}

/// How many bytes the character that begins at byte `i` has.
pub fn char_len_at(bytes: &[u8], i: usize) -> (n: usize)
    requires
        valid_utf8(bytes@),
        boundary(bytes@, i as int),
        i < bytes@.len(),
    ensures
        n == char_len(bytes@, i as int),
        1 <= n <= 4,
        i + n <= bytes@.len(),
        boundary(bytes@, i + n),
{
    proof {
        lemma_char_step(bytes@, i as int);
    }
    let lead: u8 = bytes[i];
    if lead < 0x80 {
        1
    } else if lead < 0xe0 {
        2
    } else if lead < 0xf0 {
        3
    } else {
        4
    }
}

/// The piece of a text between two bytes.
pub fn piece<'a>(text: &'a str, start: usize, end: usize) -> (piece: &'a str)
    requires
        start <= end,
        boundary(encode_utf8(text@), start as int),
        boundary(encode_utf8(text@), end as int),
    ensures
        piece@ == piece_text(encode_utf8(text@), start as int, end as int),
        encode_utf8(piece@) == encode_utf8(text@).subrange(start as int, end as int),
{
    let ghost bytes = encode_utf8(text@);
    proof {
        encode_utf8_valid_utf8(text@);
        lemma_boundary(bytes, end as int);
    }
    let (head, _) = text.split_at(end);
    proof {
        encode_utf8_valid_utf8(head@);
        assert(encode_utf8(head@) == bytes.subrange(0, end as int));
        assert(boundary(encode_utf8(head@), start as int));
        lemma_boundary(encode_utf8(head@), start as int);
    }
    let (_, piece) = head.split_at(start);
    proof {
        assert(encode_utf8(piece@) =~= bytes.subrange(start as int, end as int));
        encode_utf8_decode_utf8(piece@);
    }
    piece
}

} // verus!
