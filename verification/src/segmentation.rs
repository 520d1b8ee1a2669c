//! Segmentations of a sentence into pieces, and the tokens they stand for.

use crate::cache::texts_of;
use crate::sentence::{boundary, lemma_encode_concat, lemma_piece_valid, lemma_same_bytes, piece, piece_text};
use vstd::prelude::*;
use vstd::utf8::{encode_utf8, encode_utf8_valid_utf8, valid_utf8};

verus! {

/// A piece of a sentence, from byte `start` to before byte `end`, with its vocabulary id.
#[derive(Clone, Copy, Debug, PartialEq, Eq, Structural)]
pub struct Piece {
    pub start: usize,
    pub end: usize,
    pub id: usize,
}

/// The pieces follow one another without a gap from the beginning of the sentence to byte `end`,
/// none of them is empty, and each begins and ends between characters.
pub open spec fn is_chain(bytes: Seq<u8>, pieces: Seq<Piece>, end: int) -> bool {
    &&& pieces.len() == 0 ==> end == 0
    &&& pieces.len() > 0 ==> pieces[0].start == 0 && pieces.last().end == end
    &&& forall|i: int| 0 <= i < pieces.len() ==> is_piece(bytes, #[trigger] pieces[i])
    &&& forall|i: int| 0 < i < pieces.len() ==> #[trigger] pieces_touch(pieces, i)
}

/// Piece `i` begins where the one before it ends.
pub open spec fn pieces_touch(pieces: Seq<Piece>, i: int) -> bool {
    pieces[i - 1].end == pieces[i].start
}

pub open spec fn is_piece(bytes: Seq<u8>, p: Piece) -> bool {
    p.start < p.end && boundary(bytes, p.start as int) && boundary(bytes, p.end as int)
}

/// The ranges of the tokens: one for each piece, except that neighbouring pieces with the id
/// `fuse` form one token together.
pub open spec fn fused(pieces: Seq<Piece>, fuse: Option<usize>) -> Seq<(int, int)>
    decreases pieces.len(),
{
    if pieces.len() == 0 {
        seq![]
    } else {
        let last = pieces.last();
        let before = fused(pieces.drop_last(), fuse);
        if pieces.len() > 1 && fuse == Some(last.id) && pieces[pieces.len() - 2].id == last.id {
            before.drop_last().push((before.last().0, last.end as int))
        } else {
            before.push((last.start as int, last.end as int))
        }
    }
}

/// The texts of ranges of a sentence.
pub open spec fn range_texts(bytes: Seq<u8>, ranges: Seq<(int, int)>) -> Seq<Seq<char>> {
    ranges.map_values(|range: (int, int)| piece_text(bytes, range.0, range.1))
}

/// The tokens that a segmentation stands for.
pub open spec fn tokens_of(sentence: Seq<char>, pieces: Seq<Piece>, fuse: Option<usize>) -> Seq<
    Seq<char>,
> {
    range_texts(encode_utf8(sentence), fused(pieces, fuse))
}

/// Texts one after the other.
pub open spec fn joined(texts: Seq<Seq<char>>) -> Seq<char>
    decreases texts.len(),
{
    if texts.len() == 0 {
        seq![]
    } else {
        joined(texts.drop_last()) + texts.last()
    }
}

/// The segmentation found by following links back from byte `end`: the link of a byte gives
/// the start and the id of the piece that ends there.
pub open spec fn trace(link: spec_fn(int) -> (int, usize), end: int) -> Seq<Piece>
    decreases end,
{
    if end <= 0 {
        seq![]
    } else {
        let (start, id) = link(end);
        if 0 <= start < end {
            trace(link, start).push(Piece { start: start as usize, end: end as usize, id })
        } else {
            seq![]
        }
    }
}

/// The links held in two tables.
pub open spec fn table_links(starts: Seq<usize>, ids: Seq<usize>) -> spec_fn(int) -> (int, usize) {
    |end: int| (starts[end] as int, ids[end])
}

/// Links that agree on good places lead to the same segmentation.
pub proof fn lemma_same_trace(
    a: spec_fn(int) -> (int, usize),
    b: spec_fn(int) -> (int, usize),
    good: spec_fn(int) -> bool,
    end: int,
)
    requires
        good(end),
        forall|x: int| #[trigger] good(x) && x > 0 ==> a(x) == b(x) && 0 <= a(x).0 < x && good(a(x).0),
    ensures
        trace(a, end) == trace(b, end),
    decreases end,
{
    if end > 0 {
        lemma_same_trace(a, b, good, a(end).0);
    }
}

/// Links that lead back through good places lead to the beginning.
pub proof fn lemma_trace_is_chain(
    bytes: Seq<u8>,
    link: spec_fn(int) -> (int, usize),
    good: spec_fn(int) -> bool,
    end: int,
)
    requires
        good(end),
        end <= usize::MAX,
        forall|x: int| #[trigger] good(x) ==> boundary(bytes, x),
        forall|x: int| #[trigger] good(x) && x > 0 ==> 0 <= link(x).0 < x && good(link(x).0),
    ensures
        is_chain(bytes, trace(link, end), end),
    decreases end,
{
    if end > 0 {
        let start = link(end).0;
        lemma_trace_is_chain(bytes, link, good, start);
        let before = trace(link, start);
        let pieces = trace(link, end);
        assert(pieces == before.push(Piece { start: start as usize, end: end as usize, id: link(end).1 }));
        assert forall|i: int| 0 <= i < pieces.len() implies is_piece(bytes, #[trigger] pieces[i]) by {
            if i < before.len() {
                assert(is_piece(bytes, before[i]));
            }
        }
        assert forall|i: int| 0 < i < pieces.len() implies #[trigger] pieces_touch(pieces, i) by {
            if i < before.len() {
                assert(pieces_touch(before, i));
            }
        }
    }
}

/// The ranges of tokens end where the pieces end, and each token begins where a piece begins.
pub proof fn lemma_fused_ranges(bytes: Seq<u8>, pieces: Seq<Piece>, fuse: Option<usize>, end: int)
    requires
        is_chain(bytes, pieces, end),
    ensures
        fused(pieces, fuse).len() == 0 <==> pieces.len() == 0,
        fused(pieces, fuse).len() <= pieces.len(),
        pieces.len() > 0 ==> fused(pieces, fuse)[0].0 == 0 && fused(pieces, fuse).last().1 == end,
        forall|i: int|
            0 <= i < fused(pieces, fuse).len() ==> is_range(
                bytes,
                #[trigger] fused(pieces, fuse)[i],
            ),
        forall|i: int|
            0 < i < fused(pieces, fuse).len() ==> #[trigger] ranges_touch(fused(pieces, fuse), i),
    decreases pieces.len(),
{
    if pieces.len() > 0 {
        let last = pieces.last();
        assert(is_piece(bytes, last));
        let rest = pieces.drop_last();
        lemma_drop_last_chain(bytes, pieces, end);
        lemma_fused_ranges(bytes, rest, fuse, last.start as int);
        let before = fused(rest, fuse);
        let ranges = fused(pieces, fuse);
        if pieces.len() > 1 && fuse == Some(last.id) && pieces[pieces.len() - 2].id == last.id {
            assert(is_range(bytes, before.last()));
            assert forall|i: int| 0 <= i < ranges.len() implies is_range(bytes, #[trigger] ranges[i]) by {
                assert(is_range(bytes, before[i]));
            }
            assert forall|i: int| 0 < i < ranges.len() implies #[trigger] ranges_touch(ranges, i) by {
                assert(ranges_touch(before, i));
            }
        } else {
            assert forall|i: int| 0 <= i < ranges.len() implies is_range(bytes, #[trigger] ranges[i]) by {
                if i < before.len() {
                    assert(is_range(bytes, before[i]));
                }
            }
            assert forall|i: int| 0 < i < ranges.len() implies #[trigger] ranges_touch(ranges, i) by {
                if i < before.len() {
                    assert(ranges_touch(before, i));
                }
            }
        }
    }
}

/// Pieces `i - 1` and `i` form one token together.
pub open spec fn joins(pieces: Seq<Piece>, fuse: Option<usize>, i: int) -> bool {
    0 < i && fuse == Some(pieces[i].id) && pieces[i - 1].id == pieces[i].id
}

/// A token begins at byte `x`.
pub open spec fn begins_at(ranges: Seq<(int, int)>, x: int) -> bool {
    exists|j: int| 0 <= j < ranges.len() && (#[trigger] ranges[j]).0 == x
}

/// Ranges that follow one another begin before the last of them ends.
proof fn lemma_starts_before_end(bytes: Seq<u8>, ranges: Seq<(int, int)>, j: int)
    requires
        forall|i: int| 0 <= i < ranges.len() ==> is_range(bytes, #[trigger] ranges[i]),
        forall|i: int| 0 < i < ranges.len() ==> #[trigger] ranges_touch(ranges, i),
        0 <= j < ranges.len(),
    ensures
        ranges[j].1 <= ranges.last().1,
        ranges[j].0 < ranges.last().1,
    decreases ranges.len() - j,
{
    assert(is_range(bytes, ranges[j]));
    if j + 1 < ranges.len() {
        assert(ranges_touch(ranges, j + 1));
        lemma_starts_before_end(bytes, ranges, j + 1);
        assert(is_range(bytes, ranges[j + 1]));
    }
}

/// Pieces that follow one another begin before the last of them ends.
proof fn lemma_pieces_before_end(bytes: Seq<u8>, pieces: Seq<Piece>, end: int, i: int)
    requires
        is_chain(bytes, pieces, end),
        0 <= i < pieces.len(),
    ensures
        pieces[i].start < end,
        pieces[i].end <= end,
    decreases pieces.len() - i,
{
    assert(is_piece(bytes, pieces[i]));
    if i + 1 < pieces.len() {
        assert(pieces_touch(pieces, i + 1));
        lemma_pieces_before_end(bytes, pieces, end, i + 1);
        assert(is_piece(bytes, pieces[i + 1]));
    }
}

/// Neighbouring unknown pieces form one token, and no others do: a token begins where a piece
/// begins, unless that piece and the one before it both have the fused id.
pub proof fn law_only_fused_pieces_join(
    bytes: Seq<u8>,
    pieces: Seq<Piece>,
    fuse: Option<usize>,
    end: int,
)
    requires
        is_chain(bytes, pieces, end),
    ensures
        forall|i: int|
            0 <= i < pieces.len() ==> begins_at(
                fused(pieces, fuse),
                (#[trigger] pieces[i]).start as int,
            ) == !joins(pieces, fuse, i),
        fused(pieces, fuse).len() <= pieces.len(),
    decreases pieces.len(),
{
    lemma_fused_ranges(bytes, pieces, fuse, end);
    if pieces.len() > 0 {
        let n = pieces.len() - 1;
        let last = pieces.last();
        let rest = pieces.drop_last();
        lemma_drop_last_chain(bytes, pieces, end);
        law_only_fused_pieces_join(bytes, rest, fuse, last.start as int);
        lemma_fused_ranges(bytes, rest, fuse, last.start as int);
        let before = fused(rest, fuse);
        let ranges = fused(pieces, fuse);
        assert forall|i: int| 0 <= i < pieces.len() implies begins_at(
            ranges,
            (#[trigger] pieces[i]).start as int,
        ) == !joins(pieces, fuse, i) by {
            let x = pieces[i].start as int;
            if i < n {
                assert(rest[i] == pieces[i]);
                lemma_pieces_before_end(bytes, rest, last.start as int, i);
                assert(joins(rest, fuse, i) == joins(pieces, fuse, i));
            }
            if begins_at(before, x) {
                let j = choose|j: int| 0 <= j < before.len() && (#[trigger] before[j]).0 == x;
                lemma_starts_before_end(bytes, before, j);
                assert(ranges[j].0 == x);
            }
            if begins_at(ranges, x) {
                let j = choose|j: int| 0 <= j < ranges.len() && (#[trigger] ranges[j]).0 == x;
                if j < before.len() {
                    assert(before[j].0 == x);
                }
            }
            if i == n && !joins(pieces, fuse, i) {
                assert(ranges[ranges.len() - 1].0 == x);
            }
        }
    }
}

/// Range `i` begins where the one before it ends.
pub open spec fn ranges_touch(ranges: Seq<(int, int)>, i: int) -> bool {
    ranges[i - 1].1 == ranges[i].0
}

pub open spec fn is_range(bytes: Seq<u8>, range: (int, int)) -> bool {
    range.0 < range.1 && boundary(bytes, range.0) && boundary(bytes, range.1)
}

/// A chain without its last piece ends where that piece begins.
pub proof fn lemma_drop_last_chain(bytes: Seq<u8>, pieces: Seq<Piece>, end: int)
    requires
        is_chain(bytes, pieces, end),
        pieces.len() > 0,
    ensures
        is_chain(bytes, pieces.drop_last(), pieces.last().start as int),
{
    let rest = pieces.drop_last();
    assert forall|i: int| 0 <= i < rest.len() implies is_piece(bytes, #[trigger] rest[i]) by {
        assert(is_piece(bytes, pieces[i]));
    }
    assert forall|i: int| 0 < i < rest.len() implies #[trigger] pieces_touch(rest, i) by {
        assert(pieces_touch(pieces, i));
    }
    if rest.len() > 0 {
        assert(pieces_touch(pieces, pieces.len() - 1));
    }
}

/// Ranges that follow one another have, together, the text from the first to the last.
pub proof fn lemma_ranges_join(bytes: Seq<u8>, ranges: Seq<(int, int)>)
    requires
        valid_utf8(bytes),
        forall|i: int| 0 <= i < ranges.len() ==> is_range(bytes, #[trigger] ranges[i]),
        forall|i: int| 0 < i < ranges.len() ==> #[trigger] ranges_touch(ranges, i),
        ranges.len() > 0 ==> ranges[0].0 == 0,
    ensures
        encode_utf8(joined(range_texts(bytes, ranges))) == bytes.subrange(
            0,
            if ranges.len() == 0 { 0 } else { ranges.last().1 },
        ),
    decreases ranges.len(),
{
    let texts = range_texts(bytes, ranges);
    if ranges.len() == 0 {
        assert(encode_utf8(joined(texts)) =~= bytes.subrange(0, 0));
    } else {
        let rest = ranges.drop_last();
        assert forall|i: int| 0 <= i < rest.len() implies is_range(bytes, #[trigger] rest[i]) by {
            assert(is_range(bytes, ranges[i]));
        }
        assert forall|i: int| 0 < i < rest.len() implies #[trigger] ranges_touch(rest, i) by {
            assert(ranges_touch(ranges, i));
        }
        lemma_ranges_join(bytes, rest);
        assert(texts.drop_last() =~= range_texts(bytes, rest));
        let last = ranges.last();
        assert(is_range(bytes, last));
        lemma_piece_valid(bytes, last.0, last.1);
        lemma_encode_concat(joined(texts.drop_last()), texts.last());
        if rest.len() > 0 {
            assert(ranges_touch(ranges, ranges.len() - 1));
        }
        assert(encode_utf8(joined(texts)) =~= bytes.subrange(0, last.1));
    }
}

/// The tokens of a segmentation, one after the other, are the sentence, and none is empty.
pub proof fn lemma_tokens_join(sentence: Seq<char>, pieces: Seq<Piece>, fuse: Option<usize>)
    requires
        is_chain(encode_utf8(sentence), pieces, encode_utf8(sentence).len() as int),
    ensures
        joined(tokens_of(sentence, pieces, fuse)) == sentence,
        forall|i: int|
            0 <= i < tokens_of(sentence, pieces, fuse).len() ==> (#[trigger] tokens_of(
                sentence,
                pieces,
                fuse,
            )[i]).len() > 0,
{
    let bytes = encode_utf8(sentence);
    encode_utf8_valid_utf8(sentence);
    lemma_fused_ranges(bytes, pieces, fuse, bytes.len() as int);
    let ranges = fused(pieces, fuse);
    lemma_ranges_join(bytes, ranges);
    let texts = tokens_of(sentence, pieces, fuse);
    assert(bytes.subrange(0, bytes.len() as int) =~= bytes);
    lemma_same_bytes(joined(texts), sentence);
    assert forall|i: int| 0 <= i < texts.len() implies (#[trigger] texts[i]).len() > 0 by {
        assert(is_range(bytes, ranges[i]));
        lemma_piece_valid(bytes, ranges[i].0, ranges[i].1);
        crate::sentence::lemma_empty_text(texts[i]);
    }
}

/// Follows links back from byte `end`.
pub(crate) fn backtrace(starts: &Vec<usize>, ids: &Vec<usize>, end: usize, Ghost(good): Ghost<
    spec_fn(int) -> bool,
>) -> (pieces: Vec<Piece>)
    requires
        good(end as int),
        end < starts@.len(),
        starts@.len() == ids@.len(),
        forall|x: int| #[trigger] good(x) && 0 < x <= end ==> starts@[x] < x && good(starts@[x] as int),
    ensures
        pieces@ == trace(table_links(starts@, ids@), end as int),
{
    let ghost link = table_links(starts@, ids@);
    let mut backwards: Vec<Piece> = Vec::new();
    let mut at: usize = end;
    while at > 0
        invariant
            good(at as int),
            at <= end < starts@.len(),
            starts@.len() == ids@.len(),
            link == table_links(starts@, ids@),
            forall|x: int| #[trigger]
                good(x) && 0 < x <= end ==> starts@[x] < x && good(starts@[x] as int),
            trace(link, at as int) + backwards@.reverse() == trace(link, end as int),
        decreases at,
    {
        let start: usize = starts[at];
        let found = Piece { start, end: at, id: ids[at] };
        let ghost before = backwards@;
        backwards.push(found);
        proof {
            assert(trace(link, at as int) == trace(link, start as int).push(found));
            assert(trace(link, start as int) + backwards@.reverse() =~= trace(link, at as int)
                + before.reverse());
        }
        at = start;
    }
    let mut pieces: Vec<Piece> = Vec::new();
    let mut left: usize = backwards.len();
    while left > 0
        invariant
            left <= backwards@.len(),
            pieces@ =~= backwards@.reverse().take(backwards@.len() - left),
        decreases left,
    {
        left = left - 1;
        pieces.push(backwards[left]);
    }
    assert(pieces@ =~= trace(link, end as int));
    pieces
}

/// The tokens that a segmentation stands for.
pub(crate) fn build_tokens(sentence: &str, pieces: &Vec<Piece>, fuse: Option<usize>) -> (tokens: Vec<
    String,
>)
    requires
        is_chain(encode_utf8(sentence@), pieces@, encode_utf8(sentence@).len() as int),
    ensures
        texts_of(tokens@) == tokens_of(sentence@, pieces@, fuse),
{
    let ghost bytes = encode_utf8(sentence@);
    let mut ranges: Vec<(usize, usize)> = Vec::new();
    let mut i: usize = 0;
    assert(as_ints(ranges@) =~= fused(pieces@.take(0), fuse));
    while i < pieces.len()
        invariant
            i <= pieces@.len(),
            as_ints(ranges@) == fused(pieces@.take(i as int), fuse),
            i > 0 ==> ranges@.len() > 0,
        decreases pieces.len() - i,
    {
        let last: Piece = pieces[i];
        let joins: bool = match fuse {
            Some(id) => i > 0 && last.id == id && pieces[i - 1].id == id,
            None => false,
        };
        let ghost before = ranges@;
        proof {
            assert(pieces@.take(i + 1).drop_last() =~= pieces@.take(i as int));
        }
        if joins {
            let top: usize = ranges.len() - 1;
            let first: usize = ranges[top].0;
            ranges.set(top, (first, last.end));
            assert(as_ints(ranges@) =~= as_ints(before).drop_last().push(
                (as_ints(before).last().0, last.end as int),
            ));
        } else {
            ranges.push((last.start, last.end));
            assert(as_ints(ranges@) =~= as_ints(before).push((last.start as int, last.end as int)));
        }
        i = i + 1;
    }
    proof {
        assert(pieces@.take(i as int) =~= pieces@);
        lemma_fused_ranges(bytes, pieces@, fuse, bytes.len() as int);
    }
    let mut tokens: Vec<String> = Vec::new();
    let mut k: usize = 0;
    while k < ranges.len()
        invariant
            bytes == encode_utf8(sentence@),
            as_ints(ranges@) == fused(pieces@, fuse),
            forall|i: int|
                0 <= i < fused(pieces@, fuse).len() ==> is_range(
                    bytes,
                    #[trigger] fused(pieces@, fuse)[i],
                ),
            k <= ranges@.len(),
            tokens@.len() == k,
            forall|j: int|
                0 <= j < k ==> (#[trigger] tokens@[j])@ == piece_text(
                    bytes,
                    ranges@[j].0 as int,
                    ranges@[j].1 as int,
                ),
        decreases ranges.len() - k,
    {
        let range: (usize, usize) = ranges[k];
        assert(is_range(bytes, fused(pieces@, fuse)[k as int]));
        tokens.push(piece(sentence, range.0, range.1).to_owned());
        k = k + 1;
    }
    assert(texts_of(tokens@) =~= tokens_of(sentence@, pieces@, fuse)) by {
        assert forall|j: int| 0 <= j < tokens@.len() implies texts_of(tokens@)[j] == tokens_of(
            sentence@,
            pieces@,
            fuse,
        )[j] by {
            assert(as_ints(ranges@)[j] == fused(pieces@, fuse)[j]);
        }
    }
    tokens
}

spec fn as_ints(ranges: Seq<(usize, usize)>) -> Seq<(int, int)> {
    ranges.map_values(|range: (usize, usize)| (range.0 as int, range.1 as int))
}

} // verus!
