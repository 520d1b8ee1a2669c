//! Encodings and best scores, in terms of the ways to part a sentence into tokens and unknown
//! characters.

use crate::agreement::{lemma_nodes_to_way, lemma_way_to_nodes, lemma_finite_entries};
use crate::double::{
    is_finite, lemma_double_exceeds_order, lemma_double_plus_zero, Double,
};
use crate::encoding::{lemma_node_pieces_chain, node, node_pieces, optimized, Encoder};
use crate::error::UnigramError;
use crate::encoding_laws::{
    best_way, law_encoding_is_attained, law_finite_scores_are_numbers, law_optimized_is_best,
    resolved, tokenization_score,
};
use crate::forward_bound::lemma_finite_way_not_above_best;
use crate::graph_laws::{
    law_every_token_has_an_edge, law_every_unknown_character_has_an_edge, lemma_edge_is_sound,
};
use crate::lattice::{best_nodes, lemma_best_nodes_chain, pieces_of};
use crate::lattice_encoding::{encoding, lemma_lattice, lemma_never_blocked};
use crate::lattice_laws::{
    is_lattice_way, lattice_score, law_finite_lattice_scores_are_numbers, law_unoptimized_is_best,
};
use crate::optimality::{is_edge, is_way, law_best_is_attained, way_score};
use crate::prepared_dp::{best_pieces, lemma_best_is_chain};
use crate::segmentation::{
    begins_at, fused, is_chain, joined, joins, law_only_fused_pieces_join, lemma_drop_last_chain,
    lemma_fused_ranges, lemma_ranges_join, lemma_tokens_join, range_texts, tokens_of, Piece,
};
use crate::sentence::{boundary, lemma_boundary, lemma_empty_text};
use crate::single::{is_finite_single, Single};
use crate::vocabulary::{fits, graph, lemma_graph, Vocab};
use crate::weight_sets::ModelView;
use vstd::prelude::*;
use vstd::utf8::{
    encode_utf8, encode_utf8_valid_utf8, is_char_boundary, is_char_boundary_start_end_of_seq,
    valid_utf8,
};

verus! {

/// A part of a sentence: a token with its id, or a character that is no token.
pub struct Part {
    pub start: int,
    pub end: int,
    pub known: bool,
    pub id: int,
}

/// The part stands in the sentence: a token of the vocabulary, whose id is that of its last
/// entry; or a single character that no entry of the vocabulary is.
pub open spec fn is_part(vocab: Vocab, bytes: Seq<u8>, p: Part) -> bool {
    &&& 0 <= p.start < p.end <= bytes.len()
    &&& is_char_boundary(bytes, p.start)
    &&& is_char_boundary(bytes, p.end)
    &&& if p.known {
        &&& 0 <= p.id < vocab.len()
        &&& encode_utf8(vocab[p.id].0) == bytes.subrange(p.start, p.end)
        &&& forall|j: int| p.id < j < vocab.len() ==> (#[trigger] vocab[j]).0 != vocab[p.id].0
    } else {
        &&& p.id == 0
        &&& forall|x: int| p.start < x < p.end ==> !(#[trigger] is_char_boundary(bytes, x))
        &&& forall|i: int|
            0 <= i < vocab.len() ==> encode_utf8((#[trigger] vocab[i]).0) != bytes.subrange(
                p.start,
                p.end,
            )
    }
}

/// The parts follow one another from the beginning of the sentence to byte `end`.
pub open spec fn is_parting(vocab: Vocab, bytes: Seq<u8>, parts: Seq<Part>, end: int) -> bool {
    &&& parts.len() == 0 ==> end == 0
    &&& parts.len() > 0 ==> parts[0].start == 0 && parts.last().end == end
    &&& forall|i: int| 0 <= i < parts.len() ==> is_part(vocab, bytes, #[trigger] parts[i])
    &&& forall|i: int| 0 < i < parts.len() ==> #[trigger] parts_touch(parts, i)
}

/// Part `i` begins where the one before it ends.
pub open spec fn parts_touch(parts: Seq<Part>, i: int) -> bool {
    parts[i - 1].end == parts[i].start
}

/// The edges of parts; those of unknown characters have the id given.
pub open spec fn edges_of(parts: Seq<Part>, unknown: usize) -> Seq<Piece> {
    parts.map_values(
        |p: Part|
            Piece {
                start: p.start as usize,
                end: p.end as usize,
                id: if p.known {
                    p.id as usize
                } else {
                    unknown
                },
            },
    )
}

/// Every parting of a sentence is a way through its graph.
proof fn lemma_parting_is_way(vocab: Vocab, unknown: usize, bytes: Seq<u8>, parts: Seq<Part>, end: int)
    requires
        fits(vocab),
        valid_utf8(bytes),
        bytes.len() <= usize::MAX,
        is_parting(vocab, bytes, parts, end),
        0 <= end <= bytes.len(),
    ensures
        is_way(graph(vocab, Some(unknown), bytes), edges_of(parts, unknown), end),
    decreases parts.len(),
{
    let g = graph(vocab, Some(unknown), bytes);
    let pieces = edges_of(parts, unknown);
    if parts.len() > 0 {
        let last = parts.last();
        let before = parts.drop_last();
        assert(is_part(vocab, bytes, parts[parts.len() - 1]));
        assert forall|i: int| 0 <= i < before.len() implies is_part(vocab, bytes, #[trigger] before[i]) by {
            assert(is_part(vocab, bytes, parts[i]));
        }
        assert forall|i: int| 0 < i < before.len() implies #[trigger] parts_touch(before, i) by {
            assert(parts_touch(parts, i));
        }
        if before.len() > 0 {
            assert(parts_touch(parts, parts.len() - 1));
        }
        lemma_parting_is_way(vocab, unknown, bytes, before, last.start);
        assert(pieces.drop_last() =~= edges_of(before, unknown));
        let piece = pieces.last();
        if last.known {
            let k = law_every_token_has_an_edge(
                vocab,
                Some(unknown),
                bytes,
                last.start,
                last.end,
                last.id,
            );
            let found = g[last.start][k].1 as int;
            if found > last.id {
                assert(vocab[found].0 != vocab[last.id].0);
            }
            if last.id > found {
                assert(vocab[last.id].0 != vocab[last.id].0);
            }
            assert(g[piece.start as int][k] == (piece.end, piece.id));
        } else {
            let k = law_every_unknown_character_has_an_edge(
                vocab,
                Some(unknown),
                bytes,
                last.start,
                last.end,
            );
            assert(g[piece.start as int][k] == (piece.end, piece.id));
        }
        assert(is_edge(g, piece));
    }
}

/// Every way through the graph of a sentence is a parting of it.
proof fn lemma_way_is_parting(vocab: Vocab, unknown: usize, bytes: Seq<u8>, pieces: Seq<Piece>, end: int) -> (parts:
    Seq<Part>)
    requires
        fits(vocab),
        valid_utf8(bytes),
        bytes.len() <= usize::MAX,
        is_way(graph(vocab, Some(unknown), bytes), pieces, end),
        0 <= end <= bytes.len(),
    ensures
        is_parting(vocab, bytes, parts, end),
        edges_of(parts, unknown) == pieces,
    decreases pieces.len(),
{
    let g = graph(vocab, Some(unknown), bytes);
    if pieces.len() == 0 {
        let parts = Seq::<Part>::empty();
        assert(edges_of(parts, unknown) =~= pieces);
        parts
    } else {
        let last = pieces.last();
        let start = last.start as int;
        let before = lemma_way_is_parting(vocab, unknown, bytes, pieces.drop_last(), start);
        let k = choose|k: int|
            0 <= k < g[start].len() && #[trigger] g[start][k] == (last.end, last.id);
        lemma_edge_is_sound(vocab, Some(unknown), bytes, start, k);
        lemma_graph(vocab, Some(unknown), bytes);
        assert(boundary(bytes, g[start][k].0 as int));
        lemma_boundary(bytes, last.end as int);
        let known = last.id < vocab.len() && encode_utf8(vocab[last.id as int].0)
            == bytes.subrange(start, last.end as int);
        let part = Part {
            start,
            end: last.end as int,
            known,
            id: if known {
                last.id as int
            } else {
                0
            },
        };
        let parts = before.push(part);
        assert(is_part(vocab, bytes, part)) by {
            if known {
                // No entry is the text of an unknown character, so this edge is that of a token.
                assert(encode_utf8(vocab[last.id as int].0) == bytes.subrange(
                    start,
                    last.end as int,
                ));
            }
        }
        assert forall|i: int| 0 <= i < parts.len() implies is_part(vocab, bytes, #[trigger] parts[i]) by {
            if i < before.len() {
                assert(is_part(vocab, bytes, before[i]));
            }
        }
        assert forall|i: int| 0 < i < parts.len() implies #[trigger] parts_touch(parts, i) by {
            if i < before.len() {
                assert(parts_touch(before, i));
            }
        }
        assert(edges_of(parts, unknown) =~= edges_of(before, unknown).push(last));
        assert(pieces =~= pieces.drop_last().push(last));
        parts
    }
}

/// The score of parts by the scores of the vocabulary, where an unknown character scores ten less
/// than the lowest: the scores, added up from the beginning.
pub open spec fn parting_score(encoder: Encoder, parts: Seq<Part>) -> Double {
    parts.fold_left(
        Double { bits: 0 },
        |sum: Double, p: Part|
            (if p.known {
                encoder.vocab[p.id].1
            } else {
                encoder.min_score.plus(Double { bits: 0xc024_0000_0000_0000 })
            }).plus(sum),
    )
}

/// The score of parts by a set of weights. The unknown token scores as unknown characters do.
pub open spec fn parting_weight(m: ModelView, weights: Seq<Single>, parts: Seq<Part>) -> Single {
    parts.fold_left(
        Single { bits: 0 },
        |sum: Single, p: Part|
            sum.plus(
                if p.known && m.encoder.unk_id != Some(p.id as usize) {
                    weights[p.id]
                } else {
                    m.encoder.min_score.plus(Double { bits: 0xc024_0000_0000_0000 }).narrowed()
                },
            ),
    )
}

/// The part is unknown: a character that is no token, or the unknown token itself.
pub open spec fn is_unknown(encoder: Encoder, p: Part) -> bool {
    encoder.unk_id is Some && (!p.known || p.id == encoder.unk_id->0)
}

/// A token begins at a byte: as many bytes as the tokens before it have.
pub open spec fn has_token_at(tokens: Seq<Seq<char>>, x: int) -> bool {
    exists|j: int| 0 <= j < tokens.len() && #[trigger] bytes_before(tokens, j) == x
}

/// How many bytes the first `j` tokens have.
pub open spec fn bytes_before(tokens: Seq<Seq<char>>, j: int) -> int {
    encode_utf8(tokens.take(j).flatten()).len() as int
}

/// The tokens, one after the other, are the sentence, and none is empty. They begin where parts
/// begin; and a part begins a token, unless unknown parts are fused and it follows an unknown part
/// and is one.
pub open spec fn are_tokens_of(
    encoder: Encoder,
    sentence: Seq<char>,
    parts: Seq<Part>,
    tokens: Seq<Seq<char>>,
) -> bool {
    &&& tokens.flatten() == sentence
    &&& forall|j: int| 0 <= j < tokens.len() ==> (#[trigger] tokens[j]).len() > 0
    &&& forall|j: int|
        0 <= j < tokens.len() ==> exists|i: int|
            0 <= i < parts.len() && (#[trigger] parts[i]).start == #[trigger] bytes_before(tokens, j)
    &&& forall|i: int|
        0 <= i < parts.len() ==> has_token_at(tokens, (#[trigger] parts[i]).start) == !(i > 0
            && encoder.fuse_unk && is_unknown(encoder, parts[i]) && is_unknown(
            encoder,
            parts[i - 1],
        ))
}

/// Texts one after the other are their concatenation.
pub proof fn law_joined_is_flatten(texts: Seq<Seq<char>>)
    ensures
        joined(texts) == texts.flatten(),
    decreases texts.len(),
{
    texts.lemma_flatten_and_flatten_alt_are_equivalent();
    if texts.len() > 0 {
        let before = texts.drop_last();
        law_joined_is_flatten(before);
        before.lemma_flatten_and_flatten_alt_are_equivalent();
        assert(joined(texts) =~= texts.flatten_alt());
    } else {
        assert(joined(texts) =~= texts.flatten_alt());
    }
}

/// Tokens begin only where pieces begin.
proof fn lemma_fused_starts(bytes: Seq<u8>, pieces: Seq<Piece>, fuse: Option<usize>, end: int, j: int) -> (i: int)
    requires
        is_chain(bytes, pieces, end),
        0 <= j < fused(pieces, fuse).len(),
    ensures
        0 <= i < pieces.len(),
        pieces[i].start == fused(pieces, fuse)[j].0,
    decreases pieces.len(),
{
    let rest = pieces.drop_last();
    let last = pieces.last();
    let before = fused(rest, fuse);
    lemma_drop_last_chain(bytes, pieces, end);
    lemma_fused_ranges(bytes, rest, fuse, last.start as int);
    lemma_fused_ranges(bytes, pieces, fuse, end);
    if pieces.len() > 1 && fuse == Some(last.id) && pieces[pieces.len() - 2].id == last.id {
        assert(fused(pieces, fuse)[j].0 == before[j].0);
        let i = lemma_fused_starts(bytes, rest, fuse, last.start as int, j);
        assert(rest[i] == pieces[i]);
        i
    } else if j < before.len() {
        assert(fused(pieces, fuse)[j] == before[j]);
        let i = lemma_fused_starts(bytes, rest, fuse, last.start as int, j);
        assert(rest[i] == pieces[i]);
        i
    } else {
        pieces.len() - 1
    }
}

/// Token `j` begins after the bytes of the tokens before it.
proof fn lemma_token_start(sentence: Seq<char>, pieces: Seq<Piece>, fuse: Option<usize>, j: int)
    requires
        is_chain(encode_utf8(sentence), pieces, encode_utf8(sentence).len() as int),
        0 <= j < fused(pieces, fuse).len(),
    ensures
        bytes_before(tokens_of(sentence, pieces, fuse), j) == fused(pieces, fuse)[j].0,
{
    let bytes = encode_utf8(sentence);
    let ranges = fused(pieces, fuse);
    let tokens = tokens_of(sentence, pieces, fuse);
    encode_utf8_valid_utf8(sentence);
    lemma_fused_ranges(bytes, pieces, fuse, bytes.len() as int);
    let first = ranges.take(j);
    assert forall|i: int| 0 <= i < first.len() implies crate::segmentation::is_range(
        bytes,
        #[trigger] first[i],
    ) by {
        assert(crate::segmentation::is_range(bytes, ranges[i]));
    }
    assert forall|i: int| 0 < i < first.len() implies #[trigger] crate::segmentation::ranges_touch(
        first,
        i,
    ) by {
        assert(crate::segmentation::ranges_touch(ranges, i));
    }
    lemma_ranges_join(bytes, first);
    assert(range_texts(bytes, first) =~= tokens.take(j));
    law_joined_is_flatten(tokens.take(j));
    if j > 0 {
        assert(crate::segmentation::ranges_touch(ranges, j));
        assert(first.last() == ranges[j - 1]);
        assert(crate::segmentation::is_range(bytes, ranges[j - 1]));
    }
}

/// The tokens of pieces are those of the parts that the pieces come from.
proof fn lemma_tokens_of_parts(
    encoder: Encoder,
    sentence: Seq<char>,
    pieces: Seq<Piece>,
    parts: Seq<Part>,
)
    requires
        is_chain(encode_utf8(sentence), pieces, encode_utf8(sentence).len() as int),
        pieces.len() == parts.len(),
        encoder.unk_id is Some ==> encoder.unk_id->0 < usize::MAX,
        forall|i: int|
            0 <= i < parts.len() ==> (#[trigger] pieces[i]).start == parts[i].start,
        forall|i: int|
            0 <= i < parts.len() && encoder.unk_id is Some ==> ((#[trigger] pieces[i]).id
                == encoder.unk_id->0) == is_unknown(encoder, parts[i]),
    ensures
        are_tokens_of(
            encoder,
            sentence,
            parts,
            tokens_of(sentence, pieces, encoder.fuse()),
        ),
{
    let bytes = encode_utf8(sentence);
    let fuse = encoder.fuse();
    let tokens = tokens_of(sentence, pieces, fuse);
    let ranges = fused(pieces, fuse);
    let end = bytes.len() as int;
    lemma_tokens_join(sentence, pieces, fuse);
    law_joined_is_flatten(tokens);
    law_only_fused_pieces_join(bytes, pieces, fuse, end);
    assert forall|j: int| 0 <= j < tokens.len() implies exists|i: int|
        0 <= i < parts.len() && (#[trigger] parts[i]).start == #[trigger] bytes_before(tokens, j) by {
        lemma_token_start(sentence, pieces, fuse, j);
        let i = lemma_fused_starts(bytes, pieces, fuse, end, j);
        assert(pieces[i].start == parts[i].start);
    }
    assert forall|i: int| 0 <= i < parts.len() implies has_token_at(
        tokens,
        (#[trigger] parts[i]).start,
    ) == !(i > 0 && encoder.fuse_unk && is_unknown(encoder, parts[i]) && is_unknown(
        encoder,
        parts[i - 1],
    )) by {
        let x = parts[i].start;
        assert(pieces[i].start == x);
        assert(begins_at(ranges, pieces[i].start as int) == !joins(pieces, fuse, i));
        if i > 0 {
            assert(pieces[i - 1].start == parts[i - 1].start);
        }
        if begins_at(ranges, x) {
            let j = choose|j: int| 0 <= j < ranges.len() && (#[trigger] ranges[j]).0 == x;
            lemma_token_start(sentence, pieces, fuse, j);
            assert(bytes_before(tokens, j) == x);
        }
        if has_token_at(tokens, x) {
            let j = choose|j: int| 0 <= j < tokens.len() && #[trigger] bytes_before(tokens, j) == x;
            lemma_token_start(sentence, pieces, fuse, j);
            assert(ranges[j].0 == x);
        }
    }
}

/// A parting without its last part.
proof fn lemma_shorter_parting(vocab: Vocab, bytes: Seq<u8>, parts: Seq<Part>, end: int)
    requires
        is_parting(vocab, bytes, parts, end),
        parts.len() > 0,
    ensures
        is_parting(vocab, bytes, parts.drop_last(), parts.last().start),
        is_part(vocab, bytes, parts.last()),
{
    let before = parts.drop_last();
    assert(is_part(vocab, bytes, parts[parts.len() - 1]));
    assert forall|i: int| 0 <= i < before.len() implies is_part(vocab, bytes, #[trigger] before[i]) by {
        assert(is_part(vocab, bytes, parts[i]));
    }
    assert forall|i: int| 0 < i < before.len() implies #[trigger] parts_touch(before, i) by {
        assert(parts_touch(parts, i));
    }
    if before.len() > 0 {
        assert(parts_touch(parts, parts.len() - 1));
    }
}

/// Parts and their edges have the same score.
proof fn lemma_parting_score(encoder: Encoder, bytes: Seq<u8>, parts: Seq<Part>, end: int)
    requires
        encoder.wf(),
        is_parting(encoder.vocab, bytes, parts, end),
    ensures
        tokenization_score(encoder, edges_of(parts, encoder.fallback())) == parting_score(
            encoder,
            parts,
        ),
    decreases parts.len(),
{
    if parts.len() > 0 {
        let before = parts.drop_last();
        lemma_shorter_parting(encoder.vocab, bytes, parts, end);
        lemma_parting_score(encoder, bytes, before, parts.last().start);
        let pieces = edges_of(parts, encoder.fallback());
        assert(pieces.drop_last() =~= edges_of(before, encoder.fallback()));
    }
}

/// Parts and their edges have the same score by weights.
proof fn lemma_parting_weight(
    m: ModelView,
    weights: Seq<Single>,
    bytes: Seq<u8>,
    parts: Seq<Part>,
    end: int,
)
    requires
        m.wf(),
        m.encoder.unk_id is Some,
        is_parting(m.encoder.vocab, bytes, parts, end),
    ensures
        way_score(m.weighting(weights), edges_of(parts, m.encoder.unk_id->0)) == parting_weight(
            m,
            weights,
            parts,
        ),
    decreases parts.len(),
{
    if parts.len() > 0 {
        let before = parts.drop_last();
        lemma_shorter_parting(m.encoder.vocab, bytes, parts, end);
        lemma_parting_weight(m, weights, bytes, before, parts.last().start);
        let pieces = edges_of(parts, m.encoder.unk_id->0);
        assert(pieces.drop_last() =~= edges_of(before, m.encoder.unk_id->0));
    }
}

/// An encoding gives the tokens of a parting of the sentence, and no other parting has a larger
/// score: for finite scores. Without an id for unknown characters, its parts are all tokens. Left
/// out is a model without such an id that encodes by way of a lattice.
pub proof fn law_encoding_is_best_parting(encoder: Encoder, sentence: Seq<char>) -> (best: Seq<Part>)
    requires
        encoder.wf(),
        sentence.len() > 0,
        encode_utf8(sentence).len() <= usize::MAX,
        encoder.is_optimized || encoder.lattice(encode_utf8(sentence)).len() <= usize::MAX,
        encoder.is_optimized || encoder.unk_id is Some,
        forall|i: int| 0 <= i < encoder.vocab.len() ==> is_finite((#[trigger] encoder.vocab[i]).1),
        is_finite(encoder.min_score.plus(Double { bits: 0xc024_0000_0000_0000 })),
        encoding(encoder, sentence) is Ok,
    ensures
        is_parting(
            encoder.vocab,
            encode_utf8(sentence),
            best,
            encode_utf8(sentence).len() as int,
        ),
        are_tokens_of(encoder, sentence, best, encoding(encoder, sentence)->Ok_0),
        forall|parts: Seq<Part>| #[trigger]
            is_parting(
                encoder.vocab,
                encode_utf8(sentence),
                parts,
                encode_utf8(sentence).len() as int,
            ) ==> !parting_score(encoder, parts).exceeds(parting_score(encoder, best)),
        encoder.unk_id is None ==> forall|i: int| 0 <= i < best.len() ==> (#[trigger] best[i]).known,
{
    let bytes = encode_utf8(sentence);
    let end = bytes.len() as int;
    let vocab = encoder.vocab;
    let fallback = encoder.fallback();
    let g = encoder.graph(bytes);
    encode_utf8_valid_utf8(sentence);
    lemma_empty_text(sentence);
    is_char_boundary_start_end_of_seq(bytes);
    lemma_boundary(bytes, end);
    law_finite_scores_are_numbers(encoder, bytes);
    if encoder.is_optimized {
        let way = best_way(encoder, bytes, end);
        law_encoding_is_attained(encoder, bytes, end);
        let best = lemma_way_is_parting(vocab, fallback, bytes, way, end);
        lemma_parting_score(encoder, bytes, best, end);
        let pieces = node_pieces(encoder, bytes);
        lemma_node_pieces_chain(encoder, sentence);
        assert(pieces == resolved(encoder, way));
        lemma_resolved_parts(encoder, bytes, best, way, end);
        lemma_tokens_of_parts(encoder, sentence, pieces, best);
        assert forall|parts: Seq<Part>| #[trigger] is_parting(vocab, bytes, parts, end) implies !parting_score(
            encoder,
            parts,
        ).exceeds(parting_score(encoder, best)) by {
            lemma_parting_is_way(vocab, fallback, bytes, parts, end);
            lemma_parting_score(encoder, bytes, parts, end);
            law_optimized_is_best(encoder, sentence, edges_of(parts, fallback));
        }
        if encoder.unk_id is None {
            crate::unknown_laws::lemma_way_of_tokens(encoder, bytes, end);
            assert forall|i: int| 0 <= i < best.len() implies (#[trigger] best[i]).known by {
                assert(edges_of(best, fallback)[i] == way[i]);
                assert(crate::unknown_laws::is_token_piece(encoder, bytes, way[i]));
            }
        }
        best
    } else {
        let entries = encoder.lattice(bytes);
        lemma_finite_entries(encoder, bytes);
        law_finite_lattice_scores_are_numbers(entries);
        lemma_lattice(encoder, bytes);
        lemma_never_blocked(encoder, bytes);
        lemma_best_nodes_chain(bytes, entries);
        let nodes = best_nodes(bytes, entries);
        let closed_nodes = nodes.push(1);
        assert(closed_nodes.drop_last() =~= nodes);
        // Some way leads to the end, and the best nodes with the end are one.
        crate::lattice_laws::law_best_nodes_lead_to_end(bytes, entries);
        crate::lattice_laws::law_lattice_way_is_attained(bytes, entries, 1);
        assert(is_lattice_way(entries, closed_nodes, 1));
        assert(nodes.len() > 0);
        assert(closed_nodes[closed_nodes.len() - 2] == nodes.last());
        let l = nodes.last() as int;
        assert(is_lattice_way(entries, nodes, l));
        let way = lemma_nodes_to_way(encoder, bytes, nodes, l);
        let best = lemma_way_is_parting(vocab, fallback, bytes, way, end);
        lemma_parting_score(encoder, bytes, best, end);
        let pieces = pieces_of(entries, nodes);
        assert(pieces == resolved(encoder, way));
        lemma_resolved_parts(encoder, bytes, best, way, end);
        lemma_tokens_of_parts(encoder, sentence, pieces, best);
        assert(!tokenization_score(encoder, way).nan());
        lemma_double_plus_zero(tokenization_score(encoder, way));
        assert forall|parts: Seq<Part>| #[trigger] is_parting(vocab, bytes, parts, end) implies !parting_score(
            encoder,
            parts,
        ).exceeds(parting_score(encoder, best)) by {
            lemma_parting_is_way(vocab, fallback, bytes, parts, end);
            lemma_parting_score(encoder, bytes, parts, end);
            let other = edges_of(parts, fallback);
            let others = lemma_way_to_nodes(encoder, bytes, other, end);
            let closed_others = others.push(1);
            assert(closed_others.drop_last() =~= others);
            assert(closed_others[closed_others.len() - 2] == others.last());
            assert(is_lattice_way(entries, closed_others, 1));
            law_unoptimized_is_best(encoder, sentence, closed_others);
            assert(!tokenization_score(encoder, other).nan());
            lemma_double_plus_zero(tokenization_score(encoder, other));
            lemma_double_exceeds_order(
                lattice_score(entries, closed_others),
                lattice_score(entries, closed_nodes),
            );
            lemma_double_exceeds_order(
                tokenization_score(encoder, other),
                tokenization_score(encoder, way),
            );
        }
        best
    }
}

/// The pieces of a way and the parts that they come from agree on what is unknown.
proof fn lemma_resolved_parts(
    encoder: Encoder,
    bytes: Seq<u8>,
    parts: Seq<Part>,
    way: Seq<Piece>,
    end: int,
)
    requires
        encoder.wf(),
        bytes.len() <= usize::MAX,
        is_parting(encoder.vocab, bytes, parts, end),
        edges_of(parts, encoder.fallback()) == way,
    ensures
        resolved(encoder, way).len() == parts.len(),
        forall|i: int|
            0 <= i < parts.len() ==> (#[trigger] resolved(encoder, way)[i]).start == parts[i].start,
        forall|i: int|
            0 <= i < parts.len() && encoder.unk_id is Some ==> ((#[trigger] resolved(
                encoder,
                way,
            )[i]).id == encoder.unk_id->0) == is_unknown(encoder, parts[i]),
{
    assert forall|i: int| 0 <= i < parts.len() implies (#[trigger] resolved(encoder, way)[i]).start
        == parts[i].start && (encoder.unk_id is Some ==> (resolved(encoder, way)[i].id
        == encoder.unk_id->0) == is_unknown(encoder, parts[i])) by {
        assert(is_part(encoder.vocab, bytes, parts[i]));
        assert(way[i] == edges_of(parts, encoder.fallback())[i]);
    }
}

/// The score that a set of weights gives a sentence is that of a parting of the sentence; the
/// tokens are those of that parting, the number of edges is that of its parts, and no other
/// parting has a larger score: for finite weights.
pub proof fn law_best_score_is_best_parting(m: ModelView, sentence: Seq<char>, weights: Seq<Single>) -> (best:
    Seq<Part>)
    requires
        m.wf(),
        m.encoder.unk_id is Some,
        encode_utf8(sentence).len() < usize::MAX,
        weights.len() == m.encoder.vocab.len(),
        forall|i: int| 0 <= i < weights.len() ==> is_finite_single(#[trigger] weights[i]),
        is_finite_single(
            m.encoder.min_score.plus(Double { bits: 0xc024_0000_0000_0000 }).narrowed(),
        ),
        m.segmentable(sentence, weights),
    ensures
        is_parting(
            m.encoder.vocab,
            encode_utf8(sentence),
            best,
            encode_utf8(sentence).len() as int,
        ),
        parting_weight(m, weights, best) == m.best_score(sentence, weights),
        best.len() == m.best_count(sentence, weights),
        best.len() == best_pieces(
            m.graph(sentence),
            m.weighting(weights),
            encode_utf8(sentence).len() as int,
        ).len(),
        are_tokens_of(m.encoder, sentence, best, m.best_tokens(sentence, weights)),
        forall|parts: Seq<Part>| #[trigger]
            is_parting(
                m.encoder.vocab,
                encode_utf8(sentence),
                parts,
                encode_utf8(sentence).len() as int,
            ) ==> !parting_weight(m, weights, parts).exceeds(m.best_score(sentence, weights)),
{
    let bytes = encode_utf8(sentence);
    let end = bytes.len() as int;
    let encoder = m.encoder;
    let vocab = encoder.vocab;
    let unk = encoder.unk_id->0;
    let g = m.graph(sentence);
    let w = m.weighting(weights);
    encode_utf8_valid_utf8(sentence);
    lemma_graph(vocab, encoder.unk_id, bytes);
    law_best_is_attained(g, w, end);
    let way = best_pieces(g, w, end);
    let best = lemma_way_is_parting(vocab, unk, bytes, way, end);
    lemma_parting_weight(m, weights, bytes, best, end);
    lemma_best_is_chain(sentence, g, w);
    assert forall|i: int| 0 <= i < best.len() implies (#[trigger] way[i]).start == best[i].start
        && (way[i].id == unk) == is_unknown(encoder, best[i]) by {
        assert(is_part(vocab, bytes, best[i]));
        assert(way[i] == edges_of(best, unk)[i]);
    }
    lemma_tokens_of_parts(encoder, sentence, way, best);
    assert forall|s: int, k: int|
        #![trigger g[s][k]]
        0 <= s < g.len() && 0 <= k < g[s].len() implies is_finite_single(w.weight(g[s][k].1)) by {
        let id = g[s][k].1;
        if id != unk {
            assert(is_finite_single(weights[id as int]));
        }
    }
    assert forall|parts: Seq<Part>| #[trigger] is_parting(vocab, bytes, parts, end) implies !parting_weight(
        m,
        weights,
        parts,
    ).exceeds(m.best_score(sentence, weights)) by {
        lemma_parting_is_way(vocab, unk, bytes, parts, end);
        lemma_parting_weight(m, weights, bytes, parts, end);
        lemma_finite_way_not_above_best(g, w, edges_of(parts, unk), end);
    }
    best
}

/// The tokens of a sentence by a set of weights are those of the parting that the links of the best
/// way make up, whatever the weights.
pub proof fn law_best_tokens_follow_links(m: ModelView, sentence: Seq<char>, weights: Seq<Single>) -> (parts:
    Seq<Part>)
    requires
        m.wf(),
        m.encoder.unk_id is Some,
        encode_utf8(sentence).len() < usize::MAX,
        m.segmentable(sentence, weights),
    ensures
        is_parting(
            m.encoder.vocab,
            encode_utf8(sentence),
            parts,
            encode_utf8(sentence).len() as int,
        ),
        edges_of(parts, m.encoder.unk_id->0) == best_pieces(
            m.graph(sentence),
            m.weighting(weights),
            encode_utf8(sentence).len() as int,
        ),
        parts.len() == m.best_count(sentence, weights),
        parting_weight(m, weights, parts) == m.best_score(sentence, weights),
        are_tokens_of(m.encoder, sentence, parts, m.best_tokens(sentence, weights)),
{
    let bytes = encode_utf8(sentence);
    let end = bytes.len() as int;
    let encoder = m.encoder;
    let unk = encoder.unk_id->0;
    let g = m.graph(sentence);
    let w = m.weighting(weights);
    encode_utf8_valid_utf8(sentence);
    lemma_graph(encoder.vocab, encoder.unk_id, bytes);
    law_best_is_attained(g, w, end);
    let way = best_pieces(g, w, end);
    let parts = lemma_way_is_parting(encoder.vocab, unk, bytes, way, end);
    lemma_parting_weight(m, weights, bytes, parts, end);
    lemma_best_is_chain(sentence, g, w);
    assert forall|i: int| 0 <= i < parts.len() implies (#[trigger] way[i]).start == parts[i].start
        && (way[i].id == unk) == is_unknown(encoder, parts[i]) by {
        assert(is_part(encoder.vocab, bytes, parts[i]));
        assert(way[i] == edges_of(parts, unk)[i]);
    }
    lemma_tokens_of_parts(encoder, sentence, way, parts);
    parts
}

/// The tokens of a sentence that is encoded in one pass are those of the parting that the links of
/// the best way make up, whatever the scores.
pub proof fn law_optimized_tokens_follow_links(encoder: Encoder, sentence: Seq<char>) -> (parts: Seq<
    Part,
>)
    requires
        encoder.wf(),
        encode_utf8(sentence).len() <= usize::MAX,
        optimized(encoder, sentence) is Ok,
    ensures
        is_parting(
            encoder.vocab,
            encode_utf8(sentence),
            parts,
            encode_utf8(sentence).len() as int,
        ),
        edges_of(parts, encoder.fallback()) == best_way(
            encoder,
            encode_utf8(sentence),
            encode_utf8(sentence).len() as int,
        ),
        parting_score(encoder, parts) == node(
            encoder,
            encode_utf8(sentence),
            encode_utf8(sentence).len() as int,
        ).score,
        are_tokens_of(encoder, sentence, parts, optimized(encoder, sentence)->Ok_0),
{
    let bytes = encode_utf8(sentence);
    let end = bytes.len() as int;
    encode_utf8_valid_utf8(sentence);
    is_char_boundary_start_end_of_seq(bytes);
    lemma_boundary(bytes, end);
    let way = best_way(encoder, bytes, end);
    law_encoding_is_attained(encoder, bytes, end);
    let parts = lemma_way_is_parting(encoder.vocab, encoder.fallback(), bytes, way, end);
    lemma_parting_score(encoder, bytes, parts, end);
    let pieces = node_pieces(encoder, bytes);
    lemma_node_pieces_chain(encoder, sentence);
    assert(pieces == resolved(encoder, way));
    lemma_resolved_parts(encoder, bytes, parts, way, end);
    lemma_tokens_of_parts(encoder, sentence, pieces, parts);
    parts
}

/// The empty sentence has no tokens; another is encoded in one pass or by way of a lattice, as the
/// model says. By way of a lattice it fails only where there is no id for unknown characters to
/// fuse and some way leads through the lattice; and where nothing is fused, each node of the way
/// gives one token.
pub proof fn law_encoding_by_lattice(encoder: Encoder, sentence: Seq<char>)
    requires
        encoder.wf(),
        encode_utf8(sentence).len() <= usize::MAX,
        encoder.lattice(encode_utf8(sentence)).len() <= usize::MAX,
    ensures
        sentence.len() == 0 ==> encoding(encoder, sentence) == Ok::<Seq<Seq<char>>, UnigramError>(
            seq![],
        ),
        sentence.len() > 0 && encoder.is_optimized ==> encoding(encoder, sentence) == optimized(
            encoder,
            sentence,
        ),
        sentence.len() > 0 && !encoder.is_optimized ==> {
            let bytes = encode_utf8(sentence);
            let entries = encoder.lattice(bytes);
            let nodes = best_nodes(bytes, entries);
            match encoding(encoder, sentence) {
                Err(error) => error == UnigramError::MissingUnkId && encoder.fuse_unk
                    && encoder.unk_id is None && nodes.len() > 0,
                Ok(tokens) => {
                    &&& !(encoder.fuse_unk && encoder.unk_id is None && nodes.len() > 0)
                    &&& !encoder.fuse_unk ==> {
                        &&& tokens.len() == nodes.len()
                        &&& forall|i: int|
                            0 <= i < nodes.len() ==> encode_utf8(#[trigger] tokens[i])
                                == bytes.subrange(
                                entries[nodes[i] as int].pos,
                                entries[nodes[i] as int].pos + entries[nodes[i] as int].length,
                            )
                    }
                },
            }
        },
{
    let bytes = encode_utf8(sentence);
    let entries = encoder.lattice(bytes);
    let nodes = best_nodes(bytes, entries);
    encode_utf8_valid_utf8(sentence);
    lemma_lattice(encoder, bytes);
    if sentence.len() > 0 && !encoder.is_optimized && !encoder.fuse_unk {
        let pieces = pieces_of(entries, nodes);
        crate::unknown_laws::lemma_nothing_fused(pieces);
        if !crate::lattice::blocked(bytes, entries) {
            lemma_best_nodes_chain(bytes, entries);
        }
        let tokens = tokens_of(sentence, pieces, None);
        assert forall|i: int| 0 <= i < nodes.len() implies encode_utf8(#[trigger] tokens[i])
            == bytes.subrange(
            entries[nodes[i] as int].pos,
            entries[nodes[i] as int].pos + entries[nodes[i] as int].length,
        ) by {
            assert(fused(pieces, None)[i] == (pieces[i].start as int, pieces[i].end as int));
            let n = nodes[i] as int;
            assert(crate::lattice::is_entry(bytes, entries[n]));
            crate::sentence::lemma_piece_valid(bytes, entries[n].pos, entries[n].end());
        }
    }
}

} // verus!
