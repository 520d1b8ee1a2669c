//! What holds of unknown characters and of the id that stands for them.

use crate::agreement::lemma_entry_source;
use crate::encoding::{
    fallback_wins, law_optimized_covers, lemma_reached, node, node_at, optimized, Encoder,
};
use crate::encoding_laws::{best_way, law_encoding_is_attained, raw_links, resolved};
use crate::error::UnigramError;
use crate::lattice::{best_nodes, blocked, lemma_best_nodes_chain, pieces_of};
use crate::lattice_encoding::{encoding, lemma_lattice};
use crate::model::query::default_view;
use crate::optimality::is_way;
use crate::prepared_dp::{
    best, best_init, best_links, best_pieces, best_step, forward, forward_init, forward_step,
};
use crate::scan::lemma_same_steps;
use crate::segmentation::{fused, is_chain, joined, tokens_of, trace, Piece};
use crate::sentence::{boundary, lemma_boundary, lemma_char_step, lemma_empty_text};
use crate::single::Single;
use crate::tokenization::{byte_total, group, sentence_tokens, tokenized, TokenView};
use crate::vocabulary::{
    edges_at, ids, is_token_edge, lemma_graph, lemma_ids, lemma_token_edges, token_edges,
};
use crate::weight_sets::ModelView;
use vstd::prelude::*;
use vstd::utf8::{encode_utf8, encode_utf8_valid_utf8, is_char_boundary_start_end_of_seq, valid_utf8};

verus! {

/// Where no unknown character wins, none is on the way to a place.
proof fn lemma_no_fallback_at(encoder: Encoder, bytes: Seq<u8>, end: int, start: int, taken: int)
    requires
        encoder.wf(),
        valid_utf8(bytes),
        bytes.len() <= usize::MAX,
        forall|s: int| !(#[trigger] fallback_wins(encoder, bytes, s)),
        0 <= end,
        0 <= start < encoder.graph(bytes).len(),
        0 <= taken <= encoder.graph(bytes)[start].len(),
    ensures
        node_at(encoder, bytes, end, start, taken).start >= 0 ==> node_at(
            encoder,
            bytes,
            end,
            start,
            taken,
        ).id != encoder.fallback(),
    decreases start, taken,
{
    let g = encoder.graph(bytes);
    if taken > 0 {
        lemma_no_fallback_at(encoder, bytes, end, start, taken - 1);
        let before = node_at(encoder, bytes, end, start, taken - 1);
        let known = node_at(encoder, bytes, end, start, taken);
        if known != before && known.id == encoder.fallback() {
            let row = edges_at(encoder.vocab, Some(encoder.fallback()), bytes, start);
            let tokens = token_edges(encoder.vocab, bytes, start);
            assert(g[start] == row);
            lemma_token_edges(encoder.vocab, bytes, start);
            lemma_char_step(bytes, start);
            if taken - 1 < tokens.len() {
                assert(row[taken - 1] == tokens[taken - 1]);
                assert(is_token_edge(encoder.vocab, bytes, start, tokens[taken - 1]));
            }
            assert(taken - 1 == tokens.len());
            assert(fallback_wins(encoder, bytes, start));
        }
    } else if start > 0 {
        lemma_no_fallback_at(encoder, bytes, end, start - 1, g[start - 1].len() as int);
    }
}

/// The piece is a token.
pub open spec fn is_token_piece(encoder: Encoder, bytes: Seq<u8>, p: Piece) -> bool {
    is_token_edge(encoder.vocab, bytes, p.start as int, (p.end, p.id))
}

/// An edge of a graph that is not that of an unknown character is that of a token.
proof fn lemma_edge_is_token(encoder: Encoder, bytes: Seq<u8>, s: int, k: int)
    requires
        encoder.wf(),
        valid_utf8(bytes),
        bytes.len() <= usize::MAX,
        0 <= s < encoder.graph(bytes).len(),
        0 <= k < encoder.graph(bytes)[s].len(),
        encoder.graph(bytes)[s][k].1 != encoder.fallback(),
    ensures
        is_token_edge(encoder.vocab, bytes, s, encoder.graph(bytes)[s][k]),
{
    let row = edges_at(encoder.vocab, Some(encoder.fallback()), bytes, s);
    let tokens = token_edges(encoder.vocab, bytes, s);
    assert(encoder.graph(bytes)[s] == row);
    lemma_token_edges(encoder.vocab, bytes, s);
    if k < tokens.len() {
        assert(row[k] == tokens[k]);
    }
}

/// Where no unknown character wins, the best way to a place is made of tokens.
pub proof fn lemma_way_of_tokens(encoder: Encoder, bytes: Seq<u8>, end: int)
    requires
        encoder.wf(),
        valid_utf8(bytes),
        bytes.len() <= usize::MAX,
        forall|s: int| !(#[trigger] fallback_wins(encoder, bytes, s)),
        boundary(bytes, end),
    ensures
        forall|i: int|
            0 <= i < best_way(encoder, bytes, end).len() ==> is_token_piece(
                encoder,
                bytes,
                #[trigger] best_way(encoder, bytes, end)[i],
            ),
    decreases end,
{
    if end > 0 {
        let g = encoder.graph(bytes);
        let way = best_way(encoder, bytes, end);
        lemma_reached(encoder, bytes, end);
        lemma_no_fallback_at(encoder, bytes, end, end, 0);
        let known = node(encoder, bytes, end);
        lemma_way_of_tokens(encoder, bytes, known.start);
        let before = best_way(encoder, bytes, known.start);
        let last = Piece { start: known.start as usize, end: end as usize, id: known.id };
        assert(raw_links(encoder, bytes)(end) == (known.start, known.id));
        assert(way == before.push(last));
        let k = choose|k: int|
            0 <= k < g[known.start].len() && #[trigger] g[known.start][k] == (
                end as usize,
                known.id,
            );
        lemma_edge_is_token(encoder, bytes, known.start, k);
        assert forall|i: int| 0 <= i < way.len() implies is_token_piece(
            encoder,
            bytes,
            #[trigger] way[i],
        ) by {
            if i < before.len() {
                assert(way[i] == before[i]);
            }
        }
    }
}

/// Where nothing is fused, each piece is a token of its own.
pub proof fn lemma_nothing_fused(pieces: Seq<Piece>)
    ensures
        fused(pieces, None).len() == pieces.len(),
        forall|i: int|
            0 <= i < pieces.len() ==> (#[trigger] fused(pieces, None)[i]) == (
                pieces[i].start as int,
                pieces[i].end as int,
            ),
    decreases pieces.len(),
{
    if pieces.len() > 0 {
        lemma_nothing_fused(pieces.drop_last());
        let rest = pieces.drop_last();
        let before = fused(rest, None);
        let all = fused(pieces, None);
        assert forall|i: int| 0 <= i < pieces.len() implies (#[trigger] all[i]) == (
            pieces[i].start as int,
            pieces[i].end as int,
        ) by {
            if i < before.len() {
                assert(all[i] == before[i]);
                assert(rest[i] == pieces[i]);
            }
        }
    }
}

/// The tokens of pieces that are tokens are in the vocabulary.
proof fn lemma_token_texts(encoder: Encoder, sentence: Seq<char>, pieces: Seq<Piece>)
    requires
        forall|i: int|
            0 <= i < pieces.len() ==> is_token_piece(
                encoder,
                encode_utf8(sentence),
                #[trigger] pieces[i],
            ),
    ensures
        forall|i: int|
            0 <= i < tokens_of(sentence, pieces, None).len() ==> ids(encoder.vocab).contains_key(
                #[trigger] tokens_of(sentence, pieces, None)[i],
            ),
{
    lemma_nothing_fused(pieces);
    let ranges = fused(pieces, None);
    let tokens = tokens_of(sentence, pieces, None);
    assert forall|i: int| 0 <= i < tokens.len() implies ids(encoder.vocab).contains_key(
        #[trigger] tokens[i],
    ) by {
        assert(ranges[i] == (pieces[i].start as int, pieces[i].end as int));
        assert(is_token_piece(encoder, encode_utf8(sentence), pieces[i]));
    }
}

/// Without an id for unknown characters, an encoding that succeeds holds only tokens of the
/// vocabulary.
pub proof fn law_without_unk_only_tokens(encoder: Encoder, sentence: Seq<char>)
    requires
        encoder.wf(),
        encoder.unk_id is None,
        encode_utf8(sentence).len() <= usize::MAX,
        encoder.lattice(encode_utf8(sentence)).len() <= usize::MAX,
    ensures
        encoding(encoder, sentence) matches Ok(tokens) ==> forall|i: int|
            0 <= i < tokens.len() ==> ids(encoder.vocab).contains_key(#[trigger] tokens[i]),
{
    let bytes = encode_utf8(sentence);
    let end = bytes.len() as int;
    encode_utf8_valid_utf8(sentence);
    if sentence.len() == 0 {
    } else if encoder.is_optimized {
        if optimized(encoder, sentence) is Ok {
            is_char_boundary_start_end_of_seq(bytes);
            lemma_boundary(bytes, end);
            law_encoding_is_attained(encoder, bytes, end);
            lemma_way_of_tokens(encoder, bytes, end);
            let way = best_way(encoder, bytes, end);
            assert(resolved(encoder, way) =~= way);
            lemma_token_texts(encoder, sentence, way);
        }
    } else {
        let entries = encoder.lattice(bytes);
        let way = best_nodes(bytes, entries);
        let pieces = pieces_of(entries, way);
        lemma_lattice(encoder, bytes);
        if !blocked(bytes, entries) {
            lemma_best_nodes_chain(bytes, entries);
        }
        assert forall|i: int| 0 <= i < pieces.len() implies is_token_piece(
            encoder,
            bytes,
            #[trigger] pieces[i],
        ) by {
            let n = way[i] as int;
            assert(entries[n] == encoder.entries_before(bytes, end)[n - 2]);
            let (s, k) = lemma_entry_source(encoder, bytes, n - 2, end);
            let row = edges_at(encoder.vocab, None, bytes, s);
            lemma_token_edges(encoder.vocab, bytes, s);
            assert(row[k] == token_edges(encoder.vocab, bytes, s)[k]);
        }
        lemma_token_texts(encoder, sentence, pieces);
    }
}

/// Texts of the vocabulary have tokens.
proof fn lemma_known_texts(m: ModelView, texts: Seq<Seq<char>>)
    requires
        forall|i: int|
            0 <= i < texts.len() ==> ids(m.encoder.vocab).contains_key(#[trigger] texts[i]),
    ensures
        tokenized(m, texts) is Ok,
    decreases texts.len(),
{
    if texts.len() > 0 {
        let before = texts.drop_last();
        assert forall|i: int| 0 <= i < before.len() implies ids(m.encoder.vocab).contains_key(
            #[trigger] before[i],
        ) by {
            assert(before[i] == texts[i]);
        }
        lemma_known_texts(m, before);
        assert(texts.last() == texts[texts.len() - 1]);
    }
}

/// Without an id for unknown characters, a sentence that can be encoded can be tokenized.
pub proof fn law_without_unk_tokenizes(m: ModelView, sentence: Seq<char>)
    requires
        m.wf(),
        m.encoder.unk_id is None,
        encode_utf8(sentence).len() <= usize::MAX,
        m.encoder.lattice(encode_utf8(sentence)).len() <= usize::MAX,
    ensures
        sentence_tokens(m, sentence) is Ok <==> encoding(m.encoder, sentence) is Ok,
{
    law_without_unk_only_tokens(m.encoder, sentence);
    match encoding(m.encoder, sentence) {
        Ok(texts) => {
            lemma_known_texts(m, texts);
        },
        Err(_) => {},
    }
}

/// Pieces that all have the fused id form one token.
proof fn lemma_all_fused(bytes: Seq<u8>, pieces: Seq<Piece>, id: usize, end: int)
    requires
        is_chain(bytes, pieces, end),
        pieces.len() > 0,
        forall|i: int| 0 <= i < pieces.len() ==> (#[trigger] pieces[i]).id == id,
    ensures
        fused(pieces, Some(id)) == seq![(0int, end)],
    decreases pieces.len(),
{
    let rest = pieces.drop_last();
    let last = pieces.last();
    if rest.len() > 0 {
        crate::segmentation::lemma_drop_last_chain(bytes, pieces, end);
        assert forall|i: int| 0 <= i < rest.len() implies (#[trigger] rest[i]).id == id by {
            assert(rest[i] == pieces[i]);
        }
        lemma_all_fused(bytes, rest, id, last.start as int);
        assert(pieces[pieces.len() - 2].id == id);
        assert(pieces[pieces.len() - 1].id == id);
        assert(fused(pieces, Some(id)) =~= seq![(0int, end)]);
    } else {
        assert(fused(rest, Some(id)) =~= Seq::<(int, int)>::empty());
        assert(fused(pieces, Some(id)) =~= seq![(0int, end)]);
    }
}

/// The default model gives one token for any text: the unknown one, for the whole text.
pub proof fn law_default_is_one_unknown(sentence: Seq<char>)
    requires
        sentence.len() > 0,
        encode_utf8(sentence).len() <= usize::MAX,
    ensures
        encoding(default_view().encoder, sentence) == Ok::<Seq<Seq<char>>, UnigramError>(
            seq![sentence],
        ),
        sentence_tokens(default_view(), sentence) == Ok::<Seq<TokenView>, UnigramError>(
            seq![
                TokenView {
                    id: 0,
                    value: sentence,
                    start: 0,
                    end: encode_utf8(sentence).len() as int,
                },
            ],
        ),
{
    let m = default_view();
    let encoder = m.encoder;
    let bytes = encode_utf8(sentence);
    let end = bytes.len() as int;
    let g = encoder.graph(bytes);
    encode_utf8_valid_utf8(sentence);
    lemma_empty_text(sentence);
    is_char_boundary_start_end_of_seq(bytes);
    lemma_boundary(bytes, end);
    law_encoding_is_attained(encoder, bytes, end);
    let way = best_way(encoder, bytes, end);
    let pieces = crate::encoding::node_pieces(encoder, bytes);
    assert(pieces == resolved(encoder, way));
    lemma_way_ids(encoder, bytes, way, end);
    assert forall|i: int| 0 <= i < pieces.len() implies (#[trigger] pieces[i]).id == 0 by {
        assert(way[i].id <= 1);
    }
    crate::encoding::lemma_node_pieces_chain(encoder, sentence);
    lemma_all_fused(bytes, pieces, 0, end);
    law_optimized_covers(encoder, sentence);
    let tokens = tokens_of(sentence, pieces, encoder.fuse());
    assert(tokens.len() == 1);
    assert(tokens.drop_last() =~= Seq::<Seq<char>>::empty());
    assert(joined(tokens.drop_last()) =~= Seq::<char>::empty());
    assert(joined(tokens) =~= tokens.last());
    assert(tokens =~= seq![sentence]);
    lemma_ids(encoder.vocab, sentence);
    let texts = seq![sentence];
    assert(texts.drop_last() =~= Seq::<Seq<char>>::empty());
    assert(tokenized(m, texts.drop_last()) == Ok::<Seq<TokenView>, UnigramError>(seq![]));
    assert(byte_total(texts.drop_last()) == 0);
    let more = group(m, sentence, 0);
    assert(tokenized(m, texts) == Ok::<Seq<TokenView>, UnigramError>(seq![] + more->Ok_0));
    assert(seq![] + more->Ok_0 =~= seq![
        TokenView { id: 0, value: sentence, start: 0, end },
    ]);
}

/// The ids on a way are ids of the vocabulary or that of unknown characters.
proof fn lemma_way_ids(encoder: Encoder, bytes: Seq<u8>, pieces: Seq<Piece>, end: int)
    requires
        encoder.wf(),
        valid_utf8(bytes),
        bytes.len() <= usize::MAX,
        0 <= end <= bytes.len(),
        is_way(encoder.graph(bytes), pieces, end),
    ensures
        forall|i: int|
            0 <= i < pieces.len() ==> (#[trigger] pieces[i]).id <= encoder.vocab.len(),
    decreases pieces.len(),
{
    if pieces.len() > 0 {
        let g = encoder.graph(bytes);
        let last = pieces.last();
        let start = last.start as int;
        let before = pieces.drop_last();
        lemma_graph(encoder.vocab, Some(encoder.fallback()), bytes);
        lemma_way_ids(encoder, bytes, before, start);
        let k = choose|k: int|
            0 <= k < g[start].len() && #[trigger] g[start][k] == (last.end, last.id);
        assert(g[start][k].1 == last.id);
        assert forall|i: int| 0 <= i < pieces.len() implies (#[trigger] pieces[i]).id
            <= encoder.vocab.len() by {
            if i < before.len() {
                assert(pieces[i] == before[i]);
            }
        }
    }
}

/// Links that agree up to a place lead to the same segmentation.
proof fn lemma_agreeing_links(
    a: spec_fn(int) -> (int, usize),
    b: spec_fn(int) -> (int, usize),
    end: int,
)
    requires
        forall|x: int| 0 < x <= end ==> #[trigger] a(x) == b(x),
    ensures
        trace(a, end) == trace(b, end),
    decreases end,
{
    if end > 0 {
        assert(a(end) == b(end));
        if 0 <= a(end).0 < end {
            lemma_agreeing_links(a, b, a(end).0);
        }
    }
}

/// The weight that a set holds for the unknown token is never used: sets that differ only there
/// give every sentence the same scores and tokens.
pub proof fn law_weight_of_unknown_is_unused(
    m: ModelView,
    sentence: Seq<char>,
    a: Seq<Single>,
    b: Seq<Single>,
    log_1p_exp: spec_fn(Single) -> Single,
)
    requires
        m.wf(),
        m.encoder.unk_id is Some,
        encode_utf8(sentence).len() <= usize::MAX,
        a.len() == m.encoder.vocab.len(),
        b.len() == m.encoder.vocab.len(),
        forall|i: int| 0 <= i < a.len() && i != m.encoder.unk_id->0 ==> #[trigger] a[i] == b[i],
    ensures
        m.best_score(sentence, a) == m.best_score(sentence, b),
        m.best_count(sentence, a) == m.best_count(sentence, b),
        m.best_tokens(sentence, a) == m.best_tokens(sentence, b),
        ({
            let end = encode_utf8(sentence).len() as int;
            forward(log_1p_exp, m.graph(sentence), m.weighting(a), end) == forward(
                log_1p_exp,
                m.graph(sentence),
                m.weighting(b),
                end,
            )
        }),
{
    let g = m.graph(sentence);
    let v = m.weighting(a);
    let w = m.weighting(b);
    let end = encode_utf8(sentence).len() as int;
    encode_utf8_valid_utf8(sentence);
    lemma_graph(m.encoder.vocab, m.encoder.unk_id, encode_utf8(sentence));
    assert forall|s: int, k: int|
        #![trigger g[s][k]]
        0 <= s < g.len() && 0 <= k < g[s].len() implies v.weight(g[s][k].1) == w.weight(g[s][k].1) by {
        let id = g[s][k].1;
        if id != m.encoder.unk_id->0 {
            assert(a[id as int] == b[id as int]);
        }
    }
    assert forall|x: int| 0 <= x <= end implies #[trigger] best(g, v, x) == best(g, w, x) by {
        lemma_same_steps(g, best_init(), best_step(v), best_step(w), x, x, 0);
    }
    lemma_same_steps(
        g,
        forward_init(),
        forward_step(log_1p_exp, v),
        forward_step(log_1p_exp, w),
        end,
        end,
        0,
    );
    assert forall|x: int| 0 < x <= end implies #[trigger] best_links(g, v)(x) == best_links(g, w)(
        x,
    ) by {
        assert(best(g, v, x) == best(g, w, x));
    }
    lemma_agreeing_links(best_links(g, v), best_links(g, w), end);
    assert(best_pieces(g, v, end) == best_pieces(g, w, end));
    assert(best(g, v, end) == best(g, w, end));
}

} // verus!
