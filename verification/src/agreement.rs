//! The encoding in one pass and the encoding by way of a lattice agree.

use crate::double::{
    is_finite, lemma_double_exceeds_is_above, lemma_double_exceeds_order,
    lemma_double_plus_commutes, lemma_double_plus_zero,
};
use crate::encoding::{optimized, Encoder};
use crate::encoding_laws::{
    best_way, law_finite_scores_are_numbers, law_optimized_is_best, resolved, tokenization_score,
};
use crate::error::UnigramError;
use crate::lattice::{best_nodes, lemma_best_nodes_chain, pieces_of};
use crate::lattice_encoding::{
    lemma_entry_place, lemma_lattice, lemma_never_blocked, unoptimized,
};
use crate::lattice_laws::{
    is_lattice_way, lattice_score, law_finite_lattice_scores_are_numbers, law_unoptimized_is_best,
};
use crate::optimality::{is_edge, is_way};
use crate::segmentation::{tokens_of, Piece};
use crate::sentence::lemma_empty_text;
use crate::vocabulary::{edges_at, lemma_graph};
use vstd::prelude::*;
use vstd::utf8::{encode_utf8, encode_utf8_valid_utf8, valid_utf8};

verus! {

/// The tokenization is better than every other.
pub open spec fn stands_alone(encoder: Encoder, bytes: Seq<u8>, only: Seq<Piece>) -> bool {
    &&& is_way(encoder.graph(bytes), only, bytes.len() as int)
    &&& forall|other: Seq<Piece>| #[trigger]
        is_way(encoder.graph(bytes), other, bytes.len() as int) && other != only
            ==> tokenization_score(encoder, only).exceeds(tokenization_score(encoder, other))
}

/// Where an entry comes from: a place, and an edge from it.
pub proof fn lemma_entry_source(encoder: Encoder, bytes: Seq<u8>, i: int, upto: int) -> (source: (int, int))
    requires
        0 <= i < encoder.entries_before(bytes, upto).len(),
    ensures
        0 <= source.0 < upto,
        0 <= source.1 < edges_at(encoder.vocab, encoder.known_fallback(), bytes, source.0).len(),
        encoder.entries_before(bytes, upto)[i] == encoder.entry(
            source.0,
            edges_at(encoder.vocab, encoder.known_fallback(), bytes, source.0)[source.1],
        ),
    decreases upto,
{
    let earlier = encoder.entries_before(bytes, upto - 1);
    let row = encoder.entries_at(bytes, upto - 1);
    if i < earlier.len() {
        assert(encoder.entries_before(bytes, upto)[i] == earlier[i]);
        lemma_entry_source(encoder, bytes, i, upto - 1)
    } else {
        assert(encoder.entries_before(bytes, upto)[i] == row[i - earlier.len()]);
        (upto - 1, i - earlier.len())
    }
}

/// A way through the lattice is a way through the graph, with the same score and pieces.
pub proof fn lemma_nodes_to_way(encoder: Encoder, bytes: Seq<u8>, nodes: Seq<usize>, n: int) -> (pieces:
    Seq<Piece>)
    requires
        encoder.wf(),
        encoder.unk_id is Some,
        valid_utf8(bytes),
        bytes.len() <= usize::MAX,
        is_lattice_way(encoder.lattice(bytes), nodes, n),
        2 <= n,
    ensures
        is_way(encoder.graph(bytes), pieces, encoder.lattice(bytes)[n].end()),
        tokenization_score(encoder, pieces) == lattice_score(encoder.lattice(bytes), nodes),
        resolved(encoder, pieces) == pieces_of(encoder.lattice(bytes), nodes),
    decreases nodes.len(),
{
    let entries = encoder.lattice(bytes);
    let g = encoder.graph(bytes);
    let earlier = nodes.drop_last();
    let before = if nodes.len() == 1 {
        assert(earlier =~= Seq::<usize>::empty());
        Seq::<Piece>::empty()
    } else {
        lemma_nodes_to_way(encoder, bytes, earlier, nodes[nodes.len() - 2] as int)
    };
    assert(entries[n] == encoder.entries_before(bytes, bytes.len() as int)[n - 2]);
    let (s, k) = lemma_entry_source(encoder, bytes, n - 2, bytes.len() as int);
    let row = edges_at(encoder.vocab, encoder.known_fallback(), bytes, s);
    assert(g[s] == row);
    lemma_graph(encoder.vocab, Some(encoder.fallback()), bytes);
    assert(s < g[s][k].0 <= bytes.len());
    let last = Piece { start: s as usize, end: row[k].0, id: row[k].1 };
    let pieces = before.push(last);
    assert(pieces.drop_last() =~= before);
    assert(g[last.start as int][k] == (last.end, last.id));
    assert(is_edge(g, last));
    assert(entries[n].pos == s && entries[n].end() == last.end);
    assert(is_way(g, before, s)) by {
        if nodes.len() == 1 {
            assert(is_way(g, Seq::<Piece>::empty(), 0));
        }
    }
    assert(tokenization_score(encoder, before) == lattice_score(entries, earlier));
    lemma_double_plus_commutes(encoder.weight(last.id), tokenization_score(encoder, before));
    assert(resolved(encoder, pieces) =~= pieces_of(entries, nodes)) by {
        assert(resolved(encoder, before) =~= pieces_of(entries, earlier));
        assert(resolved(encoder, before).len() == before.len());
        assert(pieces_of(entries, earlier).len() == earlier.len());
        assert forall|i: int| 0 <= i < pieces.len() implies resolved(encoder, pieces)[i]
            == pieces_of(entries, nodes)[i] by {
            if i < before.len() {
                assert(resolved(encoder, before)[i] == pieces_of(entries, earlier)[i]);
                assert(earlier[i] == nodes[i]);
            }
        }
    }
    pieces
}

/// A way through the graph is a way through the lattice, with the same score.
pub proof fn lemma_way_to_nodes(encoder: Encoder, bytes: Seq<u8>, pieces: Seq<Piece>, end: int) -> (nodes:
    Seq<usize>)
    requires
        encoder.wf(),
        encoder.unk_id is Some,
        valid_utf8(bytes),
        bytes.len() <= usize::MAX,
        encoder.lattice(bytes).len() <= usize::MAX,
        0 < end <= bytes.len(),
        is_way(encoder.graph(bytes), pieces, end),
    ensures
        nodes.len() > 0,
        2 <= nodes.last(),
        is_lattice_way(encoder.lattice(bytes), nodes, nodes.last() as int),
        encoder.lattice(bytes)[nodes.last() as int].end() == end,
        lattice_score(encoder.lattice(bytes), nodes) == tokenization_score(encoder, pieces),
    decreases pieces.len(),
{
    let entries = encoder.lattice(bytes);
    let g = encoder.graph(bytes);
    let last = pieces.last();
    let s = last.start as int;
    let before = pieces.drop_last();
    let k = choose|k: int| 0 <= k < g[s].len() && #[trigger] g[s][k] == (last.end, last.id);
    let row = edges_at(encoder.vocab, encoder.known_fallback(), bytes, s);
    assert(g[s] == row);
    let place = lemma_entry_place(encoder, bytes, s, k, bytes.len() as int);
    let n = place + 2;
    assert(entries[n] == encoder.entries_before(bytes, bytes.len() as int)[place]);
    assert(entries[n] == encoder.entry(s, row[k]));
    let earlier = if s == 0 {
        Seq::<usize>::empty()
    } else {
        lemma_way_to_nodes(encoder, bytes, before, s)
    };
    let nodes = earlier.push(n as usize);
    assert(nodes.drop_last() =~= earlier);
    if s != 0 {
        assert(nodes[nodes.len() - 2] == earlier.last());
    } else {
        assert(is_way(g, before, 0));
        assert(before.len() == 0);
    }
    assert(is_lattice_way(entries, nodes, n));
    assert(lattice_score(entries, earlier) == tokenization_score(encoder, before));
    lemma_double_plus_commutes(encoder.weight(last.id), tokenization_score(encoder, before));
    nodes
}

/// The entries of a lattice have finite scores, where the tokens and unknown characters have.
pub proof fn lemma_finite_entries(encoder: Encoder, bytes: Seq<u8>)
    requires
        encoder.wf(),
        encoder.unk_id is Some,
        valid_utf8(bytes),
        bytes.len() <= usize::MAX,
        forall|i: int| 0 <= i < encoder.vocab.len() ==> is_finite((#[trigger] encoder.vocab[i]).1),
        is_finite(encoder.unk_score()),
    ensures
        forall|n: int|
            0 <= n < encoder.lattice(bytes).len() ==> is_finite(
                (#[trigger] encoder.lattice(bytes)[n]).score,
            ),
{
    let entries = encoder.lattice(bytes);
    let g = encoder.graph(bytes);
    lemma_graph(encoder.vocab, Some(encoder.fallback()), bytes);
    assert forall|n: int| 0 <= n < entries.len() implies is_finite((#[trigger] entries[n]).score) by {
        if n >= 2 {
            assert(entries[n] == encoder.entries_before(bytes, bytes.len() as int)[n - 2]);
            let (s, k) = lemma_entry_source(encoder, bytes, n - 2, bytes.len() as int);
            let row = edges_at(encoder.vocab, encoder.known_fallback(), bytes, s);
            assert(g[s] == row);
            let id = g[s][k].1;
            if id != encoder.fallback() {
                assert(is_finite(encoder.vocab[id as int].1));
            }
        }
    }
}

/// Where one tokenization is better than every other, both ways of encoding give its tokens, for
/// finite scores. A model has to have an id for unknown characters: without one, only the
/// encoding in one pass looks at characters that are no tokens.
pub proof fn law_both_encodings_agree(encoder: Encoder, sentence: Seq<char>, only: Seq<Piece>)
    requires
        encoder.wf(),
        encoder.unk_id is Some,
        sentence.len() > 0,
        encode_utf8(sentence).len() <= usize::MAX,
        encoder.lattice(encode_utf8(sentence)).len() <= usize::MAX,
        forall|i: int| 0 <= i < encoder.vocab.len() ==> is_finite((#[trigger] encoder.vocab[i]).1),
        is_finite(encoder.unk_score()),
        stands_alone(encoder, encode_utf8(sentence), only),
    ensures
        optimized(encoder, sentence) == Ok::<Seq<Seq<char>>, UnigramError>(
            tokens_of(sentence, resolved(encoder, only), encoder.fuse()),
        ),
        unoptimized(encoder, sentence) == optimized(encoder, sentence),
{
    let bytes = encode_utf8(sentence);
    let end = bytes.len() as int;
    let g = encoder.graph(bytes);
    let entries = encoder.lattice(bytes);
    encode_utf8_valid_utf8(sentence);
    lemma_empty_text(sentence);
    law_finite_scores_are_numbers(encoder, bytes);
    lemma_finite_entries(encoder, bytes);
    law_finite_lattice_scores_are_numbers(entries);
    // In one pass.
    law_optimized_is_best(encoder, sentence, only);
    let first = best_way(encoder, bytes, end);
    assert(first == only);
    // By way of the lattice.
    lemma_lattice(encoder, bytes);
    lemma_never_blocked(encoder, bytes);
    lemma_best_nodes_chain(bytes, entries);
    let nodes = lemma_way_to_nodes(encoder, bytes, only, end);
    let closed_nodes = nodes.push(1);
    assert(closed_nodes.drop_last() =~= nodes);
    assert(closed_nodes[closed_nodes.len() - 2] == nodes.last());
    assert(is_lattice_way(entries, closed_nodes, 1));
    law_unoptimized_is_best(encoder, sentence, closed_nodes);
    let best = best_nodes(bytes, entries);
    let closed_best = best.push(1);
    assert(closed_best.drop_last() =~= best);
    assert(best.len() > 0);
    assert(closed_best[closed_best.len() - 2] == best.last());
    let l = best.last() as int;
    assert(is_lattice_way(entries, best, l));
    let second = lemma_nodes_to_way(encoder, bytes, best, l);
    assert(is_way(g, second, end));
    assert(!tokenization_score(encoder, only).nan());
    assert(!tokenization_score(encoder, second).nan());
    lemma_double_plus_zero(tokenization_score(encoder, only));
    lemma_double_plus_zero(tokenization_score(encoder, second));
    assert(lattice_score(entries, closed_nodes).value() == tokenization_score(
        encoder,
        only,
    ).value());
    assert(lattice_score(entries, closed_best).value() == tokenization_score(
        encoder,
        second,
    ).value());
    lemma_double_exceeds_order(
        lattice_score(entries, closed_nodes),
        lattice_score(entries, closed_best),
    );
    if second != only {
        lemma_double_exceeds_is_above(
            tokenization_score(encoder, only),
            tokenization_score(encoder, second),
        );
    }
}

} // verus!
