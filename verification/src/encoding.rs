//! What a model's encoding of a sentence is.

use crate::cache::texts_of;
use crate::double::Double;
use crate::error::UnigramError;
use crate::scan::{scan, settled, Edges};
use crate::segmentation::{
    is_chain, joined, lemma_tokens_join, lemma_trace_is_chain, tokens_of, trace, Piece,
};
use crate::sentence::{boundary, char_len, lemma_boundary, lemma_char_step};
use crate::vocabulary::{
    edges_at, fits, graph, has_single, lemma_graph, lemma_token_edges, token_edges, Vocab,
};
use vstd::prelude::*;
use vstd::utf8::{encode_utf8, encode_utf8_valid_utf8, is_char_boundary_start_end_of_seq, valid_utf8};

verus! {

/// The bit pattern of minus ten: an unknown character scores this much less than the lowest
/// score of the vocabulary.
pub const UNK_PENALTY: u64 = 0xc024_0000_0000_0000;

/// Everything that an encoding depends on besides the sentence.
pub struct Encoder {
    pub vocab: Vocab,
    pub unk_id: Option<usize>,
    pub min_score: Double,
    pub fuse_unk: bool,
    pub is_optimized: bool,
}

impl Encoder {
    /// The vocabulary is not too large, and the unknown id is in it.
    pub open spec fn wf(self) -> bool {
        &&& fits(self.vocab)
        &&& self.unk_id is Some ==> self.unk_id->0 < self.vocab.len()
    }

    /// The score of an unknown character.
    pub open spec fn unk_score(self) -> Double {
        self.min_score.plus(Double { bits: UNK_PENALTY })
    }

    /// The id that marks the edge of an unknown character.
    pub open spec fn fallback(self) -> usize {
        self.vocab.len() as usize
    }

    /// The score of an edge.
    pub open spec fn weight(self, id: usize) -> Double {
        if id == self.fallback() {
            self.unk_score()
        } else {
            self.vocab[id as int].1
        }
    }

    /// The vocabulary id of an edge.
    pub open spec fn resolve(self, id: usize) -> usize {
        if id == self.fallback() && self.unk_id is Some {
            self.unk_id->0
        } else {
            id
        }
    }

    /// The graph of a sentence, with an edge for every unknown character.
    pub open spec fn graph(self, bytes: Seq<u8>) -> Edges {
        graph(self.vocab, Some(self.fallback()), bytes)
    }

    /// The id whose neighbouring pieces are fused.
    pub open spec fn fuse(self) -> Option<usize> {
        if self.fuse_unk {
            self.unk_id
        } else {
            None
        }
    }
}

/// What is known of the best way to a place; a negative start means that none is known.
pub struct Node {
    pub score: Double,
    pub start: int,
    pub id: usize,
}

pub open spec fn node_init() -> spec_fn(int) -> Node {
    |end: int| Node { score: Double { bits: 0 }, start: -1, id: 0 }
}

/// The candidate replaces what is known.
pub open spec fn node_wins(target: Node, score: Double) -> bool {
    target.start < 0 || score.exceeds(target.score)
}

/// The first way to a place is taken; after that, ways with larger scores.
pub open spec fn node_step(encoder: Encoder) -> spec_fn(Node, Node, int, usize) -> Node {
    |target: Node, source: Node, start: int, id: usize|
        {
            let score = encoder.weight(id).plus(source.score);
            if node_wins(target, score) {
                Node { score, start, id }
            } else {
                target
            }
        }
}

/// The best way to a place.
pub open spec fn node(encoder: Encoder, bytes: Seq<u8>, end: int) -> Node {
    settled(encoder.graph(bytes), node_init(), node_step(encoder), end)
}

/// What is known of a place before the edges that follow.
pub open spec fn node_at(
    encoder: Encoder,
    bytes: Seq<u8>,
    end: int,
    start: int,
    taken: int,
) -> Node {
    scan(encoder.graph(bytes), node_init(), node_step(encoder), end, start, taken)
}

pub open spec fn node_links(encoder: Encoder, bytes: Seq<u8>) -> spec_fn(int) -> (int, usize) {
    |end: int|
        (node(encoder, bytes, end).start, encoder.resolve(node(encoder, bytes, end).id))
}

/// The segmentation of the best way through the sentence.
pub open spec fn node_pieces(encoder: Encoder, bytes: Seq<u8>) -> Seq<Piece> {
    trace(node_links(encoder, bytes), bytes.len() as int)
}

/// At byte `s` a character that is no token is the best way to what follows it, as far as is
/// known when it is met.
pub open spec fn fallback_wins(encoder: Encoder, bytes: Seq<u8>, s: int) -> bool {
    &&& boundary(bytes, s)
    &&& s < bytes.len()
    &&& !has_single(encoder.vocab, bytes, s)
    &&& node_wins(
        node_at(
            encoder,
            bytes,
            s + char_len(bytes, s),
            s,
            token_edges(encoder.vocab, bytes, s).len() as int,
        ),
        encoder.unk_score().plus(node(encoder, bytes, s).score),
    )
}

/// The encoding by one pass over the sentence.
pub open spec fn optimized(encoder: Encoder, sentence: Seq<char>) -> Result<
    Seq<Seq<char>>,
    UnigramError,
> {
    let bytes = encode_utf8(sentence);
    if encoder.unk_id is None && exists|s: int| #[trigger] fallback_wins(encoder, bytes, s) {
        Err(UnigramError::MissingUnkId)
    } else {
        Ok(tokens_of(sentence, node_pieces(encoder, bytes), encoder.fuse()))
    }
}

/// The tokens are those expected.
pub open spec fn gives(
    result: Result<Vec<String>, UnigramError>,
    expected: Result<Seq<Seq<char>>, UnigramError>,
) -> bool {
    match result {
        Ok(tokens) => expected == Ok::<Seq<Seq<char>>, UnigramError>(texts_of(tokens@)),
        Err(error) => expected == Err::<Seq<Seq<char>>, UnigramError>(error),
    }
}

/// The place between characters before place `x`.
pub proof fn lemma_previous(bytes: Seq<u8>, from: int, x: int) -> (p: int)
    requires
        valid_utf8(bytes),
        boundary(bytes, from),
        boundary(bytes, x),
        from < x,
    ensures
        from <= p < x,
        boundary(bytes, p),
        p + char_len(bytes, p) == x,
    decreases x - from,
{
    lemma_char_step(bytes, from);
    let next = from + char_len(bytes, from);
    if next == x {
        from
    } else {
        lemma_previous(bytes, next, x)
    }
}

/// The way that is known of a place ends with an edge of the graph.
pub open spec fn is_node_link(edges: Edges, end: int, known: Node) -> bool {
    &&& 0 <= known.start < end
    &&& known.start < edges.len()
    &&& exists|k: int|
        0 <= k < edges[known.start].len() && #[trigger] edges[known.start][k] == (
            end as usize,
            known.id,
        )
}

proof fn lemma_node_link_at(encoder: Encoder, bytes: Seq<u8>, end: int, start: int, taken: int)
    requires
        0 <= end <= usize::MAX,
        0 <= start < encoder.graph(bytes).len(),
        0 <= taken <= encoder.graph(bytes)[start].len(),
    ensures
        node_at(encoder, bytes, end, start, taken).start < 0 || is_node_link(
            encoder.graph(bytes),
            end,
            node_at(encoder, bytes, end, start, taken),
        ),
    decreases start, taken,
{
    let g = encoder.graph(bytes);
    if taken > 0 {
        lemma_node_link_at(encoder, bytes, end, start, taken - 1);
        let before = node_at(encoder, bytes, end, start, taken - 1);
        let known = node_at(encoder, bytes, end, start, taken);
        if known != before {
            assert(g[known.start][taken - 1] == (end as usize, known.id));
        }
    } else if start > 0 {
        lemma_node_link_at(encoder, bytes, end, start - 1, g[start - 1].len() as int);
    }
}

/// A place that is reached stays reached.
proof fn lemma_stays_reached(
    encoder: Encoder,
    bytes: Seq<u8>,
    end: int,
    start: int,
    taken: int,
    later_start: int,
    later_taken: int,
)
    requires
        0 <= end,
        0 <= start <= later_start < encoder.graph(bytes).len(),
        0 <= taken <= encoder.graph(bytes)[start].len(),
        0 <= later_taken,
        start == later_start ==> taken <= later_taken,
        node_at(encoder, bytes, end, start, taken).start >= 0,
    ensures
        node_at(encoder, bytes, end, later_start, later_taken).start >= 0,
    decreases later_start, later_taken,
{
    if start == later_start && taken == later_taken {
    } else if later_taken > 0 {
        lemma_stays_reached(encoder, bytes, end, start, taken, later_start, later_taken - 1);
    } else {
        lemma_stays_reached(
            encoder,
            bytes,
            end,
            start,
            taken,
            later_start - 1,
            encoder.graph(bytes)[later_start - 1].len() as int,
        );
    }
}

/// Every place between characters is reached, by an edge from another such place.
pub proof fn lemma_reached(encoder: Encoder, bytes: Seq<u8>, x: int)
    requires
        encoder.wf(),
        valid_utf8(bytes),
        bytes.len() <= usize::MAX,
        boundary(bytes, x),
        0 < x,
    ensures
        is_node_link(encoder.graph(bytes), x, node(encoder, bytes, x)),
        boundary(bytes, node(encoder, bytes, x).start),
{
    let g = encoder.graph(bytes);
    is_char_boundary_start_end_of_seq(bytes);
    lemma_boundary(bytes, 0);
    let p = lemma_previous(bytes, 0, x);
    let row = edges_at(encoder.vocab, Some(encoder.fallback()), bytes, p);
    let tokens = token_edges(encoder.vocab, bytes, p);
    assert(g[p] == row);
    lemma_token_edges(encoder.vocab, bytes, p);
    let k = if has_single(encoder.vocab, bytes, p) {
        choose|k: int| 0 <= k < tokens.len() && (#[trigger] tokens[k]).0 == x
    } else {
        tokens.len() as int
    };
    assert(row[k].0 == x);
    assert(node_at(encoder, bytes, x, p, k + 1).start >= 0);
    lemma_stays_reached(encoder, bytes, x, p, k + 1, x, 0);
    lemma_node_link_at(encoder, bytes, x, x, 0);
    lemma_graph(encoder.vocab, Some(encoder.fallback()), bytes);
    let known = node(encoder, bytes, x);
    let j = choose|j: int|
        0 <= j < g[known.start].len() && #[trigger] g[known.start][j] == (x as usize, known.id);
    assert(g[known.start][j].0 == x);
}

/// The best way covers the sentence.
pub proof fn lemma_node_pieces_chain(encoder: Encoder, sentence: Seq<char>)
    requires
        encoder.wf(),
        encode_utf8(sentence).len() <= usize::MAX,
    ensures
        is_chain(
            encode_utf8(sentence),
            node_pieces(encoder, encode_utf8(sentence)),
            encode_utf8(sentence).len() as int,
        ),
{
    let bytes = encode_utf8(sentence);
    encode_utf8_valid_utf8(sentence);
    is_char_boundary_start_end_of_seq(bytes);
    lemma_boundary(bytes, bytes.len() as int);
    let good = |x: int| boundary(bytes, x);
    let link = node_links(encoder, bytes);
    assert forall|x: int| #[trigger] good(x) && x > 0 implies 0 <= link(x).0 < x && good(
        link(x).0,
    ) by {
        lemma_reached(encoder, bytes, x);
    }
    lemma_trace_is_chain(bytes, link, good, bytes.len() as int);
}

/// The tokens of an encoding by one pass, one after the other, are the sentence, and none is
/// empty.
pub proof fn law_optimized_covers(encoder: Encoder, sentence: Seq<char>)
    requires
        encoder.wf(),
        encode_utf8(sentence).len() <= usize::MAX,
    ensures
        optimized(encoder, sentence) matches Ok(tokens) ==> joined(tokens) == sentence && forall|
            i: int,
        |
            0 <= i < tokens.len() ==> (#[trigger] tokens[i]).len() > 0,
{
    lemma_node_pieces_chain(encoder, sentence);
    lemma_tokens_join(
        sentence,
        node_pieces(encoder, encode_utf8(sentence)),
        encoder.fuse(),
    );
}

} // verus!
