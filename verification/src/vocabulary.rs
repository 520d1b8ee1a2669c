//! Vocabularies: the ids of tokens, and the graph of the tokens that occur in a sentence.

use crate::double::Double;
use crate::scan::Edges;
use crate::sentence::{boundary, char_len, lemma_char_step, lemma_valid_piece_end, piece_text};
use crate::trie::matching_lengths;
use vstd::prelude::*;
use vstd::utf8::{encode_utf8, encode_utf8_decode_utf8, encode_utf8_valid_utf8, valid_utf8};

verus! {

/// Tokens and their scores; the id of an entry is its place.
pub type Vocab = Seq<(Seq<char>, Double)>;

/// The id of each token: the place of its last entry.
pub open spec fn ids(vocab: Vocab) -> Map<Seq<char>, u32>
    decreases vocab.len(),
{
    if vocab.len() == 0 {
        Map::empty()
    } else {
        ids(vocab.drop_last()).insert(vocab.last().0, (vocab.len() - 1) as u32)
    }
}

/// Every id fits in 32 bits, and two more numbers after the ids fit in a machine word.
pub open spec fn fits(vocab: Vocab) -> bool {
    vocab.len() <= 0x1_0000_0000 && vocab.len() + 2 <= usize::MAX
}

/// The bytes of the tokens.
pub open spec fn words(vocab: Vocab) -> Set<Seq<u8>> {
    Set::new(|word: Seq<u8>| exists|i: int| 0 <= i < vocab.len() && #[trigger] has_bytes(vocab, i, word))
}

/// Entry `i` has these bytes.
pub open spec fn has_bytes(vocab: Vocab, i: int, word: Seq<u8>) -> bool {
    encode_utf8(vocab[i].0) == word
}

/// The edges of the tokens that begin at byte `s`, in the order of their lengths: where each
/// ends, and its id.
pub open spec fn token_edges(vocab: Vocab, bytes: Seq<u8>, s: int) -> Seq<(usize, usize)> {
    matching_lengths(words(vocab), bytes.skip(s), (bytes.len() - s) as nat).map_values(
        |n: usize| ((s + n) as usize, ids(vocab)[piece_text(bytes, s, s + n)] as usize),
    )
}

/// The character that begins at byte `s` is a token.
pub open spec fn has_single(vocab: Vocab, bytes: Seq<u8>, s: int) -> bool {
    words(vocab).contains(bytes.subrange(s, s + char_len(bytes, s)))
}

/// The edges from byte `s`: those of tokens and, where the character there is no token, one for
/// the character with the id `unk`, if there is such an id.
pub open spec fn edges_at(vocab: Vocab, unk: Option<usize>, bytes: Seq<u8>, s: int) -> Seq<
    (usize, usize),
> {
    if !boundary(bytes, s) || s >= bytes.len() {
        seq![]
    } else if unk is Some && !has_single(vocab, bytes, s) {
        token_edges(vocab, bytes, s).push(((s + char_len(bytes, s)) as usize, unk->0))
    } else {
        token_edges(vocab, bytes, s)
    }
}

/// The graph of a sentence.
pub open spec fn graph(vocab: Vocab, unk: Option<usize>, bytes: Seq<u8>) -> Edges {
    Seq::new((bytes.len() + 1) as nat, |s: int| edges_at(vocab, unk, bytes, s))
}

/// Each token has an id, which is the place of its last entry; nothing else has one.
pub proof fn lemma_ids(vocab: Vocab, token: Seq<char>)
    requires
        fits(vocab),
    ensures
        ids(vocab).contains_key(token) ==> {
            let id = ids(vocab)[token] as int;
            &&& id < vocab.len()
            &&& vocab[id].0 == token
            &&& forall|j: int| id < j < vocab.len() ==> (#[trigger] vocab[j]).0 != token
        },
        !ids(vocab).contains_key(token) ==> forall|j: int|
            0 <= j < vocab.len() ==> (#[trigger] vocab[j]).0 != token,
    decreases vocab.len(),
{
    if vocab.len() > 0 {
        let rest = vocab.drop_last();
        lemma_ids(rest, token);
        assert forall|j: int| 0 <= j < vocab.len() - 1 implies rest[j] == #[trigger] vocab[j] by {}
    }
}

/// Exactly the lengths of the prefixes that are words are found.
pub proof fn lemma_matching(all: Set<Seq<u8>>, input: Seq<u8>, upto: nat)
    requires
        upto <= usize::MAX,
    ensures
        forall|k: int|
            0 <= k < matching_lengths(all, input, upto).len() ==> {
                let n = #[trigger] matching_lengths(all, input, upto)[k];
                1 <= n <= upto && all.contains(input.take(n as int))
            },
        forall|n: usize|
            1 <= n <= upto && all.contains(#[trigger] input.take(n as int))
                ==> matching_lengths(all, input, upto).contains(n),
    decreases upto,
{
    if upto > 0 {
        lemma_matching(all, input, (upto - 1) as nat);
        let shorter = matching_lengths(all, input, (upto - 1) as nat);
        let lengths = matching_lengths(all, input, upto);
        assert forall|n: usize|
            1 <= n <= upto && all.contains(#[trigger] input.take(n as int)) implies lengths.contains(
            n,
        ) by {
            if n < upto {
                assert(shorter.contains(n));
                let k = choose|k: int| 0 <= k < shorter.len() && shorter[k] == n;
                assert(lengths[k] == n);
            } else {
                assert(lengths.last() == n);
            }
        }
    }
}

/// The lengths are found in ascending order.
pub proof fn lemma_matching_ascends(all: Set<Seq<u8>>, input: Seq<u8>, upto: nat)
    requires
        upto <= usize::MAX,
    ensures
        forall|j: int, k: int|
            #![trigger matching_lengths(all, input, upto)[j], matching_lengths(all, input, upto)[k]]
            0 <= j < k < matching_lengths(all, input, upto).len() ==> matching_lengths(
                all,
                input,
                upto,
            )[j] < matching_lengths(all, input, upto)[k],
    decreases upto,
{
    if upto > 0 {
        let shorter = matching_lengths(all, input, (upto - 1) as nat);
        let lengths = matching_lengths(all, input, upto);
        lemma_matching_ascends(all, input, (upto - 1) as nat);
        lemma_matching(all, input, (upto - 1) as nat);
        assert forall|j: int, k: int|
            #![trigger lengths[j], lengths[k]]
            0 <= j < k < lengths.len() implies lengths[j] < lengths[k] by {
            assert(lengths[j] == shorter[j]);
            if k < shorter.len() {
                assert(lengths[k] == shorter[k]);
            }
        }
    }
}

/// The edges from a place lead to different places.
pub proof fn lemma_edges_differ(vocab: Vocab, unk: Option<usize>, bytes: Seq<u8>, s: int)
    requires
        fits(vocab),
        valid_utf8(bytes),
        bytes.len() <= usize::MAX,
    ensures
        forall|j: int, k: int|
            #![trigger edges_at(vocab, unk, bytes, s)[j], edges_at(vocab, unk, bytes, s)[k]]
            0 <= j < k < edges_at(vocab, unk, bytes, s).len() ==> edges_at(
                vocab,
                unk,
                bytes,
                s,
            )[j].0 != edges_at(vocab, unk, bytes, s)[k].0,
{
    let row = edges_at(vocab, unk, bytes, s);
    if boundary(bytes, s) && s < bytes.len() {
        let tokens = token_edges(vocab, bytes, s);
        let rest = bytes.skip(s);
        let upto = (bytes.len() - s) as nat;
        let lengths = matching_lengths(words(vocab), rest, upto);
        lemma_matching(words(vocab), rest, upto);
        lemma_matching_ascends(words(vocab), rest, upto);
        lemma_token_edges(vocab, bytes, s);
        lemma_char_step(bytes, s);
        assert forall|j: int, k: int|
            #![trigger row[j], row[k]]
            0 <= j < k < row.len() implies row[j].0 != row[k].0 by {
            assert(row[j] == tokens[j]);
            assert(tokens[j].0 == s + lengths[j]);
            if k < tokens.len() {
                assert(row[k] == tokens[k]);
                assert(tokens[k].0 == s + lengths[k]);
                assert(lengths[j] < lengths[k]);
            }
        }
    }
}

/// A token's edge leads to the end of the token, and its id is that of the token.
pub open spec fn is_token_edge(vocab: Vocab, bytes: Seq<u8>, s: int, edge: (usize, usize)) -> bool {
    &&& s < edge.0 <= bytes.len()
    &&& boundary(bytes, edge.0 as int)
    &&& edge.1 < vocab.len()
    &&& vocab[edge.1 as int].0 == piece_text(bytes, s, edge.0 as int)
    &&& ids(vocab).contains_key(piece_text(bytes, s, edge.0 as int))
}

/// A piece that is a word is a token.
pub proof fn lemma_word_is_token(vocab: Vocab, bytes: Seq<u8>, s: int, e: int)
    requires
        fits(vocab),
        valid_utf8(bytes),
        boundary(bytes, s),
        s <= e <= bytes.len(),
        words(vocab).contains(bytes.subrange(s, e)),
    ensures
        boundary(bytes, e),
        ids(vocab).contains_key(piece_text(bytes, s, e)),
        ids(vocab)[piece_text(bytes, s, e)] < vocab.len(),
        vocab[ids(vocab)[piece_text(bytes, s, e)] as int].0 == piece_text(bytes, s, e),
{
    let word = bytes.subrange(s, e);
    let i = choose|i: int| 0 <= i < vocab.len() && #[trigger] has_bytes(vocab, i, word);
    encode_utf8_valid_utf8(vocab[i].0);
    lemma_valid_piece_end(bytes, s, e);
    encode_utf8_decode_utf8(vocab[i].0);
    lemma_ids(vocab, piece_text(bytes, s, e));
}

/// The edges of tokens are in order.
pub proof fn lemma_token_edges(vocab: Vocab, bytes: Seq<u8>, s: int)
    requires
        fits(vocab),
        valid_utf8(bytes),
        boundary(bytes, s),
        bytes.len() <= usize::MAX,
    ensures
        forall|k: int|
            0 <= k < token_edges(vocab, bytes, s).len() ==> is_token_edge(
                vocab,
                bytes,
                s,
                #[trigger] token_edges(vocab, bytes, s)[k],
            ),
        s < bytes.len() ==> (has_single(vocab, bytes, s) <==> exists|k: int|
            0 <= k < token_edges(vocab, bytes, s).len() && (#[trigger] token_edges(
                vocab,
                bytes,
                s,
            )[k]).0 == s + char_len(bytes, s)),
{
    let rest = bytes.skip(s);
    let upto = (bytes.len() - s) as nat;
    let lengths = matching_lengths(words(vocab), rest, upto);
    let edges = token_edges(vocab, bytes, s);
    lemma_matching(words(vocab), rest, upto);
    assert forall|k: int| 0 <= k < edges.len() implies is_token_edge(
        vocab,
        bytes,
        s,
        #[trigger] edges[k],
    ) by {
        let n = lengths[k];
        assert(rest.take(n as int) =~= bytes.subrange(s, s + n));
        lemma_word_is_token(vocab, bytes, s, s + n);
    }
    if s < bytes.len() {
        lemma_char_step(bytes, s);
        let n = char_len(bytes, s) as usize;
        assert(rest.take(n as int) =~= bytes.subrange(s, s + n));
        if has_single(vocab, bytes, s) {
            assert(lengths.contains(n));
            let k = choose|k: int| 0 <= k < lengths.len() && lengths[k] == n;
            assert(edges[k].0 == s + n);
        }
        if exists|k: int| 0 <= k < edges.len() && (#[trigger] edges[k]).0 == s + n {
            let k = choose|k: int| 0 <= k < edges.len() && (#[trigger] edges[k]).0 == s + n;
            assert(lengths[k] == n);
        }
    }
}

/// The edges of a sentence lead forward from one place between characters to another, and have
/// ids of the vocabulary or the id `unk`.
pub proof fn lemma_graph(vocab: Vocab, unk: Option<usize>, bytes: Seq<u8>)
    requires
        fits(vocab),
        valid_utf8(bytes),
        bytes.len() <= usize::MAX,
    ensures
        crate::scan::leads_forward(graph(vocab, unk, bytes), bytes.len() as int),
        crate::prepared_dp::between_chars(bytes, graph(vocab, unk, bytes)),
        forall|s: int, k: int|
            #![trigger graph(vocab, unk, bytes)[s][k]]
            0 <= s <= bytes.len() && 0 <= k < graph(vocab, unk, bytes)[s].len() ==> graph(
                vocab,
                unk,
                bytes,
            )[s][k].1 < vocab.len() || unk == Some(graph(vocab, unk, bytes)[s][k].1),
{
    let g = graph(vocab, unk, bytes);
    assert forall|s: int, k: int|
        #![trigger g[s][k]]
        0 <= s <= bytes.len() && 0 <= k < g[s].len() implies s < g[s][k].0 <= bytes.len()
        && boundary(bytes, s) && boundary(bytes, g[s][k].0 as int) && (g[s][k].1 < vocab.len()
        || unk == Some(g[s][k].1)) by {
        assert(g[s] == edges_at(vocab, unk, bytes, s));
        lemma_token_edges(vocab, bytes, s);
        lemma_char_step(bytes, s);
        let tokens = token_edges(vocab, bytes, s);
        if k < tokens.len() {
            assert(g[s][k] == tokens[k]);
            assert(is_token_edge(vocab, bytes, s, tokens[k]));
        }
    }
}

} // verus!
