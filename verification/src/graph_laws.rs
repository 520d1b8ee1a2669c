//! Which edges the graph of a sentence has, in terms of the vocabulary and the text alone.

use crate::sentence::{
    boundary, char_len, lemma_boundary, lemma_char_step, lemma_piece_valid, lemma_same_bytes,
    piece_text,
};
use crate::trie::matching_lengths;
use crate::vocabulary::{
    edges_at, fits, graph, has_bytes, has_single, ids, is_token_edge, lemma_edges_differ, lemma_ids,
    lemma_matching, lemma_matching_ascends, lemma_token_edges, token_edges, words, Vocab,
};
use vstd::prelude::*;
use vstd::utf8::{encode_utf8, is_char_boundary, valid_utf8};

verus! {

/// An edge of the graph is that of a token or of an unknown character.
pub proof fn lemma_edge_is_sound(vocab: Vocab, unk: Option<usize>, bytes: Seq<u8>, s: int, k: int)
    requires
        fits(vocab),
        valid_utf8(bytes),
        bytes.len() <= usize::MAX,
        0 <= s <= bytes.len(),
        0 <= k < graph(vocab, unk, bytes)[s].len(),
    ensures
        ({
            let (e, id) = graph(vocab, unk, bytes)[s][k];
            &&& is_char_boundary(bytes, s)
            &&& s < e <= bytes.len()
            &&& {
                ||| {
                    &&& id < vocab.len()
                    &&& encode_utf8(vocab[id as int].0) == bytes.subrange(s, e as int)
                    &&& forall|j: int|
                        id < j < vocab.len() ==> (#[trigger] vocab[j]).0 != vocab[id as int].0
                }
                ||| {
                    &&& unk == Some(id)
                    &&& is_char_boundary(bytes, e as int)
                    &&& forall|x: int| s < x < e ==> !(#[trigger] is_char_boundary(bytes, x))
                    &&& forall|i: int|
                        0 <= i < vocab.len() ==> encode_utf8((#[trigger] vocab[i]).0)
                            != bytes.subrange(s, e as int)
                }
            }
        }),
{
    let row = edges_at(vocab, unk, bytes, s);
    assert(graph(vocab, unk, bytes)[s] == row);
    let (e, id) = row[k];
    let tokens = token_edges(vocab, bytes, s);
    lemma_boundary(bytes, s);
    lemma_token_edges(vocab, bytes, s);
    lemma_char_step(bytes, s);
    if k < tokens.len() {
        assert(row[k] == tokens[k]);
        assert(is_token_edge(vocab, bytes, s, tokens[k]));
        lemma_piece_valid(bytes, s, e as int);
        lemma_ids(vocab, piece_text(bytes, s, e as int));
        let rest = bytes.skip(s);
        let upto = (bytes.len() - s) as nat;
        let n = matching_lengths(words(vocab), rest, upto)[k];
        lemma_matching(words(vocab), rest, upto);
        assert(e == s + n);
        assert(id == ids(vocab)[piece_text(bytes, s, e as int)] as usize);
    } else {
        assert(e == s + char_len(bytes, s));
        lemma_boundary(bytes, e as int);
        assert forall|x: int| s < x < e implies !(#[trigger] is_char_boundary(bytes, x)) by {
            lemma_boundary(bytes, x);
        }
        assert forall|i: int| 0 <= i < vocab.len() implies encode_utf8((#[trigger] vocab[i]).0)
            != bytes.subrange(s, e as int) by {
            if encode_utf8(vocab[i].0) == bytes.subrange(s, e as int) {
                assert(has_bytes(vocab, i, bytes.subrange(s, e as int)));
            }
        }
    }
}

/// Every token that stands in the text has its edge, whatever its length: for every place between
/// characters, and every entry of the vocabulary whose bytes follow there, one edge leads to the
/// end of those bytes, and its id is that of the last entry with that token.
pub proof fn law_every_token_has_an_edge(
    vocab: Vocab,
    unk: Option<usize>,
    bytes: Seq<u8>,
    s: int,
    e: int,
    i: int,
) -> (k: int)
    requires
        fits(vocab),
        valid_utf8(bytes),
        bytes.len() <= usize::MAX,
        is_char_boundary(bytes, s),
        0 <= s < e <= bytes.len(),
        0 <= i < vocab.len(),
        encode_utf8(vocab[i].0) == bytes.subrange(s, e),
    ensures
        0 <= k < graph(vocab, unk, bytes)[s].len(),
        graph(vocab, unk, bytes)[s][k].0 == e,
        graph(vocab, unk, bytes)[s][k].1 < vocab.len(),
        vocab[graph(vocab, unk, bytes)[s][k].1 as int].0 == vocab[i].0,
        forall|j: int|
            graph(vocab, unk, bytes)[s][k].1 < j < vocab.len() ==> (#[trigger] vocab[j]).0
                != vocab[i].0,
{
    let row = edges_at(vocab, unk, bytes, s);
    assert(graph(vocab, unk, bytes)[s] == row);
    lemma_boundary(bytes, s);
    let n = (e - s) as usize;
    let rest = bytes.skip(s);
    let upto = (bytes.len() - s) as nat;
    let lengths = matching_lengths(words(vocab), rest, upto);
    lemma_matching(words(vocab), rest, upto);
    assert(rest.take(n as int) =~= bytes.subrange(s, e));
    assert(has_bytes(vocab, i, bytes.subrange(s, e)));
    assert(words(vocab).contains(rest.take(n as int)));
    assert(lengths.contains(n));
    let k = choose|k: int| 0 <= k < lengths.len() && lengths[k] == n;
    let tokens = token_edges(vocab, bytes, s);
    assert(tokens[k].0 == e);
    lemma_token_edges(vocab, bytes, s);
    assert(is_token_edge(vocab, bytes, s, tokens[k]));
    assert(row[k] == tokens[k]);
    lemma_piece_valid(bytes, s, e);
    lemma_same_bytes(vocab[i].0, piece_text(bytes, s, e));
    lemma_ids(vocab, vocab[i].0);
    k
}

/// Every character that is no token has its edge, where there is an id for it.
pub proof fn law_every_unknown_character_has_an_edge(
    vocab: Vocab,
    unk: Option<usize>,
    bytes: Seq<u8>,
    s: int,
    e: int,
) -> (k: int)
    requires
        fits(vocab),
        valid_utf8(bytes),
        bytes.len() <= usize::MAX,
        unk is Some,
        is_char_boundary(bytes, s),
        is_char_boundary(bytes, e),
        0 <= s < e <= bytes.len(),
        forall|x: int| s < x < e ==> !(#[trigger] is_char_boundary(bytes, x)),
        forall|i: int|
            0 <= i < vocab.len() ==> encode_utf8((#[trigger] vocab[i]).0) != bytes.subrange(s, e),
    ensures
        0 <= k < graph(vocab, unk, bytes)[s].len(),
        graph(vocab, unk, bytes)[s][k] == (e as usize, unk->0),
{
    let row = edges_at(vocab, unk, bytes, s);
    assert(graph(vocab, unk, bytes)[s] == row);
    lemma_boundary(bytes, s);
    lemma_boundary(bytes, e);
    lemma_char_step(bytes, s);
    let next = s + char_len(bytes, s);
    lemma_boundary(bytes, next);
    assert(next == e) by {
        if next < e {
            assert(!is_char_boundary(bytes, next));
        }
        if e < next {
            assert(!boundary(bytes, e));
        }
    }
    if has_single(vocab, bytes, s) {
        let word = bytes.subrange(s, e);
        let i = choose|i: int| 0 <= i < vocab.len() && #[trigger] has_bytes(vocab, i, word);
        assert(encode_utf8(vocab[i].0) != bytes.subrange(s, e));
    }
    token_edges(vocab, bytes, s).len() as int
}

/// The edges from a place are exactly those of the tokens that begin there and, where there is an
/// id for it and no token is the character that begins there, that of the character. No two lead
/// to the same place, and those of tokens come first, the shorter before the longer.
pub proof fn law_edges_are_exact(vocab: Vocab, unk: Option<usize>, bytes: Seq<u8>, s: int)
    requires
        fits(vocab),
        valid_utf8(bytes),
        bytes.len() <= usize::MAX,
        0 <= s <= bytes.len(),
    ensures
        graph(vocab, unk, bytes).len() == bytes.len() + 1,
        forall|e: usize, id: usize| #[trigger]
            graph(vocab, unk, bytes)[s].contains((e, id)) <==> {
                &&& is_char_boundary(bytes, s)
                &&& s < e <= bytes.len()
                &&& {
                    ||| {
                        &&& id < vocab.len()
                        &&& encode_utf8(vocab[id as int].0) == bytes.subrange(s, e as int)
                        &&& forall|j: int|
                            id < j < vocab.len() ==> (#[trigger] vocab[j]).0 != vocab[id as int].0
                    }
                    ||| {
                        &&& unk == Some(id)
                        &&& is_char_boundary(bytes, e as int)
                        &&& forall|x: int| s < x < e ==> !(#[trigger] is_char_boundary(bytes, x))
                        &&& forall|i: int|
                            0 <= i < vocab.len() ==> encode_utf8((#[trigger] vocab[i]).0)
                                != bytes.subrange(s, e as int)
                    }
                }
            },
        forall|j: int, k: int|
            #![trigger graph(vocab, unk, bytes)[s][j], graph(vocab, unk, bytes)[s][k]]
            0 <= j < k < graph(vocab, unk, bytes)[s].len() ==> graph(vocab, unk, bytes)[s][j].0
                < graph(vocab, unk, bytes)[s][k].0 || {
                &&& graph(vocab, unk, bytes)[s][j].0 != graph(vocab, unk, bytes)[s][k].0
                &&& k == graph(vocab, unk, bytes)[s].len() - 1
                &&& unk == Some(graph(vocab, unk, bytes)[s][k].1)
                &&& forall|i: int|
                    0 <= i < vocab.len() ==> encode_utf8((#[trigger] vocab[i]).0)
                        != bytes.subrange(s, graph(vocab, unk, bytes)[s][k].0 as int)
            },
{
    let row = graph(vocab, unk, bytes)[s];
    assert forall|e: usize, id: usize| #[trigger] row.contains((e, id)) implies {
        &&& is_char_boundary(bytes, s)
        &&& s < e <= bytes.len()
        &&& {
            ||| {
                &&& id < vocab.len()
                &&& encode_utf8(vocab[id as int].0) == bytes.subrange(s, e as int)
                &&& forall|j: int|
                    id < j < vocab.len() ==> (#[trigger] vocab[j]).0 != vocab[id as int].0
            }
            ||| {
                &&& unk == Some(id)
                &&& is_char_boundary(bytes, e as int)
                &&& forall|x: int| s < x < e ==> !(#[trigger] is_char_boundary(bytes, x))
                &&& forall|i: int|
                    0 <= i < vocab.len() ==> encode_utf8((#[trigger] vocab[i]).0)
                        != bytes.subrange(s, e as int)
            }
        }
    } by {
        let k = choose|k: int| 0 <= k < row.len() && row[k] == (e, id);
        lemma_edge_is_sound(vocab, unk, bytes, s, k);
    }
    assert forall|e: usize, id: usize|
        is_char_boundary(bytes, s) && s < e <= bytes.len() && id < vocab.len() && encode_utf8(
            vocab[id as int].0,
        ) == bytes.subrange(s, e as int) && (forall|j: int|
            id < j < vocab.len() ==> (#[trigger] vocab[j]).0 != vocab[id as int].0)
            implies #[trigger] row.contains((e, id)) by {
        let k = law_every_token_has_an_edge(vocab, unk, bytes, s, e as int, id as int);
        let found = row[k].1 as int;
        if found > id {
            assert(vocab[found].0 != vocab[id as int].0);
        }
        if id > found {
            assert(vocab[id as int].0 != vocab[id as int].0);
        }
        assert(row[k] == (e, id));
    }
    assert forall|e: usize, id: usize|
        is_char_boundary(bytes, s) && s < e <= bytes.len() && unk == Some(id) && is_char_boundary(
            bytes,
            e as int,
        ) && (forall|x: int| s < x < e ==> !(#[trigger] is_char_boundary(bytes, x))) && (forall|
            i: int,
        |
            0 <= i < vocab.len() ==> encode_utf8((#[trigger] vocab[i]).0) != bytes.subrange(
                s,
                e as int,
            )) implies #[trigger] row.contains((e, id)) by {
        let k = law_every_unknown_character_has_an_edge(vocab, unk, bytes, s, e as int);
        assert(row[k] == (e, id));
    }
    assert(row == edges_at(vocab, unk, bytes, s));
    if boundary(bytes, s) && s < bytes.len() {
        let tokens = token_edges(vocab, bytes, s);
        let rest = bytes.skip(s);
        let upto = (bytes.len() - s) as nat;
        let lengths = matching_lengths(words(vocab), rest, upto);
        lemma_matching(words(vocab), rest, upto);
        lemma_matching_ascends(words(vocab), rest, upto);
        lemma_edges_differ(vocab, unk, bytes, s);
        assert forall|j: int, k: int|
            #![trigger row[j], row[k]]
            0 <= j < k < row.len() implies row[j].0 < row[k].0 || {
            &&& row[j].0 != row[k].0
            &&& k == row.len() - 1
            &&& unk == Some(row[k].1)
            &&& forall|i: int|
                0 <= i < vocab.len() ==> encode_utf8((#[trigger] vocab[i]).0) != bytes.subrange(
                    s,
                    row[k].0 as int,
                )
        } by {
            assert(row[j] == tokens[j]);
            assert(tokens[j].0 == s + lengths[j]);
            if k < tokens.len() {
                assert(row[k] == tokens[k]);
                assert(tokens[k].0 == s + lengths[k]);
                assert(lengths[j] < lengths[k]);
            } else {
                lemma_char_step(bytes, s);
                assert forall|i: int| 0 <= i < vocab.len() implies encode_utf8(
                    (#[trigger] vocab[i]).0,
                ) != bytes.subrange(s, row[k].0 as int) by {
                    if encode_utf8(vocab[i].0) == bytes.subrange(s, row[k].0 as int) {
                        assert(has_bytes(vocab, i, bytes.subrange(s, row[k].0 as int)));
                    }
                }
            }
        }
    }
}

} // verus!
