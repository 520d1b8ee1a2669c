//! The encoding by way of a lattice, and what is common to both encodings.

use crate::double::Double;
use crate::encoding::{law_optimized_covers, lemma_previous, optimized, Encoder};
use crate::error::UnigramError;
use crate::lattice::{
    begins, best_nodes, blocked, blocked_at, ends, is_entry, is_lattice, lemma_begins,
    lemma_best_nodes_chain, lemma_ends, pieces_of, Entry,
};
use crate::segmentation::{joined, lemma_tokens_join, tokens_of};
use crate::sentence::{boundary, char_len, lemma_boundary, lemma_char_step};
use crate::vocabulary::{edges_at, has_single, is_token_edge, lemma_token_edges, token_edges};
use vstd::prelude::*;
use vstd::utf8::{encode_utf8, encode_utf8_valid_utf8, is_char_boundary_start_end_of_seq, valid_utf8};

verus! {

impl Encoder {
    /// The id of edges of unknown characters, where the model has an id for them.
    pub open spec fn known_fallback(self) -> Option<usize> {
        if self.unk_id is Some {
            Some(self.fallback())
        } else {
            None
        }
    }

    /// The lattice entry of an edge.
    pub open spec fn entry(self, s: int, edge: (usize, usize)) -> Entry {
        Entry {
            id: self.resolve(edge.1),
            pos: s,
            length: edge.0 - s,
            score: self.weight(edge.1),
        }
    }

    /// The lattice entries that begin at byte `s`.
    pub open spec fn entries_at(self, bytes: Seq<u8>, s: int) -> Seq<Entry> {
        edges_at(self.vocab, self.known_fallback(), bytes, s).map_values(
            |edge: (usize, usize)| self.entry(s, edge),
        )
    }

    /// The lattice entries that begin before byte `upto`.
    pub open spec fn entries_before(self, bytes: Seq<u8>, upto: int) -> Seq<Entry>
        decreases upto,
    {
        if upto <= 0 {
            seq![]
        } else {
            self.entries_before(bytes, upto - 1) + self.entries_at(bytes, upto - 1)
        }
    }

    /// The entries of a lattice without pieces.
    pub open spec fn frame(self, bytes: Seq<u8>) -> Seq<Entry> {
        seq![
            Entry {
                id: (self.vocab.len() + 1) as usize,
                pos: 0,
                length: 0,
                score: Double { bits: 0 },
            },
            Entry {
                id: (self.vocab.len() + 2) as usize,
                pos: bytes.len() as int,
                length: 0,
                score: Double { bits: 0 },
            },
        ]
    }

    /// The entries of the lattice of a sentence.
    pub open spec fn lattice(self, bytes: Seq<u8>) -> Seq<Entry> {
        self.frame(bytes) + self.entries_before(bytes, bytes.len() as int)
    }
}

/// The encoding by way of the lattice.
pub open spec fn unoptimized(encoder: Encoder, sentence: Seq<char>) -> Result<
    Seq<Seq<char>>,
    UnigramError,
> {
    let bytes = encode_utf8(sentence);
    let entries = encoder.lattice(bytes);
    let way = best_nodes(bytes, entries);
    if encoder.fuse_unk && encoder.unk_id is None && way.len() > 0 {
        Err(UnigramError::MissingUnkId)
    } else {
        Ok(tokens_of(sentence, pieces_of(entries, way), encoder.fuse()))
    }
}

/// The encoding of a sentence.
pub open spec fn encoding(encoder: Encoder, sentence: Seq<char>) -> Result<
    Seq<Seq<char>>,
    UnigramError,
> {
    if sentence.len() == 0 {
        Ok(seq![])
    } else if encoder.is_optimized {
        optimized(encoder, sentence)
    } else {
        unoptimized(encoder, sentence)
    }
}

/// The tokens, one after the other, are the sentence; only a model without an id for unknown
/// characters that encodes by way of a lattice may give no token at all.
pub open spec fn covers(encoder: Encoder, sentence: Seq<char>, tokens: Seq<Seq<char>>) -> bool {
    ||| joined(tokens) == sentence
    ||| tokens.len() == 0 && !encoder.is_optimized && encoder.unk_id is None
}

/// The entries of a sentence's lattice are pieces of the sentence.
pub proof fn lemma_entries_at(encoder: Encoder, bytes: Seq<u8>, s: int)
    requires
        encoder.wf(),
        valid_utf8(bytes),
        bytes.len() <= usize::MAX,
    ensures
        forall|k: int|
            0 <= k < encoder.entries_at(bytes, s).len() ==> is_entry(
                bytes,
                #[trigger] encoder.entries_at(bytes, s)[k],
            ),
{
    let row = edges_at(encoder.vocab, encoder.known_fallback(), bytes, s);
    let entries = encoder.entries_at(bytes, s);
    assert forall|k: int| 0 <= k < entries.len() implies is_entry(bytes, #[trigger] entries[k]) by {
        lemma_token_edges(encoder.vocab, bytes, s);
        lemma_char_step(bytes, s);
        let tokens = token_edges(encoder.vocab, bytes, s);
        if k < tokens.len() {
            assert(row[k] == tokens[k]);
            assert(is_token_edge(encoder.vocab, bytes, s, tokens[k]));
        }
    }
}

proof fn lemma_entries_before(encoder: Encoder, bytes: Seq<u8>, upto: int)
    requires
        encoder.wf(),
        valid_utf8(bytes),
        bytes.len() <= usize::MAX,
    ensures
        forall|k: int|
            0 <= k < encoder.entries_before(bytes, upto).len() ==> is_entry(
                bytes,
                #[trigger] encoder.entries_before(bytes, upto)[k],
            ),
    decreases upto,
{
    if upto > 0 {
        lemma_entries_before(encoder, bytes, upto - 1);
        lemma_entries_at(encoder, bytes, upto - 1);
        let earlier = encoder.entries_before(bytes, upto - 1);
        let row = encoder.entries_at(bytes, upto - 1);
        let all = encoder.entries_before(bytes, upto);
        assert forall|k: int| 0 <= k < all.len() implies is_entry(bytes, #[trigger] all[k]) by {
            if k < earlier.len() {
                assert(all[k] == earlier[k]);
            } else {
                assert(all[k] == row[k - earlier.len()]);
            }
        }
    }
}

/// The lattice of a sentence is in order.
pub proof fn lemma_lattice(encoder: Encoder, bytes: Seq<u8>)
    requires
        encoder.wf(),
        valid_utf8(bytes),
        bytes.len() <= usize::MAX,
        encoder.lattice(bytes).len() <= usize::MAX,
    ensures
        is_lattice(bytes, encoder.lattice(bytes)),
{
    lemma_entries_before(encoder, bytes, bytes.len() as int);
    let entries = encoder.lattice(bytes);
    let pieces = encoder.entries_before(bytes, bytes.len() as int);
    assert forall|n: int| 2 <= n < entries.len() implies is_entry(bytes, #[trigger] entries[n]) by {
        assert(entries[n] == pieces[n - 2]);
    }
}

/// Where an entry of a place stands among all entries.
pub proof fn lemma_entry_place(encoder: Encoder, bytes: Seq<u8>, s: int, k: int, upto: int) -> (n: int)
    requires
        0 <= s < upto,
        0 <= k < encoder.entries_at(bytes, s).len(),
    ensures
        0 <= n < encoder.entries_before(bytes, upto).len(),
        encoder.entries_before(bytes, upto)[n] == encoder.entries_at(bytes, s)[k],
    decreases upto,
{
    let earlier = encoder.entries_before(bytes, upto - 1);
    if s == upto - 1 {
        earlier.len() + k
    } else {
        let n = lemma_entry_place(encoder, bytes, s, k, upto - 1);
        assert(encoder.entries_before(bytes, upto)[n] == earlier[n]);
        n
    }
}

/// A model with an id for unknown characters has, at each character, a piece that is this
/// character.
proof fn lemma_char_entry(encoder: Encoder, bytes: Seq<u8>, s: int) -> (n: int)
    requires
        encoder.wf(),
        valid_utf8(bytes),
        bytes.len() <= usize::MAX,
        encoder.unk_id is Some,
        boundary(bytes, s),
        s < bytes.len(),
    ensures
        2 <= n < encoder.lattice(bytes).len(),
        encoder.lattice(bytes)[n].pos == s,
        encoder.lattice(bytes)[n].end() == s + char_len(bytes, s),
{
    lemma_token_edges(encoder.vocab, bytes, s);
    lemma_char_step(bytes, s);
    let tokens = token_edges(encoder.vocab, bytes, s);
    let row = edges_at(encoder.vocab, encoder.known_fallback(), bytes, s);
    let end = s + char_len(bytes, s);
    let k = if has_single(encoder.vocab, bytes, s) {
        choose|k: int| 0 <= k < tokens.len() && (#[trigger] tokens[k]).0 == end
    } else {
        tokens.len() as int
    };
    assert(row[k].0 == end);
    assert(encoder.entries_at(bytes, s)[k] == encoder.entry(s, row[k]));
    let n = lemma_entry_place(encoder, bytes, s, k, bytes.len() as int);
    let pieces = encoder.entries_before(bytes, bytes.len() as int);
    assert(encoder.lattice(bytes)[n + 2] == pieces[n]);
    n + 2
}

/// A model with an id for unknown characters has a way through every sentence.
pub proof fn lemma_never_blocked(encoder: Encoder, bytes: Seq<u8>)
    requires
        encoder.wf(),
        valid_utf8(bytes),
        bytes.len() <= usize::MAX,
        encoder.lattice(bytes).len() <= usize::MAX,
        encoder.unk_id is Some,
    ensures
        !blocked(bytes, encoder.lattice(bytes)),
{
    let entries = encoder.lattice(bytes);
    let total = entries.len() as int;
    is_char_boundary_start_end_of_seq(bytes);
    lemma_boundary(bytes, 0);
    assert forall|p: int| !(#[trigger] blocked_at(bytes, entries, p)) by {
        if boundary(bytes, p) {
            lemma_begins(entries, p, total);
            lemma_ends(entries, p, total);
            if p < bytes.len() {
                let n = lemma_char_entry(encoder, bytes, p);
                assert(entries[n as usize as int].pos == p);
                assert(begins(entries, p, total).contains(n as usize));
            } else {
                assert(entries[1usize as int].pos == p);
                assert(begins(entries, p, total).contains(1usize));
            }
            if p > 0 {
                let q = lemma_previous(bytes, 0, p);
                let n = lemma_char_entry(encoder, bytes, q);
                assert(entries[n as usize as int].end() == p);
                assert(ends(entries, p, total).contains(n as usize));
            } else {
                assert(entries[0usize as int].end() == p);
                assert(ends(entries, p, total).contains(0usize));
            }
        }
    }
}

/// The tokens of an encoding, one after the other, are the sentence, and none is empty. Only a model without an id
/// for unknown characters that encodes by way of a lattice may give no token instead.
pub proof fn law_encoding_covers(encoder: Encoder, sentence: Seq<char>)
    requires
        encoder.wf(),
        encode_utf8(sentence).len() <= usize::MAX,
        encoder.lattice(encode_utf8(sentence)).len() <= usize::MAX,
    ensures
        encoding(encoder, sentence) matches Ok(tokens) ==> covers(encoder, sentence, tokens)
            && forall|i: int| 0 <= i < tokens.len() ==> (#[trigger] tokens[i]).len() > 0,
{
    let bytes = encode_utf8(sentence);
    encode_utf8_valid_utf8(sentence);
    law_optimized_covers(encoder, sentence);
    if sentence.len() == 0 {
        assert(joined(Seq::<Seq<char>>::empty()) =~= sentence);
    } else if !encoder.is_optimized {
        let entries = encoder.lattice(bytes);
        lemma_lattice(encoder, bytes);
        if encoder.unk_id is Some {
            lemma_never_blocked(encoder, bytes);
        }
        let way = best_nodes(bytes, entries);
        if blocked(bytes, entries) {
            assert(tokens_of(sentence, pieces_of(entries, way), encoder.fuse()).len() == 0);
        } else {
            lemma_best_nodes_chain(bytes, entries);
            lemma_tokens_join(sentence, pieces_of(entries, way), encoder.fuse());
        }
    }
}

/// A model with an id for unknown characters encodes every sentence.
pub proof fn law_known_unk_always_encodes(encoder: Encoder, sentence: Seq<char>)
    requires
        encoder.wf(),
        encoder.unk_id is Some,
    ensures
        encoding(encoder, sentence) is Ok,
{
}

} // verus!
