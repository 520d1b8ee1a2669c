//! Encoding, and the graphs and lattices that it goes by.

use super::{is_encoding, Unigram};
use crate::cache::{texts_of, MAX_LENGTH};
use crate::double::Double;
use crate::encoding::{
    fallback_wins, gives, law_optimized_covers, lemma_node_pieces_chain, lemma_reached, node,
    node_at, node_init, node_links, node_step, optimized, Encoder, Node, UNK_PENALTY,
};
use crate::error::UnigramError;
use crate::lattice::{empty_lists, is_entry, Entry, Lattice};
use crate::lattice_encoding::{encoding, law_encoding_covers, lemma_entries_at, unoptimized};
use crate::prepared_dp::{filled, rows, PreparedDP};
use crate::segmentation::{backtrace, build_tokens, lemma_same_trace, table_links, Piece};
use crate::sentence::{boundary, char_len, char_len_at, lemma_boundary, lemma_char_step};
use crate::vocabulary::{
    edges_at, graph, has_single, is_token_edge, lemma_graph, lemma_token_edges, token_edges,
};
use vstd::prelude::*;
use vstd::utf8::{encode_utf8, encode_utf8_valid_utf8, is_char_boundary_start_end_of_seq, valid_utf8};

verus! {

/// Whether one of the edges leads to a place.
fn leads_to(edges: &Vec<(usize, usize)>, end: usize) -> (found: bool)
    ensures
        found == exists|k: int| 0 <= k < edges@.len() && (#[trigger] edges@[k]).0 == end,
{
    let mut k: usize = 0;
    while k < edges.len()
        invariant
            k <= edges@.len(),
            forall|j: int| 0 <= j < k ==> (#[trigger] edges@[j]).0 != end,
        decreases edges.len() - k,
    {
        if edges[k].0 == end {
            return true;
        }
        k = k + 1;
    }
    false
}

impl Unigram {
    /// The edges from byte `s`, with one of id `unk` for an unknown character.
    fn edges_from(&self, sentence: &str, s: usize, unk: Option<usize>) -> (result: (
        Vec<(usize, usize)>,
        usize,
    ))
        requires
            self.wf(),
            boundary(encode_utf8(sentence@), s as int),
            s < encode_utf8(sentence@).len(),
        ensures
            result.0@ == edges_at(self@.encoder.vocab, unk, encode_utf8(sentence@), s as int),
            result.1 == s + char_len(encode_utf8(sentence@), s as int),
    {
        let ghost bytes = encode_utf8(sentence@);
        let ghost vocab = self@.encoder.vocab;
        let text: &[u8] = sentence.as_bytes();
        let len: usize = text.len();
        proof {
            encode_utf8_valid_utf8(sentence@);
            lemma_token_edges(vocab, bytes, s as int);
            lemma_char_step(bytes, s as int);
        }
        let next: usize = s + char_len_at(text, s);
        let mut edges: Vec<(usize, usize)> = self.token_edges(sentence, s);
        match unk {
            Some(id) => {
                if !leads_to(&edges, next) {
                    edges.push((next, id));
                }
            },
            None => {},
        }
        (edges, next)
    }

    /// The forward graph of a sentence.
    pub fn prepare_dp<'a>(&'a self, sentence: &'a str) -> (prepared: PreparedDP<'a>)
        requires
            self.wf(),
        ensures
            prepared.wf(),
            prepared.text() == sentence@,
            prepared.graph() == self@.graph(sentence@),
    {
        let ghost bytes = encode_utf8(sentence@);
        let ghost vocab = self@.encoder.vocab;
        let ghost unk = self@.encoder.unk_id;
        let ghost g = graph(vocab, unk, bytes);
        let size: usize = sentence.as_bytes().len();
        let mut edges: Vec<Vec<(usize, usize)>> = empty_lists(size);
        let mut s: usize = 0;
        proof {
            encode_utf8_valid_utf8(sentence@);
            is_char_boundary_start_end_of_seq(bytes);
            lemma_boundary(bytes, 0);
        }
        while s < size
            invariant
                self.wf(),
                bytes == encode_utf8(sentence@),
                valid_utf8(bytes),
                vocab == self@.encoder.vocab,
                unk == self@.encoder.unk_id,
                size == bytes.len(),
                boundary(bytes, s as int),
                edges@.len() == size + 1,
                forall|i: int|
                    0 <= i < s ==> (#[trigger] edges@[i])@ == edges_at(vocab, unk, bytes, i),
                forall|i: int| s <= i <= size ==> (#[trigger] edges@[i])@ == Seq::<(usize, usize)>::empty(),
            decreases size - s,
        {
            proof {
                lemma_char_step(bytes, s as int);
            }
            let (row, next) = self.edges_from(sentence, s, self.unk_id);
            edges.set(s, row);
            s = next;
        }
        assert(rows(edges@) =~= g);
        proof {
            lemma_graph(vocab, unk, bytes);
        }
        PreparedDP::assemble(sentence, size, edges)
    }

    /// Adds to a lattice of a sentence the pieces of the sentence that are tokens and, where the
    /// model has an id for them, the unknown characters.
    pub fn populate_nodes(&self, lattice: &mut Lattice)
        requires
            self.wf(),
            old(lattice).wf(),
        ensures
            final(lattice).wf(),
            final(lattice).text() == old(lattice).text(),
            final(lattice).entries() == old(lattice).entries() + self@.encoder.entries_before(
                encode_utf8(old(lattice).text()),
                encode_utf8(old(lattice).text()).len() as int,
            ),
    {
        let ghost text = lattice.text();
        let ghost bytes = encode_utf8(text);
        let ghost first = lattice.entries();
        let ghost encoder = self@.encoder;
        let unk_score: Double = self.unk_score();
        let fallback: usize = self.vocab.len();
        let unk: Option<usize> = match self.unk_id {
            Some(_) => Some(fallback),
            None => None,
        };
        let len: usize = lattice.len();
        let sentence: &str = lattice.sentence();
        let mut begin_pos: usize = 0;
        proof {
            encode_utf8_valid_utf8(text);
            is_char_boundary_start_end_of_seq(bytes);
            lemma_boundary(bytes, 0);
            assert(lattice.entries() =~= first + encoder.entries_before(bytes, 0));
        }
        while begin_pos < len
            invariant
                self.wf(),
                lattice.wf(),
                lattice.text() == text,
                sentence@ == text,
                bytes == encode_utf8(text),
                valid_utf8(bytes),
                len == bytes.len(),
                encoder == self@.encoder,
                unk_score == encoder.unk_score(),
                fallback == encoder.fallback(),
                unk == encoder.known_fallback(),
                boundary(bytes, begin_pos as int),
                lattice.entries() == first + encoder.entries_before(bytes, begin_pos as int),
            decreases len - begin_pos,
        {
            let (row, next) = self.edges_from(sentence, begin_pos, unk);
            let ghost before = lattice.entries();
            let ghost added = encoder.entries_at(bytes, begin_pos as int);
            let mut k: usize = 0;
            proof {
                lemma_char_step(bytes, begin_pos as int);
                lemma_entries_at(encoder, bytes, begin_pos as int);
                lemma_row_ids(encoder, bytes, begin_pos as int);
                assert(lattice.entries() =~= before + added.take(0));
            }
            while k < row.len()
                invariant
                    self.wf(),
                    lattice.wf(),
                    lattice.text() == text,
                    bytes == encode_utf8(text),
                    len == bytes.len(),
                    encoder == self@.encoder,
                    unk_score == encoder.unk_score(),
                    fallback == encoder.fallback(),
                    row@ == edges_at(
                        encoder.vocab,
                        encoder.known_fallback(),
                        bytes,
                        begin_pos as int,
                    ),
                    added == encoder.entries_at(bytes, begin_pos as int),
                    forall|k: int|
                        0 <= k < added.len() ==> is_entry(bytes, #[trigger] added[k]),
                    forall|k: int|
                        0 <= k < row@.len() ==> {
                            let edge = #[trigger] row@[k];
                            &&& begin_pos < edge.0
                            &&& edge.1 < encoder.vocab.len() || encoder.known_fallback() == Some(
                                edge.1,
                            )
                        },
                    k <= row@.len(),
                    lattice.entries() == before + added.take(k as int),
                decreases row.len() - k,
            {
                let (end, id) = row[k];
                assert(row@[k as int] == (end, id));
                assert(added[k as int] == encoder.entry(begin_pos as int, (end, id)));
                let score: Double = if id == fallback {
                    unk_score
                } else {
                    self.vocab[id].1
                };
                let known_id: usize = match self.unk_id {
                    Some(unk_id) => if id == fallback {
                        unk_id
                    } else {
                        id
                    },
                    None => id,
                };
                lattice.insert(begin_pos, end - begin_pos, score, known_id);
                k = k + 1;
                assert(lattice.entries() =~= before + added.take(k as int));
            }
            proof {
                assert(added.take(k as int) =~= added);
                lemma_entries_skip(encoder, bytes, begin_pos as int, next as int);
                assert(lattice.entries() =~= first + encoder.entries_before(bytes, next as int));
            }
            begin_pos = next;
        }
    }

    /// Encodes a sentence in one pass.
    pub fn encode_optimized(&self, sentence: &str) -> (result: Result<Vec<String>, UnigramError>)
        requires
            self.wf(),
        ensures
            gives(result, optimized(self@.encoder, sentence@)),
    {
        let ghost encoder = self@.encoder;
        let ghost bytes = encode_utf8(sentence@);
        let ghost g = encoder.graph(bytes);
        let size: usize = sentence.as_bytes().len();
        let unk_score: Double = self.unk_score();
        let fallback: usize = self.vocab.len();
        let mut best_path_score: Vec<Double> = filled(size, Double::zero());
        let mut path_start: Vec<usize> = filled(size, usize::MAX);
        let mut path_id: Vec<usize> = filled(size, 0);
        let mut starts_at: usize = 0;
        proof {
            encode_utf8_valid_utf8(sentence@);
            is_char_boundary_start_end_of_seq(bytes);
            lemma_boundary(bytes, 0);
            lemma_boundary(bytes, size as int);
            lemma_graph(encoder.vocab, Some(encoder.fallback()), bytes);
        }
        while starts_at < size
            invariant
                self.wf(),
                encoder == self@.encoder,
                bytes == encode_utf8(sentence@),
                valid_utf8(bytes),
                size == bytes.len(),
                g == encoder.graph(bytes),
                unk_score == encoder.unk_score(),
                fallback == encoder.fallback(),
                boundary(bytes, starts_at as int),
                best_path_score@.len() == size + 1,
                path_start@.len() == size + 1,
                path_id@.len() == size + 1,
                forall|e: int|
                    0 <= e <= size ==> holds(
                        node_at(encoder, bytes, e, starts_at as int, 0),
                        #[trigger] best_path_score@[e],
                        path_start@[e],
                        path_id@[e],
                    ),
                encoder.unk_id is None ==> forall|s: int|
                    s < starts_at ==> !(#[trigger] fallback_wins(encoder, bytes, s)),
            decreases size - starts_at,
        {
            let base: Double = best_path_score[starts_at];
            let (row, next) = self.edges_from(sentence, starts_at, Some(fallback));
            let ghost tokens = token_edges(encoder.vocab, bytes, starts_at as int);
            proof {
                lemma_graph(encoder.vocab, Some(encoder.fallback()), bytes);
                lemma_token_edges(encoder.vocab, bytes, starts_at as int);
                lemma_char_step(bytes, starts_at as int);
                assert(g[starts_at as int] == row@);
            }
            let mut k: usize = 0;
            while k < row.len()
                invariant
                    self.wf(),
                    encoder == self@.encoder,
                    bytes == encode_utf8(sentence@),
                    size == bytes.len(),
                    g == encoder.graph(bytes),
                    unk_score == encoder.unk_score(),
                    fallback == encoder.fallback(),
                    boundary(bytes, starts_at as int),
                    starts_at < size,
                    0 < char_len(bytes, starts_at as int) <= size - starts_at,
                    row@ == g[starts_at as int],
                    row@ == edges_at(
                        encoder.vocab,
                        Some(encoder.fallback()),
                        bytes,
                        starts_at as int,
                    ),
                    tokens == token_edges(encoder.vocab, bytes, starts_at as int),
                    forall|k: int|
                        0 <= k < tokens.len() ==> is_token_edge(
                            encoder.vocab,
                            bytes,
                            starts_at as int,
                            #[trigger] tokens[k],
                        ),
                    forall|k: int|
                        0 <= k < row@.len() ==> {
                            let edge = #[trigger] row@[k];
                            starts_at < edge.0 <= size && edge.1 <= encoder.vocab.len()
                        },
                    k <= row@.len(),
                    best_path_score@.len() == size + 1,
                    path_start@.len() == size + 1,
                    path_id@.len() == size + 1,
                    base == node(encoder, bytes, starts_at as int).score,
                    forall|e: int|
                        0 <= e <= size ==> holds(
                            node_at(encoder, bytes, e, starts_at as int, k as int),
                            #[trigger] best_path_score@[e],
                            path_start@[e],
                            path_id@[e],
                        ),
                    encoder.unk_id is None && k > tokens.len() ==> !fallback_wins(
                        encoder,
                        bytes,
                        starts_at as int,
                    ),
                decreases row.len() - k,
            {
                let (e, id) = row[k];
                assert(g[starts_at as int][k as int] == (e, id));
                proof {
                    if k < tokens.len() {
                        assert(row@[k as int] == tokens[k as int]);
                    }
                }
                let weight: Double = if id == fallback {
                    unk_score
                } else {
                    self.vocab[id].1
                };
                let score: Double = weight.add(&base);
                let ghost _ = best_path_score@[e as int];
                if path_start[e] == usize::MAX || score.gt(&best_path_score[e]) {
                    if id == fallback && self.unk_id.is_none() {
                        assert(k == tokens.len());
                        assert(fallback_wins(encoder, bytes, starts_at as int));
                        return Err(UnigramError::MissingUnkId);
                    }
                    best_path_score.set(e, score);
                    path_start.set(e, starts_at);
                    path_id.set(e, id);
                }
                k = k + 1;
            }
            proof {
                assert forall|e: int| 0 <= e <= size implies #[trigger] node_at(
                    encoder,
                    bytes,
                    e,
                    next as int,
                    0,
                ) == node_at(encoder, bytes, e, starts_at as int, row@.len() as int) by {
                    crate::scan::lemma_empty_rows(
                        g,
                        node_init(),
                        node_step(encoder),
                        e,
                        starts_at as int,
                        next as int,
                    );
                }
                assert forall|s: int| s < next && encoder.unk_id is None implies !(
                #[trigger] fallback_wins(encoder, bytes, s)) by {
                    if s == starts_at {
                        if !has_single(encoder.vocab, bytes, s) {
                            assert(row@.len() == tokens.len() + 1);
                        }
                    }
                }
            }
            starts_at = next;
        }
        assert(encoder.unk_id is None ==> forall|s: int| !(#[trigger] fallback_wins(encoder, bytes, s)));
        let ids: Vec<usize> = self.resolve_all(&path_id);
        let ghost good = |x: int| boundary(bytes, x);
        proof {
            assert forall|x: int| #[trigger] good(x) && 0 < x <= size implies path_start@[x] < x
                && good(path_start@[x] as int) && table_links(path_start@, ids@)(x) == node_links(
                encoder,
                bytes,
            )(x) by {
                crate::scan::lemma_settled(g, node_init(), node_step(encoder), x, size as int, 0);
                let _ = best_path_score@[x];
                lemma_reached(encoder, bytes, x);
            }
        }
        let pieces: Vec<Piece> = backtrace(&path_start, &ids, size, Ghost(good));
        proof {
            lemma_node_pieces_chain(encoder, sentence@);
            lemma_same_trace(
                table_links(path_start@, ids@),
                node_links(encoder, bytes),
                good,
                size as int,
            );
        }
        let fuse: Option<usize> = self.fuse();
        Ok(build_tokens(sentence, &pieces, fuse))
    }

    /// The id whose neighbouring pieces are fused.
    fn fuse(&self) -> (fuse: Option<usize>)
        ensures
            fuse == self@.encoder.fuse(),
    {
        if self.fuse_unk {
            self.unk_id
        } else {
            None
        }
    }

    /// The vocabulary ids of edges.
    fn resolve_all(&self, edge_ids: &Vec<usize>) -> (known: Vec<usize>)
        requires
            self.wf(),
        ensures
            known@.len() == edge_ids@.len(),
            forall|i: int|
                0 <= i < known@.len() ==> (#[trigger] known@[i]) == self@.encoder.resolve(edge_ids@[i]),
    {
        let mut known: Vec<usize> = Vec::new();
        let mut i: usize = 0;
        while i < edge_ids.len()
            invariant
                self.wf(),
                i <= edge_ids@.len(),
                known@.len() == i,
                forall|j: int|
                    0 <= j < i ==> (#[trigger] known@[j]) == self@.encoder.resolve(edge_ids@[j]),
            decreases edge_ids.len() - i,
        {
            let id: usize = edge_ids[i];
            match self.unk_id {
                Some(unk_id) => {
                    known.push(
                        if id == self.vocab.len() {
                            unk_id
                        } else {
                            id
                        },
                    );
                },
                None => {
                    known.push(id);
                },
            }
            i = i + 1;
        }
        known
    }

    /// Encodes a sentence by way of a lattice.
    pub fn encode_unoptimized(&self, sentence: &str) -> (result: Result<Vec<String>, UnigramError>)
        requires
            self.wf(),
        ensures
            gives(result, unoptimized(self@.encoder, sentence@)),
            self@.encoder.lattice(encode_utf8(sentence@)).len() <= usize::MAX,
    {
        let ghost encoder = self@.encoder;
        let ghost bytes = encode_utf8(sentence@);
        let mut lattice = Lattice::from(sentence, self.bos_id, self.eos_id);
        assert(lattice.entries() =~= encoder.frame(bytes));
        self.populate_nodes(&mut lattice);
        assert(lattice.entries() == encoder.lattice(bytes));
        let count: usize = lattice.count();
        let way: Vec<usize> = lattice.viterbi();
        if self.fuse_unk && self.unk_id.is_none() && way.len() > 0 {
            return Err(UnigramError::MissingUnkId);
        }
        let fuse: Option<usize> = self.fuse();
        Ok(lattice.tokens_of_way(&way, fuse))
    }

    /// Encodes a sentence: gives the best tokenization that the model has for it. A result that
    /// is in the cache is given as it is; it may come from any of the `origins`.
    pub fn encode(&self, sentence: &str) -> (result: Result<Vec<String>, UnigramError>)
        requires
            self.wf(),
        ensures
            match result {
                Ok(tokens) => exists|origin: Encoder| #[trigger]
                    self.origins().contains(origin) && is_encoding(
                        origin,
                        sentence@,
                        texts_of(tokens@),
                    ),
                Err(error) => encoding(self@.encoder, sentence@) == Err::<
                    Seq<Seq<char>>,
                    UnigramError,
                >(error),
            },
            self.is_current() ==> gives(result, encoding(self@.encoder, sentence@)),
            self.most() == 0 ==> gives(result, encoding(self@.encoder, sentence@)),
            self.kept().contains(sentence@) ==> result is Ok,
    {
        let ghost encoder = self@.encoder;
        let size: usize = sentence.as_bytes().len();
        assert(self.origins().contains(encoder));
        if sentence.is_empty() {
            let tokens: Vec<String> = Vec::new();
            proof {
                assert(texts_of(tokens@) =~= Seq::<Seq<char>>::empty());
                assert(crate::segmentation::joined(texts_of(tokens@)) =~= sentence@);
                assert(is_encoding(encoder, sentence@, texts_of(tokens@)));
            }
            return Ok(tokens);
        }
        match self.cache.get(sentence) {
            Some(tokens) => {
                proof {
                    let origin = choose|origin: Encoder| #[trigger]
                        self.origins@.contains(origin) && is_encoding(
                            origin,
                            sentence@,
                            texts_of(tokens@),
                        );
                    assert(self.origins().contains(origin));
                }
                Ok(tokens)
            },
            None => {
                let result = if self.is_optimized {
                    let result = self.encode_optimized(sentence);
                    proof {
                        law_optimized_covers(encoder, sentence@);
                    }
                    result
                } else {
                    let result = self.encode_unoptimized(sentence);
                    proof {
                        law_encoding_covers(encoder, sentence@);
                    }
                    result
                };
                match result {
                    Ok(tokens) => {
                        assert(is_encoding(encoder, sentence@, texts_of(tokens@)));
                        if size < MAX_LENGTH {
                            self.cache.set(sentence, &tokens);
                        }
                        Ok(tokens)
                    },
                    Err(error) => Err(error),
                }
            },
        }
    }

    /// The score of an unknown character.
    pub(super) fn unk_score(&self) -> (score: Double)
        ensures
            score == self@.encoder.unk_score(),
    {
        self.min_score.add(&Double { bits: UNK_PENALTY })
    }
}

/// The entries of the tables agree with what is known of a place.
spec fn holds(known: Node, score: Double, start: usize, id: usize) -> bool {
    &&& known.score == score
    &&& known.id == id
    &&& known.start == if start == usize::MAX {
        -1
    } else {
        start as int
    }
}

/// The edges of a place lead on and have ids of the vocabulary or that of unknown characters.
proof fn lemma_row_ids(encoder: Encoder, bytes: Seq<u8>, s: int)
    requires
        encoder.wf(),
        valid_utf8(bytes),
        bytes.len() <= usize::MAX,
        boundary(bytes, s),
        s < bytes.len(),
    ensures
        forall|k: int|
            0 <= k < edges_at(encoder.vocab, encoder.known_fallback(), bytes, s).len() ==> {
                let edge = #[trigger] edges_at(encoder.vocab, encoder.known_fallback(), bytes, s)[k];
                &&& s < edge.0
                &&& edge.1 < encoder.vocab.len() || encoder.known_fallback() == Some(edge.1)
            },
{
    let g = graph(encoder.vocab, encoder.known_fallback(), bytes);
    lemma_graph(encoder.vocab, encoder.known_fallback(), bytes);
    let row = edges_at(encoder.vocab, encoder.known_fallback(), bytes, s);
    assert(g[s] == row);
    assert forall|k: int| 0 <= k < row.len() implies {
        let edge = #[trigger] row[k];
        &&& s < edge.0
        &&& edge.1 < encoder.vocab.len() || encoder.known_fallback() == Some(edge.1)
    } by {
        assert(g[s][k] == row[k]);
    }
}

/// Between two neighbouring places between characters nothing begins.
proof fn lemma_entries_skip(encoder: Encoder, bytes: Seq<u8>, s: int, upto: int)
    requires
        valid_utf8(bytes),
        boundary(bytes, s),
        s < bytes.len(),
        s < upto <= s + char_len(bytes, s),
    ensures
        encoder.entries_before(bytes, upto) == encoder.entries_before(bytes, s)
            + encoder.entries_at(bytes, s),
    decreases upto - s,
{
    if upto > s + 1 {
        lemma_entries_skip(encoder, bytes, s, upto - 1);
        lemma_char_step(bytes, s);
        assert(!boundary(bytes, upto - 1));
        assert(encoder.entries_at(bytes, upto - 1) =~= Seq::<Entry>::empty());
        assert(encoder.entries_before(bytes, upto) =~= encoder.entries_before(bytes, upto - 1));
    }
}

} // verus!
