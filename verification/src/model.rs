//! The model: a vocabulary with scores, and the encoding of sentences by it.

pub mod batch;
pub mod choice;
pub mod encode;
pub mod query;
pub mod settings;
pub mod tokenize;

use crate::cache::{Cache, DEFAULT_CACHE_CAPACITY};
use crate::double::Double;
use crate::encoding::Encoder;
use crate::error::UnigramError;
use crate::lattice_encoding::{covers, encoding};
use crate::sentence::{boundary, piece};
use crate::single::Single;
use crate::token_map::{entries, get, insert, new_map, TokenMap};
use crate::trie::{matching_lengths, Trie};
use crate::vocabulary::{
    fits, has_bytes, ids, lemma_matching, lemma_word_is_token, token_edges, words, Vocab,
};
use crate::weight_sets::ModelView;
use vstd::prelude::*;
use vstd::utf8::{encode_utf8, encode_utf8_valid_utf8, valid_utf8};

verus! {

/// The tokens and scores of a list of entries.
pub open spec fn vocab_of(entries: Seq<(String, Double)>) -> Vocab {
    entries.map_values(|entry: (String, Double)| (entry.0@, entry.1))
}

/// The lowest score of a vocabulary; infinity where there is none below it.
pub open spec fn lowest(vocab: Vocab) -> Double
    decreases vocab.len(),
{
    if vocab.len() == 0 {
        Double { bits: crate::double::DOUBLE_INFINITY }
    } else {
        let before = lowest(vocab.drop_last());
        if before.exceeds(vocab.last().1) {
            vocab.last().1
        } else {
            before
        }
    }
}

/// The texts with their encodings by some of the encoders.
pub open spec fn encoded_pairs(origins: Set<Encoder>) -> Set<(Seq<char>, Seq<Seq<char>>)> {
    Set::new(
        |pair: (Seq<char>, Seq<Seq<char>>)|
            exists|origin: Encoder| #[trigger]
                origins.contains(origin) && is_encoding(origin, pair.0, pair.1),
    )
}

/// All encoders have the same vocabulary and unknown id, and fuse alike; they may differ in the
/// way that they encode and in the lowest score.
pub open spec fn are_alike(origins: Set<Encoder>, encoder: Encoder) -> bool {
    forall|origin: Encoder| #[trigger]
        origins.contains(origin) ==> origin == (Encoder {
            min_score: origin.min_score,
            is_optimized: origin.is_optimized,
            ..encoder
        })
}

/// The encoder gives these tokens, and they cover the text.
pub open spec fn is_encoding(encoder: Encoder, text: Seq<char>, tokens: Seq<Seq<char>>) -> bool {
    &&& encoding(encoder, text) == Ok::<Seq<Seq<char>>, UnigramError>(tokens)
    &&& covers(encoder, text, tokens)
}

/// Each set of weights, as a sequence.
pub open spec fn sets_of(sets: Seq<Vec<Single>>) -> Seq<Seq<Single>> {
    sets.map_values(|weights: Vec<Single>| weights@)
}

/// A `Unigram` model to encode sentences.
pub struct Unigram {
    token_to_ids: TokenMap,
    vocab: Vec<(String, Double)>,
    cache: Cache,
    trie: Trie,
    min_score: Double,
    unk_id: Option<usize>,
    bos_id: usize,
    eos_id: usize,
    fuse_unk: bool,
    is_optimized: bool,
    byte_fallback: bool,
    cached_weight_sets: Option<Vec<Vec<Single>>>,
    origins: Ghost<Set<Encoder>>,
}

impl View for Unigram {
    type V = ModelView;

    closed spec fn view(&self) -> ModelView {
        ModelView {
            encoder: Encoder {
                vocab: vocab_of(self.vocab@),
                unk_id: self.unk_id,
                min_score: self.min_score,
                fuse_unk: self.fuse_unk,
                is_optimized: self.is_optimized,
            },
            byte_fallback: self.byte_fallback,
            weight_sets: match self.cached_weight_sets {
                Some(sets) => Some(sets_of(sets@)),
                None => None,
            },
        }
    }
}

impl Unigram {
    /// The encoders that may have left results in the cache.
    pub closed spec fn origins(&self) -> Set<Encoder> {
        self.origins@
    }

    /// The cache holds results of the model as it is, and no others.
    pub open spec fn is_current(&self) -> bool {
        self.origins() == set![self@.encoder]
    }

    /// How many results the cache holds at most.
    pub closed spec fn cache_limit(&self) -> usize {
        self.cache.limit()
    }

    /// The texts whose results have been in the cache since it was last handed over. They stay until
    /// the cache is cleared.
    pub closed spec fn kept(&self) -> Set<Seq<char>> {
        self.cache.kept()
    }

    /// How many results there can be in the cache, by all capacities since it was last fresh.
    pub closed spec fn most(&self) -> nat {
        self.cache.most()
    }

    /// The parts of the model agree with one another.
    pub closed spec fn wf(&self) -> bool {
        &&& self.in_order()
        &&& self.cache.allowed() == encoded_pairs(self.origins@)
        &&& self.origins@.contains(self@.encoder)
        &&& are_alike(self.origins@, self@.encoder)
    }

    /// The parts of the model besides the cache agree with one another.
    spec fn in_order(&self) -> bool {
        &&& self@.wf()
        &&& entries(self.token_to_ids) == ids(self@.encoder.vocab)
        &&& self.trie.wf()
        &&& self.trie.words() == words(self@.encoder.vocab)
        &&& self.bos_id == self.vocab@.len() + 1
        &&& self.eos_id == self.vocab@.len() + 2
    }

    /// The parts of a model with this invariant are in order.
    pub proof fn lemma_wf(&self)
        requires
            self.wf(),
        ensures
            self@.wf(),
            self.origins().contains(self@.encoder),
            are_alike(self.origins(), self@.encoder),
    {
    }

    /// Creates a model from a vocabulary: the tokens with their scores. `unk_id` is the id of
    /// the token that stands for unknown characters, an index in the vocabulary. The vocabulary
    /// has to have at least that one token, since a character that was never seen may come.
    pub fn from(
        vocab: Vec<(String, Double)>,
        unk_id: Option<usize>,
        byte_fallback: bool,
    ) -> (result: Result<Unigram, UnigramError>)
        requires
            fits(vocab_of(vocab@)),
        ensures
            match result {
                Err(error) => if vocab@.len() == 0 {
                    error == UnigramError::EmptyVocabulary
                } else {
                    unk_id is Some && unk_id->0 >= vocab@.len() && error
                        == UnigramError::UnkIdNotInVocabulary
                },
                Ok(model) => {
                    &&& vocab@.len() > 0
                    &&& unk_id is Some ==> unk_id->0 < vocab@.len()
                    &&& model.wf()
                    &&& model@ == (ModelView {
                        encoder: Encoder {
                            vocab: vocab_of(vocab@),
                            unk_id,
                            min_score: lowest(vocab_of(vocab@)),
                            fuse_unk: true,
                            is_optimized: true,
                        },
                        byte_fallback,
                        weight_sets: None,
                    })
                    &&& model.is_current()
                    &&& model.cache_limit() == DEFAULT_CACHE_CAPACITY
                    &&& model.most() == DEFAULT_CACHE_CAPACITY
                },
            },
    {
        if vocab.len() == 0 {
            return Err(UnigramError::EmptyVocabulary);
        }
        match unk_id {
            Some(unk) => {
                if unk >= vocab.len() {
                    return Err(UnigramError::UnkIdNotInVocabulary);
                }
            },
            None => {},
        }
        let n: usize = vocab.len();
        let ghost all = vocab_of(vocab@);
        let mut token_to_ids: TokenMap = new_map();
        let mut trie: Trie = Trie::new();
        let mut min_score: Double = Double::infinity();
        let mut id: usize = 0;
        proof {
            assert(words(all.take(0)) =~= Set::<Seq<u8>>::empty());
        }
        while id < n
            invariant
                n == vocab@.len(),
                n <= 0x1_0000_0000,
                id <= n,
                all == vocab_of(vocab@),
                entries(token_to_ids) == ids(all.take(id as int)),
                trie.wf(),
                trie.words() == words(all.take(id as int)),
                min_score == lowest(all.take(id as int)),
            decreases n - id,
        {
            insert(&mut token_to_ids, vocab[id].0.clone(), id as u32);
            trie.push(vocab[id].0.as_str().as_bytes());
            let score: Double = vocab[id].1;
            if min_score.gt(&score) {
                min_score = score;
            }
            proof {
                let shorter = all.take(id as int);
                let longer = all.take(id + 1);
                assert(longer.drop_last() =~= shorter);
                assert(longer.last() == (vocab@[id as int].0@, score));
                lemma_words_push(shorter, longer.last());
                assert(shorter.push(longer.last()) =~= longer);
            }
            id = id + 1;
        }
        proof {
            assert(all.take(n as int) =~= all);
        }
        let ghost encoder = Encoder {
            vocab: all,
            unk_id,
            min_score,
            fuse_unk: true,
            is_optimized: true,
        };
        let ghost origins = set![encoder];
        Ok(
            Unigram {
                token_to_ids,
                vocab,
                cache: Cache::new(DEFAULT_CACHE_CAPACITY, Ghost(encoded_pairs(origins))),
                trie,
                min_score,
                unk_id,
                bos_id: n + 1,
                eos_id: n + 2,
                fuse_unk: true,
                is_optimized: true,
                byte_fallback,
                cached_weight_sets: None,
                origins: Ghost(origins),
            },
        )
    }

    /// The edges of the tokens that begin at byte `s`.
    fn token_edges(&self, sentence: &str, s: usize) -> (edges: Vec<(usize, usize)>)
        requires
            self.wf(),
            boundary(encode_utf8(sentence@), s as int),
        ensures
            edges@ == token_edges(self@.encoder.vocab, encode_utf8(sentence@), s as int),
    {
        let ghost vocab = self@.encoder.vocab;
        let ghost bytes = encode_utf8(sentence@);
        let text: &[u8] = sentence.as_bytes();
        let len: usize = text.len();
        let lengths: Vec<usize> = self.trie.common_prefix_search(text, s);
        let mut edges: Vec<(usize, usize)> = Vec::new();
        let mut k: usize = 0;
        proof {
            encode_utf8_valid_utf8(sentence@);
            lemma_matching(words(vocab), bytes.skip(s as int), (bytes.len() - s) as nat);
        }
        while k < lengths.len()
            invariant
                self.wf(),
                vocab == self@.encoder.vocab,
                bytes == encode_utf8(sentence@),
                valid_utf8(bytes),
                boundary(bytes, s as int),
                bytes.len() <= usize::MAX,
                lengths@ == matching_lengths(
                    words(vocab),
                    bytes.skip(s as int),
                    (bytes.len() - s) as nat,
                ),
                forall|k: int|
                    0 <= k < lengths@.len() ==> {
                        let n = #[trigger] lengths@[k];
                        1 <= n <= bytes.len() - s && words(vocab).contains(
                            bytes.skip(s as int).take(n as int),
                        )
                    },
                k <= lengths@.len(),
                edges@ =~= token_edges(vocab, bytes, s as int).take(k as int),
            decreases lengths.len() - k,
        {
            let n: usize = lengths[k];
            proof {
                assert(bytes.skip(s as int).take(n as int) =~= bytes.subrange(s as int, s + n));
                lemma_word_is_token(vocab, bytes, s as int, s + n);
            }
            match get(&self.token_to_ids, piece(sentence, s, s + n)) {
                Some(id) => {
                    edges.push((s + n, id as usize));
                },
                None => {},
            }
            k = k + 1;
        }
        assert(edges@ =~= token_edges(vocab, bytes, s as int));
        edges
    }
}

/// One more token is one more word.
proof fn lemma_words_push(vocab: Vocab, entry: (Seq<char>, Double))
    ensures
        words(vocab.push(entry)) == words(vocab).insert(encode_utf8(entry.0)),
{
    let longer = vocab.push(entry);
    assert forall|word: Seq<u8>|
        words(longer).contains(word) == words(vocab).insert(encode_utf8(entry.0)).contains(word) by {
        if words(vocab).contains(word) {
            let i = choose|i: int| 0 <= i < vocab.len() && #[trigger] has_bytes(vocab, i, word);
            assert(has_bytes(longer, i, word));
        }
        if word == encode_utf8(entry.0) {
            assert(has_bytes(longer, vocab.len() as int, word));
        }
        if words(longer).contains(word) {
            let i = choose|i: int| 0 <= i < longer.len() && #[trigger] has_bytes(longer, i, word);
            if i < vocab.len() {
                assert(has_bytes(vocab, i, word));
            }
        }
    }
    assert(words(longer) =~= words(vocab).insert(encode_utf8(entry.0)));
}

} // verus!
