//! Looking into a model, comparing models and copying them.

use super::{encoded_pairs, lowest, sets_of, vocab_of, Unigram};
use crate::cache::DEFAULT_CACHE_CAPACITY;
use crate::double::Double;
use crate::encoding::Encoder;
use crate::single::Single;
use crate::text::{decimal, push_decimal};
use crate::token_map::{copy, get};
use crate::vocabulary::{ids, lemma_ids, Vocab};
use crate::weight_sets::ModelView;
use vstd::prelude::*;

verus! {

/// An id is that of a token.
pub open spec fn is_vocab_entry(vocab: Vocab, token: Seq<char>, id: u32) -> bool {
    ids(vocab).contains_key(token) && ids(vocab)[token] == id
}

/// The tokens of the vocabulary with their ids: each token once, in the order of the ids.
pub open spec fn is_vocab_list(vocab: Vocab, list: Seq<(String, u32)>) -> bool {
    &&& forall|i: int|
        0 <= i < list.len() ==> is_vocab_entry(vocab, (#[trigger] list[i]).0@, list[i].1)
    &&& forall|i: int, j: int|
        #![trigger list[i], list[j]]
        0 <= i < j < list.len() ==> list[i].1 < list[j].1
    &&& forall|token: Seq<char>| #[trigger]
        ids(vocab).contains_key(token) ==> exists|i: int|
            0 <= i < list.len() && (#[trigger] list[i]).0@ == token
}

/// Two vocabularies have the same tokens and, as numbers, the same scores.
pub open spec fn same_vocab(a: Vocab, b: Vocab) -> bool {
    &&& a.len() == b.len()
    &&& forall|i: int|
        0 <= i < a.len() ==> (#[trigger] a[i]).0 == b[i].0 && a[i].1.same_number(b[i].1)
}

/// The text of an optional number.
pub open spec fn optional_text(n: Option<usize>) -> Seq<char> {
    match n {
        Some(n) => "Some("@ + decimal(n as nat) + ")"@,
        None => "None"@,
    }
}

/// The text of a truth value.
pub open spec fn truth_text(b: bool) -> Seq<char> {
    if b {
        "true"@
    } else {
        "false"@
    }
}

impl Unigram {
    /// Whether unknown pieces are turned into tokens of their bytes.
    pub fn byte_fallback(&self) -> (byte_fallback: bool)
        ensures
            byte_fallback == self@.byte_fallback,
    {
        self.byte_fallback
    }

    /// How many entries the vocabulary has.
    pub fn len(&self) -> (len: usize)
        ensures
            len == self@.encoder.vocab.len(),
    {
        self.vocab.len()
    }

    /// How many entries the vocabulary has.
    pub fn get_vocab_size(&self) -> (size: usize)
        ensures
            size == self@.encoder.vocab.len(),
    {
        self.vocab.len()
    }

    /// The id of the unknown token.
    pub fn unk_id(&self) -> (unk_id: Option<usize>)
        ensures
            unk_id == self@.encoder.unk_id,
    {
        self.unk_id
    }

    /// The id that marks the beginning of a lattice.
    pub fn bos_id(&self) -> (id: usize)
        requires
            self.wf(),
        ensures
            id == self@.encoder.vocab.len() + 1,
    {
        self.bos_id
    }

    /// The id that marks the end of a lattice.
    pub fn eos_id(&self) -> (id: usize)
        requires
            self.wf(),
        ensures
            id == self@.encoder.vocab.len() + 2,
    {
        self.eos_id
    }

    /// The tokens of the vocabulary with their ids, in the order of the ids.
    pub fn get_vocab(&self) -> (list: Vec<(String, u32)>)
        requires
            self.wf(),
        ensures
            is_vocab_list(self@.encoder.vocab, list@),
    {
        let ghost vocab = self@.encoder.vocab;
        let mut list: Vec<(String, u32)> = Vec::new();
        let mut i: usize = 0;
        while i < self.vocab.len()
            invariant
                self.wf(),
                vocab == self@.encoder.vocab,
                i <= self.vocab@.len(),
                forall|j: int|
                    0 <= j < list@.len() ==> is_vocab_entry(
                        vocab,
                        (#[trigger] list@[j]).0@,
                        list@[j].1,
                    ) && list@[j].1 < i,
                forall|j: int, k: int|
                    #![trigger list@[j], list@[k]]
                    0 <= j < k < list@.len() ==> list@[j].1 < list@[k].1,
                forall|token: Seq<char>| #[trigger]
                    ids(vocab).contains_key(token) && ids(vocab)[token] < i ==> exists|j: int|
                        0 <= j < list@.len() && (#[trigger] list@[j]).0@ == token,
            decreases self.vocab.len() - i,
        {
            let token: &String = &self.vocab[i].0;
            let ghost before = list@;
            proof {
                assert(vocab[i as int].0 == token@);
                lemma_ids(vocab, token@);
            }
            match get(&self.token_to_ids, token.as_str()) {
                Some(id) => {
                    if id as usize == i {
                        list.push((token.clone(), id));
                    }
                },
                None => {},
            }
            proof {
                assert forall|text: Seq<char>| #[trigger]
                    ids(vocab).contains_key(text) && ids(vocab)[text] < i + 1 implies exists|j: int|
                    0 <= j < list@.len() && (#[trigger] list@[j]).0@ == text by {
                    lemma_ids(vocab, text);
                    if ids(vocab)[text] < i {
                        let j = choose|j: int|
                            0 <= j < before.len() && (#[trigger] before[j]).0@ == text;
                        assert(list@[j].0@ == text);
                    } else {
                        assert(text == token@);
                        assert(list@[list@.len() - 1].0@ == text);
                    }
                }
            }
            i = i + 1;
        }
        proof {
            assert forall|text: Seq<char>| #[trigger]
                ids(vocab).contains_key(text) implies exists|j: int|
                0 <= j < list@.len() && (#[trigger] list@[j]).0@ == text by {
                lemma_ids(vocab, text);
                assert(ids(vocab)[text] < i);
            }
        }
        list
    }

    /// The id of a token.
    pub fn token_to_id(&self, token: &str) -> (id: Option<u32>)
        requires
            self.wf(),
        ensures
            id == (if ids(self@.encoder.vocab).contains_key(token@) {
                Some(ids(self@.encoder.vocab)[token@])
            } else {
                None
            }),
    {
        get(&self.token_to_ids, token)
    }

    /// The token with an id.
    pub fn id_to_token(&self, id: u32) -> (token: Option<String>)
        ensures
            match token {
                Some(token) => id < self@.encoder.vocab.len() && token@
                    == self@.encoder.vocab[id as int].0,
                None => id >= self@.encoder.vocab.len(),
            },
    {
        if (id as usize) < self.vocab.len() {
            Some(self.vocab[id as usize].0.clone())
        } else {
            None
        }
    }

    /// An iterator over the entries of the vocabulary.
    pub fn iter(&self) -> (iterator: UnigramIterator<'_>)
        ensures
            iterator.vocab() == self@.encoder.vocab,
            iterator.position() == 0,
    {
        UnigramIterator { model: self, i: 0 }
    }

    /// A short description of the model.
    pub fn describe(&self) -> (text: String)
        ensures
            text@ == "Unigram { vocab: "@ + decimal(self@.encoder.vocab.len()) + ", unk_id: "@
                + optional_text(self@.encoder.unk_id) + ", byte_fallback: "@ + truth_text(
                self@.byte_fallback,
            ) + " }"@,
    {
        let mut text: String = "Unigram { vocab: ".to_owned();
        push_decimal(&mut text, self.vocab.len());
        text.append(", unk_id: ");
        let ghost before = text@;
        match self.unk_id {
            Some(unk_id) => {
                text.append("Some(");
                push_decimal(&mut text, unk_id);
                text.append(")");
            },
            None => {
                text.append("None");
            },
        }
        assert(text@ =~= before + optional_text(self.unk_id));
        text.append(", byte_fallback: ");
        text.append(
            if self.byte_fallback {
                "true"
            } else {
                "false"
            },
        );
        text.append(" }");
        text
    }

    /// Equal entries of two vocabularies.
    fn same_entries(&self, other: &Unigram) -> (same: bool)
        ensures
            same == same_vocab(self@.encoder.vocab, other@.encoder.vocab),
    {
        let ghost a = self@.encoder.vocab;
        let ghost b = other@.encoder.vocab;
        if self.vocab.len() != other.vocab.len() {
            return false;
        }
        let mut i: usize = 0;
        while i < self.vocab.len()
            invariant
                a == self@.encoder.vocab,
                b == other@.encoder.vocab,
                self.vocab@.len() == other.vocab@.len(),
                i <= self.vocab@.len(),
                forall|j: int|
                    0 <= j < i ==> (#[trigger] a[j]).0 == b[j].0 && a[j].1.same_number(b[j].1),
            decreases self.vocab.len() - i,
        {
            assert(a[i as int] == (self.vocab@[i as int].0@, self.vocab@[i as int].1));
            assert(b[i as int] == (other.vocab@[i as int].0@, other.vocab@[i as int].1));
            if self.vocab[i].0 != other.vocab[i].0 || !self.vocab[i].1.equals(&other.vocab[i].1) {
                return false;
            }
            i = i + 1;
        }
        true
    }
}

/// Goes over the entries of a model's vocabulary.
pub struct UnigramIterator<'a> {
    model: &'a Unigram,
    i: usize,
}

impl<'a> UnigramIterator<'a> {
    /// The vocabulary.
    pub closed spec fn vocab(&self) -> Vocab {
        self.model@.encoder.vocab
    }

    /// How many entries have been returned.
    pub closed spec fn position(&self) -> int {
        self.i as int
    }

    /// The next entry: a token and its score.
    pub fn next(&mut self) -> (entry: Option<&'a (String, Double)>)
        ensures
            final(self).vocab() == old(self).vocab(),
            match entry {
                Some(entry) => {
                    &&& old(self).position() < old(self).vocab().len()
                    &&& (entry.0@, entry.1) == old(self).vocab()[old(self).position()]
                    &&& final(self).position() == old(self).position() + 1
                },
                None => {
                    &&& old(self).position() >= old(self).vocab().len()
                    &&& final(self).position() == old(self).position()
                },
            },
    {
        let i: usize = self.i;
        if i < self.model.len() {
            let model: &'a Unigram = self.model;
            self.i = i + 1;
            Some(&model.vocab[i])
        } else {
            None
        }
    }
}

/// Models are equal when they have the same unknown id and the same vocabulary; scores are
/// compared as numbers.
impl PartialEq for Unigram {
    fn eq(&self, other: &Unigram) -> (same: bool) {
        let same_unk: bool = match (self.unk_id, other.unk_id) {
            (Some(a), Some(b)) => a == b,
            (None, None) => true,
            _ => false,
        };
        same_unk && self.same_entries(other)
    }
}

impl vstd::std_specs::cmp::PartialEqSpecImpl for Unigram {
    open spec fn obeys_eq_spec() -> bool {
        true
    }

    open spec fn eq_spec(&self, other: &Unigram) -> bool {
        self@.encoder.unk_id == other@.encoder.unk_id && same_vocab(
            self@.encoder.vocab,
            other@.encoder.vocab,
        )
    }
}

/// Copies the entries of a vocabulary.
fn copy_vocab(vocab: &Vec<(String, Double)>) -> (copied: Vec<(String, Double)>)
    ensures
        vocab_of(copied@) == vocab_of(vocab@),
{
    let mut copied: Vec<(String, Double)> = Vec::new();
    let mut i: usize = 0;
    while i < vocab.len()
        invariant
            i <= vocab@.len(),
            vocab_of(copied@) =~= vocab_of(vocab@).take(i as int),
        decreases vocab.len() - i,
    {
        let ghost before = copied@;
        copied.push((vocab[i].0.clone(), vocab[i].1));
        assert(vocab_of(copied@) =~= vocab_of(before).push(vocab_of(vocab@)[i as int]));
        i = i + 1;
    }
    assert(vocab_of(copied@) =~= vocab_of(vocab@));
    copied
}

/// Copies sets of weights.
fn copy_sets(sets: &Vec<Vec<Single>>) -> (copied: Vec<Vec<Single>>)
    ensures
        sets_of(copied@) == sets_of(sets@),
{
    let mut copied: Vec<Vec<Single>> = Vec::new();
    let mut i: usize = 0;
    while i < sets.len()
        invariant
            i <= sets@.len(),
            sets_of(copied@) =~= sets_of(sets@).take(i as int),
        decreases sets.len() - i,
    {
        let set: &Vec<Single> = &sets[i];
        let mut weights: Vec<Single> = Vec::new();
        let mut k: usize = 0;
        while k < set.len()
            invariant
                k <= set@.len(),
                weights@ =~= set@.take(k as int),
            decreases set.len() - k,
        {
            weights.push(set[k]);
            k = k + 1;
        }
        assert(weights@ =~= set@);
        let ghost before = copied@;
        copied.push(weights);
        assert(sets_of(copied@) =~= sets_of(before).push(sets_of(sets@)[i as int]));
        i = i + 1;
    }
    assert(sets_of(copied@) =~= sets_of(sets@));
    copied
}

/// The copy is the same model with a fresh cache.
impl Clone for Unigram {
    fn clone(&self) -> (copied: Unigram)
        ensures
            self.wf() ==> {
                &&& copied.wf()
                &&& copied@ == self@
                &&& copied.is_current()
                &&& copied.cache_limit() == self.cache_limit()
                &&& copied.most() == self.cache_limit()
            },
    {
        let ghost origins = set![self@.encoder];
        let cached_weight_sets: Option<Vec<Vec<Single>>> = match &self.cached_weight_sets {
            Some(sets) => Some(copy_sets(sets)),
            None => None,
        };
        Unigram {
            token_to_ids: copy(&self.token_to_ids),
            vocab: copy_vocab(&self.vocab),
            cache: self.cache.fresh(Ghost(encoded_pairs(origins))),
            trie: self.trie.copy(),
            min_score: self.min_score,
            unk_id: self.unk_id,
            bos_id: self.bos_id,
            eos_id: self.eos_id,
            fuse_unk: self.fuse_unk,
            is_optimized: self.is_optimized,
            byte_fallback: self.byte_fallback,
            cached_weight_sets,
            origins: Ghost(origins),
        }
    }
}

/// A model whose vocabulary holds only the unknown token.
impl Default for Unigram {
    fn default() -> (model: Unigram)
        ensures
            model.wf(),
            model@ == default_view(),
            model.is_current(),
            model.cache_limit() == DEFAULT_CACHE_CAPACITY,
    {
        let mut vocab: Vec<(String, Double)> = Vec::new();
        vocab.push(("<unk>".to_owned(), Double::zero()));
        assert(vocab_of(vocab@) =~= default_view().encoder.vocab);
        Unigram::from(vocab, Some(0), false).unwrap()
    }
}

/// The default model.
pub open spec fn default_view() -> ModelView {
    let vocab = seq![("<unk>"@, Double { bits: 0 })];
    ModelView {
        encoder: Encoder {
            vocab,
            unk_id: Some(0),
            min_score: lowest(vocab),
            fuse_unk: true,
            is_optimized: true,
        },
        byte_fallback: false,
        weight_sets: None,
    }
}

} // verus!
