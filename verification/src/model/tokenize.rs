//! Tokens with ids and offsets.

use super::{is_encoding, Unigram};
use crate::cache::texts_of;
use crate::encoding::Encoder;
use crate::error::UnigramError;
use crate::lattice_encoding::encoding;
use crate::token_map::get;
use crate::tokenization::{
    byte_group, byte_text, byte_token, byte_total, bytes_known, gives_token_list, lemma_byte_total,
    lemma_byte_total_take, lemma_error_stays, sentence_tokens, token_views, tokenized, Token,
    TokenView,
};
use crate::vocabulary::ids;
use vstd::prelude::*;
use vstd::utf8::encode_utf8;

verus! {

impl Unigram {
    /// The tokens of the bytes of a text, all with the same offsets; nothing where one of the
    /// bytes has no token.
    fn byte_tokens(&self, text: &str, offsets: (usize, usize)) -> (result: Option<Vec<Token>>)
        requires
            self.wf(),
        ensures
            match result {
                Some(tokens) => {
                    &&& bytes_known(self@.encoder.vocab, encode_utf8(text@))
                    &&& token_views(tokens@) == byte_group(
                        self@.encoder.vocab,
                        encode_utf8(text@),
                        offsets.0 as int,
                        offsets.1 as int,
                    )
                },
                None => !bytes_known(self@.encoder.vocab, encode_utf8(text@)),
            },
    {
        let ghost vocab = self@.encoder.vocab;
        let bytes: &[u8] = text.as_bytes();
        let ghost all = byte_group(vocab, bytes@, offsets.0 as int, offsets.1 as int);
        let mut tokens: Vec<Token> = Vec::new();
        let mut i: usize = 0;
        while i < bytes.len()
            invariant
                self.wf(),
                vocab == self@.encoder.vocab,
                bytes@ == encode_utf8(text@),
                i <= bytes@.len(),
                all == byte_group(vocab, bytes@, offsets.0 as int, offsets.1 as int),
                forall|j: int|
                    0 <= j < i ==> ids(vocab).contains_key(byte_token(#[trigger] bytes@[j])),
                token_views(tokens@) =~= all.take(i as int),
            decreases bytes.len() - i,
        {
            let value: String = byte_text(bytes[i]);
            match get(&self.token_to_ids, value.as_str()) {
                Some(id) => {
                    let ghost before = tokens@;
                    tokens.push(Token { id, value, offsets });
                    assert(token_views(tokens@) =~= token_views(before).push(all[i as int]));
                },
                None => {
                    assert(!ids(vocab).contains_key(byte_token(bytes@[i as int])));
                    return None;
                },
            }
            i = i + 1;
        }
        assert(token_views(tokens@) =~= all);
        Some(tokens)
    }

    /// The tokens of the texts of an encoding, with their ids and offsets.
    pub fn assign_ids(&self, texts: Vec<String>) -> (result: Result<Vec<Token>, UnigramError>)
        requires
            self.wf(),
            byte_total(texts_of(texts@)) <= usize::MAX,
        ensures
            gives_token_list(result, tokenized(self@, texts_of(texts@))),
    {
        let ghost all = texts_of(texts@);
        let mut offset: usize = 0;
        let mut tokens: Vec<Token> = Vec::new();
        let mut i: usize = 0;
        assert(token_views(tokens@) =~= seq![]);
        while i < texts.len()
            invariant
                self.wf(),
                all == texts_of(texts@),
                byte_total(all) <= usize::MAX,
                i <= texts@.len(),
                offset == byte_total(all.take(i as int)),
                tokenized(self@, all.take(i as int)) == Ok::<Seq<TokenView>, UnigramError>(
                    token_views(tokens@),
                ),
            decreases texts.len() - i,
        {
            let text: &str = texts[i].as_str();
            let ghost before = tokens@;
            proof {
                assert(all.take(i + 1).drop_last() =~= all.take(i as int));
                assert(all.take(i + 1).last() == text@);
                lemma_byte_total_take(all, i + 1);
            }
            let offsets: (usize, usize) = (offset, offset + text.as_bytes().len());
            let fallback: Option<Vec<Token>> = match get(&self.token_to_ids, text) {
                Some(id) => Some(one_token(id, text, offsets)),
                None => if self.byte_fallback {
                    self.byte_tokens(text, offsets)
                } else {
                    None
                },
            };
            let mut more: Vec<Token> = match fallback {
                Some(more) => more,
                None => match self.unk_id {
                    Some(unk_id) => one_token(unk_id as u32, text, offsets),
                    None => {
                        proof {
                            lemma_error_stays(self@, all, i + 1);
                        }
                        return Err(UnigramError::MissingUnkId);
                    },
                },
            };
            let ghost added = more@;
            tokens.append(&mut more);
            assert(token_views(tokens@) =~= token_views(before) + token_views(added));
            offset = offsets.1;
            i = i + 1;
        }
        assert(all.take(i as int) =~= all);
        Ok(tokens)
    }

    /// The tokens of a sentence, with their ids and offsets: those of its encoding, as `encode`
    /// gives it.
    pub fn tokenize(&self, sentence: &str) -> (result: Result<Vec<Token>, UnigramError>)
        requires
            self.wf(),
        ensures
            ({
                ||| result is Err && encoding(self@.encoder, sentence@) == Err::<
                    Seq<Seq<char>>,
                    UnigramError,
                >(result->Err_0)
                ||| exists|origin: Encoder, texts: Seq<Seq<char>>|
                    #![trigger is_encoding(origin, sentence@, texts)]
                    self.origins().contains(origin) && is_encoding(origin, sentence@, texts)
                        && gives_token_list(result, tokenized(self@, texts))
            }),
            self.is_current() || self.most() == 0 ==> gives_token_list(
                result,
                sentence_tokens(self@, sentence@),
            ),
    {
        let size: usize = sentence.as_bytes().len();
        match self.encode(sentence) {
            Ok(texts) => {
                let ghost all = texts_of(texts@);
                proof {
                    let origin = choose|origin: Encoder| #[trigger]
                        self.origins().contains(origin) && is_encoding(origin, sentence@, all);
                    lemma_byte_total(all);
                    assert(is_encoding(origin, sentence@, all));
                }
                self.assign_ids(texts)
            },
            Err(error) => Err(error),
        }
    }
}

/// A list of one token.
fn one_token(id: u32, text: &str, offsets: (usize, usize)) -> (tokens: Vec<Token>)
    ensures
        token_views(tokens@) == seq![
            TokenView {
                id,
                value: text@,
                start: offsets.0 as int,
                end: offsets.1 as int,
            },
        ],
{
    let mut tokens: Vec<Token> = Vec::new();
    tokens.push(Token { id, value: text.to_owned(), offsets });
    assert(token_views(tokens@) =~= seq![
        TokenView { id, value: text@, start: offsets.0 as int, end: offsets.1 as int },
    ]);
    tokens
}

} // verus!
