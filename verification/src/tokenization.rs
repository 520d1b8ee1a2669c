//! The tokens of an encoding: their ids, and where they stand in the sentence.

use crate::error::UnigramError;
use crate::lattice_encoding::{encoding, law_encoding_covers};
use crate::segmentation::joined;
use crate::sentence::{lemma_empty_text, lemma_encode_concat};
use crate::text::{hexadecimal, push_hexadecimal};
use crate::vocabulary::{ids, Vocab};
use crate::weight_sets::ModelView;
use vstd::prelude::*;
use vstd::utf8::encode_utf8;

verus! {

/// A token: its id, its text, and the bytes of the sentence that it stands for.
#[derive(Debug, PartialEq, Eq)]
pub struct Token {
    pub id: u32,
    pub value: String,
    pub offsets: (usize, usize),
}

/// A token as a mathematical value.
pub struct TokenView {
    pub id: u32,
    pub value: Seq<char>,
    pub start: int,
    pub end: int,
}

impl View for Token {
    type V = TokenView;

    open spec fn view(&self) -> TokenView {
        TokenView {
            id: self.id,
            value: self.value@,
            start: self.offsets.0 as int,
            end: self.offsets.1 as int,
        }
    }
}

/// The token that stands for a byte, such as `<0xC3>`.
pub open spec fn byte_token(byte: u8) -> Seq<char> {
    "<0x"@ + hexadecimal(byte) + ">"@
}

/// Every byte has a token of its own.
pub open spec fn bytes_known(vocab: Vocab, bytes: Seq<u8>) -> bool {
    forall|i: int| 0 <= i < bytes.len() ==> ids(vocab).contains_key(byte_token(#[trigger] bytes[i]))
}

/// The tokens of bytes, each standing for the same bytes of the sentence.
pub open spec fn byte_group(vocab: Vocab, bytes: Seq<u8>, start: int, end: int) -> Seq<TokenView> {
    bytes.map_values(
        |byte: u8|
            TokenView { id: ids(vocab)[byte_token(byte)], value: byte_token(byte), start, end },
    )
}

/// The tokens of one text of an encoding that begins at a byte of the sentence: the text itself
/// where it is in the vocabulary; otherwise its bytes, where that is asked for and all have
/// tokens; otherwise the unknown token.
pub open spec fn group(m: ModelView, text: Seq<char>, start: int) -> Result<
    Seq<TokenView>,
    UnigramError,
> {
    let known = ids(m.encoder.vocab);
    let bytes = encode_utf8(text);
    let end = start + bytes.len();
    if known.contains_key(text) {
        Ok(seq![TokenView { id: known[text], value: text, start, end }])
    } else if m.byte_fallback && bytes_known(m.encoder.vocab, bytes) {
        Ok(byte_group(m.encoder.vocab, bytes, start, end))
    } else if m.encoder.unk_id is Some {
        Ok(seq![TokenView { id: m.encoder.unk_id->0 as u32, value: text, start, end }])
    } else {
        Err(UnigramError::MissingUnkId)
    }
}

/// How many bytes texts have together.
pub open spec fn byte_total(texts: Seq<Seq<char>>) -> nat
    decreases texts.len(),
{
    if texts.len() == 0 {
        0
    } else {
        byte_total(texts.drop_last()) + encode_utf8(texts.last()).len()
    }
}

/// The tokens of the texts of an encoding.
pub open spec fn tokenized(m: ModelView, texts: Seq<Seq<char>>) -> Result<
    Seq<TokenView>,
    UnigramError,
>
    decreases texts.len(),
{
    if texts.len() == 0 {
        Ok(seq![])
    } else {
        let before = texts.drop_last();
        match tokenized(m, before) {
            Ok(tokens) => match group(m, texts.last(), byte_total(before) as int) {
                Ok(more) => Ok(tokens + more),
                Err(error) => Err(error),
            },
            Err(error) => Err(error),
        }
    }
}

/// The tokens of a sentence.
pub open spec fn sentence_tokens(m: ModelView, sentence: Seq<char>) -> Result<
    Seq<TokenView>,
    UnigramError,
> {
    match encoding(m.encoder, sentence) {
        Ok(texts) => tokenized(m, texts),
        Err(error) => Err(error),
    }
}

/// Tokens as mathematical values.
pub open spec fn token_views(tokens: Seq<Token>) -> Seq<TokenView> {
    tokens.map_values(|token: Token| token@)
}

/// The tokens are those expected.
pub open spec fn gives_token_list(
    result: Result<Vec<Token>, UnigramError>,
    expected: Result<Seq<TokenView>, UnigramError>,
) -> bool {
    match result {
        Ok(tokens) => expected == Ok::<Seq<TokenView>, UnigramError>(token_views(tokens@)),
        Err(error) => expected == Err::<Seq<TokenView>, UnigramError>(error),
    }
}

/// Texts one after the other have as many bytes as together.
pub proof fn lemma_byte_total(texts: Seq<Seq<char>>)
    ensures
        byte_total(texts) == encode_utf8(joined(texts)).len(),
    decreases texts.len(),
{
    if texts.len() == 0 {
        lemma_empty_text(joined(texts));
    } else {
        lemma_byte_total(texts.drop_last());
        lemma_encode_concat(joined(texts.drop_last()), texts.last());
    }
}

/// The first texts have no more bytes than all.
pub proof fn lemma_byte_total_take(texts: Seq<Seq<char>>, n: int)
    requires
        0 <= n <= texts.len(),
    ensures
        byte_total(texts.take(n)) <= byte_total(texts),
    decreases texts.len() - n,
{
    if n < texts.len() {
        lemma_byte_total_take(texts, n + 1);
        assert(texts.take(n + 1).drop_last() =~= texts.take(n));
    } else {
        assert(texts.take(n) =~= texts);
    }
}

/// An error in the first texts is an error in all.
pub proof fn lemma_error_stays(m: ModelView, texts: Seq<Seq<char>>, n: int)
    requires
        0 <= n <= texts.len(),
        tokenized(m, texts.take(n)) is Err,
    ensures
        tokenized(m, texts) == tokenized(m, texts.take(n)),
    decreases texts.len() - n,
{
    if n < texts.len() {
        assert(texts.take(n + 1).drop_last() =~= texts.take(n));
        lemma_error_stays(m, texts, n + 1);
    } else {
        assert(texts.take(n) =~= texts);
    }
}

/// A token and the one after it: it begins where the other ends, or both stand for the same
/// bytes.
pub open spec fn follows(tokens: Seq<TokenView>, i: int) -> bool {
    ||| tokens[i].start == tokens[i - 1].end
    ||| tokens[i].start == tokens[i - 1].start && tokens[i].end == tokens[i - 1].end
}

/// The offsets of tokens go through the texts from the beginning to the end without a gap: the
/// first token begins at byte 0, the last ends at the last byte, and each begins where the one
/// before it ends, or stands for the same bytes.
pub proof fn law_offsets_have_no_gap(m: ModelView, texts: Seq<Seq<char>>)
    requires
        forall|i: int| 0 <= i < texts.len() ==> (#[trigger] texts[i]).len() > 0,
    ensures
        tokenized(m, texts) matches Ok(tokens) ==> {
            &&& texts.len() > 0 ==> tokens.len() > 0 && tokens[0].start == 0 && tokens.last().end
                == byte_total(texts)
            &&& forall|i: int|
                0 <= i < tokens.len() ==> 0 <= (#[trigger] tokens[i]).start < tokens[i].end
                    <= byte_total(texts)
            &&& forall|i: int| 0 < i < tokens.len() ==> #[trigger] follows(tokens, i)
        },
    decreases texts.len(),
{
    if texts.len() > 0 && tokenized(m, texts) is Ok {
        let before = texts.drop_last();
        assert forall|i: int| 0 <= i < before.len() implies (#[trigger] before[i]).len() > 0 by {
            assert(before[i] == texts[i]);
        }
        law_offsets_have_no_gap(m, before);
        let earlier = tokenized(m, before)->Ok_0;
        let start = byte_total(before) as int;
        let more = group(m, texts.last(), start)->Ok_0;
        let tokens = tokenized(m, texts)->Ok_0;
        assert(texts[texts.len() - 1].len() > 0);
        lemma_empty_text(texts.last());
        let end = start + encode_utf8(texts.last()).len();
        assert(more.len() > 0);
        assert forall|k: int| 0 <= k < more.len() implies (#[trigger] more[k]).start == start
            && more[k].end == end by {}
        assert forall|i: int| 0 <= i < tokens.len() implies 0 <= (#[trigger] tokens[i]).start
            < tokens[i].end <= byte_total(texts) by {
            if i < earlier.len() {
                assert(tokens[i] == earlier[i]);
            } else {
                assert(tokens[i] == more[i - earlier.len()]);
            }
        }
        assert forall|i: int| 0 < i < tokens.len() implies #[trigger] follows(tokens, i) by {
            if i < earlier.len() {
                assert(follows(earlier, i));
            } else {
                assert(tokens[i] == more[i - earlier.len()]);
                if i > earlier.len() {
                    assert(tokens[i - 1] == more[i - 1 - earlier.len()]);
                }
            }
        }
        assert(tokens.last() == more.last());
        if earlier.len() > 0 {
            assert(tokens[0] == earlier[0]);
        } else {
            assert(before.len() == 0);
            assert(tokens[0] == more[0]);
        }
    }
}

/// A token stands for one of the texts: its offsets are those of the text, and its own text is
/// that text or a byte of it.
pub open spec fn stands_for(texts: Seq<Seq<char>>, token: TokenView, i: int) -> bool {
    &&& 0 <= i < texts.len()
    &&& token.start == byte_total(texts.take(i))
    &&& token.end == token.start + encode_utf8(texts[i]).len()
    &&& token.value == texts[i] || exists|k: int|
        0 <= k < encode_utf8(texts[i]).len() && token.value == byte_token(
            #[trigger] encode_utf8(texts[i])[k],
        )
}

pub open spec fn stands_for_one(texts: Seq<Seq<char>>, token: TokenView) -> bool {
    exists|i: int| stands_for(texts, token, i)
}

/// Every token stands for one of the texts.
pub proof fn law_tokens_stand_for_texts(m: ModelView, texts: Seq<Seq<char>>)
    ensures
        tokenized(m, texts) matches Ok(tokens) ==> forall|k: int|
            0 <= k < tokens.len() ==> stands_for_one(texts, #[trigger] tokens[k]),
    decreases texts.len(),
{
    if texts.len() > 0 && tokenized(m, texts) is Ok {
        let before = texts.drop_last();
        law_tokens_stand_for_texts(m, before);
        let earlier = tokenized(m, before)->Ok_0;
        let more = group(m, texts.last(), byte_total(before) as int)->Ok_0;
        let tokens = tokenized(m, texts)->Ok_0;
        let last = texts.len() - 1;
        let bytes = encode_utf8(texts.last());
        assert(texts.take(last) =~= before);
        assert forall|k: int| 0 <= k < tokens.len() implies stands_for_one(
            texts,
            #[trigger] tokens[k],
        ) by {
            if k < earlier.len() {
                assert(tokens[k] == earlier[k]);
                assert(stands_for_one(before, earlier[k]));
                let i = choose|i: int| stands_for(before, earlier[k], i);
                assert(before.take(i) =~= texts.take(i));
                assert(before[i] == texts[i]);
                assert(stands_for(texts, tokens[k], i));
            } else {
                let j = k - earlier.len();
                assert(tokens[k] == more[j]);
                if tokens[k].value != texts.last() {
                    assert(tokens[k].value == byte_token(bytes[j]));
                }
                assert(stands_for(texts, tokens[k], last));
            }
        }
    }
}

/// The offsets of the tokens of a sentence go through the sentence from its beginning to its end
/// without a gap. Left out is a model without an id for unknown characters that encodes by way
/// of a lattice: it may give no token at all.
pub proof fn law_tokens_go_through_sentence(m: ModelView, sentence: Seq<char>)
    requires
        m.wf(),
        m.encoder.is_optimized || m.encoder.unk_id is Some,
        encode_utf8(sentence).len() <= usize::MAX,
        m.encoder.lattice(encode_utf8(sentence)).len() <= usize::MAX,
    ensures
        sentence_tokens(m, sentence) matches Ok(tokens) ==> {
            &&& sentence.len() > 0 ==> tokens.len() > 0 && tokens[0].start == 0
                && tokens.last().end == encode_utf8(sentence).len()
            &&& sentence.len() == 0 ==> tokens.len() == 0
            &&& forall|i: int|
                0 <= i < tokens.len() ==> 0 <= (#[trigger] tokens[i]).start < tokens[i].end
                    <= encode_utf8(sentence).len()
            &&& forall|i: int| 0 < i < tokens.len() ==> #[trigger] follows(tokens, i)
        },
{
    law_encoding_covers(m.encoder, sentence);
    match encoding(m.encoder, sentence) {
        Ok(texts) => {
            lemma_byte_total(texts);
            law_offsets_have_no_gap(m, texts);
        },
        Err(_) => {},
    }
}

/// With an id for unknown characters every text has tokens.
pub proof fn law_known_unk_always_tokenizes(m: ModelView, texts: Seq<Seq<char>>)
    requires
        m.encoder.unk_id is Some,
    ensures
        tokenized(m, texts) is Ok,
    decreases texts.len(),
{
    if texts.len() > 0 {
        law_known_unk_always_tokenizes(m, texts.drop_last());
    }
}

/// The text of the token that stands for a byte.
pub fn byte_text(byte: u8) -> (text: String)
    ensures
        text@ == byte_token(byte),
{
    let mut text: String = "<0x".to_owned();
    push_hexadecimal(&mut text, byte);
    text.append(">");
    text
}

} // verus!
