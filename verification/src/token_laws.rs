//! What tokens a text has, in terms of the vocabulary and of the bytes of the text.

use crate::encoding::gives;
use crate::error::UnigramError;
use crate::lattice_encoding::encoding;
use crate::parting::law_joined_is_flatten;
use crate::text::digits;
use crate::tokenization::{
    byte_token, byte_total, bytes_known, gives_token_list, group, lemma_byte_total, sentence_tokens,
    token_views, tokenized, Token, TokenView,
};
use crate::vocabulary::{fits, ids, lemma_ids, Vocab};
use crate::weight_sets::ModelView;
use vstd::prelude::*;
use vstd::utf8::encode_utf8;

verus! {

/// The id is that of the last entry with the text.
pub open spec fn has_entry(vocab: Vocab, text: Seq<char>, id: int) -> bool {
    &&& 0 <= id < vocab.len()
    &&& vocab[id].0 == text
    &&& forall|j: int| id < j < vocab.len() ==> (#[trigger] vocab[j]).0 != text
}

/// The text names a byte, as `<0xC3>` does.
pub open spec fn names_byte(text: Seq<char>, byte: u8) -> bool {
    text == seq![
        '<',
        '0',
        'x',
        "0123456789ABCDEF"@[(byte / 16) as int],
        "0123456789ABCDEF"@[(byte % 16) as int],
        '>',
    ]
}

/// Every byte of the text is named by an entry of the vocabulary.
pub open spec fn has_byte_entries(vocab: Vocab, text: Seq<char>) -> bool {
    forall|k: int|
        0 <= k < encode_utf8(text).len() ==> has_byte_entry(vocab, #[trigger] encode_utf8(text)[k])
}

/// The byte is named by an entry of the vocabulary.
pub open spec fn has_byte_entry(vocab: Vocab, byte: u8) -> bool {
    exists|j: int| 0 <= j < vocab.len() && names_byte((#[trigger] vocab[j]).0, byte)
}

/// The text is an entry of the vocabulary.
pub open spec fn is_entry_text(vocab: Vocab, text: Seq<char>) -> bool {
    exists|j: int| 0 <= j < vocab.len() && (#[trigger] vocab[j]).0 == text
}

/// The tokens from `first` to before `next` are those of a text that begins at byte `start`: all
/// stand for the bytes of the text; a text of the vocabulary is one token; another text has, where
/// that is asked for and each has an entry, one token for each of its bytes, in their order; and
/// otherwise it is one unknown token.
pub open spec fn are_tokens_of_text(
    m: ModelView,
    text: Seq<char>,
    start: int,
    tokens: Seq<TokenView>,
    first: int,
    next: int,
) -> bool {
    let vocab = m.encoder.vocab;
    let bytes = encode_utf8(text);
    &&& 0 <= first <= next <= tokens.len()
    &&& forall|k: int|
        first <= k < next ==> (#[trigger] tokens[k]).start == start && tokens[k].end == start
            + bytes.len()
    &&& if is_entry_text(vocab, text) {
        &&& next == first + 1
        &&& tokens[first].value == text
        &&& has_entry(vocab, text, tokens[first].id as int)
    } else if m.byte_fallback && has_byte_entries(vocab, text) {
        &&& next == first + bytes.len()
        &&& forall|k: int|
            0 <= k < bytes.len() ==> {
                &&& names_byte((#[trigger] tokens[first + k]).value, bytes[k])
                &&& has_entry(vocab, tokens[first + k].value, tokens[first + k].id as int)
            }
    } else {
        &&& next == first + 1
        &&& tokens[first].value == text
        &&& m.encoder.unk_id is Some
        &&& tokens[first].id == m.encoder.unk_id->0
    }
}

/// The name of a byte.
pub proof fn law_byte_token_names_byte(byte: u8)
    ensures
        names_byte(byte_token(byte), byte),
{
    reveal_strlit("<0x");
    reveal_strlit(">");
    reveal_strlit("0123456789ABCDEF");
    assert("0123456789ABCDEF"@ =~= digits());
    assert(byte_token(byte) =~= seq![
        '<',
        '0',
        'x',
        "0123456789ABCDEF"@[(byte / 16) as int],
        "0123456789ABCDEF"@[(byte % 16) as int],
        '>',
    ]);
}

/// What the map of ids holds is what the vocabulary has entries for.
proof fn lemma_entry_text(vocab: Vocab, text: Seq<char>)
    requires
        fits(vocab),
    ensures
        ids(vocab).contains_key(text) <==> is_entry_text(vocab, text),
        ids(vocab).contains_key(text) ==> has_entry(vocab, text, ids(vocab)[text] as int),
{
    lemma_ids(vocab, text);
}

/// Bytes have ids exactly where entries name them.
proof fn lemma_bytes_known(vocab: Vocab, text: Seq<char>)
    requires
        fits(vocab),
    ensures
        bytes_known(vocab, encode_utf8(text)) <==> has_byte_entries(vocab, text),
{
    let bytes = encode_utf8(text);
    if bytes_known(vocab, bytes) {
        assert forall|k: int| 0 <= k < bytes.len() implies has_byte_entry(
            vocab,
            #[trigger] bytes[k],
        ) by {
            law_byte_token_names_byte(bytes[k]);
            lemma_entry_text(vocab, byte_token(bytes[k]));
            let j = ids(vocab)[byte_token(bytes[k])] as int;
            assert(vocab[j].0 == byte_token(bytes[k]));
        }
    }
    if has_byte_entries(vocab, text) {
        assert forall|k: int| 0 <= k < bytes.len() implies ids(vocab).contains_key(
            byte_token(#[trigger] bytes[k]),
        ) by {
            law_byte_token_names_byte(bytes[k]);
            lemma_entry_text(vocab, byte_token(bytes[k]));
            assert(has_byte_entry(vocab, bytes[k]));
            let j = choose|j: int|
                0 <= j < vocab.len() && names_byte((#[trigger] vocab[j]).0, bytes[k]);
            assert(vocab[j].0 == byte_token(bytes[k]));
        }
    }
}

/// The tokens of one text: itself, or its bytes one after the other, or the unknown token. There are
/// none only where it is not in the vocabulary, has no tokens for its bytes either, and there is no
/// id for unknown characters.
pub proof fn law_tokens_of_one_text(m: ModelView, text: Seq<char>, start: int)
    requires
        fits(m.encoder.vocab),
        m.encoder.unk_id is Some ==> m.encoder.unk_id->0 < m.encoder.vocab.len(),
    ensures
        group(m, text, start) matches Ok(tokens) ==> are_tokens_of_text(
            m,
            text,
            start,
            tokens,
            0,
            tokens.len() as int,
        ),
        group(m, text, start) is Err <==> !is_entry_text(m.encoder.vocab, text) && !(m.byte_fallback
            && has_byte_entries(m.encoder.vocab, text)) && m.encoder.unk_id is None,
        group(m, text, start) matches Err(error) ==> error == UnigramError::MissingUnkId,
{
    let vocab = m.encoder.vocab;
    let bytes = encode_utf8(text);
    lemma_entry_text(vocab, text);
    lemma_bytes_known(vocab, text);
    match group(m, text, start) {
        Ok(tokens) => {
            if !ids(vocab).contains_key(text) && m.byte_fallback && bytes_known(vocab, bytes) {
                assert forall|k: int| 0 <= k < bytes.len() implies {
                    &&& names_byte((#[trigger] tokens[0 + k]).value, bytes[k])
                    &&& has_entry(vocab, tokens[0 + k].value, tokens[0 + k].id as int)
                } by {
                    assert(tokens[k].value == byte_token(bytes[k]));
                    law_byte_token_names_byte(bytes[k]);
                    assert(ids(vocab).contains_key(byte_token(bytes[k])));
                    lemma_entry_text(vocab, byte_token(bytes[k]));
                }
            }
        },
        Err(_) => {},
    }
}

/// The tokens of texts: for each text in turn, those of that text, which begins after the bytes
/// of the texts before it.
pub proof fn law_tokens_of_texts(m: ModelView, texts: Seq<Seq<char>>, tokens: Seq<TokenView>) -> (cuts:
    Seq<int>)
    requires
        m.wf(),
        tokenized(m, texts) == Ok::<Seq<TokenView>, UnigramError>(tokens),
    ensures
        cuts.len() == texts.len() + 1,
        cuts[0] == 0,
        cuts.last() == tokens.len(),
        forall|i: int|
            0 <= i < texts.len() ==> are_tokens_of_text(
                m,
                #[trigger] texts[i],
                encode_utf8(texts.take(i).flatten()).len() as int,
                tokens,
                cuts[i],
                cuts[i + 1],
            ),
    decreases texts.len(),
{
    if texts.len() == 0 {
        seq![0int]
    } else {
        let before = texts.drop_last();
        let last = texts.last();
        let start = byte_total(before) as int;
        let earlier = tokenized(m, before)->Ok_0;
        let more = group(m, last, start)->Ok_0;
        let first = law_tokens_of_texts(m, before, earlier);
        let cuts = first.push(tokens.len() as int);
        law_tokens_of_one_text(m, last, start);
        lemma_byte_total(before);
        law_joined_is_flatten(before);
        assert(tokens == earlier + more);
        assert forall|i: int| 0 <= i < texts.len() implies are_tokens_of_text(
            m,
            #[trigger] texts[i],
            encode_utf8(texts.take(i).flatten()).len() as int,
            tokens,
            cuts[i],
            cuts[i + 1],
        ) by {
            if i < before.len() {
                assert(before[i] == texts[i]);
                assert(before.take(i) =~= texts.take(i));
                assert(cuts[i] == first[i] && cuts[i + 1] == first[i + 1]);
                lemma_tokens_in_longer(
                    m,
                    texts[i],
                    encode_utf8(texts.take(i).flatten()).len() as int,
                    earlier,
                    more,
                    first[i],
                    first[i + 1],
                );
            } else {
                assert(texts.take(i) =~= before);
                lemma_tokens_after_others(m, last, start, earlier, more);
            }
        }
        cuts
    }
}

proof fn lemma_tokens_in_longer(
    m: ModelView,
    text: Seq<char>,
    start: int,
    tokens: Seq<TokenView>,
    more: Seq<TokenView>,
    first: int,
    next: int,
)
    requires
        are_tokens_of_text(m, text, start, tokens, first, next),
    ensures
        are_tokens_of_text(m, text, start, tokens + more, first, next),
{
    let all = tokens + more;
    let bytes = encode_utf8(text);
    assert forall|k: int| first <= k < next implies (#[trigger] all[k]).start == start
        && all[k].end == start + bytes.len() by {
        assert(all[k] == tokens[k]);
    }
    if !is_entry_text(m.encoder.vocab, text) && m.byte_fallback && has_byte_entries(
        m.encoder.vocab,
        text,
    ) {
        assert forall|k: int| 0 <= k < bytes.len() implies {
            &&& names_byte((#[trigger] all[first + k]).value, bytes[k])
            &&& has_entry(m.encoder.vocab, all[first + k].value, all[first + k].id as int)
        } by {
            assert(all[first + k] == tokens[first + k]);
        }
    } else {
        assert(all[first] == tokens[first]);
    }
}

proof fn lemma_tokens_after_others(
    m: ModelView,
    text: Seq<char>,
    start: int,
    others: Seq<TokenView>,
    tokens: Seq<TokenView>,
)
    requires
        are_tokens_of_text(m, text, start, tokens, 0, tokens.len() as int),
    ensures
        are_tokens_of_text(
            m,
            text,
            start,
            others + tokens,
            others.len() as int,
            (others + tokens).len() as int,
        ),
{
    let all = others + tokens;
    let first = others.len() as int;
    let bytes = encode_utf8(text);
    assert forall|k: int| first <= k < all.len() implies (#[trigger] all[k]).start == start
        && all[k].end == start + bytes.len() by {
        assert(all[k] == tokens[k - first]);
    }
    if !is_entry_text(m.encoder.vocab, text) && m.byte_fallback && has_byte_entries(
        m.encoder.vocab,
        text,
    ) {
        assert forall|k: int| 0 <= k < bytes.len() implies {
            &&& names_byte((#[trigger] all[first + k]).value, bytes[k])
            &&& has_entry(m.encoder.vocab, all[first + k].value, all[first + k].id as int)
        } by {
            assert(all[first + k] == tokens[0 + k]);
        }
    } else {
        assert(all[first] == tokens[0]);
    }
}

/// Texts have no tokens only where one of them is not in the vocabulary, has no tokens for its
/// bytes either, and there is no id for unknown characters.
pub proof fn law_tokens_fail_only_without_unk(m: ModelView, texts: Seq<Seq<char>>)
    requires
        m.wf(),
    ensures
        tokenized(m, texts) is Err <==> m.encoder.unk_id is None && exists|i: int|
            0 <= i < texts.len() && !is_entry_text(m.encoder.vocab, #[trigger] texts[i]) && !(
            m.byte_fallback && has_byte_entries(m.encoder.vocab, texts[i])),
        tokenized(m, texts) matches Err(error) ==> error == UnigramError::MissingUnkId,
    decreases texts.len(),
{
    if texts.len() > 0 {
        let before = texts.drop_last();
        law_tokens_fail_only_without_unk(m, before);
        law_tokens_of_one_text(m, texts.last(), byte_total(before) as int);
        assert forall|i: int| 0 <= i < before.len() implies before[i] == #[trigger] texts[i] by {}
        assert(texts.last() == texts[texts.len() - 1]);
        if tokenized(m, before) is Err {
            let i = choose|i: int|
                0 <= i < before.len() && !is_entry_text(m.encoder.vocab, #[trigger] before[i]) && !(
                m.byte_fallback && has_byte_entries(m.encoder.vocab, before[i]));
            assert(before[i] == texts[i]);
        }
    }
}

/// The tokens of a sentence are those of the texts of its encoding, with their ids, their texts
/// and their offsets; an encoding that fails gives its error.
pub proof fn law_tokens_of_sentence(
    m: ModelView,
    sentence: Seq<char>,
    result: Result<Vec<Token>, UnigramError>,
) -> (cuts: Seq<int>)
    requires
        m.wf(),
        gives_token_list(result, sentence_tokens(m, sentence)),
    ensures
        match encoding(m.encoder, sentence) {
            Ok(texts) => match result {
                Ok(tokens) => {
                    let views = Seq::new(
                        tokens@.len(),
                        |k: int|
                            TokenView {
                                id: tokens@[k].id,
                                value: tokens@[k].value@,
                                start: tokens@[k].offsets.0 as int,
                                end: tokens@[k].offsets.1 as int,
                            },
                    );
                    &&& cuts.len() == texts.len() + 1
                    &&& cuts[0] == 0
                    &&& cuts.last() == tokens@.len()
                    &&& forall|i: int|
                        0 <= i < texts.len() ==> are_tokens_of_text(
                            m,
                            #[trigger] texts[i],
                            encode_utf8(texts.take(i).flatten()).len() as int,
                            views,
                            cuts[i],
                            cuts[i + 1],
                        )
                },
                Err(error) => error == UnigramError::MissingUnkId && m.encoder.unk_id is None,
            },
            Err(error) => result == Err::<Vec<Token>, UnigramError>(error),
        },
{
    match encoding(m.encoder, sentence) {
        Ok(texts) => {
            law_tokens_fail_only_without_unk(m, texts);
            match result {
                Ok(tokens) => {
                    let views = Seq::new(
                        tokens@.len(),
                        |k: int|
                            TokenView {
                                id: tokens@[k].id,
                                value: tokens@[k].value@,
                                start: tokens@[k].offsets.0 as int,
                                end: tokens@[k].offsets.1 as int,
                            },
                    );
                    assert(views =~= token_views(tokens@));
                    law_tokens_of_texts(m, texts, views)
                },
                Err(_) => seq![],
            }
        },
        Err(_) => seq![],
    }
}

/// A list of strings that is what is expected: the same texts in the same order, or the same
/// error.
pub proof fn law_encoding_result(
    result: Result<Vec<String>, UnigramError>,
    expected: Result<Seq<Seq<char>>, UnigramError>,
)
    requires
        gives(result, expected),
    ensures
        match result {
            Ok(tokens) => match expected {
                Ok(texts) => tokens@.len() == texts.len() && forall|i: int|
                    0 <= i < texts.len() ==> (#[trigger] tokens@[i])@ == texts[i],
                Err(_) => false,
            },
            Err(error) => expected == Err::<Seq<Seq<char>>, UnigramError>(error),
        },
{
    match result {
        Ok(tokens) => {
            let texts = expected->Ok_0;
            assert forall|i: int| 0 <= i < texts.len() implies (#[trigger] tokens@[i])@ == texts[i] by {
                assert(crate::cache::texts_of(tokens@)[i] == tokens@[i]@);
            }
        },
        Err(_) => {},
    }
}

} // verus!
