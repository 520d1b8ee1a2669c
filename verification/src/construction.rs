//! What the constructors of the models' Python classes decide.

use crate::double::Double;
use crate::encoding::Encoder;
use crate::error::UnigramError;
use crate::model::query::default_view;
use crate::model::{lowest, vocab_of, Unigram};
use crate::single::Single;
use crate::vocabulary::fits;
use crate::weight_sets::ModelView;
use vstd::prelude::*;

verus! {

/// The models.
#[derive(Clone, Copy, Debug, PartialEq, Eq, Structural)]
pub enum ModelKind {
    Bpe,
    WordPiece,
    WordLevel,
    Unigram,
}

/// A vocabulary given in memory, or the name of a file that holds it.
#[derive(Debug)]
pub enum VocabSource {
    Vocab(Vec<(String, u32)>),
    Filename(String),
}

/// Merges given in memory, or the name of a file that holds them.
#[derive(Debug)]
pub enum MergesSource {
    Merges(Vec<(String, String)>),
    Filename(String),
}

/// Where a BPE model comes from.
#[derive(Debug)]
pub enum BpeSource {
    Empty,
    Memory { vocab: Vec<(String, u32)>, merges: Vec<(String, String)> },
    Files { vocab_file: String, merges_file: String },
}

/// Why a model cannot be constructed.
#[derive(Debug)]
pub enum ConstructionError {
    VocabAndMerges,
    MixedSources,
    VocabAndUnkId,
    Loading(UnigramError),
}

impl ConstructionError {
    /// The message of the error.
    pub open spec fn text(self) -> Seq<char> {
        match self {
            ConstructionError::VocabAndMerges => "`vocab` and `merges` must be both specified"@,
            ConstructionError::MixedSources => {
                "`vocab` and `merges` must be both be from memory or both filenames"@
            },
            ConstructionError::VocabAndUnkId => "`vocab` and `unk_id` must be both specified"@,
            ConstructionError::Loading(error) => "Error while loading Unigram: "@ + error.text(),
        }
    }

    /// The message of the error.
    pub fn message(&self) -> (message: String)
        ensures
            message@ == self.text(),
    {
        match self {
            ConstructionError::VocabAndMerges => {
                "`vocab` and `merges` must be both specified".to_owned()
            },
            ConstructionError::MixedSources => {
                "`vocab` and `merges` must be both be from memory or both filenames".to_owned()
            },
            ConstructionError::VocabAndUnkId => {
                "`vocab` and `unk_id` must be both specified".to_owned()
            },
            ConstructionError::Loading(error) => {
                let mut message: String = "Error while loading Unigram: ".to_owned();
                message.append(error.message().as_str());
                message
            },
        }
    }
}

/// The name of the class of a model.
pub open spec fn class_text(kind: ModelKind) -> Seq<char> {
    match kind {
        ModelKind::Bpe => "BPE"@,
        ModelKind::WordPiece => "WordPiece"@,
        ModelKind::WordLevel => "WordLevel"@,
        ModelKind::Unigram => "Unigram"@,
    }
}

/// The name of the class of a model.
pub fn class_name(kind: ModelKind) -> (name: &'static str)
    ensures
        name@ == class_text(kind),
{
    match kind {
        ModelKind::Bpe => "BPE",
        ModelKind::WordPiece => "WordPiece",
        ModelKind::WordLevel => "WordLevel",
        ModelKind::Unigram => "Unigram",
    }
}

/// The warning that a model is no longer constructed from files.
pub open spec fn file_warning_text(kind: ModelKind) -> Seq<char> {
    class_text(kind) + ".__init__ will not create from files anymore, try `"@ + class_text(kind)
        + ".from_file` instead"@
}

/// The warning that a model is no longer constructed from files.
pub fn file_warning(kind: ModelKind) -> (message: String)
    ensures
        message@ == file_warning_text(kind),
{
    let mut message: String = class_name(kind).to_owned();
    message.append(".__init__ will not create from files anymore, try `");
    message.append(class_name(kind));
    message.append(".from_file` instead");
    message
}

/// The message that a method is not there for a model.
pub fn only_for_unigram(method: &str) -> (message: String)
    ensures
        message@ == method@ + " is only available for Unigram"@,
{
    let mut message: String = method.to_owned();
    message.append(" is only available for Unigram");
    message
}

/// Where a BPE model comes from: from nothing, or from a vocabulary and merges that are both
/// given in memory or both in files.
pub fn bpe_source(vocab: Option<VocabSource>, merges: Option<MergesSource>) -> (result: Result<
    BpeSource,
    ConstructionError,
>)
    ensures
        result == (match (vocab, merges) {
            (None, None) => Ok(BpeSource::Empty),
            (Some(VocabSource::Vocab(vocab)), Some(MergesSource::Merges(merges))) => Ok(
                BpeSource::Memory { vocab, merges },
            ),
            (Some(VocabSource::Filename(vocab_file)), Some(MergesSource::Filename(merges_file))) => Ok(
                BpeSource::Files { vocab_file, merges_file },
            ),
            (Some(_), Some(_)) => Err(ConstructionError::MixedSources),
            _ => Err(ConstructionError::VocabAndMerges),
        }),
{
    match (vocab, merges) {
        (None, None) => Ok(BpeSource::Empty),
        (Some(VocabSource::Vocab(vocab)), Some(MergesSource::Merges(merges))) => {
            Ok(BpeSource::Memory { vocab, merges })
        },
        (Some(VocabSource::Filename(vocab_file)), Some(MergesSource::Filename(merges_file))) => {
            Ok(BpeSource::Files { vocab_file, merges_file })
        },
        (Some(_), Some(_)) => Err(ConstructionError::MixedSources),
        _ => Err(ConstructionError::VocabAndMerges),
    }
}

/// The options of a BPE model.
#[derive(Clone, Copy, Debug, PartialEq, Eq, Structural)]
pub enum BpeOption {
    CacheCapacity,
    Dropout,
    UnkToken,
    ContinuingSubwordPrefix,
    EndOfWordSuffix,
    FuseUnk,
    ByteFallback,
    IgnoreMerges,
}

/// The keyword of an option.
pub open spec fn bpe_keyword(option: BpeOption) -> Seq<char> {
    match option {
        BpeOption::CacheCapacity => "cache_capacity"@,
        BpeOption::Dropout => "dropout"@,
        BpeOption::UnkToken => "unk_token"@,
        BpeOption::ContinuingSubwordPrefix => "continuing_subword_prefix"@,
        BpeOption::EndOfWordSuffix => "end_of_word_suffix"@,
        BpeOption::FuseUnk => "fuse_unk"@,
        BpeOption::ByteFallback => "byte_fallback"@,
        BpeOption::IgnoreMerges => "ignore_merges"@,
    }
}

/// Whether two texts are the same.
fn same_text(a: &str, b: &str) -> (same: bool)
    ensures
        same == (a@ == b@),
{
    a.to_owned() == b.to_owned()
}

/// The option of a keyword.
pub fn bpe_option(key: &str) -> (option: Option<BpeOption>)
    ensures
        match option {
            Some(option) => key@ == bpe_keyword(option),
            None => forall|option: BpeOption| key@ != #[trigger] bpe_keyword(option),
        },
{
    if same_text(key, "cache_capacity") {
        Some(BpeOption::CacheCapacity)
    } else if same_text(key, "dropout") {
        Some(BpeOption::Dropout)
    } else if same_text(key, "unk_token") {
        Some(BpeOption::UnkToken)
    } else if same_text(key, "continuing_subword_prefix") {
        Some(BpeOption::ContinuingSubwordPrefix)
    } else if same_text(key, "end_of_word_suffix") {
        Some(BpeOption::EndOfWordSuffix)
    } else if same_text(key, "fuse_unk") {
        Some(BpeOption::FuseUnk)
    } else if same_text(key, "byte_fallback") {
        Some(BpeOption::ByteFallback)
    } else if same_text(key, "ignore_merges") {
        Some(BpeOption::IgnoreMerges)
    } else {
        None
    }
}

/// The message that an option of a BPE model is not known.
pub fn unknown_bpe_option(key: &str) -> (message: String)
    ensures
        message@ == "Ignored unknown kwarg option "@ + key@,
{
    let mut message: String = "Ignored unknown kwarg option ".to_owned();
    message.append(key);
    message
}

/// An option of a BPE model with its value.
#[derive(Debug)]
pub enum BpeSetting {
    CacheCapacity(usize),
    Dropout(Option<Single>),
    UnkToken(Option<String>),
    ContinuingSubwordPrefix(String),
    EndOfWordSuffix(String),
    FuseUnk(bool),
    ByteFallback(bool),
    IgnoreMerges(bool),
}

/// The settings of a BPE model; nothing where none has been made.
#[derive(Debug)]
pub struct BpeSettings {
    pub cache_capacity: Option<usize>,
    pub dropout: Option<Single>,
    pub unk_token: Option<String>,
    pub continuing_subword_prefix: Option<String>,
    pub end_of_word_suffix: Option<String>,
    pub fuse_unk: Option<bool>,
    pub byte_fallback: Option<bool>,
    pub ignore_merges: Option<bool>,
}

impl BpeSettings {
    /// The settings after one more. A dropout or unknown token of nothing leaves them as they
    /// are.
    pub open spec fn with(self, setting: BpeSetting) -> BpeSettings {
        match setting {
            BpeSetting::CacheCapacity(value) => BpeSettings { cache_capacity: Some(value), ..self },
            BpeSetting::Dropout(Some(value)) => BpeSettings { dropout: Some(value), ..self },
            BpeSetting::UnkToken(Some(value)) => BpeSettings { unk_token: Some(value), ..self },
            BpeSetting::ContinuingSubwordPrefix(value) => BpeSettings {
                continuing_subword_prefix: Some(value),
                ..self
            },
            BpeSetting::EndOfWordSuffix(value) => BpeSettings {
                end_of_word_suffix: Some(value),
                ..self
            },
            BpeSetting::FuseUnk(value) => BpeSettings { fuse_unk: Some(value), ..self },
            BpeSetting::ByteFallback(value) => BpeSettings { byte_fallback: Some(value), ..self },
            BpeSetting::IgnoreMerges(value) => BpeSettings { ignore_merges: Some(value), ..self },
            _ => self,
        }
    }

    /// No settings.
    pub open spec fn unset() -> BpeSettings {
        BpeSettings {
            cache_capacity: None,
            dropout: None,
            unk_token: None,
            continuing_subword_prefix: None,
            end_of_word_suffix: None,
            fuse_unk: None,
            byte_fallback: None,
            ignore_merges: None,
        }
    }

    /// No settings.
    pub fn new() -> (settings: BpeSettings)
        ensures
            settings == BpeSettings::unset(),
    {
        BpeSettings {
            cache_capacity: None,
            dropout: None,
            unk_token: None,
            continuing_subword_prefix: None,
            end_of_word_suffix: None,
            fuse_unk: None,
            byte_fallback: None,
            ignore_merges: None,
        }
    }

    /// Makes a setting.
    pub fn set(&mut self, setting: BpeSetting)
        ensures
            *final(self) == old(self).with(setting),
    {
        match setting {
            BpeSetting::CacheCapacity(value) => {
                self.cache_capacity = Some(value);
            },
            BpeSetting::Dropout(value) => {
                if value.is_some() {
                    self.dropout = value;
                }
            },
            BpeSetting::UnkToken(value) => {
                if value.is_some() {
                    self.unk_token = value;
                }
            },
            BpeSetting::ContinuingSubwordPrefix(value) => {
                self.continuing_subword_prefix = Some(value);
            },
            BpeSetting::EndOfWordSuffix(value) => {
                self.end_of_word_suffix = Some(value);
            },
            BpeSetting::FuseUnk(value) => {
                self.fuse_unk = Some(value);
            },
            BpeSetting::ByteFallback(value) => {
                self.byte_fallback = Some(value);
            },
            BpeSetting::IgnoreMerges(value) => {
                self.ignore_merges = Some(value);
            },
        }
    }
}

/// The options of a WordPiece model.
#[derive(Clone, Copy, Debug, PartialEq, Eq, Structural)]
pub enum WordPieceOption {
    UnkToken,
    MaxInputCharsPerWord,
    ContinuingSubwordPrefix,
}

/// The keyword of an option.
pub open spec fn word_piece_keyword(option: WordPieceOption) -> Seq<char> {
    match option {
        WordPieceOption::UnkToken => "unk_token"@,
        WordPieceOption::MaxInputCharsPerWord => "max_input_chars_per_word"@,
        WordPieceOption::ContinuingSubwordPrefix => "continuing_subword_prefix"@,
    }
}

/// The option of a keyword.
pub fn word_piece_option(key: &str) -> (option: Option<WordPieceOption>)
    ensures
        match option {
            Some(option) => key@ == word_piece_keyword(option),
            None => forall|option: WordPieceOption| key@ != #[trigger] word_piece_keyword(option),
        },
{
    if same_text(key, "unk_token") {
        Some(WordPieceOption::UnkToken)
    } else if same_text(key, "max_input_chars_per_word") {
        Some(WordPieceOption::MaxInputCharsPerWord)
    } else if same_text(key, "continuing_subword_prefix") {
        Some(WordPieceOption::ContinuingSubwordPrefix)
    } else {
        None
    }
}

/// The message that an option of a WordPiece model is not known.
pub fn unknown_word_piece_option(key: &str) -> (message: String)
    ensures
        message@ == "Ignored unknown kwargs option "@ + key@,
{
    let mut message: String = "Ignored unknown kwargs option ".to_owned();
    message.append(key);
    message
}

/// An option of a WordPiece model with its value.
#[derive(Debug)]
pub enum WordPieceSetting {
    UnkToken(String),
    MaxInputCharsPerWord(usize),
    ContinuingSubwordPrefix(String),
}

/// The settings of a WordPiece model; nothing where none has been made.
#[derive(Debug)]
pub struct WordPieceSettings {
    pub unk_token: Option<String>,
    pub max_input_chars_per_word: Option<usize>,
    pub continuing_subword_prefix: Option<String>,
}

impl WordPieceSettings {
    /// The settings after one more.
    pub open spec fn with(self, setting: WordPieceSetting) -> WordPieceSettings {
        match setting {
            WordPieceSetting::UnkToken(value) => WordPieceSettings {
                unk_token: Some(value),
                ..self
            },
            WordPieceSetting::MaxInputCharsPerWord(value) => WordPieceSettings {
                max_input_chars_per_word: Some(value),
                ..self
            },
            WordPieceSetting::ContinuingSubwordPrefix(value) => WordPieceSettings {
                continuing_subword_prefix: Some(value),
                ..self
            },
        }
    }

    /// No settings.
    pub fn new() -> (settings: WordPieceSettings)
        ensures
            settings == (WordPieceSettings {
                unk_token: None,
                max_input_chars_per_word: None,
                continuing_subword_prefix: None,
            }),
    {
        WordPieceSettings {
            unk_token: None,
            max_input_chars_per_word: None,
            continuing_subword_prefix: None,
        }
    }

    /// Makes a setting.
    pub fn set(&mut self, setting: WordPieceSetting)
        ensures
            *final(self) == old(self).with(setting),
    {
        match setting {
            WordPieceSetting::UnkToken(value) => {
                self.unk_token = Some(value);
            },
            WordPieceSetting::MaxInputCharsPerWord(value) => {
                self.max_input_chars_per_word = Some(value);
            },
            WordPieceSetting::ContinuingSubwordPrefix(value) => {
                self.continuing_subword_prefix = Some(value);
            },
        }
    }
}

/// Whether a vocabulary is read from a file, which calls for a warning.
pub fn comes_from_file(vocab: &Option<VocabSource>) -> (from_file: bool)
    ensures
        from_file == (vocab is Some && vocab->0 is Filename),
{
    match vocab {
        Some(VocabSource::Filename(_)) => true,
        _ => false,
    }
}

/// The prefix under which a model is saved, and whether the parameter `name` was used, which
/// calls for a warning. The prefix comes first, `name` stands in where there is none.
pub fn save_prefix(prefix: Option<String>, name: Option<String>) -> (result: (Option<String>, bool))
    ensures
        result.0 == (if prefix is Some {
            prefix
        } else {
            name
        }),
        result.1 == (name is Some),
{
    let renamed: bool = name.is_some();
    if prefix.is_some() {
        (prefix, renamed)
    } else {
        (name, renamed)
    }
}

/// The name of the file that a Unigram model is saved in.
pub fn vocab_file_name(name: Option<&str>) -> (file: String)
    ensures
        file@ == (match name {
            Some(name) => name@ + "-unigram.json"@,
            None => "unigram.json"@,
        }),
{
    match name {
        Some(name) => {
            let mut file: String = name.to_owned();
            file.append("-unigram.json");
            file
        },
        None => "unigram.json".to_owned(),
    }
}

/// A Unigram model from what its constructor is given: the default model where it is given
/// neither a vocabulary nor an unknown id. An unknown id calls for a vocabulary.
pub fn unigram(
    vocab: Option<Vec<(String, Double)>>,
    unk_id: Option<usize>,
    byte_fallback: Option<bool>,
) -> (result: Result<Unigram, ConstructionError>)
    requires
        vocab is Some ==> fits(vocab_of(vocab->0@)),
    ensures
        match result {
            Ok(model) => model.wf() && model.is_current() && match vocab {
                Some(vocab) => {
                    &&& vocab@.len() > 0
                    &&& unk_id is Some ==> unk_id->0 < vocab@.len()
                    &&& model@ == (ModelView {
                        encoder: Encoder {
                            vocab: vocab_of(vocab@),
                            unk_id,
                            min_score: lowest(vocab_of(vocab@)),
                            fuse_unk: true,
                            is_optimized: true,
                        },
                        byte_fallback: byte_fallback == Some(true),
                        weight_sets: None,
                    })
                },
                None => unk_id is None && model@ == default_view(),
            },
            Err(error) => match vocab {
                Some(vocab) => if vocab@.len() == 0 {
                    error == ConstructionError::Loading(UnigramError::EmptyVocabulary)
                } else {
                    unk_id is Some && unk_id->0 >= vocab@.len() && error
                        == ConstructionError::Loading(UnigramError::UnkIdNotInVocabulary)
                },
                None => unk_id is Some && error == ConstructionError::VocabAndUnkId,
            },
        },
{
    match vocab {
        Some(vocab) => {
            let fallback: bool = match byte_fallback {
                Some(value) => value,
                None => false,
            };
            match Unigram::from(vocab, unk_id, fallback) {
                Ok(model) => Ok(model),
                Err(error) => Err(ConstructionError::Loading(error)),
            }
        },
        None => match unk_id {
            Some(_) => Err(ConstructionError::VocabAndUnkId),
            None => Ok(Unigram::default()),
        },
    }
}

} // verus!
