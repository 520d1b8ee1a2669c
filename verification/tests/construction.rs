use unigram::construction::{
    bpe_option, bpe_source, class_name, comes_from_file, file_warning, only_for_unigram,
    save_prefix, unigram, unknown_bpe_option, unknown_word_piece_option, vocab_file_name,
    word_piece_option, BpeOption, BpeSetting, BpeSettings, BpeSource, ConstructionError,
    MergesSource, ModelKind, VocabSource, WordPieceOption, WordPieceSetting, WordPieceSettings,
};
use unigram::double::Double;
use unigram::error::UnigramError;
use unigram::model::Unigram;
use unigram::single::Single;

fn memory() -> VocabSource {
    VocabSource::Vocab(vec![("a".to_string(), 0)])
}

fn merges() -> MergesSource {
    MergesSource::Merges(vec![("a".to_string(), "b".to_string())])
}

fn file(name: &str) -> VocabSource {
    VocabSource::Filename(name.to_string())
}

fn merges_file(name: &str) -> MergesSource {
    MergesSource::Filename(name.to_string())
}

#[test]
fn names_of_the_classes() {
    assert_eq!("BPE", class_name(ModelKind::Bpe));
    assert_eq!("WordPiece", class_name(ModelKind::WordPiece));
    assert_eq!("WordLevel", class_name(ModelKind::WordLevel));
    assert_eq!("Unigram", class_name(ModelKind::Unigram));
}

#[test]
fn sources_of_bpe() {
    assert!(matches!(bpe_source(None, None), Ok(BpeSource::Empty)));
    match bpe_source(Some(memory()), Some(merges())) {
        Ok(BpeSource::Memory { vocab, merges }) => {
            assert_eq!(vocab, vec![("a".to_string(), 0)]);
            assert_eq!(merges, vec![("a".to_string(), "b".to_string())]);
        }
        other => panic!("{:?}", other),
    }
    match bpe_source(Some(file("v.json")), Some(merges_file("m.txt"))) {
        Ok(BpeSource::Files { vocab_file, merges_file }) => {
            assert_eq!((vocab_file.as_str(), merges_file.as_str()), ("v.json", "m.txt"));
        }
        other => panic!("{:?}", other),
    }
    let both = "`vocab` and `merges` must be both specified";
    assert_eq!(bpe_source(Some(memory()), None).unwrap_err().message(), both);
    assert_eq!(bpe_source(None, Some(merges())).unwrap_err().message(), both);
    let mixed = "`vocab` and `merges` must be both be from memory or both filenames";
    assert_eq!(bpe_source(Some(memory()), Some(merges_file("m"))).unwrap_err().message(), mixed);
    assert_eq!(bpe_source(Some(file("v")), Some(merges())).unwrap_err().message(), mixed);
}

#[test]
fn warnings_about_files() {
    assert_eq!(
        file_warning(ModelKind::Bpe),
        "BPE.__init__ will not create from files anymore, try `BPE.from_file` instead"
    );
    assert_eq!(
        file_warning(ModelKind::WordLevel),
        "WordLevel.__init__ will not create from files anymore, try `WordLevel.from_file` instead"
    );
    assert!(comes_from_file(&Some(file("v"))));
    assert!(!comes_from_file(&Some(memory())));
    assert!(!comes_from_file(&None));
}

#[test]
fn options_by_keyword() {
    assert_eq!(bpe_option("cache_capacity"), Some(BpeOption::CacheCapacity));
    assert_eq!(bpe_option("dropout"), Some(BpeOption::Dropout));
    assert_eq!(bpe_option("unk_token"), Some(BpeOption::UnkToken));
    assert_eq!(
        bpe_option("continuing_subword_prefix"),
        Some(BpeOption::ContinuingSubwordPrefix)
    );
    assert_eq!(bpe_option("end_of_word_suffix"), Some(BpeOption::EndOfWordSuffix));
    assert_eq!(bpe_option("fuse_unk"), Some(BpeOption::FuseUnk));
    assert_eq!(bpe_option("byte_fallback"), Some(BpeOption::ByteFallback));
    assert_eq!(bpe_option("ignore_merges"), Some(BpeOption::IgnoreMerges));
    assert_eq!(bpe_option("max_input_chars_per_word"), None);
    assert_eq!(unknown_bpe_option("x"), "Ignored unknown kwarg option x");

    assert_eq!(word_piece_option("unk_token"), Some(WordPieceOption::UnkToken));
    assert_eq!(
        word_piece_option("max_input_chars_per_word"),
        Some(WordPieceOption::MaxInputCharsPerWord)
    );
    assert_eq!(
        word_piece_option("continuing_subword_prefix"),
        Some(WordPieceOption::ContinuingSubwordPrefix)
    );
    assert_eq!(word_piece_option("dropout"), None);
    assert_eq!(unknown_word_piece_option("x"), "Ignored unknown kwargs option x");
}

#[test]
fn settings_of_bpe() {
    let mut settings = BpeSettings::new();
    let half = Single { bits: 0.5f32.to_bits() };
    settings.set(BpeSetting::Dropout(Some(half)));
    settings.set(BpeSetting::Dropout(None));
    settings.set(BpeSetting::UnkToken(None));
    settings.set(BpeSetting::CacheCapacity(7));
    settings.set(BpeSetting::CacheCapacity(8));
    settings.set(BpeSetting::EndOfWordSuffix("</w>".to_string()));
    settings.set(BpeSetting::ContinuingSubwordPrefix("##".to_string()));
    settings.set(BpeSetting::FuseUnk(true));
    settings.set(BpeSetting::ByteFallback(false));
    settings.set(BpeSetting::IgnoreMerges(true));
    assert_eq!(settings.dropout, Some(half));
    assert_eq!(settings.unk_token, None);
    assert_eq!(settings.cache_capacity, Some(8));
    assert_eq!(settings.end_of_word_suffix.as_deref(), Some("</w>"));
    assert_eq!(settings.continuing_subword_prefix.as_deref(), Some("##"));
    assert_eq!(settings.fuse_unk, Some(true));
    assert_eq!(settings.byte_fallback, Some(false));
    assert_eq!(settings.ignore_merges, Some(true));
    settings.set(BpeSetting::UnkToken(Some("<unk>".to_string())));
    assert_eq!(settings.unk_token.as_deref(), Some("<unk>"));
}

#[test]
fn settings_of_word_piece() {
    let mut settings = WordPieceSettings::new();
    assert_eq!(settings.max_input_chars_per_word, None);
    settings.set(WordPieceSetting::MaxInputCharsPerWord(100));
    settings.set(WordPieceSetting::UnkToken("[UNK]".to_string()));
    settings.set(WordPieceSetting::ContinuingSubwordPrefix("##".to_string()));
    assert_eq!(settings.max_input_chars_per_word, Some(100));
    assert_eq!(settings.unk_token.as_deref(), Some("[UNK]"));
    assert_eq!(settings.continuing_subword_prefix.as_deref(), Some("##"));
}

#[test]
fn saving_under_a_name() {
    let prefix = Some("p".to_string());
    let name = Some("n".to_string());
    assert_eq!(save_prefix(None, None), (None, false));
    assert_eq!(save_prefix(prefix.clone(), None), (prefix.clone(), false));
    assert_eq!(save_prefix(None, name.clone()), (name.clone(), true));
    assert_eq!(save_prefix(prefix.clone(), name), (prefix, true));
    assert_eq!(vocab_file_name(Some("my")), "my-unigram.json");
    assert_eq!(vocab_file_name(None), "unigram.json");
}

fn one_token() -> Vec<(String, Double)> {
    vec![("<unk>".to_string(), Double { bits: 0 })]
}

fn error_of(result: Result<Unigram, ConstructionError>) -> ConstructionError {
    match result {
        Ok(_) => panic!("a model"),
        Err(error) => error,
    }
}

#[test]
fn constructing_unigram() {
    let model = unigram(None, None, Some(true)).unwrap();
    assert!(model == Unigram::default());
    assert!(!model.byte_fallback());
    let model = unigram(Some(one_token()), Some(0), Some(true)).unwrap();
    assert!(model.byte_fallback());
    let model = unigram(Some(one_token()), None, None).unwrap();
    assert_eq!((model.unk_id(), model.byte_fallback()), (None, false));

    let error = error_of(unigram(None, Some(0), None));
    assert_eq!(error.message(), "`vocab` and `unk_id` must be both specified");
    let error = error_of(unigram(Some(one_token()), Some(1), None));
    assert!(matches!(error, ConstructionError::Loading(UnigramError::UnkIdNotInVocabulary)));
    assert_eq!(
        error.message(),
        "Error while loading Unigram: The `unk_id` is larger than vocabulary size"
    );
    for unk_id in [Some(0), None] {
        let error = error_of(unigram(Some(vec![]), unk_id, None));
        assert!(matches!(error, ConstructionError::Loading(UnigramError::EmptyVocabulary)));
    }
}

#[test]
fn methods_of_unigram_only() {
    assert_eq!(
        only_for_unigram("set_weight_sets"),
        "set_weight_sets is only available for Unigram"
    );
}
