use unigram::double::Double;
use unigram::error::UnigramError;
use unigram::lattice::Lattice;
use unigram::model::Unigram;

fn double(x: f64) -> Double {
    Double { bits: x.to_bits() }
}

fn vocab(entries: &[(&str, f64)]) -> Vec<(String, Double)> {
    entries
        .iter()
        .map(|(token, score)| (token.to_string(), double(*score)))
        .collect()
}

fn model(entries: &[(&str, f64)], unk_id: Option<usize>, byte_fallback: bool) -> Unigram {
    match Unigram::from(vocab(entries), unk_id, byte_fallback) {
        Ok(model) => model,
        Err(error) => panic!("{}", error.message()),
    }
}

fn from_error(entries: &[(&str, f64)], unk_id: Option<usize>) -> UnigramError {
    match Unigram::from(vocab(entries), unk_id, false) {
        Ok(_) => panic!("a model"),
        Err(error) => error,
    }
}

fn sentencepieces() -> Vec<(&'static str, f64)> {
    vec![
        ("<unk>", 0.0),
        ("a", 0.0),
        ("b", 0.0),
        ("c", 0.0),
        ("d", 0.0),
        ("cd", 1.0),
        ("ab", 2.0),
        ("abc", 5.0),
        ("abcd", 10.0),
    ]
}

#[test]
fn test_populate_nodes_unk() {
    let model = model(&[("<unk>", 0.0)], Some(0), false);

    let mut lattice = Lattice::from("abc", model.bos_id(), model.eos_id());
    model.populate_nodes(&mut lattice);

    assert_eq!(lattice.begin_nodes(0).len(), 1);
    assert_eq!(lattice.begin_nodes(1).len(), 1);
    assert_eq!(lattice.begin_nodes(2).len(), 1);
    assert_eq!(lattice.node(lattice.begin_nodes(0)[0]).id, 0);
    assert_eq!(lattice.node(lattice.begin_nodes(1)[0]).id, 0);
    assert_eq!(lattice.node(lattice.begin_nodes(2)[0]).id, 0);
    assert_eq!(lattice.node(lattice.begin_nodes(0)[0]).node_id, 2);
    assert_eq!(lattice.node(lattice.begin_nodes(1)[0]).node_id, 3);
    assert_eq!(lattice.node(lattice.begin_nodes(2)[0]).node_id, 4);
}

#[test]
fn test_populate_nodes() {
    let pieces = [
        ("<unk>", 0.0),
        ("a", 0.1),
        ("b", 0.2),
        ("ab", 0.3),
        ("bc", 0.4),
    ];
    let model = model(&pieces, Some(0), false);

    let mut lattice = Lattice::from("abc", model.bos_id(), model.eos_id());
    model.populate_nodes(&mut lattice);

    assert_eq!(lattice.begin_nodes(0).len(), 2); // a, ab
    assert_eq!(lattice.begin_nodes(1).len(), 2); // b, bc
    assert_eq!(lattice.begin_nodes(2).len(), 1); // c(unk)

    // Id is the vocabulary id from Unigram model
    // node_id is simply the rank of the given node in the lattice.
    assert_eq!(lattice.node(lattice.begin_nodes(0)[0]).id, 1);
    assert_eq!(lattice.node(lattice.begin_nodes(0)[1]).id, 3);
    assert_eq!(lattice.node(lattice.begin_nodes(1)[0]).id, 2);
    assert_eq!(lattice.node(lattice.begin_nodes(1)[1]).id, 4);
    assert_eq!(lattice.node(lattice.begin_nodes(2)[0]).id, 0);
    assert_eq!(lattice.node(lattice.begin_nodes(0)[0]).node_id, 2);
    assert_eq!(lattice.node(lattice.begin_nodes(0)[1]).node_id, 3);
    assert_eq!(lattice.node(lattice.begin_nodes(1)[0]).node_id, 4);
    assert_eq!(lattice.node(lattice.begin_nodes(1)[1]).node_id, 5);
    assert_eq!(lattice.node(lattice.begin_nodes(2)[0]).node_id, 6);

    // The unknown character scores ten less than the lowest score.
    assert_eq!(lattice.node(6).score, double(-10.0));
    assert_eq!(lattice.node(5).score, double(0.4));
    assert_eq!(lattice.piece(5), "bc");
}

#[test]
fn test_encode() {
    let model = model(&sentencepieces(), Some(0), false);
    let result = model.encode("abcd").unwrap();
    assert_eq!(result, vec!["abcd"]);
}

#[test]
fn test_unigram_bytefallback() {
    let sentencepieces = [("<unk>", 0.0), ("<0xC3>", -0.01), ("<0xA9>", -0.03)];
    let unigram = model(&sentencepieces, Some(0), true);
    let tokens = unigram.tokenize("é").unwrap();
    assert_eq!(tokens.len(), 2);

    assert_eq!(tokens[0].id, 1);
    assert_eq!(tokens[0].value, "<0xC3>");
    assert_eq!(tokens[0].offsets, (0, 2));
    assert_eq!(tokens[1].id, 2);
    assert_eq!(tokens[1].value, "<0xA9>");
    assert_eq!(tokens[1].offsets, (0, 2));
}

#[test]
fn encodes_with_a_fused_unknown_tail() {
    let model = model(&sentencepieces(), Some(0), false);
    let result = model.encode("abcdacdxx").unwrap();
    assert_eq!(result, vec!["abcd", "a", "cd", "xx"]);
}

#[test]
fn both_ways_of_encoding() {
    let pieces = [
        ("<unk>", 0.0),
        ("ab", 0.0),
        ("cd", -0.1),
        ("abc", -0.2),
        ("a", -0.3),
        ("b", -0.4),
        ("c", -0.5),
        ("ABC", -0.5),
        ("abcdabcd", 20.0),
        ("q", 20.5),
        ("r", 20.5),
        ("qr", -0.5),
    ];
    let cases: &[(&str, &[&str])] = &[
        ("", &[]),
        ("abc", &["abc"]),
        ("AB", &["AB"]),
        ("abcd", &["ab", "cd"]),
        ("abcc", &["abc", "c"]),
        ("xabcabaabcdd", &["x", "abc", "ab", "a", "ab", "cd", "d"]),
        ("xyz東京", &["xyz東京"]),
        ("ABC", &["ABC"]),
        ("abABCcd", &["ab", "ABC", "cd"]),
        ("ababcdabcdcd", &["ab", "abcdabcd", "cd"]),
        ("abqrcd", &["ab", "q", "r", "cd"]),
    ];
    for is_optimized in [true, false] {
        let mut unigram = model(&pieces, Some(0), false);
        unigram.set_optimized(is_optimized);
        for (sentence, expected) in cases {
            assert_eq!(&unigram.encode(sentence).unwrap(), expected);
        }
        unigram.set_fuse_unk(false);
        assert_eq!(unigram.encode("AB").unwrap(), vec!["A", "B"]);
        assert_eq!(unigram.encode("xyz東京").unwrap(), vec!["x", "y", "z", "東", "京"]);
    }
}

#[test]
fn lattice_keeps_apart_what_is_not_fused() {
    let unigram = model(&[("<unk>", 0.0), ("a", -1.0), ("b", -1.5), ("ab", -2.0)], Some(0), false);
    let mut lattice = Lattice::from("abx", unigram.bos_id(), unigram.eos_id());
    unigram.populate_nodes(&mut lattice);
    // The two ways to "ab" have scores -2.5 and -2.
    let way = lattice.viterbi();
    assert_eq!(way.len(), 2);
    assert_eq!(lattice.piece(way[0]), "ab");
    assert_eq!(lattice.piece(way[1]), "x");
    assert_eq!(lattice.tokens(), vec!["ab", "x"]);
    assert_eq!(lattice.len(), 3);
}

#[test]
fn missing_unknown_id() {
    let mut unigram = model(&[("a", 0.0), ("bc", 0.0)], None, false);
    assert_eq!(unigram.encode("abc").unwrap_err(), UnigramError::MissingUnkId);
    assert_eq!(unigram.encode("aa").unwrap(), vec!["a", "a"]);
    assert_eq!(unigram.encode("x").unwrap_err(), UnigramError::MissingUnkId);
    assert!(matches!(unigram.tokenize("x"), Err(UnigramError::MissingUnkId)));
    unigram.clear_cache();
    unigram.set_optimized(false);
    // A lattice in which some character begins no piece has no way through it.
    assert!(unigram.encode("ax").unwrap().is_empty());
    assert_eq!(unigram.encode("a").unwrap_err(), UnigramError::MissingUnkId);
    unigram.set_fuse_unk(false);
    assert_eq!(unigram.encode("aa").unwrap(), vec!["a", "a"]);
    assert_eq!(unigram.encode("aa").unwrap().concat(), "aa");
}

#[test]
fn without_an_unknown_id_only_tokens_come() {
    let mut unigram = model(&[("a", -1.0), ("ab", -1.5), ("b", -2.0), ("éa", -1.0)], None, false);
    unigram.set_fuse_unk(false);
    for text in ["ab", "abab", "baéa", "aéab", "é", "axb"] {
        for found in [unigram.encode_optimized(text), unigram.encode_unoptimized(text)] {
            if let Ok(tokens) = found {
                assert!(tokens.iter().all(|token| unigram.token_to_id(token).is_some()));
                assert!(unigram.assign_ids(tokens).is_ok());
            }
        }
        assert_eq!(unigram.encode(text).is_ok(), unigram.tokenize(text).is_ok());
    }
    assert_eq!(unigram.encode_optimized("abab").unwrap(), vec!["ab", "ab"]);
    // A character that is no token fails the encoding in one pass, though a token begins with it.
    assert_eq!(unigram.encode_optimized("baéa").unwrap_err(), UnigramError::MissingUnkId);
}

#[test]
fn errors_of_from() {
    assert_eq!(from_error(&[], Some(0)), UnigramError::EmptyVocabulary);
    assert_eq!(from_error(&[("a", 0.0)], Some(1)), UnigramError::UnkIdNotInVocabulary);
    assert_eq!(from_error(&[], None), UnigramError::EmptyVocabulary);
    assert_eq!(model(&[("a", 0.0)], None, false).len(), 1);
    assert_eq!(
        UnigramError::EmptyVocabulary.message(),
        "The vocabulary is empty but at least <unk> is needed"
    );
    assert_eq!(
        UnigramError::UnkIdNotInVocabulary.message(),
        "The `unk_id` is larger than vocabulary size"
    );
}

#[test]
fn cached_results_stay_until_the_cache_is_fresh() {
    let mut unigram = model(&[("<unk>", 0.0), ("a", 0.0)], Some(0), false);
    assert_eq!(unigram.encode("xy").unwrap(), vec!["xy"]);
    unigram.set_min_score(double(5.0));
    assert_eq!(unigram.min_score(), double(5.0));
    assert_eq!(unigram.encode("xy").unwrap(), vec!["xy"]);
    unigram.set_fuse_unk(false);
    assert_eq!(unigram.encode("xy").unwrap(), vec!["x", "y"]);
    unigram.resize_cache(0);
    assert_eq!(unigram.encode("xz").unwrap(), vec!["x", "z"]);
    unigram.clear_cache();
    assert_eq!(unigram.encode("xy").unwrap(), vec!["x", "y"]);
}

#[test]
fn a_change_of_the_lowest_score_shows_after_clearing() {
    // "ab" is two unknown characters, or the token that costs 25.
    let mut unigram = model(&[("<unk>", 0.0), ("ab", -25.0), ("c", 0.0)], Some(0), false);
    // The lowest score is -25, so unknown characters score -35 each: the token wins.
    unigram.set_fuse_unk(false);
    assert_eq!(unigram.encode("ab").unwrap(), vec!["ab"]);
    unigram.set_min_score(double(0.0));
    // Two unknown characters now score -20, but the cached result stays.
    assert_eq!(unigram.encode("ab").unwrap(), vec!["ab"]);
    unigram.clear_cache();
    assert_eq!(unigram.encode("ab").unwrap(), vec!["a", "b"]);
}

#[test]
fn long_sentences_are_not_cached() {
    let mut unigram = model(&[("<unk>", 0.0), ("ab", -25.0), ("c", 0.0)], Some(0), false);
    unigram.set_fuse_unk(false);
    let long = format!("{}ab", "c".repeat(254));
    let short = format!("{}ab", "c".repeat(253));
    assert_eq!(unigram.encode(&long).unwrap().len(), 255);
    assert_eq!(unigram.encode(&short).unwrap().len(), 254);
    unigram.set_min_score(double(0.0));
    assert_eq!(unigram.encode(&long).unwrap().len(), 256);
    assert_eq!(unigram.encode(&short).unwrap().len(), 254);
}

#[test]
fn tokenizes_with_offsets() {
    let unigram = model(&sentencepieces(), Some(0), false);
    let tokens = unigram.tokenize("abcdéacd").unwrap();
    let found: Vec<(u32, &str, (usize, usize))> = tokens
        .iter()
        .map(|token| (token.id, token.value.as_str(), token.offsets))
        .collect();
    assert_eq!(
        found,
        vec![(8, "abcd", (0, 4)), (0, "é", (4, 6)), (1, "a", (6, 7)), (5, "cd", (7, 9))]
    );
    assert!(unigram.tokenize("").unwrap().is_empty());
}

#[test]
fn byte_fallback_needs_every_byte() {
    let unigram = model(&[("<unk>", 0.0), ("<0xC3>", -0.01)], Some(0), true);
    let tokens = unigram.tokenize("é").unwrap();
    assert_eq!(tokens.len(), 1);
    assert_eq!(tokens[0].id, 0);
    assert_eq!(tokens[0].value, "é");
    assert!(unigram.byte_fallback());
}

#[test]
fn ids_of_given_texts() {
    let unigram = model(&sentencepieces(), Some(3), false);
    let tokens = unigram.assign_ids(vec!["cd".to_string(), "é".to_string()]).unwrap();
    assert_eq!((tokens[0].id, tokens[0].offsets), (5, (0, 2)));
    assert_eq!((tokens[1].id, tokens[1].offsets), (3, (2, 4)));
    let nameless = model(&[("a", 0.0)], None, false);
    assert!(matches!(
        nameless.assign_ids(vec!["b".to_string()]),
        Err(UnigramError::MissingUnkId)
    ));
}

#[test]
fn vocabulary_queries() {
    let unigram = model(&[("<unk>", 0.0), ("a", -1.0), ("b", -2.0), ("a", -3.0)], Some(0), false);
    assert_eq!(unigram.len(), 4);
    assert_eq!(unigram.get_vocab_size(), 4);
    assert_eq!(unigram.unk_id(), Some(0));
    assert_eq!((unigram.bos_id(), unigram.eos_id()), (5, 6));
    assert_eq!(unigram.token_to_id("a"), Some(3));
    assert_eq!(unigram.token_to_id("b"), Some(2));
    assert_eq!(unigram.token_to_id("c"), None);
    assert_eq!(unigram.id_to_token(1), Some("a".to_string()));
    assert_eq!(unigram.id_to_token(3), Some("a".to_string()));
    assert_eq!(unigram.id_to_token(4), None);
    assert_eq!(
        unigram.get_vocab(),
        vec![("<unk>".to_string(), 0), ("b".to_string(), 2), ("a".to_string(), 3)]
    );
    assert_eq!(unigram.min_score(), double(-3.0));
}

#[test]
fn lowest_score_passes_over_what_is_no_number() {
    let unigram = model(&[("<unk>", 1.5), ("a", f64::NAN), ("b", 0.5)], Some(0), false);
    assert_eq!(unigram.min_score(), double(0.5));
    let odd = model(&[("a", f64::NAN)], None, false);
    assert_eq!(odd.min_score(), double(f64::INFINITY));
}

#[test]
fn iterates_in_order() {
    let unigram = model(&sentencepieces(), Some(0), false);
    let mut iterator = unigram.iter();
    let mut found: Vec<(String, Double)> = vec![];
    while let Some(entry) = iterator.next() {
        found.push(entry.clone());
    }
    assert!(iterator.next().is_none());
    assert_eq!(found, vocab(&sentencepieces()));
}

#[test]
fn copies_and_equality() {
    let mut unigram = model(&sentencepieces(), Some(0), false);
    let sets = vec![vec![double(-1.0); 9]];
    unigram.set_weight_sets(sets).unwrap();
    let copy = unigram.clone();
    assert!(copy == unigram);
    assert_eq!(copy.encode("abcdacdxx").unwrap(), vec!["abcd", "a", "cd", "xx"]);
    assert_eq!(copy.token_to_id("cd"), Some(5));
    assert_eq!(
        copy.checked_best_of_cached_weight_sets("ab").unwrap(),
        unigram.checked_best_of_cached_weight_sets("ab").unwrap()
    );

    assert!(model(&[("a", 0.0)], Some(0), false) == model(&[("a", -0.0)], Some(0), true));
    assert!(model(&[("a", 0.0)], Some(0), false) != model(&[("a", 0.0)], None, false));
    assert!(model(&[("a", 0.0)], Some(0), false) != model(&[("a", 1.0)], Some(0), false));
    assert!(model(&[("a", 0.0)], Some(0), false) != model(&[("b", 0.0)], Some(0), false));
    let odd = model(&[("a", f64::NAN)], Some(0), false);
    assert!(odd != odd.clone());
}

#[test]
fn default_model() {
    let unigram = Unigram::default();
    assert!(unigram == model(&[("<unk>", 0.0)], Some(0), false));
    assert_eq!(unigram.encode("any text").unwrap(), vec!["any text"]);
    for text in ["x", "<unk>", "a<unk>é<unk>"] {
        let tokens = unigram.tokenize(text).unwrap();
        assert_eq!(tokens.len(), 1);
        assert_eq!((tokens[0].id, tokens[0].value.as_str()), (0, text));
        assert_eq!(tokens[0].offsets, (0, text.len()));
    }
    assert_eq!(unigram.describe(), "Unigram { vocab: 1, unk_id: Some(0), byte_fallback: false }");
    assert_eq!(
        model(&[("a", 0.0), ("b", 0.0)], None, true).describe(),
        "Unigram { vocab: 2, unk_id: None, byte_fallback: true }"
    );
}

/// The best score over all tokenizations, by trying each.
fn best_by_trial(pieces: &[(&str, f64)], sentence: &str, unk: f64) -> f64 {
    if sentence.is_empty() {
        return 0.0;
    }
    let mut best = f64::NEG_INFINITY;
    let last = sentence.chars().next_back().unwrap();
    let single = &sentence[sentence.len() - last.len_utf8()..];
    let mut has_single = false;
    for (token, score) in pieces {
        if let Some(rest) = sentence.strip_suffix(token) {
            has_single = has_single || *token == single;
            best = best.max(best_by_trial(pieces, rest, unk) + score);
        }
    }
    if !has_single {
        let rest = &sentence[..sentence.len() - single.len()];
        best = best.max(best_by_trial(pieces, rest, unk) + unk);
    }
    best
}

#[test]
fn no_tokenization_is_better() {
    let pieces = [
        ("<unk>", -8.0),
        ("a", -3.0),
        ("é", -3.5),
        ("aé", -5.0),
        ("éa", -6.0),
        ("aéa", -9.5),
        ("bb", -4.0),
        ("abb", -7.5),
    ];
    let mut unigram = model(&pieces, Some(0), false);
    unigram.set_fuse_unk(false);
    let unk = -9.5 - 10.0;
    let letters = ["a", "é", "b"];
    for n in 0..3usize.pow(6) {
        let mut sentence = String::new();
        let mut rest = n;
        for _ in 0..6 {
            sentence.push_str(letters[rest % 3]);
            rest /= 3;
        }
        for is_optimized in [true, false] {
            unigram.set_optimized(is_optimized);
            unigram.clear_cache();
            let tokens = unigram.encode(&sentence).unwrap();
            assert_eq!(tokens.concat(), sentence);
            let mut score = 0.0;
            for token in &tokens {
                score += match unigram.token_to_id(token) {
                    Some(id) => pieces[id as usize].1,
                    None => unk,
                };
            }
            assert_eq!(score, best_by_trial(&pieces, &sentence, unk));
        }
    }
}
