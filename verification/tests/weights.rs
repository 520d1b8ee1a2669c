use unigram::double::Double;
use unigram::error::UnigramError;
use unigram::model::Unigram;
use unigram::prepared_dp::log_sum_exp_f32;
use unigram::single::Single;

fn double(x: f64) -> Double {
    Double { bits: x.to_bits() }
}

fn single(x: f32) -> Single {
    Single { bits: x.to_bits() }
}

fn float(x: Single) -> f32 {
    f32::from_bits(x.bits)
}

fn singles(xs: &[f32]) -> Vec<Single> {
    xs.iter().map(|x| single(*x)).collect()
}

fn log_1p_exp(x: Single) -> Single {
    single(float(x).exp().ln_1p())
}

fn powf(x: Single, y: Single) -> Single {
    single(float(x).powf(float(y)))
}

const TOKENS: [&str; 7] = ["<unk>", "a", "b", "ab", "ba", "é", "abé"];

fn bare_model() -> Unigram {
    let scores = [-1.0, -2.0, -2.5, -3.0, -3.25, -4.0, -5.5];
    let vocab = TOKENS
        .iter()
        .zip(scores)
        .map(|(token, score)| (token.to_string(), double(score)))
        .collect();
    match Unigram::from(vocab, Some(0), false) {
        Ok(model) => model,
        Err(error) => panic!("{}", error.message()),
    }
}

fn weights() -> Vec<Vec<f32>> {
    vec![
        vec![-9.0, -1.0, -1.5, -4.0, -4.5, -2.0, -9.0],
        vec![-9.0, -3.0, -3.5, -2.0, -4.5, -2.0, -9.0],
        vec![-9.0, -3.0, -3.5, -2.0, -4.5, -2.0, -9.0],
        vec![-9.0, -5.0, -5.5, -8.0, -1.25, -7.0, -3.0],
    ]
}

fn model() -> Unigram {
    let mut model = bare_model();
    let sets = weights().iter().map(|set| singles(set)).collect();
    model.set_weight_sets_f32(sets).unwrap();
    model
}

fn unnamed_model() -> Unigram {
    let mut model = match Unigram::from(vec![("a".to_string(), double(0.0))], None, false) {
        Ok(model) => model,
        Err(error) => panic!("{}", error.message()),
    };
    model.set_weight_sets_f32(vec![singles(&[-1.0])]).unwrap();
    model
}

/// A segmentation: its score, its pieces and whether each is unknown.
type Way = (f32, Vec<(String, bool)>);

/// Every segmentation of a sentence, with its score added up from the beginning.
fn every_way(set: &[f32], unk_score: f32, sentence: &str) -> Vec<Way> {
    if sentence.is_empty() {
        return vec![(0.0, vec![])];
    }
    let mut ways = vec![];
    let last = sentence.chars().next_back().unwrap().to_string();
    let mut ends: Vec<(String, f32, bool)> = vec![];
    for (id, token) in TOKENS.iter().enumerate() {
        if sentence.ends_with(token) {
            ends.push((token.to_string(), if id == 0 { unk_score } else { set[id] }, id == 0));
        }
    }
    if !ends.iter().any(|end| end.0 == last) {
        ends.push((last, unk_score, true));
    }
    for (piece, weight, unknown) in ends {
        let rest = &sentence[..sentence.len() - piece.len()];
        for (score, mut pieces) in every_way(set, unk_score, rest) {
            pieces.push((piece.clone(), unknown));
            ways.push((score + weight, pieces));
        }
    }
    ways
}

const UNK_SCORE: f32 = -15.5;

fn best_way(set: &[f32], sentence: &str) -> Way {
    let mut best = (f32::NEG_INFINITY, vec![]);
    for way in every_way(set, UNK_SCORE, sentence) {
        if way.0 > best.0 {
            best = way;
        }
    }
    best
}

fn fused(pieces: &[(String, bool)]) -> Vec<String> {
    let mut tokens: Vec<String> = vec![];
    let mut open = false;
    for (piece, unknown) in pieces {
        if *unknown && open {
            tokens.last_mut().unwrap().push_str(piece);
        } else {
            tokens.push(piece.clone());
        }
        open = *unknown;
    }
    tokens
}

fn sentences() -> Vec<String> {
    let letters = ["a", "b", "é", "x"];
    let mut sentences = vec![];
    for length in 0..5u32 {
        for n in 0..4usize.pow(length) {
            let mut sentence = String::new();
            let mut rest = n;
            for _ in 0..length {
                sentence.push_str(letters[rest % 4]);
                rest /= 4;
            }
            sentences.push(sentence);
        }
    }
    sentences
}

#[test]
fn scores_of_the_prepared_graph() {
    let model = bare_model();
    for sentence in sentences() {
        let prepared = model.prepare_dp(&sentence);
        for set in weights() {
            let ways = every_way(&set, UNK_SCORE, &sentence);
            let (score, pieces) = if sentence.is_empty() {
                (0.0, vec![])
            } else {
                best_way(&set, &sentence)
            };
            let set = singles(&set);
            let unk = single(UNK_SCORE);
            assert_eq!(prepared.score_only_f32(&set, 0, unk), single(score));
            let (counted, count) = prepared.score_and_count_f32(&set, 0, unk);
            assert_eq!(counted, single(score));
            let (tokens, found) = prepared.tokens_and_score_f32(&set, 0, unk, true);
            assert_eq!(found, single(score));
            assert_eq!(tokens.concat(), sentence);
            let (parts, _) = prepared.tokens_and_score_f32(&set, 0, unk, false);
            assert_eq!(parts.len(), count as usize);
            if ways.iter().filter(|way| way.0 == score).count() == 1 {
                assert_eq!(tokens, fused(&pieces));
            }
            let total: f64 = ways.iter().map(|way| (way.0 as f64).exp()).sum();
            let forward = float(prepared.forward_score_f32(&set, 0, unk, &log_1p_exp));
            assert!((forward as f64 - total.ln()).abs() < 1e-4, "{sentence}");
            assert!(forward >= score, "{sentence}");
            assert!(forward <= score + (ways.len() as f32).ln() + 1e-4, "{sentence}");
            if ways.len() == 1 {
                let any = |x: Single| single(float(x) + 7.0);
                assert_eq!(prepared.forward_score_f32(&set, 0, unk, &any), single(score));
            }
        }
    }
}

#[test]
fn log_sum_exp() {
    let infinity = single(f32::NEG_INFINITY);
    let one = single(1.0);
    assert_eq!(log_sum_exp_f32(infinity, one, &log_1p_exp), one);
    assert_eq!(log_sum_exp_f32(one, infinity, &log_1p_exp), one);
    let expected = single(1.0 + (-2.0f32).exp().ln_1p());
    assert_eq!(log_sum_exp_f32(one, single(-1.0), &log_1p_exp), expected);
    assert_eq!(log_sum_exp_f32(single(-1.0), one, &log_1p_exp), expected);
    let thousand = single(1000.0);
    assert_eq!(log_sum_exp_f32(thousand, single(0.0), &log_1p_exp), thousand);
    let numbers = [0.0, -0.0, 1.0, -1.0, 88.7, -103.5, 1e30, f32::MAX, f32::MIN, f32::MIN_POSITIVE];
    for a in numbers {
        for b in numbers {
            let found = log_sum_exp_f32(single(a), single(b), &log_1p_exp);
            assert_eq!(found, log_sum_exp_f32(single(b), single(a), &log_1p_exp));
            assert!(float(found).is_finite());
            assert!(a.max(b) <= float(found));
            assert!(float(found) <= a.max(b) + 2.0f32.ln());
        }
    }
}

#[test]
fn an_exponent_of_zero_is_the_plain_choice() {
    let model = model();
    for sentence in sentences() {
        assert_eq!(
            model.best_of_cached_weight_sets_normalized(&sentence, single(0.0), &powf).unwrap(),
            model.best_of_cached_weight_sets(&sentence).unwrap()
        );
    }
}

#[test]
fn an_empty_list_of_sets_is_not_no_sets() {
    let mut model = model();
    model.set_weight_sets(vec![]).unwrap();
    assert_eq!(model.best_of_cached_weight_sets("").unwrap(), (0, vec![], single(0.0)));
    assert!(model.best_of_cached_weight_sets_batch(&[]).unwrap().is_empty());
    let before = model.encode("abéx").unwrap();
    model.clear_weight_sets();
    assert_eq!(
        model.best_of_cached_weight_sets("").unwrap_err(),
        UnigramError::NoCachedWeights
    );
    assert_eq!(
        model.best_of_cached_weight_sets_normalized("", single(1.0), &powf).unwrap_err(),
        UnigramError::NoCachedWeights
    );
    assert_eq!(
        model.tokens_of_cached_weight_set_batch(&[], &[]).unwrap_err(),
        UnigramError::NoCachedWeights
    );
    assert_eq!(model.encode("abéx").unwrap(), before);
}

#[test]
fn best_of_the_cached_sets() {
    let model = model();
    for sentence in sentences() {
        let (index, tokens, score) = model.best_of_cached_weight_sets(&sentence).unwrap();
        if sentence.is_empty() {
            assert_eq!((index, tokens, score), (0, vec![], single(0.0)));
            continue;
        }
        let scores: Vec<f32> = weights().iter().map(|set| best_way(set, &sentence).0).collect();
        let best = scores.iter().copied().fold(f32::NEG_INFINITY, f32::max);
        assert_eq!(index, scores.iter().position(|score| *score == best).unwrap());
        assert_eq!(score, single(best));
        assert_eq!(
            model.tokens_of_cached_weight_set(&sentence, index).unwrap(),
            (tokens.clone(), score)
        );
        let unbiased = model.best_of_cached_weight_sets_biased(&sentence, &[]).unwrap();
        assert_eq!(unbiased, (index, tokens.clone(), score));
        assert_eq!(
            model.checked_best_of_cached_weight_sets(&sentence).unwrap(),
            Some((index, tokens, score))
        );
    }
    assert_eq!(
        model.best_of_cached_weight_sets("ab").unwrap(),
        (1, vec!["ab".to_string()], single(-2.0))
    );
    assert_eq!(
        model.best_of_cached_weight_sets("xy").unwrap(),
        (0, vec!["xy".to_string()], single(-31.0))
    );
}

#[test]
fn biases_decide() {
    let model = model();
    let biased = |biases: &[f32]| {
        model.best_of_cached_weight_sets_biased("ab", &singles(biases)).unwrap()
    };
    // Scores without bias: -2.5, -2, -2, -8.
    assert_eq!(biased(&[1.0]), (0, vec!["a".to_string(), "b".to_string()], single(-2.5)));
    assert_eq!(biased(&[0.0, 0.0, 0.5]).0, 2);
    assert_eq!(biased(&[0.0, 0.0, 0.0, 6.5, 100.0]).0, 3);
    assert_eq!(biased(&[0.0, 0.0, 0.0, 6.5]).2, single(-8.0));
    assert_eq!(biased(&[]), biased(&[0.0, 0.0, 0.0, 0.0, 7.0]));
}

#[test]
fn normalized_by_length() {
    let model = model();
    let (index, tokens, score) =
        model.best_of_cached_weight_sets_normalized("ab", single(1.0), &powf).unwrap();
    // Scores by number of edges: -2.5 / 2, -2 / 1, -2 / 1, -8 / 1.
    assert_eq!((index, score), (0, single(-1.25)));
    assert_eq!(tokens, vec!["a", "b"]);
    let (index, _, score) =
        model.best_of_cached_weight_sets_normalized("ab", single(0.0), &powf).unwrap();
    assert_eq!((index, score), (1, single(-2.0)));
    let (index, _, score) =
        model.best_of_cached_weight_sets_normalized("xyz", single(0.5), &powf).unwrap();
    assert_eq!((index, score), (0, single(-46.5 / 3.0f32.powf(0.5))));
    assert_eq!(
        model.best_of_cached_weight_sets_normalized("", single(1.0), &powf).unwrap(),
        (0, vec![], single(0.0))
    );
}

#[test]
fn forward_scores_decide() {
    let model = model();
    for sentence in ["ab", "abab", "bé", "xax"] {
        let (index, tokens, score) =
            model.best_of_cached_weight_sets_forward(sentence, &log_1p_exp).unwrap();
        let prepared = model.prepare_dp(sentence);
        let scores: Vec<f32> = weights()
            .iter()
            .map(|set| {
                let set = singles(set);
                float(prepared.forward_score_f32(&set, 0, single(UNK_SCORE), &log_1p_exp))
            })
            .collect();
        let best = scores.iter().copied().fold(f32::NEG_INFINITY, f32::max);
        assert_eq!(index, scores.iter().position(|score| *score == best).unwrap());
        assert_eq!(score, single(best));
        assert_eq!(tokens, model.tokens_of_cached_weight_set(sentence, index).unwrap().0);
    }
}

#[test]
fn top_k() {
    let model = model();
    for sentence in sentences() {
        if sentence.is_empty() {
            continue;
        }
        let scores: Vec<f32> = weights().iter().map(|set| best_way(set, &sentence).0).collect();
        let mut sorted = scores.clone();
        sorted.sort_by(|a, b| b.partial_cmp(a).unwrap());
        for k in 0..6 {
            let top = model.top_k_of_cached_weight_sets(&sentence, k).unwrap();
            assert_eq!(top.len(), k.min(4));
            let mut seen: Vec<usize> = top.iter().map(|entry| entry.0).collect();
            for (place, (index, score)) in top.iter().enumerate() {
                assert_eq!(float(*score), scores[*index]);
                assert_eq!(float(*score), sorted[place]);
            }
            seen.sort();
            seen.dedup();
            assert_eq!(seen.len(), top.len());
        }
    }
    assert!(model.top_k_of_cached_weight_sets("", 3).unwrap().is_empty());
}

#[test]
fn segmentation_by_one_set() {
    let model = model();
    assert_eq!(
        model.tokens_of_cached_weight_set("aba", 3).unwrap(),
        (vec!["a".to_string(), "ba".to_string()], single(-6.25))
    );
    assert_eq!(model.tokens_of_cached_weight_set("", 3).unwrap(), (vec![], single(0.0)));
    assert_eq!(
        model.tokens_of_cached_weight_set("", 4).unwrap_err(),
        UnigramError::WeightSetIndexOutOfRange { index: 4, num_sets: 4 }
    );
}

#[test]
fn batches_are_in_order() {
    let model = model();
    let all = sentences();
    let plain = model.best_of_cached_weight_sets_batch(&all).unwrap();
    let biases = singles(&[0.25, 0.0, 0.5]);
    let biased = model.best_of_cached_weight_sets_biased_batch(&all, &biases).unwrap();
    let alpha = single(0.75);
    let normalized =
        model.best_of_cached_weight_sets_normalized_batch(&all, alpha, &powf).unwrap();
    let forward = model.best_of_cached_weight_sets_forward_batch(&all, &log_1p_exp).unwrap();
    let top = model.top_k_of_cached_weight_sets_batch(&all, 2).unwrap();
    let indices: Vec<usize> = (0..all.len()).map(|i| i % 4).collect();
    let by_index = model.tokens_of_cached_weight_set_batch(&all, &indices).unwrap();
    assert_eq!(plain.len(), all.len());
    for (i, sentence) in all.iter().enumerate() {
        assert_eq!(plain[i], model.best_of_cached_weight_sets(sentence).unwrap());
        assert_eq!(
            biased[i],
            model.best_of_cached_weight_sets_biased(sentence, &biases).unwrap()
        );
        assert_eq!(
            normalized[i],
            model.best_of_cached_weight_sets_normalized(sentence, alpha, &powf).unwrap()
        );
        assert_eq!(
            forward[i],
            model.best_of_cached_weight_sets_forward(sentence, &log_1p_exp).unwrap()
        );
        assert_eq!(top[i], model.top_k_of_cached_weight_sets(sentence, 2).unwrap());
        assert_eq!(
            by_index[i],
            model.tokens_of_cached_weight_set(sentence, indices[i]).unwrap()
        );
    }
}

#[test]
fn sets_given_with_the_sentence() {
    let model = model();
    let bare = bare_model();
    let given: Vec<Vec<Double>> = weights()
        .iter()
        .map(|set| set.iter().map(|x| double(*x as f64)).collect())
        .collect();
    for sentence in sentences() {
        let (index, tokens, score) = model.best_of_cached_weight_sets(&sentence).unwrap();
        assert_eq!(
            bare.best_of_weight_sets(&sentence, &given).unwrap(),
            (index, tokens, double(float(score) as f64))
        );
    }
    // Weights are rounded to single precision.
    let fine = vec![vec![double(-0.1); 7]];
    assert_eq!(
        bare.best_of_weight_sets("a", &fine).unwrap(),
        (0, vec!["a".to_string()], double(-0.1f32 as f64))
    );
}

#[test]
fn without_sets_the_model_judges_by_its_own_scores() {
    let mut model = bare_model();
    model.set_weight_sets(vec![]).unwrap();
    let (index, tokens, score) = model.best_of_cached_weight_sets("abé").unwrap();
    assert_eq!((index, score), (0, single(-5.5)));
    assert_eq!(tokens, vec!["abé"]);
    assert_eq!(model.best_of_weight_sets("abé", &[]).unwrap(), (0, tokens, double(-5.5)));
    assert!(model.top_k_of_cached_weight_sets("abé", 1).unwrap().is_empty());
}

#[test]
fn errors_without_sets() {
    let mut model = model();
    model.clear_weight_sets();
    let none = UnigramError::NoCachedWeights;
    let texts = vec!["a".to_string()];
    assert_eq!(model.best_of_cached_weight_sets("").unwrap_err(), none);
    assert_eq!(model.best_of_cached_weight_sets_biased("", &[]).unwrap_err(), none);
    let alpha = single(1.0);
    assert_eq!(
        model.best_of_cached_weight_sets_normalized("a", alpha, &powf).unwrap_err(),
        none
    );
    assert_eq!(model.best_of_cached_weight_sets_forward("a", &log_1p_exp).unwrap_err(), none);
    assert_eq!(model.top_k_of_cached_weight_sets("a", 1).unwrap_err(), none);
    assert_eq!(model.tokens_of_cached_weight_set("a", 0).unwrap_err(), none);
    assert_eq!(model.best_of_cached_weight_sets_batch(&[]).unwrap_err(), none);
    assert_eq!(model.best_of_cached_weight_sets_biased_batch(&texts, &[]).unwrap_err(), none);
    assert_eq!(
        model.best_of_cached_weight_sets_normalized_batch(&texts, alpha, &powf).unwrap_err(),
        none
    );
    assert_eq!(
        model.best_of_cached_weight_sets_forward_batch(&texts, &log_1p_exp).unwrap_err(),
        none
    );
    assert_eq!(model.top_k_of_cached_weight_sets_batch(&texts, 1).unwrap_err(), none);
    assert_eq!(model.tokens_of_cached_weight_set_batch(&texts, &[]).unwrap_err(), none);
    assert_eq!(none.message(), "No cached weight sets have been provided");
}

#[test]
fn errors_without_an_unknown_id() {
    let model = unnamed_model();
    let missing = UnigramError::MissingUnkId;
    let texts = vec!["a".to_string()];
    assert_eq!(model.best_of_cached_weight_sets("a").unwrap_err(), missing);
    assert_eq!(model.best_of_cached_weight_sets_batch(&texts).unwrap_err(), missing);
    assert_eq!(model.best_of_cached_weight_sets("").unwrap().0, 0);
    assert_eq!(model.tokens_of_cached_weight_set("a", 0).unwrap_err(), missing);
    assert_eq!(model.top_k_of_cached_weight_sets("a", 1).unwrap_err(), missing);
    assert!(model.top_k_of_cached_weight_sets("a", 0).unwrap().is_empty());
    assert_eq!(model.best_of_weight_sets("a", &[]).unwrap_err(), missing);
    assert_eq!(missing.message(), "Encountered an unknown token but `unk_id` is missing");
}

#[test]
fn errors_of_lengths() {
    let mut model = model();
    let before = model.best_of_cached_weight_sets("ab").unwrap();
    let error = UnigramError::MismatchedWeightLength { expected: 7, got: 6 };
    // The length of the first set that does not match is reported.
    let sets = vec![vec![double(0.0); 7], vec![double(0.0); 6], vec![double(0.0); 5]];
    assert_eq!(model.set_weight_sets(sets.clone()).unwrap_err(), error);
    assert_eq!(model.best_of_weight_sets("a", &sets).unwrap_err(), error);
    assert_eq!(model.best_of_weight_sets("", &sets).unwrap().0, 0);
    let error = UnigramError::MismatchedWeightLength { expected: 7, got: 2 };
    assert_eq!(model.set_weight_sets_f32(vec![singles(&[0.0, 0.0])]).unwrap_err(), error);
    assert_eq!(error.message(), "Weights length mismatch: expected 7, got 2");
    assert_eq!(model.best_of_cached_weight_sets("ab").unwrap(), before);

    let texts = vec!["a".to_string(), "b".to_string()];
    let error = UnigramError::MismatchedBatchLength { sentences: 2, indices: 1 };
    assert_eq!(model.tokens_of_cached_weight_set_batch(&texts, &[0]).unwrap_err(), error);
    assert_eq!(error.message(), "Batch length mismatch: 2 sentences but 1 indices");
    let error = UnigramError::WeightSetIndexOutOfRange { index: 10, num_sets: 4 };
    assert_eq!(model.tokens_of_cached_weight_set_batch(&texts, &[0, 10]).unwrap_err(), error);
    assert_eq!(
        error.message(),
        "Weight set index 10 is out of range: only 4 cached weight sets are available"
    );
}

#[test]
fn sentences_without_a_segmentation() {
    let mut model = bare_model();
    let low = f32::NEG_INFINITY;
    let sets = vec![
        singles(&[0.0, low, low, low, low, low, low]),
        singles(&[0.0, -1.0, low, low, low, low, f32::NAN]),
    ];
    model.set_weight_sets_f32(sets).unwrap();
    assert_eq!(
        model.checked_best_of_cached_weight_sets("a").unwrap(),
        Some((1, vec!["a".to_string()], single(-1.0)))
    );
    assert_eq!(model.checked_best_of_cached_weight_sets("abé").unwrap(), None);
    assert_eq!(model.checked_best_of_cached_weight_sets_biased("b", &[]).unwrap(), None);
    assert_eq!(
        model.checked_best_of_cached_weight_sets_normalized("b", single(1.0), &powf).unwrap(),
        None
    );
    assert_eq!(
        model.checked_best_of_cached_weight_sets_forward("b", &log_1p_exp).unwrap(),
        None
    );
    assert_eq!(model.checked_tokens_of_cached_weight_set("a", 0).unwrap(), None);
    assert_eq!(
        model.checked_best_of_weight_sets("a", &[vec![double(f64::NEG_INFINITY); 7]]).unwrap(),
        None
    );
    // A bias of negative infinity keeps a set from winning.
    assert_eq!(
        model.checked_best_of_cached_weight_sets_biased("a", &singles(&[0.0, low])).unwrap(),
        None
    );
}

#[test]
fn ordinary_weights_always_segment() {
    let mut model = bare_model();
    model.set_weight_sets_f32(vec![singles(&[-1e31; 7])]).unwrap();
    let sentence = "abéx".repeat(500);
    let (index, tokens, score) = model.best_of_cached_weight_sets(&sentence).unwrap();
    assert_eq!(index, 0);
    assert_eq!(tokens.concat(), sentence);
    assert!(float(score) < -1e33 && float(score).is_finite());
    model.set_weight_sets_f32(vec![singles(&[f32::MIN; 7])]).unwrap();
    assert_eq!(model.checked_best_of_cached_weight_sets("aé").unwrap(), None);
}

#[test]
fn the_weight_of_the_unknown_token_is_unused() {
    let prepared_by = |weight: f32| {
        let mut model = bare_model();
        let mut sets = weights();
        for set in sets.iter_mut() {
            set[0] = weight;
        }
        model.set_weight_sets_f32(sets.iter().map(|set| singles(set)).collect()).unwrap();
        model
    };
    let (low, high) = (prepared_by(-1e20), prepared_by(f32::NAN));
    for sentence in sentences().into_iter().chain(["a<unk>b".to_string()]) {
        assert_eq!(
            low.best_of_cached_weight_sets(&sentence).unwrap(),
            high.best_of_cached_weight_sets(&sentence).unwrap()
        );
        assert_eq!(
            low.best_of_cached_weight_sets_forward(&sentence, &log_1p_exp).unwrap(),
            high.best_of_cached_weight_sets_forward(&sentence, &log_1p_exp).unwrap()
        );
    }
}
