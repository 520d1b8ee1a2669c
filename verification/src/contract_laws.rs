//! What the conditions mean that functions ask for.

use crate::double::Double;
use crate::lattice::{is_entry, Entry};
use crate::prepared_dp::{computes, PreparedDP, Weighting};
use crate::sentence::{boundary, lemma_boundary};
use crate::single::{Single, SINGLE_NEG_INFINITY};
use crate::vocabulary::{fits, Vocab};
use crate::weight_sets::{
    computes_power, narrowed_sets, ModelView,
};
use vstd::prelude::*;
use vstd::utf8::{encode_utf8, is_char_boundary, valid_utf8};

verus! {

/// A closure computes a function where it returns nothing but what the function gives.
pub proof fn law_computes<F: Fn(Single) -> Single>(
    closure: F,
    function: spec_fn(Single) -> Single,
)
    requires
        forall|x: Single, y: Single| #[trigger] call_ensures(closure, (x,), y) ==> y == function(x),
    ensures
        computes(closure, function),
{
}

/// A closure of two arguments computes a function where it returns nothing but what the function
/// gives.
pub proof fn law_computes_power<P: Fn(Single, Single) -> Single>(
    closure: P,
    function: spec_fn(Single, Single) -> Single,
)
    requires
        forall|x: Single, y: Single, z: Single| #[trigger]
            call_ensures(closure, (x, y), z) ==> z == function(x, y),
    ensures
        computes_power(closure, function),
{
}

/// Every edge of a prepared graph has a weight where its id is the unknown one or one of the set.
pub proof fn law_weighted(prepared: PreparedDP, w: Weighting)
    requires
        forall|s: int, k: int|
            0 <= s <= encode_utf8(prepared.text()).len() && 0 <= k < prepared.graph()[s].len() ==> (
            #[trigger] prepared.graph()[s][k]).1 == w.unk_id || prepared.graph()[s][k].1
                < w.weights.len(),
    ensures
        prepared.weighted(w),
{
}

/// A vocabulary is not too large where its ids fit in 32 bits and two more numbers follow them.
pub proof fn law_fits(vocab: Vocab)
    ensures
        fits(vocab) <==> vocab.len() <= 0x1_0000_0000 && vocab.len() + 2 <= usize::MAX,
{
}

/// A lattice takes any piece that is not empty and begins and ends between characters.
pub proof fn law_entry(bytes: Seq<u8>, entry: Entry)
    requires
        valid_utf8(bytes),
    ensures
        is_entry(bytes, entry) <==> entry.length > 0 && is_char_boundary(bytes, entry.pos)
            && is_char_boundary(bytes, entry.pos + entry.length),
        boundary(bytes, entry.pos) <==> is_char_boundary(bytes, entry.pos),
{
    lemma_boundary(bytes, entry.pos);
    lemma_boundary(bytes, entry.pos + entry.length);
}

/// Where the sentence need not be looked at, every choice is possible.
pub proof fn law_choice_is_possible_before_looking(
    m: ModelView,
    sentence: Seq<char>,
    index: int,
    given: Seq<Seq<Double>>,
)
    requires
        sentence.len() == 0 || m.encoder.unk_id is None,
    ensures
        m.can_choose(sentence, index),
        m.can_segment_by(sentence, index),
        m.can_choose_given(sentence, given),
{
}

/// A choice among given sets is possible where every one of them gives the sentence a segmentation.
pub proof fn law_given_choice_is_possible(m: ModelView, sentence: Seq<char>, given: Seq<Seq<Double>>)
    requires
        given.len() > 0,
        forall|i: int|
            0 <= i < given.len() ==> m.best_score(
                sentence,
                (#[trigger] given[i]).map_values(|weight: Double| weight.narrowed()),
            ).bits != SINGLE_NEG_INFINITY,
    ensures
        m.can_choose_given(sentence, given),
{
    let sets = narrowed_sets(given);
    let scores = m.plain_scores(sentence, sets);
    crate::ranking::law_winner_is_first_of_largest(scores);
    let i = crate::ranking::winner(scores).index;
    assert(given[i].map_values(|weight: Double| weight.narrowed()) =~= sets[i]);
}

/// A choice among cached sets is possible where every one of them gives the sentence a
/// segmentation, whatever it is made by.
pub proof fn law_cached_choice_is_possible(
    m: ModelView,
    sentence: Seq<char>,
    biases: Seq<Single>,
    powf: spec_fn(Single, Single) -> Single,
    alpha: Single,
    log_1p_exp: spec_fn(Single) -> Single,
)
    requires
        m.weight_sets is Some,
        m.weight_sets->0.len() > 0,
        forall|i: int|
            0 <= i < m.weight_sets->0.len() ==> m.best_score(
                sentence,
                #[trigger] m.weight_sets->0[i],
            ).bits != SINGLE_NEG_INFINITY,
    ensures
        m.can_choose(sentence, m.plain_index(sentence)),
        m.can_choose(sentence, m.biased_index(sentence, biases)),
        m.can_choose(sentence, m.normalized_winner(sentence, powf, alpha).index),
        m.can_choose(sentence, m.forward_winner(sentence, log_1p_exp).index),
{
    let sets = m.weight_sets->0;
    crate::ranking::law_winner_is_first_of_largest(m.plain_scores(sentence, sets));
    crate::ranking::law_winner_is_first_of_largest(m.biased_scores(sentence, sets, biases));
    crate::ranking::law_winner_is_first_of_largest(
        m.normalized_scores(sentence, sets, powf, alpha),
    );
    crate::ranking::law_winner_is_first_of_largest(m.forward_scores(sentence, sets, log_1p_exp));
}

} // verus!
