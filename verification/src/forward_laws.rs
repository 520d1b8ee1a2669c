//! What holds of log-sum-exp, and how forward scores and best scores are related.

use crate::binary_float::lemma_magnitude_small;
use crate::optimality::{is_edge, is_way, lemma_best_is_number};
use crate::prepared_dp::{
    best, best_init, best_step, forward, forward_init, forward_step, log_sum_exp, Weighting,
};
use crate::scan::{scan, Edges};
use crate::segmentation::Piece;
use crate::single::{
    is_finite_single, is_moderate, lemma_bounded_is_finite, lemma_moderate_sum,
    lemma_ordinary_sum, lemma_small_is_lost, single_format, lemma_difference_not_above_zero, lemma_exceeds_is_above,
    lemma_exceeds_order, lemma_finite_plus_small, lemma_nan_sum, lemma_neg_infinity_least,
    lemma_plus_keeps_order, lemma_plus_monotone, lemma_plus_not_below, lemma_same_value,
    lemma_zero_sums, Single, SINGLE_NEG_INFINITY, SINGLE_ONE,
};
use vstd::arithmetic::power2::pow2;
use vstd::prelude::*;

verus! {

/// On numbers up to zero the function gives numbers that are not below zero, and on what is not
/// a number, something that is not a number. So does `log(1 + exp(x))`.
pub open spec fn is_never_negative(function: spec_fn(Single) -> Single) -> bool {
    &&& forall|x: Single| x.nan() ==> (#[trigger] function(x)).nan()
    &&& forall|x: Single|
        !x.nan() && x.value() <= 0 ==> !(#[trigger] function(x)).nan() && function(x).value() >= 0
}

/// On numbers up to zero the function gives at most `most`. So does `log(1 + exp(x))`, where
/// `most` is not below `log(2)`.
pub open spec fn is_at_most(function: spec_fn(Single) -> Single, most: Single) -> bool {
    forall|x: Single|
        !x.nan() && x.value() <= 0 ==> (#[trigger] function(x)).value() <= most.value()
}

/// The larger of two numbers.
pub open spec fn larger(a: Single, b: Single) -> Single {
    if a.exceeds(b) {
        a
    } else {
        b
    }
}

/// Neither number exceeds the larger one.
pub proof fn lemma_larger(a: Single, b: Single)
    requires
        !a.nan(),
        !b.nan(),
    ensures
        !larger(a, b).nan(),
        a.value() <= larger(a, b).value(),
        b.value() <= larger(a, b).value(),
{
    lemma_exceeds_order(a, b);
}

/// What is added to the larger number is the function of a number up to zero, or not a number.
proof fn lemma_log_sum_exp_term(
    log_1p_exp: spec_fn(Single) -> Single,
    a: Single,
    b: Single,
) -> (x: Single)
    requires
        !a.nan(),
        !b.nan(),
        a.bits != SINGLE_NEG_INFINITY,
        b.bits != SINGLE_NEG_INFINITY,
    ensures
        log_sum_exp(log_1p_exp, a, b) == larger(a, b).plus(log_1p_exp(x)),
        x.nan() || x.value() <= 0,
        is_finite_single(a) && is_finite_single(b) ==> !x.nan(),
{
    lemma_exceeds_order(a, b);
    let high = larger(a, b);
    let low = if a.exceeds(b) {
        b
    } else {
        a
    };
    lemma_difference_not_above_zero(low, high);
    if is_finite_single(a) && is_finite_single(b) {
        crate::single::lemma_finite_difference(low, high);
    }
    low.plus(high.negated())
}

/// Negative infinity changes nothing in a log-sum-exp.
pub proof fn law_log_sum_exp_of_nothing(log_1p_exp: spec_fn(Single) -> Single, x: Single)
    ensures
        log_sum_exp(log_1p_exp, x, Single { bits: SINGLE_NEG_INFINITY }) == x,
        log_sum_exp(log_1p_exp, Single { bits: SINGLE_NEG_INFINITY }, x) == x,
{
}

/// The order of two numbers does not matter to their log-sum-exp, for a function that does not
/// tell the two zeros apart.
pub proof fn law_log_sum_exp_commutes(log_1p_exp: spec_fn(Single) -> Single, a: Single, b: Single)
    requires
        !a.nan(),
        !b.nan(),
        log_1p_exp(Single { bits: 0 }) == log_1p_exp(Single { bits: 0x8000_0000 }),
        log_1p_exp(Single { bits: 0 }).bits != 0x8000_0000,
    ensures
        log_sum_exp(log_1p_exp, a, b) == log_sum_exp(log_1p_exp, b, a),
{
    lemma_exceeds_order(a, b);
    lemma_exceeds_order(b, a);
    if a.value() == b.value() && a != b {
        lemma_same_value(a, b);
        lemma_zero_sums(log_1p_exp(Single { bits: 0 }));
    }
}

/// A log-sum-exp is not below either number, where it is a number: as for all finite numbers.
pub proof fn law_log_sum_exp_not_below(log_1p_exp: spec_fn(Single) -> Single, a: Single, b: Single)
    requires
        is_never_negative(log_1p_exp),
        !a.nan(),
        !b.nan(),
        !log_sum_exp(log_1p_exp, a, b).nan(),
    ensures
        a.value() <= log_sum_exp(log_1p_exp, a, b).value(),
        b.value() <= log_sum_exp(log_1p_exp, a, b).value(),
{
    lemma_neg_infinity_least(a);
    lemma_neg_infinity_least(b);
    if a.bits != SINGLE_NEG_INFINITY && b.bits != SINGLE_NEG_INFINITY {
        let x = lemma_log_sum_exp_term(log_1p_exp, a, b);
        let high = larger(a, b);
        lemma_larger(a, b);
        if x.nan() {
            assert(log_1p_exp(x).nan());
            lemma_nan_sum(high, log_1p_exp(x));
        }
        lemma_plus_not_below(high, log_1p_exp(x));
    }
}

/// A log-sum-exp is not above the sum of the larger number and the most that the function gives,
/// as that sum is rounded; where it is a number.
pub proof fn law_log_sum_exp_not_above(
    log_1p_exp: spec_fn(Single) -> Single,
    most: Single,
    a: Single,
    b: Single,
)
    requires
        is_never_negative(log_1p_exp),
        is_at_most(log_1p_exp, most),
        is_finite_single(most),
        most.value() >= 0,
        !a.nan(),
        !b.nan(),
        !log_sum_exp(log_1p_exp, a, b).nan(),
    ensures
        log_sum_exp(log_1p_exp, a, b).value() <= larger(a, b).plus(most).value(),
{
    let high = larger(a, b);
    lemma_larger(a, b);
    crate::single::lemma_finite_single_sum(high, most);
    lemma_plus_not_below(high, most);
    lemma_neg_infinity_least(a);
    lemma_neg_infinity_least(b);
    if a.bits != SINGLE_NEG_INFINITY && b.bits != SINGLE_NEG_INFINITY {
        let x = lemma_log_sum_exp_term(log_1p_exp, a, b);
        if x.nan() {
            assert(log_1p_exp(x).nan());
            lemma_nan_sum(high, log_1p_exp(x));
        }
        lemma_plus_keeps_order(high, log_1p_exp(x), most);
    }
}

/// The log-sum-exp of finite numbers is finite, of whatever size they are, for a function that
/// gives at most one.
pub proof fn law_log_sum_exp_is_finite(log_1p_exp: spec_fn(Single) -> Single, a: Single, b: Single)
    requires
        is_never_negative(log_1p_exp),
        is_at_most(log_1p_exp, Single { bits: SINGLE_ONE }),
        is_finite_single(a),
        is_finite_single(b),
    ensures
        is_finite_single(log_sum_exp(log_1p_exp, a, b)),
{
    let x = lemma_log_sum_exp_term(log_1p_exp, a, b);
    let c = log_1p_exp(x);
    assert(!c.nan() && c.value() >= 0);
    lemma_finite_plus_small(larger(a, b), c);
}

/// A log-sum-exp with something that is not a number is not a number.
pub proof fn lemma_log_sum_exp_nan(log_1p_exp: spec_fn(Single) -> Single, a: Single, b: Single)
    requires
        is_never_negative(log_1p_exp),
        a.nan() || b.nan(),
    ensures
        log_sum_exp(log_1p_exp, a, b).nan(),
{
    if a.exceeds(b) {
        lemma_exceeds_is_above(a, b);
    }
    if a.bits != SINGLE_NEG_INFINITY && b.bits != SINGLE_NEG_INFINITY {
        let low = a.plus(b.negated());
        if b.nan() {
            lemma_nan_sum(b, log_1p_exp(low));
        } else {
            lemma_nan_sum(a, b.negated());
            assert(log_1p_exp(low).nan());
            lemma_nan_sum(b, log_1p_exp(low));
        }
    }
}

proof fn lemma_forward_not_below_at(
    log_1p_exp: spec_fn(Single) -> Single,
    edges: Edges,
    w: Weighting,
    end: int,
    start: int,
    taken: int,
)
    requires
        is_never_negative(log_1p_exp),
        0 <= end,
        0 <= start,
        0 <= taken,
        !scan(edges, forward_init(), forward_step(log_1p_exp, w), end, start, taken).nan(),
    ensures
        scan(edges, best_init(), best_step(w), end, start, taken).score.value() <= scan(
            edges,
            forward_init(),
            forward_step(log_1p_exp, w),
            end,
            start,
            taken,
        ).value(),
        !scan(edges, best_init(), best_step(w), end, start, taken).score.nan(),
    decreases end, start, taken,
{
    let step = forward_step(log_1p_exp, w);
    if taken > 0 {
        let before = scan(edges, forward_init(), step, end, start, taken - 1);
        let after = scan(edges, forward_init(), step, end, start, taken);
        let known = scan(edges, best_init(), best_step(w), end, start, taken - 1);
        let now = scan(edges, best_init(), best_step(w), end, start, taken);
        let (to, id) = edges[start][taken - 1];
        if to == end && start < end {
            let source = scan(edges, forward_init(), step, start, start, 0);
            let best_source = scan(edges, best_init(), best_step(w), start, start, 0);
            let added = source.plus(w.weight(id));
            if source.nan() {
                lemma_nan_sum(source, w.weight(id));
                lemma_log_sum_exp_nan(log_1p_exp, before, added);
            }
            lemma_forward_not_below_at(log_1p_exp, edges, w, start, start, 0);
            if source.bits != SINGLE_NEG_INFINITY {
                if before.nan() || added.nan() {
                    lemma_log_sum_exp_nan(log_1p_exp, before, added);
                }
                law_log_sum_exp_not_below(log_1p_exp, before, added);
            }
            lemma_forward_not_below_at(log_1p_exp, edges, w, end, start, taken - 1);
            if now != known {
                let candidate = best_source.score.plus(w.weight(id));
                lemma_exceeds_is_above(candidate, known.score);
                lemma_neg_infinity_least(best_source.score);
                lemma_neg_infinity_least(source);
                lemma_plus_monotone(best_source.score, source, w.weight(id));
            }
        } else {
            lemma_forward_not_below_at(log_1p_exp, edges, w, end, start, taken - 1);
        }
    } else if start > 0 {
        lemma_forward_not_below_at(
            log_1p_exp,
            edges,
            w,
            end,
            start - 1,
            edges[start - 1].len() as int,
        );
    }
}

/// The forward score, which is that of all segmentations together, is not below the score of the
/// best segmentation, where it is a number.
pub proof fn law_forward_not_below_best(
    log_1p_exp: spec_fn(Single) -> Single,
    edges: Edges,
    w: Weighting,
    end: int,
)
    requires
        is_never_negative(log_1p_exp),
        0 <= end,
        !forward(log_1p_exp, edges, w, end).nan(),
    ensures
        best(edges, w, end).score.value() <= forward(log_1p_exp, edges, w, end).value(),
        !best(edges, w, end).score.exceeds(forward(log_1p_exp, edges, w, end)),
{
    lemma_forward_not_below_at(log_1p_exp, edges, w, end, end, 0);
    lemma_exceeds_order(best(edges, w, end).score, forward(log_1p_exp, edges, w, end));
}

/// Every edge has a weight of moderate size.
pub open spec fn weights_are_moderate(edges: Edges, w: Weighting) -> bool {
    forall|s: int, k: int|
        #![trigger edges[s][k]]
        0 <= s < edges.len() && 0 <= k < edges[s].len() ==> is_moderate(w.weight(edges[s][k].1))
}

/// Negative infinity, or a number between multiples of a large unit.
spec fn is_bounded(x: Single, n: int) -> bool {
    x.bits == SINGLE_NEG_INFINITY || !x.nan() && -(n * pow2(252)) <= x.value() <= n * pow2(252)
}

/// The log-sum-exp of two bounded numbers is bounded alike.
proof fn lemma_bounded_log_sum_exp(
    log_1p_exp: spec_fn(Single) -> Single,
    a: Single,
    b: Single,
    n: int,
)
    requires
        is_never_negative(log_1p_exp),
        is_at_most(log_1p_exp, Single { bits: SINGLE_ONE }),
        is_bounded(a, n),
        is_bounded(b, n),
        1 <= n <= 0x100_0000,
    ensures
        is_bounded(log_sum_exp(log_1p_exp, a, b), n),
{
    if a.bits != SINGLE_NEG_INFINITY && b.bits != SINGLE_NEG_INFINITY {
        lemma_bounded_is_finite(a, n as nat);
        lemma_bounded_is_finite(b, n as nat);
        law_log_sum_exp_is_finite(log_1p_exp, a, b);
        law_log_sum_exp_not_below(log_1p_exp, a, b);
        let x = lemma_log_sum_exp_term(log_1p_exp, a, b);
        let c = log_1p_exp(x);
        assert(!c.nan() && c.value() >= 0);
        lemma_small_is_lost(larger(a, b), c, n as nat);
    }
}

proof fn lemma_forward_is_bounded_at(
    log_1p_exp: spec_fn(Single) -> Single,
    edges: Edges,
    w: Weighting,
    end: int,
    start: int,
    taken: int,
)
    requires
        is_never_negative(log_1p_exp),
        is_at_most(log_1p_exp, Single { bits: SINGLE_ONE }),
        weights_are_moderate(edges, w),
        0 <= end <= 0x100_0000,
        0 <= start < edges.len(),
        0 <= taken <= edges[start].len(),
    ensures
        is_bounded(
            scan(edges, forward_init(), forward_step(log_1p_exp, w), end, start, taken),
            end,
        ),
    decreases end, start, taken,
{
    let step = forward_step(log_1p_exp, w);
    lemma_magnitude_small(single_format());
    if taken > 0 {
        lemma_forward_is_bounded_at(log_1p_exp, edges, w, end, start, taken - 1);
        let (to, id) = edges[start][taken - 1];
        if to == end && start < end {
            lemma_forward_is_bounded_at(log_1p_exp, edges, w, start, start, 0);
            let before = scan(edges, forward_init(), step, end, start, taken - 1);
            let source = scan(edges, forward_init(), step, start, start, 0);
            if source.bits != SINGLE_NEG_INFINITY {
                let weight = w.weight(id);
                assert(is_moderate(w.weight(edges[start][taken - 1].1)));
                lemma_bounded_is_finite(source, start as nat);
                lemma_ordinary_sum(source, weight, start as nat);
                lemma_moderate_sum(source, weight, start as nat);
                let unit = pow2(252);
                assert((start + 1) * unit <= end * unit) by (nonlinear_arith)
                    requires
                        start + 1 <= end,
                        unit >= 0,
                ;
                lemma_bounded_log_sum_exp(log_1p_exp, before, source.plus(weight), end);
            }
        }
    } else if start > 0 {
        lemma_forward_is_bounded_at(
            log_1p_exp,
            edges,
            w,
            end,
            start - 1,
            edges[start - 1].len() as int,
        );
    } else {
        assert(0 * pow2(252) == 0);
        assert(-(end * pow2(252)) <= 0 <= end * pow2(252)) by (nonlinear_arith)
            requires
                end >= 0,
                pow2(252) >= 0,
        ;
    }
}

/// Weights of moderate size give every place a forward score that is a number: so it is not below
/// the score of the best segmentation.
pub proof fn law_moderate_forward_is_number(
    log_1p_exp: spec_fn(Single) -> Single,
    edges: Edges,
    w: Weighting,
    end: int,
)
    requires
        is_never_negative(log_1p_exp),
        is_at_most(log_1p_exp, Single { bits: SINGLE_ONE }),
        weights_are_moderate(edges, w),
        0 <= end < edges.len(),
        end <= 0x100_0000,
    ensures
        !forward(log_1p_exp, edges, w, end).nan(),
        best(edges, w, end).score.value() <= forward(log_1p_exp, edges, w, end).value(),
{
    lemma_forward_is_bounded_at(log_1p_exp, edges, w, end, end, 0);
    law_forward_not_below_best(log_1p_exp, edges, w, end);
}

/// The edges from each place differ from one another.
pub open spec fn edges_are_distinct(edges: Edges) -> bool {
    forall|s: int, j: int, k: int|
        #![trigger edges[s][j], edges[s][k]]
        0 <= s < edges.len() && 0 <= j < k < edges[s].len() ==> edges[s][j] != edges[s][k]
}

/// Every edge has a finite weight.
pub open spec fn weights_are_finite(edges: Edges, w: Weighting) -> bool {
    forall|s: int, k: int|
        #![trigger edges[s][k]]
        0 <= s < edges.len() && 0 <= k < edges[s].len() ==> is_finite_single(
            w.weight(edges[s][k].1),
        )
}

/// No way leads to a place.
pub open spec fn has_no_way(edges: Edges, end: int) -> bool {
    forall|pieces: Seq<Piece>| !(#[trigger] is_way(edges, pieces, end))
}

/// The way is the only one to a place.
pub open spec fn is_only_way(edges: Edges, only: Seq<Piece>, end: int) -> bool {
    &&& is_way(edges, only, end)
    &&& forall|pieces: Seq<Piece>| #[trigger] is_way(edges, pieces, end) ==> pieces == only
}

/// A way with one more edge.
pub proof fn lemma_way_on(edges: Edges, pieces: Seq<Piece>, start: int, k: int)
    requires
        0 <= start < edges.len() <= usize::MAX,
        0 <= k < edges[start].len(),
        start < edges[start][k].0,
        is_way(edges, pieces, start),
    ensures
        is_way(
            edges,
            pieces.push(
                Piece { start: start as usize, end: edges[start][k].0, id: edges[start][k].1 },
            ),
            edges[start][k].0 as int,
        ),
{
    let last = Piece { start: start as usize, end: edges[start][k].0, id: edges[start][k].1 };
    let longer = pieces.push(last);
    assert(longer.drop_last() =~= pieces);
    assert(edges[last.start as int][k] == (last.end, last.id));
    assert(is_edge(edges, last));
}

/// Where no way leads to a place, nothing is known of it.
proof fn lemma_unreached(
    log_1p_exp: spec_fn(Single) -> Single,
    edges: Edges,
    w: Weighting,
    end: int,
    start: int,
    taken: int,
)
    requires
        edges.len() <= usize::MAX,
        0 <= end,
        0 <= start < edges.len(),
        0 <= taken <= edges[start].len(),
        has_no_way(edges, end),
    ensures
        scan(edges, best_init(), best_step(w), end, start, taken).score.bits
            == SINGLE_NEG_INFINITY,
        scan(edges, forward_init(), forward_step(log_1p_exp, w), end, start, taken).bits
            == SINGLE_NEG_INFINITY,
    decreases end, start, taken,
{
    if end == 0 {
        assert(is_way(edges, Seq::<Piece>::empty(), 0));
    }
    if taken > 0 {
        lemma_unreached(log_1p_exp, edges, w, end, start, taken - 1);
        let (to, id) = edges[start][taken - 1];
        if to == end && start < end {
            assert forall|pieces: Seq<Piece>| !(#[trigger] is_way(edges, pieces, start)) by {
                if is_way(edges, pieces, start) {
                    lemma_way_on(edges, pieces, start, taken - 1);
                }
            }
            lemma_unreached(log_1p_exp, edges, w, start, start, 0);
        }
    } else if start > 0 {
        lemma_unreached(log_1p_exp, edges, w, end, start - 1, edges[start - 1].len() as int);
    }
}

/// Nothing is known of the end of an only way before its last edge is seen; after that, what
/// that edge gives.
proof fn lemma_only_way_at(
    log_1p_exp: spec_fn(Single) -> Single,
    edges: Edges,
    w: Weighting,
    only: Seq<Piece>,
    end: int,
    place: int,
    start: int,
    taken: int,
)
    requires
        edges.len() <= usize::MAX,
        edges_are_distinct(edges),
        is_only_way(edges, only, end),
        only.len() > 0,
        0 < end < edges.len(),
        0 <= place < edges[only.last().start as int].len(),
        edges[only.last().start as int][place] == (only.last().end, only.last().id),
        0 <= start < edges.len(),
        0 <= taken <= edges[start].len(),
        best(edges, w, only.last().start as int).score == forward(
            log_1p_exp,
            edges,
            w,
            only.last().start as int,
        ),
        is_finite_single(w.weight(only.last().id)),
    ensures
        ({
            let source = only.last().start as int;
            let known = scan(edges, best_init(), best_step(w), end, start, taken).score;
            let total = scan(
                edges,
                forward_init(),
                forward_step(log_1p_exp, w),
                end,
                start,
                taken,
            );
            let seen = start > source || start == source && taken > place;
            &&& known == total
            &&& !seen ==> known.bits == SINGLE_NEG_INFINITY
        }),
    decreases start, taken,
{
    let source = only.last().start as int;
    let step = forward_step(log_1p_exp, w);
    if taken > 0 {
        lemma_only_way_at(log_1p_exp, edges, w, only, end, place, start, taken - 1);
        let (to, id) = edges[start][taken - 1];
        if to == end && start < end {
            if start == source && taken - 1 == place {
                let from = best(edges, w, source).score;
                let before = scan(edges, best_init(), best_step(w), end, start, taken - 1).score;
                lemma_best_is_number(edges, w, source);
                crate::single::lemma_finite_single_sum(from, w.weight(id));
                let sum = from.plus(w.weight(id));
                lemma_neg_infinity_least(sum);
                lemma_exceeds_order(sum, before);
                assert(before.bits == SINGLE_NEG_INFINITY);
                assert(scan(edges, forward_init(), step, source, source, 0) == from);
            } else {
                assert forall|pieces: Seq<Piece>| !(#[trigger] is_way(edges, pieces, start)) by {
                    if is_way(edges, pieces, start) {
                        lemma_way_on(edges, pieces, start, taken - 1);
                        let last = Piece { start: start as usize, end: to, id };
                        assert(pieces.push(last) == only);
                        assert(only.last() == last);
                        if taken - 1 < place {
                            assert(edges[start][taken - 1] != edges[start][place]);
                        } else {
                            assert(edges[start][place] != edges[start][taken - 1]);
                        }
                    }
                }
                lemma_unreached(log_1p_exp, edges, w, start, start, 0);
            }
        }
    } else if start > 0 {
        lemma_only_way_at(
            log_1p_exp,
            edges,
            w,
            only,
            end,
            place,
            start - 1,
            edges[start - 1].len() as int,
        );
    }
}

/// Where exactly one way leads to a place, the forward score is the best score, whatever the
/// function, for finite weights.
pub proof fn law_only_way_is_forward(
    log_1p_exp: spec_fn(Single) -> Single,
    edges: Edges,
    w: Weighting,
    only: Seq<Piece>,
    end: int,
)
    requires
        edges.len() <= usize::MAX,
        edges_are_distinct(edges),
        weights_are_finite(edges, w),
        0 <= end < edges.len(),
        is_only_way(edges, only, end),
    ensures
        forward(log_1p_exp, edges, w, end) == best(edges, w, end).score,
    decreases end,
{
    if end > 0 {
        let last = only.last();
        let source = last.start as int;
        let before = only.drop_last();
        let place = choose|k: int|
            0 <= k < edges[source].len() && #[trigger] edges[source][k] == (last.end, last.id);
        assert forall|pieces: Seq<Piece>| #[trigger] is_way(edges, pieces, source) implies pieces
            == before by {
            lemma_way_on(edges, pieces, source, place);
            assert(pieces.push(last) == only);
            assert(pieces.push(last).drop_last() =~= pieces);
        }
        assert(is_way(edges, before, source));
        law_only_way_is_forward(log_1p_exp, edges, w, before, source);
        assert(is_finite_single(w.weight(edges[source][place].1)));
        lemma_only_way_at(log_1p_exp, edges, w, only, end, place, end, 0);
    }
}

} // verus!
