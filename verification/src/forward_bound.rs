//! How far a forward score can lie above the best score.

use crate::forward_laws::{
    is_at_most, is_never_negative, larger, lemma_larger, lemma_log_sum_exp_nan, lemma_way_on,
    law_log_sum_exp_not_above, weights_are_finite,
};
use crate::optimality::{is_live, is_way, law_best_is_maximal, lemma_best_is_number, way_score};
use crate::prepared_dp::{best, forward, forward_init, forward_step, Weighting};
use crate::scan::{scan, Edges};
use crate::segmentation::Piece;
use crate::single::{
    is_finite_single, lemma_exceeds_is_above, lemma_exceeds_order, lemma_sum_error,
    lemma_finite_single_sum, lemma_nan_sum, lemma_plus_commutes, lemma_plus_keeps_order,
    lemma_plus_not_below, Single, SINGLE_NEG_INFINITY,
};
use vstd::arithmetic::power2::{lemma_pow2_pos, pow2};
use vstd::prelude::*;

verus! {

pub open spec fn counting() -> spec_fn(nat, nat, int, usize) -> nat {
    |count: nat, source: nat, start: int, id: usize| count + 1
}

pub open spec fn from_zero() -> spec_fn(int) -> nat {
    |end: int| 0nat
}

/// How many edges lead to a place, of those from places before `start` and the first `taken` from
/// `start`.
pub open spec fn incoming(edges: Edges, end: int, start: int, taken: int) -> nat {
    scan(edges, from_zero(), counting(), end, start, taken)
}

/// How often scores are joined at a place: once for each edge that leads to it but the first.
pub open spec fn joins(edges: Edges, end: int) -> nat {
    if incoming(edges, end, end, 0) == 0 {
        0
    } else {
        (incoming(edges, end, end, 0) - 1) as nat
    }
}

/// A number with another added `n` times, each sum rounded.
pub open spec fn raised(x: Single, most: Single, n: nat) -> Single
    decreases n,
{
    if n == 0 {
        x
    } else {
        raised(x, most, (n - 1) as nat).plus(most)
    }
}

/// The score of a way to which `most` is added at each place once for each joining of scores
/// there, each sum rounded.
pub open spec fn raised_score(edges: Edges, w: Weighting, most: Single, pieces: Seq<Piece>) -> Single
    decreases pieces.len(),
{
    if pieces.len() == 0 {
        Single { bits: 0 }
    } else {
        raised(
            raised_score(edges, w, most, pieces.drop_last()).plus(w.weight(pieces.last().id)),
            most,
            joins(edges, pieces.last().end as int),
        )
    }
}

/// Raising a number more often gives no less.
proof fn lemma_raised_more(x: Single, most: Single, n: nat, more: nat)
    requires
        !x.nan(),
        is_finite_single(most),
        most.value() >= 0,
        n <= more,
    ensures
        !raised(x, most, n).nan(),
        !raised(x, most, more).nan(),
        raised(x, most, n).value() <= raised(x, most, more).value(),
    decreases more,
{
    if more > 0 {
        if n < more {
            lemma_raised_more(x, most, n, (more - 1) as nat);
        } else {
            lemma_raised_more(x, most, (more - 1) as nat, (more - 1) as nat);
        }
        let before = raised(x, most, (more - 1) as nat);
        lemma_finite_single_sum(before, most);
        lemma_plus_not_below(before, most);
    }
}

/// Raised scores of ways of finite weights are numbers.
proof fn lemma_raised_is_number(edges: Edges, w: Weighting, most: Single, pieces: Seq<Piece>, end: int)
    requires
        is_way(edges, pieces, end),
        0 <= end < edges.len(),
        weights_are_finite(edges, w),
        is_finite_single(most),
        most.value() >= 0,
    ensures
        !raised_score(edges, w, most, pieces).nan(),
    decreases pieces.len(),
{
    if pieces.len() > 0 {
        let last = pieces.last();
        let start = last.start as int;
        let before = pieces.drop_last();
        lemma_raised_is_number(edges, w, most, before, start);
        let k = choose|k: int|
            0 <= k < edges[start].len() && #[trigger] edges[start][k] == (last.end, last.id);
        assert(is_finite_single(w.weight(edges[start][k].1)));
        let score = raised_score(edges, w, most, before);
        lemma_finite_single_sum(score, w.weight(last.id));
        lemma_raised_more(
            score.plus(w.weight(last.id)),
            most,
            joins(edges, last.end as int),
            joins(edges, last.end as int),
        );
    }
}

/// The score of a way before anything is added at its end.
spec fn arriving(edges: Edges, w: Weighting, most: Single, pieces: Seq<Piece>) -> Single {
    raised_score(edges, w, most, pieces.drop_last()).plus(w.weight(pieces.last().id))
}

/// What is known of a place is not above the score of some way to it, raised once for each edge
/// to it that has been seen but the first.
spec fn is_covered(edges: Edges, w: Weighting, most: Single, end: int, seen: nat, known: Single) -> bool {
    known.bits == SINGLE_NEG_INFINITY || seen > 0 && exists|pieces: Seq<Piece>| #[trigger]
        is_way(edges, pieces, end) && pieces.len() > 0 && !arriving(edges, w, most, pieces).nan()
            && known.value() <= raised(
            arriving(edges, w, most, pieces),
            most,
            (seen - 1) as nat,
        ).value()
}

proof fn lemma_covered_at(
    log_1p_exp: spec_fn(Single) -> Single,
    most: Single,
    edges: Edges,
    w: Weighting,
    end: int,
    start: int,
    taken: int,
)
    requires
        is_never_negative(log_1p_exp),
        is_at_most(log_1p_exp, most),
        is_finite_single(most),
        most.value() >= 0,
        edges.len() <= usize::MAX,
        weights_are_finite(edges, w),
        0 < end < edges.len(),
        0 <= start < edges.len(),
        0 <= taken <= edges[start].len(),
        !scan(edges, forward_init(), forward_step(log_1p_exp, w), end, start, taken).nan(),
    ensures
        is_covered(
            edges,
            w,
            most,
            end,
            incoming(edges, end, start, taken),
            scan(edges, forward_init(), forward_step(log_1p_exp, w), end, start, taken),
        ),
    decreases end, start, taken,
{
    let step = forward_step(log_1p_exp, w);
    let now = scan(edges, forward_init(), step, end, start, taken);
    if taken > 0 {
        let before = scan(edges, forward_init(), step, end, start, taken - 1);
        let (to, id) = edges[start][taken - 1];
        let seen = incoming(edges, end, start, taken - 1);
        if to == end && start < end {
            let source = scan(edges, forward_init(), step, start, start, 0);
            let weight = w.weight(id);
            let added = source.plus(weight);
            assert(incoming(edges, end, start, taken) == seen + 1);
            assert(is_finite_single(w.weight(edges[start][taken - 1].1)));
            if source.bits == SINGLE_NEG_INFINITY {
                assert(now == before);
                lemma_covered_at(log_1p_exp, most, edges, w, end, start, taken - 1);
                lemma_covered_more(edges, w, most, end, seen, before);
            } else {
                if source.nan() {
                    lemma_nan_sum(source, weight);
                }
                if before.nan() || added.nan() {
                    lemma_log_sum_exp_nan(log_1p_exp, before, added);
                }
                lemma_covered_at(log_1p_exp, most, edges, w, end, start, taken - 1);
                let way = lemma_covered_source(log_1p_exp, most, edges, w, start);
                lemma_raised_is_number(edges, w, most, way, start);
                lemma_way_on(edges, way, start, taken - 1);
                let last = Piece { start: start as usize, end: to, id };
                let longer = way.push(last);
                assert(longer.drop_last() =~= way);
                let raised_source = raised_score(edges, w, most, way);
                let reached = arriving(edges, w, most, longer);
                lemma_finite_single_sum(raised_source, weight);
                lemma_plus_commutes(weight, source);
                lemma_plus_commutes(weight, raised_source);
                lemma_plus_keeps_order(weight, source, raised_source);
                assert(added.value() <= reached.value());
                lemma_raised_more(reached, most, 0, seen);
                if before.bits == SINGLE_NEG_INFINITY {
                    assert(now == added);
                    assert(is_way(edges, longer, end));
                } else if added.bits == SINGLE_NEG_INFINITY {
                    assert(now == before);
                    lemma_covered_more(edges, w, most, end, seen, before);
                } else {
                    law_log_sum_exp_not_above(log_1p_exp, most, before, added);
                    let high = larger(before, added);
                    lemma_larger(before, added);
                    lemma_finite_single_sum(high, most);
                    lemma_plus_commutes(most, high);
                    if high == added {
                        lemma_raised_more(reached, most, 1, seen);
                        assert(raised(reached, most, 0) == reached);
                        assert(raised(reached, most, 1) == reached.plus(most));
                        lemma_finite_single_sum(reached, most);
                        lemma_plus_commutes(most, reached);
                        lemma_plus_keeps_order(most, added, reached);
                        assert(is_way(edges, longer, end));
                    } else {
                        let pieces = choose|pieces: Seq<Piece>| #[trigger]
                            is_way(edges, pieces, end) && pieces.len() > 0 && !arriving(
                                edges,
                                w,
                                most,
                                pieces,
                            ).nan() && before.value() <= raised(
                                arriving(edges, w, most, pieces),
                                most,
                                (seen - 1) as nat,
                            ).value();
                        let other = arriving(edges, w, most, pieces);
                        let known = raised(other, most, (seen - 1) as nat);
                        lemma_raised_more(other, most, (seen - 1) as nat, seen);
                        lemma_finite_single_sum(known, most);
                        lemma_plus_commutes(most, known);
                        lemma_plus_keeps_order(most, before, known);
                        assert(raised(other, most, seen) == known.plus(most));
                    }
                }
            }
        } else {
            lemma_covered_at(log_1p_exp, most, edges, w, end, start, taken - 1);
        }
    } else if start > 0 {
        lemma_covered_at(
            log_1p_exp,
            most,
            edges,
            w,
            end,
            start - 1,
            edges[start - 1].len() as int,
        );
    }
}

/// One more edge covers no less.
proof fn lemma_covered_more(edges: Edges, w: Weighting, most: Single, end: int, seen: nat, known: Single)
    requires
        is_covered(edges, w, most, end, seen, known),
        is_finite_single(most),
        most.value() >= 0,
    ensures
        is_covered(edges, w, most, end, seen + 1, known),
{
    if known.bits != SINGLE_NEG_INFINITY {
        let pieces = choose|pieces: Seq<Piece>| #[trigger]
            is_way(edges, pieces, end) && pieces.len() > 0 && !arriving(
                edges,
                w,
                most,
                pieces,
            ).nan() && known.value() <= raised(
                arriving(edges, w, most, pieces),
                most,
                (seen - 1) as nat,
            ).value();
        lemma_raised_more(arriving(edges, w, most, pieces), most, (seen - 1) as nat, seen);
    }
}

/// The forward score of a place is not above the raised score of some way to it.
proof fn lemma_covered_source(
    log_1p_exp: spec_fn(Single) -> Single,
    most: Single,
    edges: Edges,
    w: Weighting,
    end: int,
) -> (way: Seq<Piece>)
    requires
        is_never_negative(log_1p_exp),
        is_at_most(log_1p_exp, most),
        is_finite_single(most),
        most.value() >= 0,
        edges.len() <= usize::MAX,
        weights_are_finite(edges, w),
        0 <= end < edges.len(),
        !forward(log_1p_exp, edges, w, end).nan(),
        forward(log_1p_exp, edges, w, end).bits != SINGLE_NEG_INFINITY,
    ensures
        is_way(edges, way, end),
        forward(log_1p_exp, edges, w, end).value() <= raised_score(edges, w, most, way).value(),
    decreases end, usize::MAX + 1, 0int,
{
    if end == 0 {
        Seq::<Piece>::empty()
    } else {
        lemma_covered_at(log_1p_exp, most, edges, w, end, end, 0);
        let known = forward(log_1p_exp, edges, w, end);
        let seen = incoming(edges, end, end, 0);
        choose|pieces: Seq<Piece>| #[trigger]
            is_way(edges, pieces, end) && pieces.len() > 0 && !arriving(
                edges,
                w,
                most,
                pieces,
            ).nan() && known.value() <= raised(
                arriving(edges, w, most, pieces),
                most,
                (seen - 1) as nat,
            ).value()
    }
}

/// No way of finite weights has a score above the best.
pub proof fn lemma_finite_way_not_above_best(edges: Edges, w: Weighting, pieces: Seq<Piece>, end: int)
    requires
        0 <= end < edges.len(),
        is_way(edges, pieces, end),
        weights_are_finite(edges, w),
    ensures
        !way_score(w, pieces).exceeds(best(edges, w, end).score),
        !way_score(w, pieces).nan(),
        is_live(w, pieces) || way_score(w, pieces).bits == SINGLE_NEG_INFINITY,
    decreases pieces.len(),
{
    if pieces.len() > 0 {
        let last = pieces.last();
        let start = last.start as int;
        let before = pieces.drop_last();
        lemma_finite_way_not_above_best(edges, w, before, start);
        let k = choose|k: int|
            0 <= k < edges[start].len() && #[trigger] edges[start][k] == (last.end, last.id);
        assert(is_finite_single(w.weight(edges[start][k].1)));
        lemma_finite_single_sum(way_score(w, before), w.weight(last.id));
        if way_score(w, before).bits == SINGLE_NEG_INFINITY {
            crate::single::lemma_neg_infinity_absorbs(w.weight(last.id));
        }
    }
    if is_live(w, pieces) {
        law_best_is_maximal(edges, w, pieces, end);
    } else {
        if way_score(w, pieces).exceeds(best(edges, w, end).score) {
            lemma_exceeds_is_above(way_score(w, pieces), best(edges, w, end).score);
        }
    }
}

/// A forward score is not above the score of some way, and so not above the best score, but for
/// the most that the function gives, added once for each joining of scores on that way, each sum
/// rounded. It is left out where the forward score is not a number.
pub proof fn law_forward_not_above_raised(
    log_1p_exp: spec_fn(Single) -> Single,
    most: Single,
    edges: Edges,
    w: Weighting,
    end: int,
) -> (way: Seq<Piece>)
    requires
        is_never_negative(log_1p_exp),
        is_at_most(log_1p_exp, most),
        is_finite_single(most),
        most.value() >= 0,
        edges.len() <= usize::MAX,
        weights_are_finite(edges, w),
        0 <= end < edges.len(),
        !forward(log_1p_exp, edges, w, end).nan(),
        forward(log_1p_exp, edges, w, end).bits != SINGLE_NEG_INFINITY,
    ensures
        is_way(edges, way, end),
        !way_score(w, way).exceeds(best(edges, w, end).score),
        forward(log_1p_exp, edges, w, end).value() <= raised_score(edges, w, most, way).value(),
{
    let way = lemma_covered_source(log_1p_exp, most, edges, w, end);
    lemma_finite_way_not_above_best(edges, w, way, end);
    way
}

/// How often scores are joined at the ends of pieces.
pub open spec fn joins_along(edges: Edges, pieces: Seq<Piece>) -> nat
    decreases pieces.len(),
{
    if pieces.len() == 0 {
        0
    } else {
        joins_along(edges, pieces.drop_last()) + joins(edges, pieces.last().end as int)
    }
}

/// How often scores are joined at all places up to `end`.
pub open spec fn joins_up_to(edges: Edges, end: int) -> nat
    decreases end,
{
    if end <= 0 {
        0
    } else {
        joins_up_to(edges, end - 1) + joins(edges, end)
    }
}

/// Every edge has a finite weight whose size is at most `size`, in units of the least positive
/// number.
pub open spec fn weights_are_within(edges: Edges, w: Weighting, size: nat) -> bool {
    forall|s: int, k: int|
        #![trigger edges[s][k]]
        0 <= s < edges.len() && 0 <= k < edges[s].len() ==> is_finite_single(
            w.weight(edges[s][k].1),
        ) && -(size as int) <= w.weight(edges[s][k].1).value() <= size
}

proof fn lemma_joins_grow(edges: Edges, low: int, high: int)
    requires
        0 <= low <= high,
    ensures
        joins_up_to(edges, low) <= joins_up_to(edges, high),
    decreases high,
{
    if low < high {
        lemma_joins_grow(edges, low, high - 1);
    }
}

/// A way has no more pieces than bytes, and no more joins on it than there are.
proof fn lemma_way_counts(edges: Edges, pieces: Seq<Piece>, end: int)
    requires
        is_way(edges, pieces, end),
        0 <= end,
    ensures
        pieces.len() <= end,
        joins_along(edges, pieces) <= joins_up_to(edges, end),
    decreases pieces.len(),
{
    if pieces.len() > 0 {
        let start = pieces.last().start as int;
        lemma_way_counts(edges, pieces.drop_last(), start);
        lemma_joins_grow(edges, start, end - 1);
    }
}

/// What raising a number adds to it, and by how much the sums err.
proof fn lemma_raised_error(x: Single, most: Single, n: nat, size: int, h: nat)
    requires
        is_finite_single(x),
        is_finite_single(most),
        most.value() >= 0,
        -size <= x.value() <= size,
        size + n * (most.value() + pow2(h)) <= pow2(24 + h),
        h <= 252,
    ensures
        is_finite_single(raised(x, most, n)),
        -(size + n * (most.value() + pow2(h))) <= raised(x, most, n).value() <= size + n * (
        most.value() + pow2(h)),
        raised(x, most, n).value() <= x.value() + n * (most.value() + pow2(h)),
    decreases n,
{
    let one = most.value() + pow2(h);
    lemma_pow2_pos(h);
    if n > 0 {
        assert((n - 1) * one + one == n * one) by (nonlinear_arith);
        lemma_raised_error(x, most, (n - 1) as nat, size, h);
        lemma_sum_error(raised(x, most, (n - 1) as nat), most, h);
    } else {
        assert(0 * one == 0);
    }
}

/// How far the raised score of a way lies above its score.
proof fn lemma_raised_score_error(
    edges: Edges,
    w: Weighting,
    most: Single,
    pieces: Seq<Piece>,
    end: int,
    size: nat,
    h: nat,
)
    requires
        is_way(edges, pieces, end),
        0 <= end < edges.len(),
        weights_are_within(edges, w, size),
        is_finite_single(most),
        most.value() >= 0,
        h <= 252,
        pieces.len() * (size + pow2(h)) + joins_along(edges, pieces) * (most.value() + pow2(h))
            <= pow2(24 + h),
    ensures
        ({
            let n = pieces.len() as int;
            let j = joins_along(edges, pieces) as int;
            let r = pow2(h) as int;
            let score = way_score(w, pieces);
            let high = raised_score(edges, w, most, pieces);
            let bound = n * (size + r) + j * (most.value() + r);
            &&& is_finite_single(score)
            &&& is_finite_single(high)
            &&& -(n * (size + r)) <= score.value() <= n * (size + r)
            &&& -bound <= high.value() <= bound
            &&& high.value() <= score.value() + j * (most.value() + r) + 2 * n * r
        }),
    decreases pieces.len(),
{
    let r = pow2(h) as int;
    let m = most.value();
    lemma_pow2_pos(h);
    if pieces.len() > 0 {
        let last = pieces.last();
        let start = last.start as int;
        let before = pieces.drop_last();
        let n = before.len() as int;
        let j = joins_along(edges, before) as int;
        let here = joins(edges, last.end as int);
        let one = size + r;
        let two = m + r;
        assert((n + 1) * one == n * one + one) by (nonlinear_arith);
        assert((j + here) * two == j * two + here * two) by (nonlinear_arith);
        assert(here * two >= 0) by (nonlinear_arith)
            requires
                here >= 0,
                two >= 0,
        ;
        assert(j * two >= 0) by (nonlinear_arith)
            requires
                j >= 0,
                two >= 0,
        ;
        assert(2 * (n + 1) * r == 2 * n * r + 2 * r) by (nonlinear_arith);
        lemma_raised_score_error(edges, w, most, before, start, size, h);
        let k = choose|k: int|
            0 <= k < edges[start].len() && #[trigger] edges[start][k] == (last.end, last.id);
        assert(is_finite_single(w.weight(edges[start][k].1)));
        let weight = w.weight(last.id);
        lemma_sum_error(way_score(w, before), weight, h);
        lemma_sum_error(raised_score(edges, w, most, before), weight, h);
        let arrived = raised_score(edges, w, most, before).plus(weight);
        let reach = (n + 1) * one + j * two;
        lemma_raised_error(arrived, most, here, reach, h);
    } else {
        assert(0 * (size + r) == 0);
        assert(0 * (m + r) == 0);
        assert(2 * 0 * r == 0) by (nonlinear_arith);
        crate::binary_float::lemma_magnitude_small(crate::single::single_format());
    }
}

/// A forward score lies above the best score by at most this much, in units of the least positive
/// number: for each joining of scores on some way, the most that the function gives; and for each
/// joining, and twice for each piece of that way, the error of a rounded sum. All scores have to
/// be of a size at which sums err by no more than the `h`-th power of two. It is left out where
/// there is no way of a score above negative infinity.
pub proof fn law_forward_near_best(
    log_1p_exp: spec_fn(Single) -> Single,
    most: Single,
    edges: Edges,
    w: Weighting,
    end: int,
    size: nat,
    h: nat,
) -> (way: Seq<Piece>)
    requires
        is_never_negative(log_1p_exp),
        is_at_most(log_1p_exp, most),
        is_finite_single(most),
        most.value() >= 0,
        edges.len() <= usize::MAX,
        weights_are_within(edges, w, size),
        0 <= end < edges.len(),
        h <= 252,
        end * (size + pow2(h)) + joins_up_to(edges, end) * (most.value() + pow2(h)) <= pow2(
            24 + h,
        ),
        !forward(log_1p_exp, edges, w, end).nan(),
        forward(log_1p_exp, edges, w, end).bits != SINGLE_NEG_INFINITY,
    ensures
        is_way(edges, way, end),
        forward(log_1p_exp, edges, w, end).value() <= best(edges, w, end).score.value()
            + joins_along(edges, way) * (most.value() + pow2(h)) + 2 * way.len() * pow2(h),
{
    assert forall|s: int, k: int|
        #![trigger edges[s][k]]
        0 <= s < edges.len() && 0 <= k < edges[s].len() implies is_finite_single(
        w.weight(edges[s][k].1),
    ) by {}
    let way = law_forward_not_above_raised(log_1p_exp, most, edges, w, end);
    lemma_way_counts(edges, way, end);
    let one = size + pow2(h);
    let two = most.value() + pow2(h);
    let n = way.len() as int;
    let j = joins_along(edges, way) as int;
    let all = joins_up_to(edges, end) as int;
    assert(n * one <= end * one) by (nonlinear_arith)
        requires
            n <= end,
            one >= 0,
    ;
    assert(j * two <= all * two) by (nonlinear_arith)
        requires
            j <= all,
            two >= 0,
    ;
    lemma_raised_score_error(edges, w, most, way, end, size, h);
    lemma_best_is_number(edges, w, end);
    lemma_exceeds_order(way_score(w, way), best(edges, w, end).score);
    way
}

} // verus!
