//! What the best way through a graph is: a way that no other exceeds.

use crate::prepared_dp::{
    best, best_init, best_links, best_pieces, best_step, lemma_best_link, Weighting,
};
use crate::scan::{scan, Edges};
use crate::segmentation::Piece;
use crate::single::{
    is_ordinary, lemma_exceeds_is_above, lemma_exceeds_order, lemma_neg_infinity_least,
    lemma_ordinary_sum, lemma_plus_monotone, Single, SINGLE_NEG_INFINITY,
};
use vstd::arithmetic::power2::pow2;
use vstd::prelude::*;

verus! {

/// The graph has an edge for the piece.
pub open spec fn is_edge(edges: Edges, p: Piece) -> bool {
    exists|k: int| 0 <= k < edges[p.start as int].len() && #[trigger] edges[p.start as int][k] == (p.end, p.id)
}

/// The pieces are a way through the graph from the beginning to place `end`.
pub open spec fn is_way(edges: Edges, pieces: Seq<Piece>, end: int) -> bool
    decreases pieces.len(),
{
    if pieces.len() == 0 {
        end == 0
    } else {
        &&& pieces.last().end == end
        &&& pieces.last().start < end
        &&& is_edge(edges, pieces.last())
        &&& is_way(edges, pieces.drop_last(), pieces.last().start as int)
    }
}

/// The score of a way: its weights, added up from the beginning.
pub open spec fn way_score(w: Weighting, pieces: Seq<Piece>) -> Single
    decreases pieces.len(),
{
    if pieces.len() == 0 {
        Single { bits: 0 }
    } else {
        way_score(w, pieces.drop_last()).plus(w.weight(pieces.last().id))
    }
}

/// The score of the way stays a number above negative infinity.
pub open spec fn is_live(w: Weighting, pieces: Seq<Piece>) -> bool
    decreases pieces.len(),
{
    pieces.len() > 0 ==> {
        &&& is_live(w, pieces.drop_last())
        &&& !way_score(w, pieces).nan()
        &&& way_score(w, pieces).bits != SINGLE_NEG_INFINITY
    }
}

/// Best scores are never NaN, and do not fall as more edges are seen.
proof fn lemma_scan_grows(edges: Edges, w: Weighting, end: int, start: int, taken: int)
    requires
        0 <= end,
        0 <= start,
        0 <= taken,
    ensures
        ({
            let known = scan(edges, best_init(), best_step(w), end, start, taken);
            &&& !known.score.nan()
            &&& taken > 0 ==> scan(
                edges,
                best_init(),
                best_step(w),
                end,
                start,
                taken - 1,
            ).score.value() <= known.score.value()
        }),
    decreases start, taken,
{
    if taken > 0 {
        lemma_scan_grows(edges, w, end, start, taken - 1);
        let before = scan(edges, best_init(), best_step(w), end, start, taken - 1);
        let known = scan(edges, best_init(), best_step(w), end, start, taken);
        if known != before {
            lemma_exceeds_is_above(known.score, before.score);
        }
    } else if start > 0 {
        lemma_scan_grows(edges, w, end, start - 1, edges[start - 1].len() as int);
    }
}

/// A later stage of the scan knows at least as good a way.
proof fn lemma_scan_keeps(
    edges: Edges,
    w: Weighting,
    end: int,
    start: int,
    taken: int,
    later_start: int,
    later_taken: int,
)
    requires
        0 <= end,
        0 <= start <= later_start < edges.len(),
        0 <= taken <= edges[start].len(),
        0 <= later_taken,
        start == later_start ==> taken <= later_taken,
    ensures
        scan(edges, best_init(), best_step(w), end, start, taken).score.value() <= scan(
            edges,
            best_init(),
            best_step(w),
            end,
            later_start,
            later_taken,
        ).score.value(),
    decreases later_start, later_taken,
{
    if start == later_start && taken == later_taken {
    } else if later_taken > 0 {
        lemma_scan_keeps(edges, w, end, start, taken, later_start, later_taken - 1);
        lemma_scan_grows(edges, w, end, later_start, later_taken);
    } else {
        lemma_scan_keeps(
            edges,
            w,
            end,
            start,
            taken,
            later_start - 1,
            edges[later_start - 1].len() as int,
        );
    }
}

/// Best scores are never NaN.
pub proof fn lemma_best_is_number(edges: Edges, w: Weighting, end: int)
    requires
        0 <= end,
    ensures
        !best(edges, w, end).score.nan(),
{
    lemma_scan_grows(edges, w, end, end, 0);
}

/// No way exceeds the best: wherever a way leads to a place with a score above negative
/// infinity, the best score of that place is at least as large.
pub proof fn law_best_is_maximal(edges: Edges, w: Weighting, pieces: Seq<Piece>, end: int)
    requires
        0 <= end < edges.len(),
        is_way(edges, pieces, end),
        is_live(w, pieces),
    ensures
        best(edges, w, end).score.bits != SINGLE_NEG_INFINITY,
        way_score(w, pieces).value() <= best(edges, w, end).score.value(),
        !way_score(w, pieces).exceeds(best(edges, w, end).score),
    decreases pieces.len(),
{
    lemma_best_is_number(edges, w, end);
    if pieces.len() > 0 {
        let last = pieces.last();
        let start = last.start as int;
        law_best_is_maximal(edges, w, pieces.drop_last(), start);
        lemma_best_is_number(edges, w, start);
        let k = choose|k: int|
            0 <= k < edges[start].len() && #[trigger] edges[start][k] == (last.end, last.id);
        let source = best(edges, w, start);
        let before = scan(edges, best_init(), best_step(w), end, start, k);
        let after = scan(edges, best_init(), best_step(w), end, start, k + 1);
        let weight = w.weight(last.id);
        let candidate = source.score.plus(weight);
        reveal_with_fuel(is_live, 2);
        lemma_plus_monotone(way_score(w, pieces.drop_last()), source.score, weight);
        lemma_scan_grows(edges, w, end, start, k);
        lemma_exceeds_order(candidate, before.score);
        assert(source == scan(edges, best_init(), best_step(w), start, start, 0));
        assert(candidate.value() <= after.score.value());
        lemma_scan_keeps(edges, w, end, start, k + 1, end, 0);
        lemma_neg_infinity_least(candidate);
    }
    if !way_score(w, pieces).nan() {
        lemma_exceeds_order(way_score(w, pieces), best(edges, w, end).score);
    }
}

/// The best score is attained: where the best score of a place is above negative infinity, the
/// best segmentation is a way to that place with exactly that score, and with as many edges
/// as were counted.
pub proof fn law_best_is_attained(edges: Edges, w: Weighting, end: int)
    requires
        0 <= end < edges.len(),
        edges.len() <= usize::MAX,
        best(edges, w, end).score.bits != SINGLE_NEG_INFINITY,
    ensures
        is_way(edges, best_pieces(edges, w, end), end),
        is_live(w, best_pieces(edges, w, end)),
        way_score(w, best_pieces(edges, w, end)) == best(edges, w, end).score,
        best_pieces(edges, w, end).len() == best(edges, w, end).count,
    decreases end,
{
    let pieces = best_pieces(edges, w, end);
    if end > 0 {
        lemma_best_link(edges, w, end);
        let known = best(edges, w, end);
        law_best_is_attained(edges, w, known.start);
        lemma_best_is_number(edges, w, end);
        let last = Piece { start: known.start as usize, end: end as usize, id: known.id };
        assert(best_links(edges, w)(end) == (known.start, known.id));
        assert(pieces == best_pieces(edges, w, known.start).push(last));
        assert(pieces.drop_last() =~= best_pieces(edges, w, known.start));
        assert(pieces.last() == last);
        let k = choose|k: int|
            0 <= k < edges[known.start].len() && #[trigger] edges[known.start][k] == (
                end as usize,
                known.id,
            );
        assert(edges[last.start as int][k] == (last.end, last.id));
    }
}

/// Every edge has a weight that is a number at or above a certain bound.
pub open spec fn weights_are_ordinary(edges: Edges, w: Weighting) -> bool {
    forall|s: int, k: int|
        #![trigger edges[s][k]]
        0 <= s < edges.len() && 0 <= k < edges[s].len() ==> is_ordinary(w.weight(edges[s][k].1))
}

/// A way of ordinary weights that is not too long has a score above negative infinity all along.
pub proof fn law_ordinary_way_is_live(edges: Edges, w: Weighting, pieces: Seq<Piece>, end: int)
    requires
        0 <= end < edges.len(),
        end <= 0x100_0000,
        is_way(edges, pieces, end),
        weights_are_ordinary(edges, w),
    ensures
        is_live(w, pieces),
        pieces.len() <= end,
        !way_score(w, pieces).nan(),
        way_score(w, pieces).value() >= -((pieces.len() * pow2(252)) as int),
    decreases pieces.len(),
{
    if pieces.len() > 0 {
        let last = pieces.last();
        let before = pieces.drop_last();
        let start = last.start as int;
        law_ordinary_way_is_live(edges, w, before, start);
        let k = choose|k: int|
            0 <= k < edges[start].len() && #[trigger] edges[start][k] == (last.end, last.id);
        assert(is_ordinary(w.weight(edges[start][k].1)));
        lemma_ordinary_sum(way_score(w, before), w.weight(last.id), before.len());
        assert(before.len() + 1 == pieces.len());
    } else {
        crate::binary_float::lemma_magnitude_small(crate::single::single_format());
        assert(0 * pow2(252) == 0);
    }
}

} // verus!
