//! The best way through a lattice has the largest score.

use crate::double::{
    is_finite, lemma_finite_sum, lemma_double_exceeds_order, lemma_double_plus_commutes, lemma_double_plus_monotone, Double,
};
use crate::encoding::Encoder;
use crate::error::UnigramError;
use crate::lattice::{
    backtrace_score, before, best_nodes, blocked, is_lattice, left, left_among, lemma_before,
    lemma_ends, lemma_unblocked_left, pieces_of, way_to, Entry,
};
use crate::lattice_encoding::{lemma_lattice, lemma_never_blocked, unoptimized};
use crate::segmentation::tokens_of;
use vstd::prelude::*;
use vstd::utf8::{encode_utf8, encode_utf8_valid_utf8, valid_utf8};

verus! {

/// The nodes follow one another from the beginning of the sentence and lead to node `n`, the
/// last of them; without the first node of the lattice.
pub open spec fn is_lattice_way(entries: Seq<Entry>, nodes: Seq<usize>, n: int) -> bool
    decreases nodes.len(),
{
    &&& nodes.len() > 0
    &&& nodes.last() == n
    &&& 1 <= n < entries.len()
    &&& if nodes.len() == 1 {
        entries[n].pos == 0
    } else {
        let l = nodes[nodes.len() - 2] as int;
        &&& 2 <= l
        &&& is_lattice_way(entries, nodes.drop_last(), l)
        &&& entries[l].end() == entries[n].pos
    }
}

/// The score of nodes: their scores, added up from the beginning.
pub open spec fn lattice_score(entries: Seq<Entry>, nodes: Seq<usize>) -> Double
    decreases nodes.len(),
{
    if nodes.len() == 0 {
        Double { bits: 0 }
    } else {
        lattice_score(entries, nodes.drop_last()).plus(entries[nodes.last() as int].score)
    }
}

/// No way has a score that is not a number.
pub open spec fn lattice_scores_are_numbers(entries: Seq<Entry>) -> bool {
    forall|nodes: Seq<usize>, n: int| #[trigger]
        is_lattice_way(entries, nodes, n) ==> !lattice_score(entries, nodes).nan()
}

/// The score at the end of a node; the first node's is zero.
spec fn reached(entries: Seq<Entry>, l: int) -> Double {
    if l == 0 {
        Double { bits: 0 }
    } else {
        backtrace_score(entries, l)
    }
}

/// A chosen node gives the score that it was chosen for.
proof fn lemma_choice_score(bytes: Seq<u8>, entries: Seq<Entry>, n: int, taken: int)
    requires
        is_lattice(bytes, entries),
        1 <= n < entries.len(),
        0 <= taken <= before(entries, n).len(),
    ensures
        left_among(entries, n, taken) matches Some(choice) ==> choice.score == reached(
            entries,
            choice.node,
        ).plus(entries[n].score),
    decreases taken,
{
    if taken > 0 {
        lemma_choice_score(bytes, entries, n, taken - 1);
    }
}

/// The best way to a node has the score computed for it.
pub proof fn law_lattice_way_is_attained(bytes: Seq<u8>, entries: Seq<Entry>, n: int)
    requires
        valid_utf8(bytes),
        is_lattice(bytes, entries),
        !blocked(bytes, entries),
        1 <= n < entries.len(),
    ensures
        is_lattice_way(entries, way_to(entries, n), n),
        lattice_score(entries, way_to(entries, n)) == backtrace_score(entries, n),
    decreases entries[n].pos,
{
    lemma_before(bytes, entries, n);
    lemma_unblocked_left(bytes, entries, n);
    lemma_choice_score(bytes, entries, n, before(entries, n).len() as int);
    let l = left(entries, n)->0.node;
    let way = way_to(entries, n);
    if l == 0 {
        assert(way == Seq::<usize>::empty().push(n as usize));
        assert(way.drop_last() =~= Seq::<usize>::empty());
        assert(lattice_score(entries, way.drop_last()) == reached(entries, 0));
    } else {
        law_lattice_way_is_attained(bytes, entries, l);
        let earlier = way_to(entries, l);
        assert(way == earlier.push(n as usize));
        assert(way.drop_last() =~= earlier);
        assert(way[way.len() - 2] == earlier.last());
    }
}

/// The score of a node after one that ends where it begins is a number.
proof fn lemma_lattice_candidate(bytes: Seq<u8>, entries: Seq<Entry>, n: int, k: int)
    requires
        valid_utf8(bytes),
        is_lattice(bytes, entries),
        !blocked(bytes, entries),
        lattice_scores_are_numbers(entries),
        1 <= n < entries.len(),
        0 <= k < before(entries, n).len(),
    ensures
        !reached(entries, before(entries, n)[k] as int).plus(entries[n].score).nan(),
{
    lemma_before(bytes, entries, n);
    let l = before(entries, n)[k] as int;
    let earlier = if l == 0 {
        Seq::<usize>::empty()
    } else {
        law_lattice_way_is_attained(bytes, entries, l);
        way_to(entries, l)
    };
    let way = earlier.push(n as usize);
    assert(way.drop_last() =~= earlier);
    if l != 0 {
        assert(way[way.len() - 2] == earlier.last());
    }
    assert(lattice_score(entries, earlier) == reached(entries, l));
    assert(is_lattice_way(entries, way, n));
    assert(lattice_score(entries, way) == reached(entries, l).plus(entries[n].score));
}

/// What is chosen after more nodes have been seen is at least as good as each of them.
proof fn lemma_choice_is_largest(bytes: Seq<u8>, entries: Seq<Entry>, n: int, taken: int, k: int)
    requires
        valid_utf8(bytes),
        is_lattice(bytes, entries),
        !blocked(bytes, entries),
        lattice_scores_are_numbers(entries),
        1 <= n < entries.len(),
        0 <= k < taken <= before(entries, n).len(),
    ensures
        left_among(entries, n, taken) is Some,
        !left_among(entries, n, taken)->0.score.nan(),
        reached(entries, before(entries, n)[k] as int).plus(entries[n].score).value()
            <= left_among(entries, n, taken)->0.score.value(),
    decreases taken,
{
    lemma_before(bytes, entries, n);
    lemma_lattice_candidate(bytes, entries, n, taken - 1);
    let l = before(entries, n)[taken - 1] as int;
    let candidate = reached(entries, l).plus(entries[n].score);
    if taken > 1 {
        lemma_choice_is_largest(bytes, entries, n, taken - 1, if k < taken - 1 { k } else { 0 });
        let found = left_among(entries, n, taken - 1)->0;
        lemma_double_exceeds_order(candidate, found.score);
    } else {
        assert(left_among(entries, n, 0) is None);
    }
}

/// No way to a node has a score above that of the best way, where all scores are numbers.
pub proof fn law_lattice_way_is_maximal(
    bytes: Seq<u8>,
    entries: Seq<Entry>,
    nodes: Seq<usize>,
    n: int,
)
    requires
        valid_utf8(bytes),
        is_lattice(bytes, entries),
        !blocked(bytes, entries),
        lattice_scores_are_numbers(entries),
        is_lattice_way(entries, nodes, n),
    ensures
        !lattice_score(entries, nodes).exceeds(backtrace_score(entries, n)),
        lattice_score(entries, nodes).value() <= backtrace_score(entries, n).value(),
    decreases nodes.len(),
{
    lemma_before(bytes, entries, n);
    lemma_ends(entries, entries[n].pos, entries.len() as int);
    let l = if nodes.len() == 1 {
        0int
    } else {
        nodes[nodes.len() - 2] as int
    };
    let earlier = nodes.drop_last();
    if nodes.len() > 1 {
        assert(is_lattice_way(entries, earlier, l));
    }
    assert(before(entries, n).contains(l as usize)) by {
        assert(entries[(l as usize) as int].end() == entries[n].pos);
    }
    let k = choose|k: int| 0 <= k < before(entries, n).len() && before(entries, n)[k] == l as usize;
    lemma_choice_is_largest(bytes, entries, n, before(entries, n).len() as int, k);
    lemma_lattice_candidate(bytes, entries, n, k);
    let weight = entries[n].score;
    if nodes.len() > 1 {
        law_lattice_way_is_maximal(bytes, entries, earlier, l);
        law_lattice_way_is_attained(bytes, entries, l);
        assert(!lattice_score(entries, earlier).nan());
        assert(!lattice_score(entries, way_to(entries, l)).nan());
    } else {
        assert(earlier =~= Seq::<usize>::empty());
    }
    assert(!lattice_score(entries, nodes).nan());
    lemma_double_plus_commutes(weight, lattice_score(entries, earlier));
    lemma_double_plus_commutes(weight, reached(entries, l));
    lemma_double_plus_monotone(weight, lattice_score(entries, earlier), reached(entries, l));
    lemma_double_exceeds_order(lattice_score(entries, nodes), backtrace_score(entries, n));
}

/// The best way through a lattice is the best way to the node that stands for the end, without
/// that node.
pub proof fn law_best_nodes_lead_to_end(bytes: Seq<u8>, entries: Seq<Entry>)
    requires
        valid_utf8(bytes),
        is_lattice(bytes, entries),
        !blocked(bytes, entries),
    ensures
        way_to(entries, 1) == best_nodes(bytes, entries).push(1),
{
    lemma_before(bytes, entries, 1);
    lemma_unblocked_left(bytes, entries, 1);
    let l = left(entries, 1)->0.node;
    if l == 0 {
        assert(way_to(entries, 0) =~= Seq::<usize>::empty());
    }
}

/// Finite scores never add up to something that is not a number.
pub proof fn law_finite_lattice_scores_are_numbers(entries: Seq<Entry>)
    requires
        forall|n: int| 0 <= n < entries.len() ==> is_finite((#[trigger] entries[n]).score),
    ensures
        lattice_scores_are_numbers(entries),
{
    assert forall|nodes: Seq<usize>, n: int| #[trigger]
        is_lattice_way(entries, nodes, n) implies !lattice_score(entries, nodes).nan() by {
        lemma_finite_lattice_way(entries, nodes, n);
    }
}

proof fn lemma_finite_lattice_way(entries: Seq<Entry>, nodes: Seq<usize>, n: int)
    requires
        forall|n: int| 0 <= n < entries.len() ==> is_finite((#[trigger] entries[n]).score),
        is_lattice_way(entries, nodes, n),
    ensures
        !lattice_score(entries, nodes).nan(),
    decreases nodes.len(),
{
    let earlier = nodes.drop_last();
    if nodes.len() > 1 {
        lemma_finite_lattice_way(entries, earlier, nodes[nodes.len() - 2] as int);
    } else {
        assert(lattice_score(entries, earlier) == (Double { bits: 0 }));
    }
    assert(is_finite(entries[n].score));
    lemma_finite_sum(lattice_score(entries, earlier), entries[n].score);
}

/// A sentence is encoded by way of a lattice by the tokens of a way that no other exceeds, where
/// all scores are numbers. Without an id for unknown characters there may be no way at all.
pub proof fn law_unoptimized_is_best(encoder: Encoder, sentence: Seq<char>, nodes: Seq<usize>)
    requires
        encoder.wf(),
        encoder.unk_id is Some,
        encode_utf8(sentence).len() <= usize::MAX,
        encoder.lattice(encode_utf8(sentence)).len() <= usize::MAX,
        lattice_scores_are_numbers(encoder.lattice(encode_utf8(sentence))),
        is_lattice_way(encoder.lattice(encode_utf8(sentence)), nodes, 1),
    ensures
        ({
            let bytes = encode_utf8(sentence);
            let entries = encoder.lattice(bytes);
            let best = best_nodes(bytes, entries);
            &&& unoptimized(encoder, sentence) == Ok::<Seq<Seq<char>>, UnigramError>(
                tokens_of(sentence, pieces_of(entries, best), encoder.fuse()),
            )
            &&& is_lattice_way(entries, best.push(1), 1)
            &&& !lattice_score(entries, nodes).exceeds(lattice_score(entries, best.push(1)))
        }),
{
    let bytes = encode_utf8(sentence);
    let entries = encoder.lattice(bytes);
    encode_utf8_valid_utf8(sentence);
    lemma_lattice(encoder, bytes);
    lemma_never_blocked(encoder, bytes);
    law_best_nodes_lead_to_end(bytes, entries);
    law_lattice_way_is_attained(bytes, entries, 1);
    law_lattice_way_is_maximal(bytes, entries, nodes, 1);
}

} // verus!
