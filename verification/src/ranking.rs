//! The largest of a list of scores.

use crate::single::{
    lemma_exceeds_is_above, lemma_exceeds_order, lemma_exceeds_transitive, Single,
    SINGLE_NEG_INFINITY,
};
use vstd::prelude::*;

verus! {

/// A place in a list with its score.
pub struct Winner {
    pub index: int,
    pub score: Single,
}

/// The first of the largest scores. Where no score is above negative infinity, that, and
/// index 0.
pub open spec fn winner(scores: Seq<Single>) -> Winner
    decreases scores.len(),
{
    if scores.len() == 0 {
        Winner { index: 0, score: Single { bits: SINGLE_NEG_INFINITY } }
    } else {
        let before = winner(scores.drop_last());
        if scores.last().exceeds(before.score) {
            Winner { index: scores.len() - 1, score: scores.last() }
        } else {
            before
        }
    }
}

/// The winner is the first of the largest scores: none exceeds it, and it exceeds every number
/// before it. Without a score above negative infinity, the winner is at index 0.
pub proof fn law_winner_is_first_of_largest(scores: Seq<Single>)
    ensures
        forall|i: int| 0 <= i < scores.len() ==> !(#[trigger] scores[i]).exceeds(winner(scores).score),
        winner(scores).score.bits != SINGLE_NEG_INFINITY ==> {
            &&& 0 <= winner(scores).index < scores.len()
            &&& scores[winner(scores).index] == winner(scores).score
            &&& forall|i: int|
                0 <= i < winner(scores).index ==> (#[trigger] scores[i]).nan()
                    || winner(scores).score.exceeds(scores[i])
        },
        winner(scores).score.bits == SINGLE_NEG_INFINITY ==> winner(scores).index == 0,
        !winner(scores).score.nan(),
        scores.len() > 0 ==> 0 <= winner(scores).index < scores.len(),
    decreases scores.len(),
{
    if scores.len() > 0 {
        let rest = scores.drop_last();
        let last = scores.last();
        law_winner_is_first_of_largest(rest);
        let before = winner(rest);
        let w = winner(scores);
        if last.exceeds(before.score) {
            lemma_exceeds_is_above(last, before.score);
            assert forall|i: int| 0 <= i < scores.len() implies !(#[trigger] scores[i]).exceeds(
                w.score,
            ) by {
                if i < rest.len() {
                    assert(!rest[i].exceeds(before.score));
                }
                if !scores[i].nan() {
                    lemma_exceeds_order(scores[i], w.score);
                    lemma_exceeds_order(scores[i], before.score);
                }
                if scores[i].exceeds(w.score) {
                    lemma_exceeds_is_above(scores[i], w.score);
                }
            }
            assert forall|i: int| 0 <= i < w.index implies (#[trigger] scores[i]).nan()
                || w.score.exceeds(scores[i]) by {
                assert(!rest[i].exceeds(before.score));
                if !scores[i].nan() {
                    lemma_exceeds_order(scores[i], before.score);
                    lemma_exceeds_order(w.score, scores[i]);
                }
            }
        } else {
            assert forall|i: int| 0 <= i < scores.len() implies !(#[trigger] scores[i]).exceeds(
                w.score,
            ) by {
                if i < rest.len() {
                    assert(!rest[i].exceeds(before.score));
                }
            }
            assert forall|i: int| 0 <= i < w.index && w.score.bits != SINGLE_NEG_INFINITY implies (
            #[trigger] scores[i]).nan() || w.score.exceeds(scores[i]) by {
                assert(rest[i] == scores[i]);
            }
        }
    }
}

/// The first of the largest scores.
pub(crate) fn pick(scores: &Vec<Single>) -> (result: (usize, Single))
    ensures
        winner(scores@) == (Winner { index: result.0 as int, score: result.1 }),
        scores@.len() > 0 ==> result.0 < scores@.len(),
{
    let mut best_i: usize = 0;
    let mut best_s: Single = Single::neg_infinity();
    let mut i: usize = 0;
    while i < scores.len()
        invariant
            i <= scores@.len(),
            i > 0 ==> best_i < i,
            winner(scores@.take(i as int)) == (Winner { index: best_i as int, score: best_s }),
        decreases scores.len() - i,
    {
        assert(scores@.take(i + 1).drop_last() =~= scores@.take(i as int));
        if scores[i].gt(&best_s) {
            best_s = scores[i];
            best_i = i;
        }
        i = i + 1;
    }
    assert(scores@.take(i as int) =~= scores@);
    (best_i, best_s)
}

/// A place with its score.
pub struct Ranked {
    pub index: int,
    pub score: Single,
}

/// A list of places with their scores.
pub open spec fn ranking(top: Seq<(usize, Single)>) -> Seq<Ranked> {
    top.map_values(|entry: (usize, Single)| Ranked { index: entry.0 as int, score: entry.1 })
}

/// The entries are the places with the `k` largest scores, each once with its score, the largest
/// first. Which of equal scores come in, and in which order they stand, is left open.
pub open spec fn is_top(scores: Seq<Single>, k: int, top: Seq<Ranked>) -> bool {
    &&& top.len() == if k < scores.len() { k } else { scores.len() as int }
    &&& forall|i: int|
        0 <= i < top.len() ==> 0 <= (#[trigger] top[i]).index < scores.len() && top[i].score
            == scores[top[i].index]
    &&& forall|i: int, j: int|
        #![trigger top[i], top[j]]
        0 <= i < j < top.len() ==> top[i].index != top[j].index && !top[j].score.exceeds(
            top[i].score,
        )
    &&& forall|x: int, i: int|
        #![trigger scores[x], top[i]]
        0 <= x < scores.len() && 0 <= i < top.len() && !is_listed(top, x) ==> !scores[x].exceeds(
            top[i].score,
        )
}

pub open spec fn is_listed(top: Seq<Ranked>, x: int) -> bool {
    exists|i: int| 0 <= i < top.len() && (#[trigger] top[i]).index == x
}

/// Where the largest of the remaining scores is.
fn largest_place(rest: &Vec<(usize, Single)>) -> (place: usize)
    requires
        rest@.len() > 0,
    ensures
        place < rest@.len(),
        forall|j: int| 0 <= j < rest@.len() ==> !(#[trigger] rest@[j]).1.exceeds(rest@[place as int].1),
{
    let mut place: usize = 0;
    let mut i: usize = 0;
    while i < rest.len()
        invariant
            i <= rest@.len(),
            place < rest@.len(),
            forall|j: int| 0 <= j < i ==> !(#[trigger] rest@[j]).1.exceeds(rest@[place as int].1),
        decreases rest.len() - i,
    {
        if rest[i].1.gt(&rest[place].1) {
            proof {
                assert forall|j: int| 0 <= j <= i implies !(#[trigger] rest@[j]).1.exceeds(
                    rest@[i as int].1,
                ) by {
                    if rest@[j].1.exceeds(rest@[i as int].1) {
                        lemma_exceeds_is_above(rest@[j].1, rest@[i as int].1);
                    }
                    lemma_exceeds_transitive(
                        rest@[j].1,
                        rest@[i as int].1,
                        rest@[place as int].1,
                    );
                }
            }
            place = i;
        } else {
            proof {
                assert(!rest@[i as int].1.exceeds(rest@[place as int].1));
            }
        }
        i = i + 1;
    }
    place
}

/// The `k` largest scores with their places, the largest first.
pub(crate) fn largest(scores: &Vec<Single>, k: usize) -> (top: Vec<(usize, Single)>)
    ensures
        is_top(scores@, k as int, ranking(top@)),
{
    let n: usize = scores.len();
    let wanted: usize = if k < n {
        k
    } else {
        n
    };
    let mut rest: Vec<(usize, Single)> = Vec::new();
    let mut i: usize = 0;
    while i < n
        invariant
            n == scores@.len(),
            i <= n,
            rest@.len() == i,
            forall|j: int| 0 <= j < i ==> (#[trigger] rest@[j]) == (j as usize, scores@[j]),
        decreases n - i,
    {
        rest.push((i, scores[i]));
        i = i + 1;
    }
    let mut top: Vec<(usize, Single)> = Vec::new();
    proof {
        assert forall|x: int| 0 <= x < n implies #[trigger] is_pending(rest@, x) by {
            assert(rest@[x].0 == x);
        }
    }
    while top.len() < wanted
        invariant
            n == scores@.len(),
            wanted <= n,
            top@.len() <= wanted,
            top@.len() + rest@.len() == n,
            are_scores(scores@, top@),
            are_scores(scores@, rest@),
            is_falling(top@),
            forall|i: int, j: int|
                #![trigger top@[i], rest@[j]]
                0 <= i < top@.len() && 0 <= j < rest@.len() ==> top@[i].0 != rest@[j].0
                    && !rest@[j].1.exceeds(top@[i].1),
            forall|x: int| 0 <= x < n ==> #[trigger] is_pending(top@, x) || is_pending(rest@, x),
        decreases wanted - top.len(),
    {
        let place: usize = largest_place(&rest);
        let ghost before = rest@;
        let ghost shorter = top@;
        let entry: (usize, Single) = rest.remove(place);
        top.push(entry);
        proof {
            lemma_taken(scores@, shorter, before, place as int);
        }
    }
    proof {
        lemma_is_top(scores@, k as int, top@, rest@);
    }
    top
}

/// The entries have distinct indices and the scores at these.
spec fn are_scores(scores: Seq<Single>, entries: Seq<(usize, Single)>) -> bool {
    &&& forall|i: int|
        0 <= i < entries.len() ==> (#[trigger] entries[i]).0 < scores.len() && entries[i].1
            == scores[entries[i].0 as int]
    &&& forall|i: int, j: int|
        #![trigger entries[i], entries[j]]
        0 <= i < j < entries.len() ==> entries[i].0 != entries[j].0
}

/// No entry exceeds an earlier one.
spec fn is_falling(entries: Seq<(usize, Single)>) -> bool {
    forall|i: int, j: int|
        #![trigger entries[i], entries[j]]
        0 <= i < j < entries.len() ==> !entries[j].1.exceeds(entries[i].1)
}

/// An entry has this index.
spec fn is_pending(entries: Seq<(usize, Single)>, x: int) -> bool {
    exists|j: int| 0 <= j < entries.len() && (#[trigger] entries[j]).0 == x
}

/// The largest remaining entry can be taken next.
proof fn lemma_taken(
    scores: Seq<Single>,
    top: Seq<(usize, Single)>,
    rest: Seq<(usize, Single)>,
    place: int,
)
    requires
        0 <= place < rest.len(),
        are_scores(scores, top),
        are_scores(scores, rest),
        is_falling(top),
        forall|j: int| 0 <= j < rest.len() ==> !(#[trigger] rest[j]).1.exceeds(rest[place].1),
        forall|i: int, j: int|
            #![trigger top[i], rest[j]]
            0 <= i < top.len() && 0 <= j < rest.len() ==> top[i].0 != rest[j].0
                && !rest[j].1.exceeds(top[i].1),
        forall|x: int|
            0 <= x < scores.len() ==> #[trigger] is_pending(top, x) || is_pending(rest, x),
    ensures
        are_scores(scores, top.push(rest[place])),
        are_scores(scores, rest.remove(place)),
        is_falling(top.push(rest[place])),
        forall|i: int, j: int|
            #![trigger top.push(rest[place])[i], rest.remove(place)[j]]
            0 <= i < top.len() + 1 && 0 <= j < rest.len() - 1 ==> top.push(rest[place])[i].0
                != rest.remove(place)[j].0 && !rest.remove(place)[j].1.exceeds(
                top.push(rest[place])[i].1,
            ),
        forall|x: int|
            0 <= x < scores.len() ==> #[trigger] is_pending(top.push(rest[place]), x) || is_pending(
                rest.remove(place),
                x,
            ),
{
    let more = top.push(rest[place]);
    let less = rest.remove(place);
    assert forall|j: int| 0 <= j < less.len() implies (#[trigger] less[j]) == rest[if j < place {
        j
    } else {
        j + 1
    }] by {}
    assert forall|i: int| 0 <= i < top.len() implies (#[trigger] more[i]) == top[i] by {}
    assert(more[top.len() as int] == rest[place]);
    assert forall|x: int| 0 <= x < scores.len() implies #[trigger] is_pending(more, x)
        || is_pending(less, x) by {
        if is_pending(top, x) {
            let j = choose|j: int| 0 <= j < top.len() && (#[trigger] top[j]).0 == x;
            assert(more[j].0 == x);
        } else {
            assert(is_pending(rest, x));
            let j = choose|j: int| 0 <= j < rest.len() && (#[trigger] rest[j]).0 == x;
            if j < place {
                assert(less[j].0 == x);
            } else if j == place {
                assert(more[top.len() as int].0 == x);
            } else {
                assert(less[j - 1].0 == x);
            }
        }
    }
}

proof fn lemma_is_top(
    scores: Seq<Single>,
    k: int,
    top: Seq<(usize, Single)>,
    rest: Seq<(usize, Single)>,
)
    requires
        top.len() == if k < scores.len() { k } else { scores.len() as int },
        are_scores(scores, top),
        are_scores(scores, rest),
        is_falling(top),
        forall|i: int, j: int|
            #![trigger top[i], rest[j]]
            0 <= i < top.len() && 0 <= j < rest.len() ==> top[i].0 != rest[j].0
                && !rest[j].1.exceeds(top[i].1),
        forall|x: int|
            0 <= x < scores.len() ==> #[trigger] is_pending(top, x) || is_pending(rest, x),
    ensures
        is_top(scores, k, ranking(top)),
{
    let ranked = ranking(top);
    assert forall|i: int| 0 <= i < ranked.len() implies 0 <= (#[trigger] ranked[i]).index
        < scores.len() && ranked[i].score == scores[ranked[i].index] by {
        assert(top[i].0 < scores.len());
    }
    assert forall|i: int, j: int|
        #![trigger ranked[i], ranked[j]]
        0 <= i < j < ranked.len() implies ranked[i].index != ranked[j].index
        && !ranked[j].score.exceeds(ranked[i].score) by {
        assert(top[i].0 != top[j].0);
    }
    assert forall|x: int, i: int|
        #![trigger scores[x], ranked[i]]
        0 <= x < scores.len() && 0 <= i < ranked.len() && !is_listed(
            ranked,
            x,
        ) implies !scores[x].exceeds(ranked[i].score) by {
        if is_pending(top, x) {
            let j = choose|j: int| 0 <= j < top.len() && (#[trigger] top[j]).0 == x;
            assert(ranked[j].index == x);
        }
        assert(is_pending(rest, x));
        let j = choose|j: int| 0 <= j < rest.len() && (#[trigger] rest[j]).0 == x;
        assert(top[i].0 != rest[j].0 && !rest[j].1.exceeds(top[i].1));
    }
}

} // verus!
