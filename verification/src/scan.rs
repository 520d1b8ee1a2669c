//! Dynamic programming over a graph whose edges lead forward.

use vstd::prelude::*;

verus! {

/// The edges of a graph over the bytes of a sentence: for each start, the end and the id of
/// each edge.
pub type Edges = Seq<Seq<(usize, usize)>>;

/// What is known of place `end` once all edges from places before `start` and the first `taken`
/// edges from `start` have been seen. `init` is what is known before any edge; each edge that
/// leads to `end` makes a step from that and from what is known of the place it comes from.
pub open spec fn scan<C>(
    edges: Edges,
    init: spec_fn(int) -> C,
    step: spec_fn(C, C, int, usize) -> C,
    end: int,
    start: int,
    taken: int,
) -> C
    decreases end, start, taken,
{
    if end < 0 || start < 0 || taken < 0 {
        init(end)
    } else if taken > 0 {
        let before = scan(edges, init, step, end, start, taken - 1);
        let (to, id) = edges[start][taken - 1];
        if to == end && start < end {
            step(before, scan(edges, init, step, start, start, 0), start, id)
        } else {
            before
        }
    } else if start > 0 {
        scan(edges, init, step, end, start - 1, edges[start - 1].len() as int)
    } else {
        init(end)
    }
}

/// What is known of place `end` in the end.
pub open spec fn settled<C>(
    edges: Edges,
    init: spec_fn(int) -> C,
    step: spec_fn(C, C, int, usize) -> C,
    end: int,
) -> C {
    scan(edges, init, step, end, end, 0)
}

/// The graph has places `0` to `len`, and its edges lead forward within them.
pub open spec fn leads_forward(edges: Edges, len: int) -> bool {
    &&& edges.len() == len + 1
    &&& forall|s: int, k: int|
        #![trigger edges[s][k]]
        0 <= s <= len && 0 <= k < edges[s].len() ==> s < edges[s][k].0 <= len
}

/// Edges from a place itself and from later places change nothing.
pub proof fn lemma_settled<C>(
    edges: Edges,
    init: spec_fn(int) -> C,
    step: spec_fn(C, C, int, usize) -> C,
    end: int,
    start: int,
    taken: int,
)
    requires
        0 <= end <= start,
        0 <= taken,
    ensures
        scan(edges, init, step, end, start, taken) == settled(edges, init, step, end),
    decreases start, taken,
{
    if taken > 0 {
        lemma_settled(edges, init, step, end, start, taken - 1);
    } else if start > end {
        lemma_settled(edges, init, step, end, start - 1, edges[start - 1].len() as int);
    }
}

/// Where steps from a place change nothing, its edges change nothing.
pub proof fn lemma_idle<C>(
    edges: Edges,
    init: spec_fn(int) -> C,
    step: spec_fn(C, C, int, usize) -> C,
    end: int,
    start: int,
    taken: int,
)
    requires
        0 <= end,
        0 <= start,
        0 <= taken,
        forall|target: C, id: usize| #[trigger]
            step(target, settled(edges, init, step, start), start, id) == target,
    ensures
        scan(edges, init, step, end, start, taken) == scan(edges, init, step, end, start, 0),
    decreases taken,
{
    if taken > 0 {
        lemma_idle(edges, init, step, end, start, taken - 1);
        let before = scan(edges, init, step, end, start, taken - 1);
        let id = edges[start][taken - 1].1;
        assert(step(before, settled(edges, init, step, start), start, id) == before);
    }
}

/// Places without edges change nothing.
pub proof fn lemma_empty_rows<C>(
    edges: Edges,
    init: spec_fn(int) -> C,
    step: spec_fn(C, C, int, usize) -> C,
    end: int,
    from: int,
    upto: int,
)
    requires
        0 <= end,
        0 <= from < upto <= edges.len(),
        forall|r: int| from < r < upto ==> (#[trigger] edges[r]).len() == 0,
    ensures
        scan(edges, init, step, end, upto, 0) == scan(
            edges,
            init,
            step,
            end,
            from,
            edges[from].len() as int,
        ),
    decreases upto,
{
    if from + 1 < upto {
        lemma_empty_rows(edges, init, step, end, from, upto - 1);
    }
}

/// Steps that are the same along every edge give the same.
pub proof fn lemma_same_steps<C>(
    edges: Edges,
    init: spec_fn(int) -> C,
    a: spec_fn(C, C, int, usize) -> C,
    b: spec_fn(C, C, int, usize) -> C,
    end: int,
    start: int,
    taken: int,
)
    requires
        0 <= start < edges.len(),
        0 <= taken <= edges[start].len(),
        forall|s: int, k: int, target: C, source: C|
            #![trigger a(target, source, s, edges[s][k].1)]
            0 <= s < edges.len() && 0 <= k < edges[s].len() ==> a(
                target,
                source,
                s,
                edges[s][k].1,
            ) == b(target, source, s, edges[s][k].1),
    ensures
        scan(edges, init, a, end, start, taken) == scan(edges, init, b, end, start, taken),
    decreases end, start, taken,
{
    if end >= 0 {
        if taken > 0 {
            lemma_same_steps(edges, init, a, b, end, start, taken - 1);
            let (to, id) = edges[start][taken - 1];
            if to == end && start < end {
                lemma_same_steps(edges, init, a, b, start, start, 0);
                let before = scan(edges, init, a, end, start, taken - 1);
                let source = scan(edges, init, a, start, start, 0);
                assert(a(before, source, start, edges[start][taken - 1].1) == b(
                    before,
                    source,
                    start,
                    edges[start][taken - 1].1,
                ));
            }
        } else if start > 0 {
            lemma_same_steps(
                edges,
                init,
                a,
                b,
                end,
                start - 1,
                edges[start - 1].len() as int,
            );
        }
    }
}

} // verus!
