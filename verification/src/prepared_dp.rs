//! A sentence's graph of tokens, and the best ways through it.

use crate::cache::texts_of;
use crate::scan::{leads_forward, lemma_idle, lemma_settled, scan, settled, Edges};
use crate::segmentation::{
    backtrace, build_tokens, is_chain, lemma_same_trace, lemma_trace_is_chain, table_links,
    tokens_of, trace, Piece,
};
use crate::sentence::boundary;
use crate::single::{Single, SINGLE_NEG_INFINITY};
use vstd::prelude::*;
use vstd::utf8::encode_utf8;

verus! {

/// The scores of the edges: each id has a weight, except the unknown id, which has its own score.
pub struct Weighting {
    pub weights: Seq<Single>,
    pub unk_id: usize,
    pub unk_score: Single,
}

impl Weighting {
    pub open spec fn weight(self, id: usize) -> Single {
        if id == self.unk_id {
            self.unk_score
        } else {
            self.weights[id as int]
        }
    }
}

/// What is known of the best way to a place: its score, how many edges it has, and where its
/// last edge starts and which id it has. A score of negative infinity means that no way is known.
pub struct Best {
    pub score: Single,
    pub count: nat,
    pub start: int,
    pub id: usize,
}

/// Only the beginning of the sentence is reached without an edge.
pub open spec fn best_init() -> spec_fn(int) -> Best {
    |end: int|
        Best {
            score: if end == 0 {
                Single { bits: 0 }
            } else {
                Single { bits: SINGLE_NEG_INFINITY }
            },
            count: 0,
            start: -1,
            id: 0,
        }
}

/// A way is replaced by a way with a larger score; of equal scores the first stays.
pub open spec fn best_step(w: Weighting) -> spec_fn(Best, Best, int, usize) -> Best {
    |target: Best, source: Best, start: int, id: usize|
        {
            let score = source.score.plus(w.weight(id));
            if source.score.bits != SINGLE_NEG_INFINITY && score.exceeds(target.score) {
                Best { score, count: source.count + 1, start, id }
            } else {
                target
            }
        }
}

/// The best way to a place.
pub open spec fn best(edges: Edges, w: Weighting, end: int) -> Best {
    settled(edges, best_init(), best_step(w), end)
}

/// Where the last edge of the best way to each place starts, and its id.
pub open spec fn best_links(edges: Edges, w: Weighting) -> spec_fn(int) -> (int, usize) {
    |end: int| (best(edges, w, end).start, best(edges, w, end).id)
}

/// The segmentation of the best way to a place.
pub open spec fn best_pieces(edges: Edges, w: Weighting, end: int) -> Seq<Piece> {
    trace(best_links(edges, w), end)
}

/// `log(exp(a) + exp(b))`, where `log_1p_exp(x)` is `log(1 + exp(x))`.
pub open spec fn log_sum_exp(log_1p_exp: spec_fn(Single) -> Single, a: Single, b: Single) -> Single {
    if a.bits == SINGLE_NEG_INFINITY {
        b
    } else if b.bits == SINGLE_NEG_INFINITY {
        a
    } else {
        let high = if a.exceeds(b) { a } else { b };
        let low = if a.exceeds(b) { b } else { a };
        high.plus(log_1p_exp(low.plus(high.negated())))
    }
}

pub open spec fn forward_init() -> spec_fn(int) -> Single {
    |end: int|
        if end == 0 {
            Single { bits: 0 }
        } else {
            Single { bits: SINGLE_NEG_INFINITY }
        }
}

pub open spec fn forward_step(
    log_1p_exp: spec_fn(Single) -> Single,
    w: Weighting,
) -> spec_fn(Single, Single, int, usize) -> Single {
    |target: Single, source: Single, start: int, id: usize|
        if source.bits == SINGLE_NEG_INFINITY {
            target
        } else {
            log_sum_exp(log_1p_exp, target, source.plus(w.weight(id)))
        }
}

/// The logarithm of the summed probability of all ways to a place.
pub open spec fn forward(
    log_1p_exp: spec_fn(Single) -> Single,
    edges: Edges,
    w: Weighting,
    end: int,
) -> Single {
    settled(edges, forward_init(), forward_step(log_1p_exp, w), end)
}

/// The closure computes the function.
pub open spec fn computes<F: Fn(Single) -> Single>(
    closure: F,
    function: spec_fn(Single) -> Single,
) -> bool {
    forall|x: Single, y: Single| #[trigger] call_ensures(closure, (x,), y) ==> y == function(x)
}

/// Numerically stable log-sum-exp of two values in log-space. The closure computes
/// `log(1 + exp(x))`.
pub fn log_sum_exp_f32<F: Fn(Single) -> Single>(a: Single, b: Single, log_1p_exp: &F) -> (result:
    Single)
    requires
        forall|x: Single| #[trigger] call_requires(*log_1p_exp, (x,)),
    ensures
        forall|function: spec_fn(Single) -> Single| #[trigger]
            computes(*log_1p_exp, function) ==> result == log_sum_exp(function, a, b),
{
    if a.is_neg_infinity() {
        return b;
    }
    if b.is_neg_infinity() {
        return a;
    }
    let a_larger: bool = a.gt(&b);
    let high: Single = if a_larger {
        a
    } else {
        b
    };
    let low: Single = if a_larger {
        b
    } else {
        a
    };
    high.add(&log_1p_exp(low.add(&high.neg())))
}

/// A forward graph over one sentence, prepared once: for each byte offset, the end and the
/// vocabulary id of each token that begins there, and the fallback edge of an unknown
/// character.
#[derive(Debug)]
pub struct PreparedDP<'a> {
    sentence: &'a str,
    len: usize,
    edges: Vec<Vec<(usize, usize)>>,
}

/// Every edge begins and ends between characters.
pub open spec fn between_chars(bytes: Seq<u8>, edges: Edges) -> bool {
    forall|s: int, k: int|
        #![trigger edges[s][k]]
        0 <= s < edges.len() && 0 <= k < edges[s].len() ==> boundary(bytes, s) && boundary(
            bytes,
            edges[s][k].0 as int,
        )
}

/// The contents of a table of tables.
pub open spec fn rows<T>(table: Seq<Vec<T>>) -> Seq<Seq<T>> {
    table.map_values(|row: Vec<T>| row@)
}

/// A table of `len + 1` equal entries.
pub(crate) fn filled<T: Copy>(len: usize, value: T) -> (table: Vec<T>)
    ensures
        table@.len() == len + 1,
        forall|i: int| 0 <= i <= len ==> table@[i] == value,
{
    let mut table: Vec<T> = Vec::new();
    table.push(value);
    let mut i: usize = 0;
    while i < len
        invariant
            i <= len,
            table@.len() == i + 1,
            forall|j: int| 0 <= j <= i ==> table@[j] == value,
        decreases len - i,
    {
        table.push(value);
        i = i + 1;
    }
    table
}

impl<'a> PreparedDP<'a> {
    /// The sentence.
    pub closed spec fn text(&self) -> Seq<char> {
        self.sentence@
    }

    /// The edges.
    pub closed spec fn graph(&self) -> Edges {
        rows(self.edges@)
    }

    /// How many bytes the sentence has.
    pub open spec fn end(&self) -> int {
        encode_utf8(self.text()).len() as int
    }

    pub closed spec fn wf(&self) -> bool {
        &&& self.len == self.end()
        &&& leads_forward(self.graph(), self.end())
        &&& between_chars(encode_utf8(self.text()), self.graph())
    }

    /// Every edge has a weight.
    pub open spec fn weighted(&self, w: Weighting) -> bool {
        forall|s: int, k: int|
            #![trigger self.graph()[s][k]]
            0 <= s <= self.end() && 0 <= k < self.graph()[s].len() ==> self.graph()[s][k].1
                == w.unk_id || self.graph()[s][k].1 < w.weights.len()
    }

    /// A prepared graph.
    pub(crate) fn assemble(sentence: &'a str, len: usize, edges: Vec<Vec<(usize, usize)>>) -> (graph:
        PreparedDP<'a>)
        requires
            len == encode_utf8(sentence@).len(),
            leads_forward(rows(edges@), len as int),
            between_chars(encode_utf8(sentence@), rows(edges@)),
        ensures
            graph.wf(),
            graph.text() == sentence@,
            graph.graph() == rows(edges@),
    {
        PreparedDP { sentence, len, edges }
    }

    /// The score of the best segmentation; negative infinity where there is none.
    pub fn score_only_f32(&self, weights: &[Single], unk_id: usize, unk_score: Single) -> (score:
        Single)
        requires
            self.wf(),
            self.weighted(Weighting { weights: weights@, unk_id, unk_score }),
        ensures
            score == best(
                self.graph(),
                Weighting { weights: weights@, unk_id, unk_score },
                self.end(),
            ).score,
    {
        let ghost w = Weighting { weights: weights@, unk_id, unk_score };
        let ghost g = self.graph();
        if self.len == 0 {
            return Single::zero();
        }
        let mut best_score: Vec<Single> = filled(self.len, Single::neg_infinity());
        best_score.set(0, Single::zero());
        let mut s: usize = 0;
        while s < self.len
            invariant
                self.wf(),
                self.weighted(w),
                w == (Weighting { weights: weights@, unk_id, unk_score }),
                g == self.graph(),
                s <= self.len,
                best_score@.len() == self.len + 1,
                forall|e: int|
                    0 <= e <= self.len ==> (#[trigger] best_score@[e]) == scan(
                        g,
                        best_init(),
                        best_step(w),
                        e,
                        s as int,
                        0,
                    ).score,
            decreases self.len - s,
        {
            let base: Single = best_score[s];
            let row: &Vec<(usize, usize)> = &self.edges[s];
            assert(row@ == g[s as int]);
            if !base.is_neg_infinity() {
                let mut k: usize = 0;
                while k < row.len()
                    invariant
                        self.wf(),
                        self.weighted(w),
                        w == (Weighting { weights: weights@, unk_id, unk_score }),
                        g == self.graph(),
                        s < self.len,
                        row@ == g[s as int],
                        k <= row@.len(),
                        best_score@.len() == self.len + 1,
                        base == best(g, w, s as int).score,
                        base.bits != SINGLE_NEG_INFINITY,
                        forall|e: int|
                            0 <= e <= self.len ==> (#[trigger] best_score@[e]) == scan(
                                g,
                                best_init(),
                                best_step(w),
                                e,
                                s as int,
                                k as int,
                            ).score,
                    decreases row.len() - k,
                {
                    let (e, id) = row[k];
                    assert(g[s as int][k as int] == (e, id));
                    let weight: Single = if id == unk_id {
                        unk_score
                    } else {
                        weights[id]
                    };
                    let score: Single = base.add(&weight);
                    if score.gt(&best_score[e]) {
                        best_score.set(e, score);
                    }
                    k = k + 1;
                }
            } else {
                proof {
                    lemma_unreached_is_idle(g, w, s as int);
                }
            }
            s = s + 1;
        }
        best_score[self.len]
    }

    /// Like `score_only_f32`, but also returns the number of edges of the best segmentation.
    pub fn score_and_count_f32(&self, weights: &[Single], unk_id: usize, unk_score: Single) -> (result: (
        Single,
        u32,
    ))
        requires
            self.wf(),
            self.weighted(Weighting { weights: weights@, unk_id, unk_score }),
            self.end() <= u32::MAX,
        ensures
            ({
                let found = best(
                    self.graph(),
                    Weighting { weights: weights@, unk_id, unk_score },
                    self.end(),
                );
                result.0 == found.score && result.1 == found.count
            }),
    {
        let ghost w = Weighting { weights: weights@, unk_id, unk_score };
        let ghost g = self.graph();
        if self.len == 0 {
            return (Single::zero(), 0);
        }
        let mut best_score: Vec<Single> = filled(self.len, Single::neg_infinity());
        let mut count: Vec<u32> = filled(self.len, 0);
        best_score.set(0, Single::zero());
        let mut s: usize = 0;
        while s < self.len
            invariant
                self.wf(),
                self.weighted(w),
                self.len <= u32::MAX,
                w == (Weighting { weights: weights@, unk_id, unk_score }),
                g == self.graph(),
                s <= self.len,
                best_score@.len() == self.len + 1,
                count@.len() == self.len + 1,
                forall|e: int|
                    0 <= e <= self.len ==> (#[trigger] best_score@[e]) == scan(
                        g,
                        best_init(),
                        best_step(w),
                        e,
                        s as int,
                        0,
                    ).score,
                forall|e: int|
                    0 <= e <= self.len ==> (#[trigger] count@[e]) == scan(
                        g,
                        best_init(),
                        best_step(w),
                        e,
                        s as int,
                        0,
                    ).count && count@[e] <= e,
            decreases self.len - s,
        {
            let base: Single = best_score[s];
            let row: &Vec<(usize, usize)> = &self.edges[s];
            assert(row@ == g[s as int]);
            if !base.is_neg_infinity() {
                let base_count: u32 = count[s];
                let mut k: usize = 0;
                while k < row.len()
                    invariant
                        self.wf(),
                        self.weighted(w),
                        self.len <= u32::MAX,
                        w == (Weighting { weights: weights@, unk_id, unk_score }),
                        g == self.graph(),
                        s < self.len,
                        row@ == g[s as int],
                        k <= row@.len(),
                        best_score@.len() == self.len + 1,
                        count@.len() == self.len + 1,
                        base == best(g, w, s as int).score,
                        base_count == best(g, w, s as int).count,
                        base_count <= s,
                        base.bits != SINGLE_NEG_INFINITY,
                        forall|e: int|
                            0 <= e <= self.len ==> (#[trigger] best_score@[e]) == scan(
                                g,
                                best_init(),
                                best_step(w),
                                e,
                                s as int,
                                k as int,
                            ).score,
                        forall|e: int|
                            0 <= e <= self.len ==> (#[trigger] count@[e]) == scan(
                                g,
                                best_init(),
                                best_step(w),
                                e,
                                s as int,
                                k as int,
                            ).count && count@[e] <= e,
                    decreases row.len() - k,
                {
                    let (e, id) = row[k];
                    assert(g[s as int][k as int] == (e, id));
                    let weight: Single = if id == unk_id {
                        unk_score
                    } else {
                        weights[id]
                    };
                    let score: Single = base.add(&weight);
                    if score.gt(&best_score[e]) {
                        best_score.set(e, score);
                        count.set(e, base_count + 1);
                    }
                    k = k + 1;
                }
            } else {
                proof {
                    lemma_unreached_is_idle(g, w, s as int);
                }
            }
            s = s + 1;
        }
        (best_score[self.len], count[self.len])
    }

    /// Forward algorithm: the logarithm of the probability of the sentence, summed over all
    /// segmentations. The closure computes `log(1 + exp(x))`.
    pub fn forward_score_f32<F: Fn(Single) -> Single>(
        &self,
        weights: &[Single],
        unk_id: usize,
        unk_score: Single,
        log_1p_exp: &F,
    ) -> (score: Single)
        requires
            self.wf(),
            self.weighted(Weighting { weights: weights@, unk_id, unk_score }),
            forall|x: Single| #[trigger] call_requires(*log_1p_exp, (x,)),
        ensures
            forall|function: spec_fn(Single) -> Single| #[trigger]
                computes(*log_1p_exp, function) ==> score == forward(
                    function,
                    self.graph(),
                    Weighting { weights: weights@, unk_id, unk_score },
                    self.end(),
                ),
    {
        let ghost w = Weighting { weights: weights@, unk_id, unk_score };
        let ghost g = self.graph();
        if self.len == 0 {
            return Single::zero();
        }
        let mut alpha: Vec<Single> = filled(self.len, Single::neg_infinity());
        alpha.set(0, Single::zero());
        let mut s: usize = 0;
        while s < self.len
            invariant
                self.wf(),
                self.weighted(w),
                w == (Weighting { weights: weights@, unk_id, unk_score }),
                g == self.graph(),
                s <= self.len,
                alpha@.len() == self.len + 1,
                forall|x: Single| #[trigger] call_requires(*log_1p_exp, (x,)),
                forall|function: spec_fn(Single) -> Single, e: int|
                    #![trigger computes(*log_1p_exp, function), alpha@[e]]
                    computes(*log_1p_exp, function) && 0 <= e <= self.len ==> alpha@[e] == scan(
                        g,
                        forward_init(),
                        forward_step(function, w),
                        e,
                        s as int,
                        0,
                    ),
            decreases self.len - s,
        {
            let base: Single = alpha[s];
            let row: &Vec<(usize, usize)> = &self.edges[s];
            assert(row@ == g[s as int]);
            if !base.is_neg_infinity() {
                let mut k: usize = 0;
                while k < row.len()
                    invariant
                        self.wf(),
                        self.weighted(w),
                        w == (Weighting { weights: weights@, unk_id, unk_score }),
                        g == self.graph(),
                        s < self.len,
                        row@ == g[s as int],
                        k <= row@.len(),
                        alpha@.len() == self.len + 1,
                        base.bits != SINGLE_NEG_INFINITY,
                        forall|x: Single| #[trigger] call_requires(*log_1p_exp, (x,)),
                        forall|function: spec_fn(Single) -> Single| #[trigger]
                            computes(*log_1p_exp, function) ==> base == forward(
                                function,
                                g,
                                w,
                                s as int,
                            ),
                        forall|function: spec_fn(Single) -> Single, e: int|
                            #![trigger computes(*log_1p_exp, function), alpha@[e]]
                            computes(*log_1p_exp, function) && 0 <= e <= self.len ==> alpha@[e]
                                == scan(
                                g,
                                forward_init(),
                                forward_step(function, w),
                                e,
                                s as int,
                                k as int,
                            ),
                    decreases row.len() - k,
                {
                    let (e, id) = row[k];
                    assert(g[s as int][k as int] == (e, id));
                    let weight: Single = if id == unk_id {
                        unk_score
                    } else {
                        weights[id]
                    };
                    let score: Single = base.add(&weight);
                    let sum: Single = log_sum_exp_f32(alpha[e], score, log_1p_exp);
                    let ghost before = alpha@;
                    alpha.set(e, sum);
                    proof {
                        assert forall|function: spec_fn(Single) -> Single, x: int|
                            #![trigger computes(*log_1p_exp, function), alpha@[x]]
                            computes(*log_1p_exp, function) && 0 <= x <= self.len implies alpha@[x]
                            == scan(
                            g,
                            forward_init(),
                            forward_step(function, w),
                            x,
                            s as int,
                            k + 1,
                        ) by {
                            let old_value = before[x];
                        }
                    }
                    k = k + 1;
                }
            } else {
                proof {
                    assert forall|function: spec_fn(Single) -> Single, e: int|
                        #![trigger computes(*log_1p_exp, function), alpha@[e]]
                        computes(*log_1p_exp, function) && 0 <= e <= self.len implies alpha@[e]
                        == scan(
                        g,
                        forward_init(),
                        forward_step(function, w),
                        e,
                        s as int,
                        row@.len() as int,
                    ) by {
                        let _ = alpha@[s as int];
                        lemma_idle(
                            g,
                            forward_init(),
                            forward_step(function, w),
                            e,
                            s as int,
                            row@.len() as int,
                        );
                    }
                }
            }
            s = s + 1;
        }
        alpha[self.len]
    }

    /// The tokens of the best segmentation, and its score; fuses neighbouring unknown pieces if
    /// requested. There has to be a segmentation: `score_only_f32` is then above negative
    /// infinity.
    pub fn tokens_and_score_f32(
        &self,
        weights: &[Single],
        unk_id: usize,
        unk_score: Single,
        fuse_unk: bool,
    ) -> (result: (Vec<String>, Single))
        requires
            self.wf(),
            self.weighted(Weighting { weights: weights@, unk_id, unk_score }),
            best(
                self.graph(),
                Weighting { weights: weights@, unk_id, unk_score },
                self.end(),
            ).score.bits != SINGLE_NEG_INFINITY,
        ensures
            ({
                let w = Weighting { weights: weights@, unk_id, unk_score };
                &&& texts_of(result.0@) == tokens_of(
                    self.text(),
                    best_pieces(self.graph(), w, self.end()),
                    if fuse_unk { Some(unk_id) } else { None },
                )
                &&& result.1 == best(self.graph(), w, self.end()).score
            }),
    {
        match self.checked_tokens_and_score_f32(weights, unk_id, unk_score, fuse_unk) {
            Some(result) => result,
            None => (Vec::new(), Single::neg_infinity()),
        }
    }

    /// Like `tokens_and_score_f32`; nothing where there is no segmentation with a score above
    /// negative infinity.
    pub fn checked_tokens_and_score_f32(
        &self,
        weights: &[Single],
        unk_id: usize,
        unk_score: Single,
        fuse_unk: bool,
    ) -> (result: Option<(Vec<String>, Single)>)
        requires
            self.wf(),
            self.weighted(Weighting { weights: weights@, unk_id, unk_score }),
        ensures
            ({
                let w = Weighting { weights: weights@, unk_id, unk_score };
                let score = best(self.graph(), w, self.end()).score;
                match result {
                    Some(found) => {
                        &&& score.bits != SINGLE_NEG_INFINITY
                        &&& texts_of(found.0@) == tokens_of(
                            self.text(),
                            best_pieces(self.graph(), w, self.end()),
                            if fuse_unk { Some(unk_id) } else { None },
                        )
                        &&& found.1 == score
                    },
                    None => score.bits == SINGLE_NEG_INFINITY,
                }
            }),
    {
        let ghost w = Weighting { weights: weights@, unk_id, unk_score };
        let ghost g = self.graph();
        let fuse: Option<usize> = if fuse_unk {
            Some(unk_id)
        } else {
            None
        };
        if self.len == 0 {
            let tokens: Vec<String> = Vec::new();
            assert(texts_of(tokens@) =~= tokens_of(self.text(), best_pieces(g, w, self.end()), fuse));
            return Some((tokens, Single::zero()));
        }
        let mut best_score: Vec<Single> = filled(self.len, Single::neg_infinity());
        let mut link_start: Vec<usize> = filled(self.len, usize::MAX);
        let mut link_id: Vec<usize> = filled(self.len, 0);
        best_score.set(0, Single::zero());
        let mut s: usize = 0;
        while s < self.len
            invariant
                self.wf(),
                self.weighted(w),
                w == (Weighting { weights: weights@, unk_id, unk_score }),
                g == self.graph(),
                s <= self.len,
                best_score@.len() == self.len + 1,
                link_start@.len() == self.len + 1,
                link_id@.len() == self.len + 1,
                forall|e: int|
                    0 <= e <= self.len ==> holds(
                        scan(g, best_init(), best_step(w), e, s as int, 0),
                        #[trigger] best_score@[e],
                        link_start@[e],
                        link_id@[e],
                    ),
            decreases self.len - s,
        {
            let base: Single = best_score[s];
            let row: &Vec<(usize, usize)> = &self.edges[s];
            assert(row@ == g[s as int]);
            if !base.is_neg_infinity() {
                let mut k: usize = 0;
                while k < row.len()
                    invariant
                        self.wf(),
                        self.weighted(w),
                        w == (Weighting { weights: weights@, unk_id, unk_score }),
                        g == self.graph(),
                        s < self.len,
                        row@ == g[s as int],
                        k <= row@.len(),
                        best_score@.len() == self.len + 1,
                        link_start@.len() == self.len + 1,
                        link_id@.len() == self.len + 1,
                        base == best(g, w, s as int).score,
                        base.bits != SINGLE_NEG_INFINITY,
                        forall|e: int|
                            0 <= e <= self.len ==> holds(
                                scan(g, best_init(), best_step(w), e, s as int, k as int),
                                #[trigger] best_score@[e],
                                link_start@[e],
                                link_id@[e],
                            ),
                    decreases row.len() - k,
                {
                    let (e, id) = row[k];
                    assert(g[s as int][k as int] == (e, id));
                    let weight: Single = if id == unk_id {
                        unk_score
                    } else {
                        weights[id]
                    };
                    let score: Single = base.add(&weight);
                    if score.gt(&best_score[e]) {
                        best_score.set(e, score);
                        link_start.set(e, s);
                        link_id.set(e, id);
                    }
                    k = k + 1;
                }
            } else {
                proof {
                    lemma_unreached_is_idle(g, w, s as int);
                }
            }
            s = s + 1;
        }
        proof {
            let _ = best_score@[self.len as int];
        }
        if best_score[self.len].is_neg_infinity() {
            return None;
        }
        let ghost good = |x: int|
            0 <= x <= self.len && best(g, w, x).score.bits != SINGLE_NEG_INFINITY;
        proof {
            assert forall|x: int| #[trigger] good(x) && 0 < x <= self.len implies link_start@[x] < x
                && good(link_start@[x] as int) && link_start@[x] == best(g, w, x).start && link_id@[x]
                == best(g, w, x).id by {
                lemma_settled(g, best_init(), best_step(w), x, self.len as int, 0);
                let _ = best_score@[x];
                lemma_best_link(g, w, x);
            }
        }
        let pieces: Vec<Piece> = backtrace(&link_start, &link_id, self.len, Ghost(good));
        proof {
            lemma_best_is_chain(self.text(), g, w);
            lemma_same_trace(
                table_links(link_start@, link_id@),
                best_links(g, w),
                good,
                self.len as int,
            );
        }
        let tokens: Vec<String> = build_tokens(self.sentence, &pieces, fuse);
        Some((tokens, best_score[self.len]))
    }
}

/// The edges from a place that is not reached change nothing.
proof fn lemma_unreached_is_idle(edges: Edges, w: Weighting, start: int)
    requires
        0 <= start < edges.len(),
        best(edges, w, start).score.bits == SINGLE_NEG_INFINITY,
    ensures
        forall|end: int|
            0 <= end ==> scan(
                edges,
                best_init(),
                best_step(w),
                end,
                start,
                edges[start].len() as int,
            ) == #[trigger] scan(edges, best_init(), best_step(w), end, start, 0),
{
    let taken = edges[start].len() as int;
    assert forall|end: int| 0 <= end implies scan(
        edges,
        best_init(),
        best_step(w),
        end,
        start,
        taken,
    ) == #[trigger] scan(edges, best_init(), best_step(w), end, start, 0) by {
        lemma_idle(edges, best_init(), best_step(w), end, start, taken);
    }
}

/// The entries of the tables agree with what is known of a place.
spec fn holds(known: Best, score: Single, start: usize, id: usize) -> bool {
    &&& known.score == score
    &&& known.id == id
    &&& known.start == start || known.start == -1 && start == usize::MAX
}

/// The last edge of the best way to a place is an edge, and comes from a place that is reached.
pub open spec fn is_best_link(edges: Edges, w: Weighting, end: int, known: Best) -> bool {
    let source = best(edges, w, known.start);
    &&& 0 <= known.start < end
    &&& source.score.bits != SINGLE_NEG_INFINITY
    &&& known.score == source.score.plus(w.weight(known.id))
    &&& known.score.bits != SINGLE_NEG_INFINITY
    &&& known.count == source.count + 1
    &&& exists|k: int|
        0 <= k < edges[known.start].len() && #[trigger] edges[known.start][k] == (
            end as usize,
            known.id,
        )
}

proof fn lemma_best_link_at(edges: Edges, w: Weighting, end: int, start: int, taken: int)
    requires
        0 <= end <= usize::MAX,
        0 <= start < edges.len(),
        0 <= taken <= edges[start].len(),
    ensures
        ({
            let known = scan(edges, best_init(), best_step(w), end, start, taken);
            known == best_init()(end) || is_best_link(edges, w, end, known)
        }),
    decreases start, taken,
{
    if taken > 0 {
        lemma_best_link_at(edges, w, end, start, taken - 1);
        let before = scan(edges, best_init(), best_step(w), end, start, taken - 1);
        let known = scan(edges, best_init(), best_step(w), end, start, taken);
        let (to, id) = edges[start][taken - 1];
        if known != before {
            assert(best(edges, w, start) == scan(edges, best_init(), best_step(w), start, start, 0));
            crate::single::lemma_exceeds_is_above(known.score, before.score);
            assert(edges[known.start][taken - 1] == (end as usize, known.id));
        }
    } else if start > 0 {
        lemma_best_link_at(edges, w, end, start - 1, edges[start - 1].len() as int);
    }
}

/// Where a place other than the beginning is reached, its link is in order.
pub proof fn lemma_best_link(edges: Edges, w: Weighting, end: int)
    requires
        0 < end <= usize::MAX,
        end < edges.len(),
        best(edges, w, end).score.bits != SINGLE_NEG_INFINITY,
    ensures
        is_best_link(edges, w, end, best(edges, w, end)),
{
    lemma_best_link_at(edges, w, end, end, 0);
}

proof fn lemma_best_not_negative_zero(edges: Edges, w: Weighting, end: int, start: int, taken: int)
    requires
        0 <= end,
        0 <= start,
        0 <= taken,
    ensures
        scan(edges, best_init(), best_step(w), end, start, taken).score.bits != 0x8000_0000,
        !scan(edges, best_init(), best_step(w), end, start, taken).score.nan(),
    decreases end, start, taken,
{
    if taken > 0 {
        lemma_best_not_negative_zero(edges, w, end, start, taken - 1);
        let before = scan(edges, best_init(), best_step(w), end, start, taken - 1);
        let known = scan(edges, best_init(), best_step(w), end, start, taken);
        if start < end && known != before {
            lemma_best_not_negative_zero(edges, w, start, start, 0);
            let source = scan(edges, best_init(), best_step(w), start, start, 0);
            crate::single::lemma_plus_not_negative_zero(
                source.score,
                w.weight(edges[start][taken - 1].1),
            );
            crate::single::lemma_exceeds_is_above(known.score, before.score);
        }
    } else if start > 0 {
        lemma_best_not_negative_zero(edges, w, end, start - 1, edges[start - 1].len() as int);
    }
}

/// A place other than the beginning that is reached is reached by at least one edge.
pub proof fn lemma_best_count(edges: Edges, w: Weighting, end: int, start: int, taken: int)
    requires
        0 < end,
        0 <= start,
        0 <= taken,
    ensures
        ({
            let known = scan(edges, best_init(), best_step(w), end, start, taken);
            known.score.bits != SINGLE_NEG_INFINITY ==> known.count > 0
        }),
    decreases start, taken,
{
    if taken > 0 {
        lemma_best_count(edges, w, end, start, taken - 1);
    } else if start > 0 {
        lemma_best_count(edges, w, end, start - 1, edges[start - 1].len() as int);
    }
}

/// Adding positive zero to a best score changes nothing.
pub proof fn lemma_best_plus_zero(edges: Edges, w: Weighting, end: int)
    requires
        0 <= end,
    ensures
        best(edges, w, end).score.plus(Single { bits: 0 }) == best(edges, w, end).score,
{
    lemma_best_not_negative_zero(edges, w, end, end, 0);
    crate::single::lemma_plus_zero(best(edges, w, end).score);
}

/// Where there is a best segmentation, it covers the sentence.
pub proof fn lemma_best_is_chain(text: Seq<char>, g: Edges, w: Weighting)
    requires
        leads_forward(g, encode_utf8(text).len() as int),
        between_chars(encode_utf8(text), g),
        encode_utf8(text).len() <= usize::MAX,
        best(g, w, encode_utf8(text).len() as int).score.bits != SINGLE_NEG_INFINITY,
    ensures
        is_chain(
            encode_utf8(text),
            best_pieces(g, w, encode_utf8(text).len() as int),
            encode_utf8(text).len() as int,
        ),
{
    let bytes = encode_utf8(text);
    let end = bytes.len() as int;
    let good = |x: int| 0 <= x <= end && best(g, w, x).score.bits != SINGLE_NEG_INFINITY;
    let link = best_links(g, w);
    vstd::utf8::encode_utf8_valid_utf8(text);
    assert forall|x: int| #[trigger] good(x) implies boundary(bytes, x) by {
        if x == 0 {
            vstd::utf8::is_char_boundary_start_end_of_seq(bytes);
            crate::sentence::lemma_boundary(bytes, 0);
        } else {
            lemma_best_link(g, w, x);
            let known = best(g, w, x);
            let k = choose|k: int|
                0 <= k < g[known.start].len() && #[trigger] g[known.start][k] == (
                    x as usize,
                    known.id,
                );
            assert(g[known.start][k].0 == x);
        }
    }
    assert forall|x: int| #[trigger] good(x) && x > 0 implies 0 <= link(x).0 < x && good(
        link(x).0,
    ) by {
        lemma_best_link(g, w, x);
    }
    lemma_trace_is_chain(bytes, link, good, end);
}

} // verus!
