//! How what is known of a place follows from what is known of the places before it.

use crate::double::Double;
use crate::encoding::{
    fallback_wins, lemma_reached, node, node_init, node_step, optimized, Encoder,
};
use crate::encoding_laws::{best_way, raw_links};
use crate::error::UnigramError;
use crate::prepared_dp::{
    best, best_init, best_links, best_pieces, best_step, forward, forward_init, forward_step,
    lemma_best_link, log_sum_exp, Weighting,
};
use crate::scan::{scan, settled, Edges};
use crate::segmentation::Piece;
use crate::sentence::{boundary, char_len, lemma_boundary, lemma_char_step};
use crate::single::{Single, SINGLE_NEG_INFINITY};
use crate::vocabulary::{edges_at, has_bytes, has_single, lemma_token_edges, token_edges};
use vstd::prelude::*;
use vstd::utf8::{encode_utf8, encode_utf8_valid_utf8, is_char_boundary, valid_utf8};

verus! {

/// The edge leads to a place.
pub open spec fn leads_to(end: int) -> spec_fn((usize, usize)) -> bool {
    |edge: (usize, usize)| edge.0 == end
}

/// The edges of a row that lead to a place, in their order: where each comes from, and its id.
pub open spec fn arriving_from(row: Seq<(usize, usize)>, start: int, end: int) -> Seq<(int, usize)> {
    row.filter(leads_to(end)).map_values(
        |edge: (usize, usize)| (start, edge.1),
    )
}

/// The edges that lead to a place from places before `start`, in their order: where each comes
/// from, and its id.
pub open spec fn arrivals(edges: Edges, end: int, start: int) -> Seq<(int, usize)>
    decreases start,
{
    if start <= 0 {
        seq![]
    } else {
        arrivals(edges, end, start - 1) + arriving_from(edges[start - 1], start - 1, end)
    }
}

proof fn lemma_scan_is_fold<C>(
    edges: Edges,
    init: spec_fn(int) -> C,
    step: spec_fn(C, C, int, usize) -> C,
    end: int,
    start: int,
    taken: int,
)
    requires
        0 <= start <= end,
        start < edges.len(),
        0 <= taken <= edges[start].len(),
        start == end ==> taken == 0,
    ensures
        scan(edges, init, step, end, start, taken) == (arrivals(edges, end, start) + arriving_from(
            edges[start].take(taken),
            start,
            end,
        )).fold_left(
            init(end),
            |target: C, from: (int, usize)|
                step(target, settled(edges, init, step, from.0), from.0, from.1),
        ),
    decreases start, taken,
{
    reveal(Seq::filter);
    let join = |target: C, from: (int, usize)|
        step(target, settled(edges, init, step, from.0), from.0, from.1);
    let row = edges[start];
    if taken > 0 {
        lemma_scan_is_fold(edges, init, step, end, start, taken - 1);
        let shorter = arrivals(edges, end, start) + arriving_from(row.take(taken - 1), start, end);
        let longer = arrivals(edges, end, start) + arriving_from(row.take(taken), start, end);
        assert(row.take(taken).drop_last() =~= row.take(taken - 1));
        assert(row.take(taken).last() == row[taken - 1]);
        let (to, id) = row[taken - 1];
        if to == end {
            assert(longer =~= shorter.push((start, id)));
            assert(longer.drop_last() =~= shorter);
        } else {
            assert(longer =~= shorter);
        }
    } else {
        assert(arriving_from(row.take(0), start, end) =~= Seq::<(int, usize)>::empty());
        assert(arrivals(edges, end, start) + arriving_from(row.take(0), start, end) =~= arrivals(
            edges,
            end,
            start,
        ));
        if start > 0 {
            let before = edges[start - 1];
            lemma_scan_is_fold(edges, init, step, end, start - 1, before.len() as int);
            assert(before.take(before.len() as int) =~= before);
        }
    }
}

/// Two folds over the same list by functions that agree are the same.
proof fn lemma_same_fold<A, B>(list: Seq<A>, b: B, f: spec_fn(B, A) -> B, g: spec_fn(B, A) -> B)
    requires
        forall|x: B, a: A| #[trigger] f(x, a) == g(x, a),
    ensures
        list.fold_left(b, f) == list.fold_left(b, g),
    decreases list.len(),
{
    if list.len() > 0 {
        lemma_same_fold(list.drop_last(), b, f, g);
        assert(f(list.drop_last().fold_left(b, f), list.last()) == g(
            list.drop_last().fold_left(b, f),
            list.last(),
        ));
    }
}

/// The log-sum-exp of two numbers above negative infinity: the larger, and what the function gives
/// for the difference of the smaller from the larger.
pub proof fn law_log_sum_exp_formula(log_1p_exp: spec_fn(Single) -> Single, a: Single, b: Single)
    requires
        a.bits != SINGLE_NEG_INFINITY,
        b.bits != SINGLE_NEG_INFINITY,
    ensures
        a.exceeds(b) ==> log_sum_exp(log_1p_exp, a, b) == a.plus(log_1p_exp(b.plus(a.negated()))),
        !a.exceeds(b) ==> log_sum_exp(log_1p_exp, a, b) == b.plus(log_1p_exp(a.plus(b.negated()))),
{
}

/// The forward score of a place is the log-sum-exp, one after the other, of the scores with which
/// all edges arrive there: the forward score of where each comes from, with its weight added.
/// Nothing arrives from places that are not reached. The beginning has the score zero.
pub proof fn law_forward_of_arrivals(
    log_1p_exp: spec_fn(Single) -> Single,
    edges: Edges,
    w: Weighting,
    end: int,
)
    requires
        0 <= end < edges.len(),
    ensures
        end == 0 ==> forward(log_1p_exp, edges, w, end).bits == 0,
        end > 0 ==> forward(log_1p_exp, edges, w, end) == arrivals(edges, end, end).fold_left(
            Single { bits: SINGLE_NEG_INFINITY },
            |sum: Single, from: (int, usize)|
                if forward(log_1p_exp, edges, w, from.0).bits == SINGLE_NEG_INFINITY {
                    sum
                } else {
                    log_sum_exp(
                        log_1p_exp,
                        sum,
                        forward(log_1p_exp, edges, w, from.0).plus(w.weight(from.1)),
                    )
                },
        ),
{
    let step = forward_step(log_1p_exp, w);
    lemma_scan_is_fold(edges, forward_init(), step, end, end, 0);
    reveal(Seq::filter);
    assert(arriving_from(edges[end].take(0), end, end) =~= Seq::<(int, usize)>::empty());
    assert(arrivals(edges, end, end) + arriving_from(edges[end].take(0), end, end) =~= arrivals(
        edges,
        end,
        end,
    ));
    let f = |target: Single, from: (int, usize)|
        step(target, settled(edges, forward_init(), step, from.0), from.0, from.1);
    let g = |sum: Single, from: (int, usize)|
        if forward(log_1p_exp, edges, w, from.0).bits == SINGLE_NEG_INFINITY {
            sum
        } else {
            log_sum_exp(
                log_1p_exp,
                sum,
                forward(log_1p_exp, edges, w, from.0).plus(w.weight(from.1)),
            )
        };
    assert forall|x: Single, a: (int, usize)| #[trigger] f(x, a) == g(x, a) by {}
    lemma_same_fold(arrivals(edges, end, end), forward_init()(end), f, g);
}

/// The score of the best way to a place is the largest, by comparing one after the other, of the
/// scores with which all edges arrive there.
pub proof fn law_best_of_arrivals(edges: Edges, w: Weighting, end: int)
    requires
        0 <= end < edges.len(),
    ensures
        end == 0 ==> best(edges, w, end).score.bits == 0 && best(edges, w, end).count == 0,
        end > 0 ==> (best(edges, w, end).score, best(edges, w, end).count, best(edges, w, end).start,
            best(edges, w, end).id) == arrivals(edges, end, end).fold_left(
            (Single { bits: SINGLE_NEG_INFINITY }, 0nat, -1int, 0usize),
            |known: (Single, nat, int, usize), from: (int, usize)|
                {
                    let source = best(edges, w, from.0);
                    let score = source.score.plus(w.weight(from.1));
                    if source.score.bits != SINGLE_NEG_INFINITY && score.exceeds(known.0) {
                        (score, source.count + 1, from.0, from.1)
                    } else {
                        known
                    }
                },
        ),
{
    let step = best_step(w);
    lemma_scan_is_fold(edges, best_init(), step, end, end, 0);
    reveal(Seq::filter);
    assert(arriving_from(edges[end].take(0), end, end) =~= Seq::<(int, usize)>::empty());
    let list = arrivals(edges, end, end);
    assert(list + arriving_from(edges[end].take(0), end, end) =~= list);
    if end > 0 {
        lemma_best_fold(edges, w, list, end);
    }
}

proof fn lemma_best_fold(edges: Edges, w: Weighting, list: Seq<(int, usize)>, end: int)
    requires
        end > 0,
    ensures
        ({
            let step = best_step(w);
            let known = list.fold_left(
                best_init()(end),
                |target: crate::prepared_dp::Best, from: (int, usize)|
                    step(target, settled(edges, best_init(), step, from.0), from.0, from.1),
            );
            (known.score, known.count, known.start, known.id) == list.fold_left(
                (Single { bits: SINGLE_NEG_INFINITY }, 0nat, -1int, 0usize),
                |known: (Single, nat, int, usize), from: (int, usize)|
                    {
                        let source = best(edges, w, from.0);
                        let score = source.score.plus(w.weight(from.1));
                        if source.score.bits != SINGLE_NEG_INFINITY && score.exceeds(known.0) {
                            (score, source.count + 1, from.0, from.1)
                        } else {
                            known
                        }
                    },
            )
        }),
    decreases list.len(),
{
    if list.len() > 0 {
        lemma_best_fold(edges, w, list.drop_last(), end);
    }
}

/// What the encoding in one pass knows of a place: the first edge that arrives is taken; after
/// that, each that arrives with a larger score than the one before.
pub proof fn law_node_of_arrivals(encoder: Encoder, bytes: Seq<u8>, end: int)
    requires
        0 <= end < encoder.graph(bytes).len(),
    ensures
        end == 0 ==> node(encoder, bytes, end).score.bits == 0,
        (node(encoder, bytes, end).score, node(encoder, bytes, end).start, node(
            encoder,
            bytes,
            end,
        ).id) == arrivals(encoder.graph(bytes), end, end).fold_left(
            (Double { bits: 0 }, -1int, 0usize),
            |known: (Double, int, usize), from: (int, usize)|
                {
                    let score = encoder.weight(from.1).plus(node(encoder, bytes, from.0).score);
                    if known.1 < 0 || score.exceeds(known.0) {
                        (score, from.0, from.1)
                    } else {
                        known
                    }
                },
        ),
{
    let g = encoder.graph(bytes);
    let step = node_step(encoder);
    lemma_scan_is_fold(g, node_init(), step, end, end, 0);
    reveal(Seq::filter);
    assert(arriving_from(g[end].take(0), end, end) =~= Seq::<(int, usize)>::empty());
    let list = arrivals(g, end, end);
    assert(list + arriving_from(g[end].take(0), end, end) =~= list);
    lemma_node_fold(encoder, bytes, list, end);
}

proof fn lemma_node_fold(encoder: Encoder, bytes: Seq<u8>, list: Seq<(int, usize)>, end: int)
    ensures
        ({
            let step = node_step(encoder);
            let g = encoder.graph(bytes);
            let known = list.fold_left(
                node_init()(end),
                |target: crate::encoding::Node, from: (int, usize)|
                    step(target, settled(g, node_init(), step, from.0), from.0, from.1),
            );
            (known.score, known.start, known.id) == list.fold_left(
                (Double { bits: 0 }, -1int, 0usize),
                |known: (Double, int, usize), from: (int, usize)|
                    {
                        let score = encoder.weight(from.1).plus(node(encoder, bytes, from.0).score);
                        if known.1 < 0 || score.exceeds(known.0) {
                            (score, from.0, from.1)
                        } else {
                            known
                        }
                    },
            )
        }),
    decreases list.len(),
{
    if list.len() > 0 {
        lemma_node_fold(encoder, bytes, list.drop_last(), end);
    }
}

/// The edges that lead to a place are all listed among its arrivals, and nothing else is.
pub proof fn law_arrivals_are_edges(edges: Edges, end: usize, start: int)
    requires
        0 <= start <= edges.len(),
    ensures
        forall|s: int, id: usize| #[trigger]
            arrivals(edges, end as int, start).contains((s, id)) <==> 0 <= s < start
                && edges[s].contains((end, id)),
    decreases start,
{
    if start > 0 {
        law_arrivals_are_edges(edges, end, start - 1);
        let earlier = arrivals(edges, end as int, start - 1);
        let row = edges[start - 1];
        let pred = leads_to(end as int);
        let kept = row.filter(pred);
        let more = arriving_from(row, start - 1, end as int);
        let all = arrivals(edges, end as int, start);
        assert forall|s: int, id: usize| #[trigger] all.contains((s, id)) implies 0 <= s < start
            && edges[s].contains((end, id)) by {
            let i = choose|i: int| 0 <= i < all.len() && all[i] == (s, id);
            if i < earlier.len() {
                assert(earlier[i] == (s, id));
                assert(earlier.contains((s, id)));
            } else {
                let k = i - earlier.len();
                assert(more[k] == (s, id));
                row.lemma_filter_contains_rev(pred, kept[k]);
                row.lemma_filter_pred(pred, k);
                assert(row.contains(kept[k]));
                assert(kept[k] == (end, id));
            }
        }
        assert forall|s: int, id: usize|
            0 <= s < start && edges[s].contains((end, id)) implies #[trigger] all.contains((s, id)) by {
            if s < start - 1 {
                assert(earlier.contains((s, id)));
                let i = choose|i: int| 0 <= i < earlier.len() && earlier[i] == (s, id);
                assert(all[i] == (s, id));
            } else {
                let i = choose|i: int| 0 <= i < row.len() && row[i] == (end, id);
                row.lemma_filter_contains(pred, i);
                assert(kept.contains((end, id)));
                let k = choose|k: int| 0 <= k < kept.len() && kept[k] == (end, id);
                assert(more[k] == (s, id));
                assert(all[earlier.len() + k] == (s, id));
            }
        }
    }
}

/// The segmentation of the best way to a place: that of the place where its last edge starts, and
/// the piece of that edge.
pub proof fn law_best_pieces_follow_links(edges: Edges, w: Weighting, end: int)
    requires
        0 <= end < edges.len(),
        edges.len() <= usize::MAX,
    ensures
        end == 0 ==> best_pieces(edges, w, end).len() == 0,
        end > 0 && best(edges, w, end).score.bits != SINGLE_NEG_INFINITY ==> {
            let known = best(edges, w, end);
            &&& 0 <= known.start < end
            &&& best_pieces(edges, w, end) == best_pieces(edges, w, known.start).push(
                Piece { start: known.start as usize, end: end as usize, id: known.id },
            )
        },
{
    if end > 0 && best(edges, w, end).score.bits != SINGLE_NEG_INFINITY {
        lemma_best_link(edges, w, end);
        let known = best(edges, w, end);
        assert(best_links(edges, w)(end) == (known.start, known.id));
    }
}

/// The way that the encoding in one pass takes to a place: that to the place where its last edge
/// starts, and the piece of that edge.
pub proof fn law_best_way_follows_links(encoder: Encoder, bytes: Seq<u8>, end: int)
    requires
        encoder.wf(),
        valid_utf8(bytes),
        bytes.len() <= usize::MAX,
        is_char_boundary(bytes, end),
    ensures
        end == 0 ==> best_way(encoder, bytes, end).len() == 0,
        end > 0 ==> {
            let known = node(encoder, bytes, end);
            &&& 0 <= known.start < end
            &&& is_char_boundary(bytes, known.start)
            &&& best_way(encoder, bytes, end) == best_way(encoder, bytes, known.start).push(
                Piece { start: known.start as usize, end: end as usize, id: known.id },
            )
        },
{
    lemma_boundary(bytes, end);
    if end > 0 {
        lemma_reached(encoder, bytes, end);
        let known = node(encoder, bytes, end);
        lemma_boundary(bytes, known.start);
        assert(raw_links(encoder, bytes)(end) == (known.start, known.id));
    }
}

/// An unknown character from byte `s` to byte `e` would be taken: no token arrives at its end from
/// before it, or it arrives there with a larger score than the one that is taken until then.
pub open spec fn unknown_is_taken(encoder: Encoder, bytes: Seq<u8>, s: int, e: int) -> bool {
    let known = arrivals(encoder.graph(bytes), e, s).fold_left(
        (Double { bits: 0 }, -1int),
        |known: (Double, int), from: (int, usize)|
            {
                let score = encoder.weight(from.1).plus(node(encoder, bytes, from.0).score);
                if known.1 < 0 || score.exceeds(known.0) {
                    (score, from.0)
                } else {
                    known
                }
            },
    );
    &&& is_char_boundary(bytes, s)
    &&& is_char_boundary(bytes, e)
    &&& 0 <= s < e <= bytes.len()
    &&& forall|x: int| s < x < e ==> !(#[trigger] is_char_boundary(bytes, x))
    &&& forall|i: int|
        0 <= i < encoder.vocab.len() ==> encode_utf8((#[trigger] encoder.vocab[i]).0)
            != bytes.subrange(s, e)
    &&& known.1 < 0 || encoder.min_score.plus(Double { bits: 0xc024_0000_0000_0000 }).plus(
        node(encoder, bytes, s).score,
    ).exceeds(known.0)
}

/// The encoding in one pass fails exactly where there is no id for unknown characters and one of
/// them would be taken.
pub proof fn law_missing_unk(encoder: Encoder, sentence: Seq<char>)
    requires
        encoder.wf(),
        encode_utf8(sentence).len() <= usize::MAX,
    ensures
        optimized(encoder, sentence) is Err <==> encoder.unk_id is None && exists|s: int, e: int|
            #[trigger] unknown_is_taken(encoder, encode_utf8(sentence), s, e),
        optimized(encoder, sentence) matches Err(error) ==> error == UnigramError::MissingUnkId,
{
    let bytes = encode_utf8(sentence);
    encode_utf8_valid_utf8(sentence);
    if exists|s: int| #[trigger] fallback_wins(encoder, bytes, s) {
        let s = choose|s: int| #[trigger] fallback_wins(encoder, bytes, s);
        lemma_char_step(bytes, s);
        let e = s + char_len(bytes, s);
        lemma_fallback_taken(encoder, bytes, s, e);
        assert(unknown_is_taken(encoder, bytes, s, e));
    }
    if exists|s: int, e: int| #[trigger] unknown_is_taken(encoder, bytes, s, e) {
        let (s, e) = choose|s: int, e: int| #[trigger] unknown_is_taken(encoder, bytes, s, e);
        lemma_boundary(bytes, s);
        lemma_boundary(bytes, e);
        lemma_char_step(bytes, s);
        let next = s + char_len(bytes, s);
        lemma_boundary(bytes, next);
        assert(next == e) by {
            if next < e {
                assert(!is_char_boundary(bytes, next));
            }
            if e < next {
                assert(!boundary(bytes, e));
            }
        }
        lemma_fallback_taken(encoder, bytes, s, e);
        assert(fallback_wins(encoder, bytes, s));
    }
}

proof fn lemma_fallback_taken(encoder: Encoder, bytes: Seq<u8>, s: int, e: int)
    requires
        encoder.wf(),
        valid_utf8(bytes),
        bytes.len() <= usize::MAX,
        boundary(bytes, s),
        0 <= s < bytes.len(),
        e == s + char_len(bytes, s),
    ensures
        fallback_wins(encoder, bytes, s) <==> unknown_is_taken(encoder, bytes, s, e),
{
    let g = encoder.graph(bytes);
    let vocab = encoder.vocab;
    let tokens = token_edges(vocab, bytes, s);
    let taken = tokens.len() as int;
    let row = edges_at(vocab, Some(encoder.fallback()), bytes, s);
    assert(g[s] == row);
    lemma_char_step(bytes, s);
    lemma_token_edges(vocab, bytes, s);
    lemma_boundary(bytes, s);
    lemma_boundary(bytes, e);
    assert forall|x: int| s < x < e implies !(#[trigger] is_char_boundary(bytes, x)) by {
        lemma_boundary(bytes, x);
    }
    let word = bytes.subrange(s, e);
    assert(has_single(vocab, bytes, s) <==> !(forall|i: int|
        0 <= i < vocab.len() ==> encode_utf8((#[trigger] vocab[i]).0) != word)) by {
        if has_single(vocab, bytes, s) {
            let i = choose|i: int| 0 <= i < vocab.len() && #[trigger] has_bytes(vocab, i, word);
            assert(encode_utf8(vocab[i].0) == word);
        }
        if !(forall|i: int| 0 <= i < vocab.len() ==> encode_utf8((#[trigger] vocab[i]).0) != word) {
            let i = choose|i: int| 0 <= i < vocab.len() && encode_utf8((#[trigger] vocab[i]).0) == word;
            assert(has_bytes(vocab, i, word));
        }
    }
    if !has_single(vocab, bytes, s) {
        lemma_scan_is_fold(g, node_init(), node_step(encoder), e, s, taken);
        assert(row.take(taken) =~= tokens);
        // No token from this place leads to the end of the character.
        let none = arriving_from(tokens, s, e);
        lemma_nothing_arrives(tokens, s, e);
        let list = arrivals(g, e, s);
        assert(list + none =~= list);
        lemma_node_fold(encoder, bytes, list, e);
        lemma_node_pairs(encoder, bytes, list);
    }
}

proof fn lemma_nothing_arrives(row: Seq<(usize, usize)>, start: int, end: int)
    requires
        forall|k: int| 0 <= k < row.len() ==> (#[trigger] row[k]).0 != end,
    ensures
        arriving_from(row, start, end).len() == 0,
    decreases row.len(),
{
    reveal(Seq::filter);
    if row.len() > 0 {
        let shorter = row.drop_last();
        assert forall|k: int| 0 <= k < shorter.len() implies (#[trigger] shorter[k]).0 != end by {
            assert(shorter[k] == row[k]);
        }
        lemma_nothing_arrives(shorter, start, end);
        assert(row.last() == row[row.len() - 1]);
    }
}

/// What is known of a place, without the id of its last edge.
proof fn lemma_node_pairs(encoder: Encoder, bytes: Seq<u8>, list: Seq<(int, usize)>)
    ensures
        ({
            let full = list.fold_left(
                (Double { bits: 0 }, -1int, 0usize),
                |known: (Double, int, usize), from: (int, usize)|
                    {
                        let score = encoder.weight(from.1).plus(node(encoder, bytes, from.0).score);
                        if known.1 < 0 || score.exceeds(known.0) {
                            (score, from.0, from.1)
                        } else {
                            known
                        }
                    },
            );
            (full.0, full.1) == list.fold_left(
                (Double { bits: 0 }, -1int),
                |known: (Double, int), from: (int, usize)|
                    {
                        let score = encoder.weight(from.1).plus(node(encoder, bytes, from.0).score);
                        if known.1 < 0 || score.exceeds(known.0) {
                            (score, from.0)
                        } else {
                            known
                        }
                    },
            )
        }),
    decreases list.len(),
{
    if list.len() > 0 {
        lemma_node_pairs(encoder, bytes, list.drop_last());
    }
}

} // verus!
