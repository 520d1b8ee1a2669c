//! Which nodes the lattice of a sentence has, in terms of the vocabulary and the text alone, and how
//! the way through a lattice follows from its nodes.

use crate::agreement::lemma_entry_source;
use crate::double::Double;
use crate::encoding::Encoder;
use crate::graph_laws::{
    law_edges_are_exact, law_every_token_has_an_edge, law_every_unknown_character_has_an_edge,
    lemma_edge_is_sound,
};
use crate::lattice::{
    backtrace_score, before, begins, best_nodes, blocked, blocked_at, ends, is_lattice, left,
    left_among, lemma_before, lemma_begins, lemma_ends, lemma_unblocked_left, way_to, Choice, Entry,
};
use crate::lattice_encoding::lemma_entry_place;
use crate::sentence::lemma_boundary;
use crate::vocabulary::{edges_at, graph};
use vstd::prelude::*;
use vstd::utf8::{encode_utf8, is_char_boundary, valid_utf8};

verus! {

/// The entry stands for a token that is at its place in the text, with the id of the token's last
/// entry in the vocabulary and its score.
pub open spec fn is_token_entry(encoder: Encoder, bytes: Seq<u8>, entry: Entry) -> bool {
    let vocab = encoder.vocab;
    &&& 0 <= entry.pos < entry.pos + entry.length <= bytes.len()
    &&& is_char_boundary(bytes, entry.pos)
    &&& entry.id < vocab.len()
    &&& encode_utf8(vocab[entry.id as int].0) == bytes.subrange(
        entry.pos,
        entry.pos + entry.length,
    )
    &&& forall|j: int|
        entry.id < j < vocab.len() ==> (#[trigger] vocab[j]).0 != vocab[entry.id as int].0
    &&& entry.score == vocab[entry.id as int].1
}

/// The entry stands for a character that no token is, with the unknown id and ten less than the
/// lowest score.
pub open spec fn is_unknown_entry(encoder: Encoder, bytes: Seq<u8>, entry: Entry) -> bool {
    &&& 0 <= entry.pos < entry.pos + entry.length <= bytes.len()
    &&& is_char_boundary(bytes, entry.pos)
    &&& is_char_boundary(bytes, entry.pos + entry.length)
    &&& forall|x: int|
        entry.pos < x < entry.pos + entry.length ==> !(#[trigger] is_char_boundary(bytes, x))
    &&& forall|i: int|
        0 <= i < encoder.vocab.len() ==> encode_utf8((#[trigger] encoder.vocab[i]).0)
            != bytes.subrange(entry.pos, entry.pos + entry.length)
    &&& encoder.unk_id == Some(entry.id)
    &&& entry.score == encoder.min_score.plus(Double { bits: 0xc024_0000_0000_0000 })
}

/// What a sentence adds to its lattice: exactly one entry for each token at each place where it
/// stands and, where the model has an id for them, for each character that is no token.
pub proof fn law_lattice_entries(encoder: Encoder, bytes: Seq<u8>)
    requires
        encoder.wf(),
        valid_utf8(bytes),
        bytes.len() <= usize::MAX,
    ensures
        forall|entry: Entry| #[trigger]
            encoder.entries_before(bytes, bytes.len() as int).contains(entry) <==> (is_token_entry(
                encoder,
                bytes,
                entry,
            ) || is_unknown_entry(encoder, bytes, entry)),
{
    let all = encoder.entries_before(bytes, bytes.len() as int);
    let vocab = encoder.vocab;
    let unk = encoder.known_fallback();
    assert forall|entry: Entry| #[trigger] all.contains(entry) implies (is_token_entry(
        encoder,
        bytes,
        entry,
    ) || is_unknown_entry(encoder, bytes, entry)) by {
        let n = choose|n: int| 0 <= n < all.len() && all[n] == entry;
        let (s, k) = lemma_entry_source(encoder, bytes, n, bytes.len() as int);
        let row = edges_at(vocab, unk, bytes, s);
        assert(graph(vocab, unk, bytes)[s] == row);
        lemma_edge_is_sound(vocab, unk, bytes, s, k);
    }
    assert forall|entry: Entry|
        is_token_entry(encoder, bytes, entry) implies #[trigger] all.contains(entry) by {
        let s = entry.pos;
        let k = law_every_token_has_an_edge(
            vocab,
            unk,
            bytes,
            s,
            s + entry.length,
            entry.id as int,
        );
        let row = edges_at(vocab, unk, bytes, s);
        assert(graph(vocab, unk, bytes)[s] == row);
        let found = row[k].1 as int;
        if found > entry.id {
            assert(vocab[found].0 != vocab[entry.id as int].0);
        }
        if entry.id > found {
            assert(vocab[entry.id as int].0 != vocab[entry.id as int].0);
        }
        let n = lemma_entry_place(encoder, bytes, s, k, bytes.len() as int);
        assert(all[n] == entry);
    }
    assert forall|entry: Entry|
        is_unknown_entry(encoder, bytes, entry) implies #[trigger] all.contains(entry) by {
        let s = entry.pos;
        let k = law_every_unknown_character_has_an_edge(vocab, unk, bytes, s, s + entry.length);
        let row = edges_at(vocab, unk, bytes, s);
        assert(graph(vocab, unk, bytes)[s] == row);
        let n = lemma_entry_place(encoder, bytes, s, k, bytes.len() as int);
        assert(all[n] == entry);
    }
}

/// Entry `j` comes after entry `i`: it begins later, or at the same place and is longer, or it is
/// a character that no token is.
pub open spec fn comes_after(encoder: Encoder, bytes: Seq<u8>, entries: Seq<Entry>, i: int, j: int) -> bool {
    ||| entries[i].pos < entries[j].pos
    ||| {
        &&& entries[i].pos == entries[j].pos
        &&& entries[i].length != entries[j].length
        &&& entries[i].length < entries[j].length || is_unknown_entry(encoder, bytes, entries[j])
    }
}

/// The entries that a sentence adds are in the order of their places and lengths, a character that
/// is no token after the tokens at its place.
pub proof fn law_lattice_order(encoder: Encoder, bytes: Seq<u8>, upto: int)
    requires
        encoder.wf(),
        valid_utf8(bytes),
        bytes.len() <= usize::MAX,
        0 <= upto <= bytes.len(),
    ensures
        forall|i: int, j: int|
            0 <= i < j < encoder.entries_before(bytes, upto).len() ==> #[trigger] comes_after(
                encoder,
                bytes,
                encoder.entries_before(bytes, upto),
                i,
                j,
            ),
    decreases upto,
{
    if upto > 0 {
        let all = encoder.entries_before(bytes, upto);
        let earlier = encoder.entries_before(bytes, upto - 1);
        let more = encoder.entries_at(bytes, upto - 1);
        let s = upto - 1;
        let vocab = encoder.vocab;
        let unk = encoder.known_fallback();
        let row = edges_at(vocab, unk, bytes, s);
        assert(graph(vocab, unk, bytes)[s] == row);
        law_lattice_order(encoder, bytes, upto - 1);
        law_edges_are_exact(vocab, unk, bytes, s);
        assert forall|i: int, j: int| 0 <= i < j < all.len() implies #[trigger] comes_after(
            encoder,
            bytes,
            all,
            i,
            j,
        ) by {
            if j < earlier.len() {
                assert(all[i] == earlier[i] && all[j] == earlier[j]);
                assert(comes_after(encoder, bytes, earlier, i, j));
            } else {
                let k = j - earlier.len();
                assert(all[j] == more[k]);
                assert(more[k] == encoder.entry(s, row[k]));
                lemma_edge_is_sound(vocab, unk, bytes, s, k);
                if i < earlier.len() {
                    assert(all[i] == earlier[i]);
                    let (from, _) = lemma_entry_source(encoder, bytes, i, upto - 1);
                    assert(earlier[i].pos == from);
                } else {
                    let h = i - earlier.len();
                    assert(all[i] == more[h]);
                    assert(more[h] == encoder.entry(s, row[h]));
                    lemma_edge_is_sound(vocab, unk, bytes, s, h);
                    assert(graph(vocab, unk, bytes)[s][h] == row[h]);
                    assert(graph(vocab, unk, bytes)[s][k] == row[k]);
                }
            }
        }
    }
}

/// The lattice of a sentence begins with the nodes that stand for its beginning and its end, whose
/// ids follow those of the vocabulary.
pub proof fn law_lattice_frame(encoder: Encoder, bytes: Seq<u8>)
    requires
        encoder.wf(),
    ensures
        ({
            let entries = encoder.lattice(bytes);
            let n = encoder.vocab.len();
            let zero = Double { bits: 0 };
            &&& entries.len() == 2 + encoder.entries_before(bytes, bytes.len() as int).len()
            &&& entries[0].id == n + 1 && entries[0].pos == 0 && entries[0].length == 0
                && entries[0].score == zero
            &&& entries[1].id == n + 2 && entries[1].pos == bytes.len() && entries[1].length == 0
                && entries[1].score == zero
            &&& forall|i: int|
                2 <= i < entries.len() ==> (#[trigger] entries[i]) == encoder.entries_before(
                    bytes,
                    bytes.len() as int,
                )[i - 2]
        }),
{
}

/// The nodes that begin or end at a place are listed in ascending order, each once; the first node
/// of a lattice is not among those that begin somewhere, nor the second among those that end.
pub proof fn law_lists_of_nodes(entries: Seq<Entry>, p: int)
    requires
        entries.len() <= usize::MAX,
    ensures
        ({
            let list = begins(entries, p, entries.len() as int);
            &&& forall|n: usize| #[trigger]
                list.contains(n) <==> 1 <= n < entries.len() && entries[n as int].pos == p
            &&& forall|i: int, j: int|
                #![trigger list[i], list[j]]
                0 <= i < j < list.len() ==> list[i] < list[j]
        }),
        ({
            let list = ends(entries, p, entries.len() as int);
            &&& forall|n: usize| #[trigger]
                list.contains(n) <==> n < entries.len() && n != 1 && entries[n as int].pos
                    + entries[n as int].length == p
            &&& forall|i: int, j: int|
                #![trigger list[i], list[j]]
                0 <= i < j < list.len() ==> list[i] < list[j]
        }),
{
    let total = entries.len() as int;
    lemma_begins(entries, p, total);
    lemma_ends(entries, p, total);
    lemma_lists_ascend(entries, p, total);
    let first = begins(entries, p, total);
    assert forall|n: usize| #[trigger] first.contains(n) <==> 1 <= n < entries.len()
        && entries[n as int].pos == p by {
        if first.contains(n) {
            let k = choose|k: int| 0 <= k < first.len() && first[k] == n;
            assert(first[k] == n);
        }
    }
    let second = ends(entries, p, total);
    assert forall|n: usize| #[trigger] second.contains(n) <==> n < entries.len() && n != 1
        && entries[n as int].pos + entries[n as int].length == p by {
        if second.contains(n) {
            let k = choose|k: int| 0 <= k < second.len() && second[k] == n;
            assert(second[k] == n);
        }
        if n < entries.len() && n != 1 && entries[n as int].pos + entries[n as int].length == p {
            assert(entries[n as int].end() == p);
        }
    }
}

proof fn lemma_lists_ascend(entries: Seq<Entry>, p: int, upto: int)
    requires
        upto <= entries.len() <= usize::MAX,
    ensures
        forall|i: int, j: int|
            #![trigger begins(entries, p, upto)[i], begins(entries, p, upto)[j]]
            0 <= i < j < begins(entries, p, upto).len() ==> begins(entries, p, upto)[i] < begins(
                entries,
                p,
                upto,
            )[j],
        forall|i: int, j: int|
            #![trigger ends(entries, p, upto)[i], ends(entries, p, upto)[j]]
            0 <= i < j < ends(entries, p, upto).len() ==> ends(entries, p, upto)[i] < ends(
                entries,
                p,
                upto,
            )[j],
    decreases upto,
{
    if upto > 0 {
        lemma_lists_ascend(entries, p, upto - 1);
        lemma_begins(entries, p, upto - 1);
        lemma_ends(entries, p, upto - 1);
        let b = begins(entries, p, upto);
        let c = begins(entries, p, upto - 1);
        assert forall|i: int, j: int|
            #![trigger b[i], b[j]]
            0 <= i < j < b.len() implies b[i] < b[j] by {
            assert(b[i] == c[i]);
            if j < c.len() {
                assert(b[j] == c[j]);
            }
        }
        let e = ends(entries, p, upto);
        let d = ends(entries, p, upto - 1);
        assert forall|i: int, j: int|
            #![trigger e[i], e[j]]
            0 <= i < j < e.len() implies e[i] < e[j] by {
            assert(e[i] == d[i]);
            if j < d.len() {
                assert(e[j] == d[j]);
            }
        }
    }
}

/// The score of the way up to and through a node; the first node's is zero.
pub open spec fn score_through(entries: Seq<Entry>, l: usize) -> Double {
    if l == 0 {
        Double { bits: 0 }
    } else {
        backtrace_score(entries, l as int)
    }
}

/// What is chosen before a node: of the nodes that end where it begins, in their order, the first
/// after which it has the largest score; that score is then the score through the node.
pub proof fn law_choice_before_node(bytes: Seq<u8>, entries: Seq<Entry>, n: int)
    requires
        is_lattice(bytes, entries),
        1 <= n < entries.len(),
    ensures
        ({
            let list = ends(entries, entries[n].pos, entries.len() as int);
            let found = list.fold_left(
                None,
                |known: Option<Choice>, l: usize|
                    {
                        let score = score_through(entries, l).plus(entries[n].score);
                        match known {
                            Some(choice) => if score.exceeds(choice.score) {
                                Some(Choice { node: l as int, score })
                            } else {
                                known
                            },
                            None => Some(Choice { node: l as int, score }),
                        }
                    },
            );
            &&& left(entries, n) == found
            &&& found matches Some(choice) ==> backtrace_score(entries, n) == choice.score
            &&& found is None ==> backtrace_score(entries, n).bits == 0
        }),
{
    lemma_choice_fold(bytes, entries, n, before(entries, n).len() as int);
    let list = before(entries, n);
    assert(list.take(list.len() as int) =~= list);
}

proof fn lemma_choice_fold(bytes: Seq<u8>, entries: Seq<Entry>, n: int, taken: int)
    requires
        is_lattice(bytes, entries),
        1 <= n < entries.len(),
        0 <= taken <= before(entries, n).len(),
    ensures
        left_among(entries, n, taken) == before(entries, n).take(taken).fold_left(
            None,
            |known: Option<Choice>, l: usize|
                {
                    let score = score_through(entries, l).plus(entries[n].score);
                    match known {
                        Some(choice) => if score.exceeds(choice.score) {
                            Some(Choice { node: l as int, score })
                        } else {
                            known
                        },
                        None => Some(Choice { node: l as int, score }),
                    }
                },
        ),
    decreases taken,
{
    lemma_before(bytes, entries, n);
    let list = before(entries, n);
    if taken > 0 {
        lemma_choice_fold(bytes, entries, n, taken - 1);
        assert(list.take(taken).drop_last() =~= list.take(taken - 1));
        assert(list.take(taken).last() == list[taken - 1]);
        let l = list[taken - 1] as int;
        assert(l == 0 || entries[l].pos < entries[n].pos);
    } else {
        assert(list.take(0) =~= Seq::<usize>::empty());
        assert(left_among(entries, n, 0) is None);
    }
}

/// The way to a node is the way to the node chosen before it, and the node. The way through a
/// lattice is the way to the node chosen before the end; there is none where, at some place between
/// characters, no node begins or none ends.
pub proof fn law_way_follows_choices(bytes: Seq<u8>, entries: Seq<Entry>, n: int)
    requires
        valid_utf8(bytes),
        is_lattice(bytes, entries),
        1 <= n < entries.len(),
    ensures
        blocked(bytes, entries) <==> exists|p: int| #[trigger]
            is_char_boundary(bytes, p) && ((forall|i: int|
                1 <= i < entries.len() ==> (#[trigger] entries[i]).pos != p) || (forall|i: int|
                0 <= i < entries.len() && i != 1 ==> (#[trigger] entries[i]).pos
                    + entries[i].length != p)),
        blocked(bytes, entries) ==> best_nodes(bytes, entries).len() == 0,
        !blocked(bytes, entries) ==> {
            &&& left(entries, n) is Some
            &&& left(entries, n) matches Some(choice) ==> way_to(entries, n) == (if choice.node == 0 {
                seq![n as usize]
            } else {
                way_to(entries, choice.node).push(n as usize)
            })
            &&& left(entries, 1) matches Some(choice) ==> best_nodes(bytes, entries) == (if choice.node
                == 0 {
                seq![]
            } else {
                way_to(entries, choice.node)
            })
        },
{
    let total = entries.len() as int;
    assert forall|p: int| #[trigger] blocked_at(bytes, entries, p) <==> (is_char_boundary(bytes, p)
        && ((forall|i: int| 1 <= i < entries.len() ==> (#[trigger] entries[i]).pos != p) || (
    forall|i: int|
        0 <= i < entries.len() && i != 1 ==> (#[trigger] entries[i]).pos + entries[i].length
            != p))) by {
        lemma_boundary(bytes, p);
        law_lists_of_nodes(entries, p);
        let b = begins(entries, p, total);
        let e = ends(entries, p, total);
        if b.len() > 0 {
            assert(b.contains(b[0]));
            assert(entries[b[0] as int].pos == p);
        } else {
            assert forall|i: int| 1 <= i < entries.len() implies (#[trigger] entries[i]).pos != p by {
                if entries[i].pos == p {
                    assert(b.contains(i as usize));
                }
            }
        }
        if e.len() > 0 {
            assert(e.contains(e[0]));
            assert(entries[e[0] as int].pos + entries[e[0] as int].length == p);
        } else {
            assert forall|i: int| 0 <= i < entries.len() && i != 1 implies (#[trigger] entries[i]).pos
                + entries[i].length != p by {
                if entries[i].pos + entries[i].length == p {
                    assert(e.contains(i as usize));
                }
            }
        }
    }
    if blocked(bytes, entries) {
        let p = choose|p: int| #[trigger] blocked_at(bytes, entries, p);
        assert(is_char_boundary(bytes, p));
    }
    if exists|p: int| #[trigger]
        is_char_boundary(bytes, p) && ((forall|i: int|
            1 <= i < entries.len() ==> (#[trigger] entries[i]).pos != p) || (forall|i: int|
            0 <= i < entries.len() && i != 1 ==> (#[trigger] entries[i]).pos + entries[i].length
                != p)) {
        let p = choose|p: int| #[trigger]
            is_char_boundary(bytes, p) && ((forall|i: int|
                1 <= i < entries.len() ==> (#[trigger] entries[i]).pos != p) || (forall|i: int|
                0 <= i < entries.len() && i != 1 ==> (#[trigger] entries[i]).pos + entries[i].length
                    != p));
        assert(blocked_at(bytes, entries, p));
    }
    if !blocked(bytes, entries) {
        lemma_before(bytes, entries, n);
        lemma_unblocked_left(bytes, entries, n);
        lemma_unblocked_left(bytes, entries, 1);
        assert(Seq::<usize>::empty().push(n as usize) =~= seq![n as usize]);
        assert(way_to(entries, 0) =~= Seq::<usize>::empty());
    }
}

} // verus!
