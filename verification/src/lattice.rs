//! A lattice of the pieces that a sentence can be made of, and the best way through it.

use crate::cache::texts_of;
use crate::double::Double;
use crate::segmentation::{
    build_tokens, is_chain, is_piece, pieces_touch, tokens_of, Piece,
};
use crate::sentence::{boundary, char_len_at, lemma_boundary, lemma_char_step};
use vstd::prelude::*;
use vstd::utf8::{encode_utf8, encode_utf8_valid_utf8, is_char_boundary_start_end_of_seq, valid_utf8};

verus! {

/// A node of a lattice. `prev` and `backtrace_score` are set by the search: the node before
/// this one on the best way to it, and the score of that way.
#[derive(Clone, Copy, Debug)]
pub struct LatticeNode {
    pub id: usize,
    pub node_id: usize,
    pub pos: usize,
    pub length: usize,
    pub prev: Option<usize>,
    pub backtrace_score: Double,
    pub score: Double,
}

/// What a node stands for: a piece from byte `pos` on, of `length` bytes, with its id and score.
pub struct Entry {
    pub id: usize,
    pub pos: int,
    pub length: int,
    pub score: Double,
}

impl Entry {
    pub open spec fn end(self) -> int {
        self.pos + self.length
    }

    pub open spec fn piece(self) -> Piece {
        Piece { start: self.pos as usize, end: self.end() as usize, id: self.id }
    }
}

impl LatticeNode {
    pub open spec fn entry(self) -> Entry {
        Entry {
            id: self.id,
            pos: self.pos as int,
            length: self.length as int,
            score: self.score,
        }
    }
}

/// The nodes, other than the first, that begin at place `p`, in their order.
pub open spec fn begins(entries: Seq<Entry>, p: int, upto: int) -> Seq<usize>
    decreases upto,
{
    if upto <= 1 {
        seq![]
    } else {
        let before = begins(entries, p, upto - 1);
        if entries[upto - 1].pos == p {
            before.push((upto - 1) as usize)
        } else {
            before
        }
    }
}

/// The nodes, other than the second, that end at place `p`, in their order.
pub open spec fn ends(entries: Seq<Entry>, p: int, upto: int) -> Seq<usize>
    decreases upto,
{
    if upto <= 0 {
        seq![]
    } else {
        let before = ends(entries, p, upto - 1);
        if upto != 2 && entries[upto - 1].end() == p {
            before.push((upto - 1) as usize)
        } else {
            before
        }
    }
}

/// The nodes that end where node `n` begins.
pub open spec fn before(entries: Seq<Entry>, n: int) -> Seq<usize> {
    ends(entries, entries[n].pos, entries.len() as int)
}

/// A node that another can follow, and the score of the other after it.
pub struct Choice {
    pub node: int,
    pub score: Double,
}

/// Of the first `taken` nodes that end where node `n` begins, the one after which `n` has the
/// largest score, and that score; of equal scores the first.
pub open spec fn left_among(entries: Seq<Entry>, n: int, taken: int) -> Option<Choice>
    decreases entries[n].pos, taken,
{
    if taken <= 0 || entries[n].pos < 0 {
        None
    } else {
        let found = left_among(entries, n, taken - 1);
        let l = before(entries, n)[taken - 1] as int;
        if l != 0 && !(0 <= entries[l].pos < entries[n].pos) {
            found
        } else {
            let reached = if l == 0 {
                Double { bits: 0 }
            } else {
                backtrace_score(entries, l)
            };
            let score = reached.plus(entries[n].score);
            if found is None || score.exceeds(found->0.score) {
                Some(Choice { node: l, score })
            } else {
                found
            }
        }
    }
}

/// The score of the best way to node `n` and through it.
pub open spec fn backtrace_score(entries: Seq<Entry>, n: int) -> Double
    decreases entries[n].pos, before(entries, n).len() + 1,
{
    match left_among(entries, n, before(entries, n).len() as int) {
        Some(choice) => choice.score,
        None => Double { bits: 0 },
    }
}

/// The node before node `n` on the best way to it.
pub open spec fn left(entries: Seq<Entry>, n: int) -> Option<Choice> {
    left_among(entries, n, before(entries, n).len() as int)
}

/// The best way to node `n`, which is its last node; without the first node of the lattice.
pub open spec fn way_to(entries: Seq<Entry>, n: int) -> Seq<usize>
    decreases entries[n].pos,
{
    if n == 0 || entries[n].pos < 0 {
        seq![]
    } else {
        match left(entries, n) {
            Some(choice) => {
                let l = choice.node;
                if l == 0 || 0 <= entries[l].pos < entries[n].pos {
                    (if l == 0 {
                        Seq::<usize>::empty()
                    } else {
                        way_to(entries, l)
                    }).push(n as usize)
                } else {
                    seq![]
                }
            },
            None => seq![],
        }
    }
}

/// At some place between characters no node begins, or none ends.
pub open spec fn blocked(bytes: Seq<u8>, entries: Seq<Entry>) -> bool {
    exists|p: int| #[trigger] blocked_at(bytes, entries, p)
}

pub open spec fn blocked_at(bytes: Seq<u8>, entries: Seq<Entry>, p: int) -> bool {
    &&& boundary(bytes, p)
    &&& begins(entries, p, entries.len() as int).len() == 0 || ends(
        entries,
        p,
        entries.len() as int,
    ).len() == 0
}

/// The best way through the lattice, without its first two nodes, which stand for the
/// beginning and the end; none where the lattice is blocked.
pub open spec fn best_nodes(bytes: Seq<u8>, entries: Seq<Entry>) -> Seq<usize> {
    if blocked(bytes, entries) {
        seq![]
    } else {
        match left(entries, 1) {
            Some(choice) => way_to(entries, choice.node),
            None => seq![],
        }
    }
}

/// The pieces of nodes.
pub open spec fn pieces_of(entries: Seq<Entry>, nodes: Seq<usize>) -> Seq<Piece> {
    nodes.map_values(|n: usize| entries[n as int].piece())
}

/// The first two entries stand for the beginning and the end of the sentence; each other is a
/// piece of it.
pub open spec fn is_lattice(bytes: Seq<u8>, entries: Seq<Entry>) -> bool {
    &&& 2 <= entries.len() <= usize::MAX
    &&& bytes.len() <= usize::MAX
    &&& entries[0].pos == 0 && entries[0].length == 0
    &&& entries[1].pos == bytes.len() && entries[1].length == 0
    &&& forall|n: int| 2 <= n < entries.len() ==> is_entry(bytes, #[trigger] entries[n])
}

pub open spec fn is_entry(bytes: Seq<u8>, entry: Entry) -> bool {
    entry.length > 0 && boundary(bytes, entry.pos) && boundary(bytes, entry.end())
}

/// Exactly the nodes that begin at a place are listed.
pub proof fn lemma_begins(entries: Seq<Entry>, p: int, upto: int)
    requires
        upto <= entries.len() <= usize::MAX,
    ensures
        forall|k: int|
            0 <= k < begins(entries, p, upto).len() ==> {
                let n = #[trigger] begins(entries, p, upto)[k];
                1 <= n < upto && entries[n as int].pos == p
            },
        forall|n: usize|
            1 <= n < upto && (#[trigger] entries[n as int]).pos == p ==> begins(
                entries,
                p,
                upto,
            ).contains(n),
    decreases upto,
{
    if upto > 1 {
        lemma_begins(entries, p, upto - 1);
        let shorter = begins(entries, p, upto - 1);
        let all = begins(entries, p, upto);
        assert forall|n: usize|
            1 <= n < upto && (#[trigger] entries[n as int]).pos == p implies all.contains(n) by {
            if n < upto - 1 {
                assert(shorter.contains(n));
                let k = choose|k: int| 0 <= k < shorter.len() && shorter[k] == n;
                assert(all[k] == n);
            } else {
                assert(all.last() == n);
            }
        }
    }
}

/// Exactly the nodes that end at a place are listed.
pub proof fn lemma_ends(entries: Seq<Entry>, p: int, upto: int)
    requires
        upto <= entries.len() <= usize::MAX,
    ensures
        forall|k: int|
            0 <= k < ends(entries, p, upto).len() ==> {
                let n = #[trigger] ends(entries, p, upto)[k];
                n < upto && n != 1 && entries[n as int].end() == p
            },
        forall|n: usize|
            0 <= n < upto && n != 1 && (#[trigger] entries[n as int]).end() == p ==> ends(
                entries,
                p,
                upto,
            ).contains(n),
    decreases upto,
{
    if upto > 0 {
        lemma_ends(entries, p, upto - 1);
        let shorter = ends(entries, p, upto - 1);
        let all = ends(entries, p, upto);
        assert forall|k: int| 0 <= k < all.len() implies {
            let n = #[trigger] all[k];
            n < upto && n != 1 && entries[n as int].end() == p
        } by {
            if k < shorter.len() {
                assert(all[k] == shorter[k]);
            }
        }
        assert forall|n: usize|
            0 <= n < upto && n != 1 && (#[trigger] entries[n as int]).end() == p implies all.contains(
            n,
        ) by {
            if n < upto - 1 {
                assert(shorter.contains(n));
                let k = choose|k: int| 0 <= k < shorter.len() && shorter[k] == n;
                assert(all[k] == n);
            } else {
                assert(all.last() == n);
            }
        }
    }
}

/// The nodes that end where a node begins come before it.
pub proof fn lemma_before(bytes: Seq<u8>, entries: Seq<Entry>, n: int)
    requires
        is_lattice(bytes, entries),
        1 <= n < entries.len(),
    ensures
        forall|k: int|
            0 <= k < before(entries, n).len() ==> {
                let l = #[trigger] before(entries, n)[k] as int;
                &&& l < entries.len()
                &&& l != 1
                &&& entries[l].end() == entries[n].pos
                &&& l == 0 || is_entry(bytes, entries[l]) && entries[l].pos < entries[n].pos
            },
        0 <= entries[n].pos,
{
    lemma_ends(entries, entries[n].pos, entries.len() as int);
    if n >= 2 {
        assert(is_entry(bytes, entries[n]));
    }
    assert forall|k: int| 0 <= k < before(entries, n).len() implies {
        let l = #[trigger] before(entries, n)[k] as int;
        &&& l < entries.len()
        &&& l != 1
        &&& entries[l].end() == entries[n].pos
        &&& l == 0 || is_entry(bytes, entries[l]) && entries[l].pos < entries[n].pos
    } by {
        let l = before(entries, n)[k] as int;
        assert(ends(entries, entries[n].pos, entries.len() as int)[k] == l);
        if l >= 2 {
            assert(is_entry(bytes, entries[l]));
        }
    }
}

/// Where any node ends where a node begins, one of them is chosen.
pub proof fn lemma_left(bytes: Seq<u8>, entries: Seq<Entry>, n: int, taken: int)
    requires
        is_lattice(bytes, entries),
        1 <= n < entries.len(),
        0 < taken <= before(entries, n).len(),
    ensures
        left_among(entries, n, taken) is Some,
        ({
            let l = left_among(entries, n, taken)->0.node;
            &&& 0 <= l < entries.len()
            &&& l != 1
            &&& entries[l].end() == entries[n].pos
            &&& l == 0 || is_entry(bytes, entries[l]) && entries[l].pos < entries[n].pos
        }),
    decreases taken,
{
    lemma_before(bytes, entries, n);
    if taken > 1 {
        lemma_left(bytes, entries, n, taken - 1);
    }
    let l = before(entries, n)[taken - 1] as int;
    assert(left_among(entries, n, 0) is None);
}

/// A node of a lattice that is not blocked has a node before it.
pub proof fn lemma_unblocked_left(bytes: Seq<u8>, entries: Seq<Entry>, n: int)
    requires
        valid_utf8(bytes),
        is_lattice(bytes, entries),
        !blocked(bytes, entries),
        1 <= n < entries.len(),
    ensures
        left(entries, n) is Some,
        ({
            let l = left(entries, n)->0.node;
            &&& 0 <= l < entries.len()
            &&& l != 1
            &&& entries[l].end() == entries[n].pos
            &&& l == 0 || is_entry(bytes, entries[l]) && entries[l].pos < entries[n].pos
        }),
{
    if n == 1 {
        is_char_boundary_start_end_of_seq(bytes);
        lemma_boundary(bytes, bytes.len() as int);
    } else {
        assert(is_entry(bytes, entries[n]));
    }
    assert(!blocked_at(bytes, entries, entries[n].pos));
    lemma_left(bytes, entries, n, before(entries, n).len() as int);
}

/// The pieces on the way to a node follow one another from the beginning of the sentence.
proof fn lemma_way_is_chain(bytes: Seq<u8>, entries: Seq<Entry>, n: int)
    requires
        valid_utf8(bytes),
        is_lattice(bytes, entries),
        !blocked(bytes, entries),
        2 <= n < entries.len(),
    ensures
        is_chain(bytes, pieces_of(entries, way_to(entries, n)), entries[n].end()),
        forall|k: int|
            0 <= k < way_to(entries, n).len() ==> 2 <= #[trigger] way_to(entries, n)[k]
                < entries.len(),
    decreases entries[n].pos,
{
    assert(is_entry(bytes, entries[n]));
    lemma_unblocked_left(bytes, entries, n);
    let l = left(entries, n)->0.node;
    let earlier = if l == 0 {
        Seq::<usize>::empty()
    } else {
        way_to(entries, l)
    };
    if l != 0 {
        lemma_way_is_chain(bytes, entries, l);
    }
    let way = way_to(entries, n);
    assert(way == earlier.push(n as usize));
    let old_pieces = pieces_of(entries, earlier);
    let pieces = pieces_of(entries, way);
    assert(pieces =~= old_pieces.push(entries[n].piece()));
    assert forall|i: int| 0 <= i < pieces.len() implies is_piece(bytes, #[trigger] pieces[i]) by {
        if i < old_pieces.len() {
            assert(is_piece(bytes, old_pieces[i]));
        }
    }
    assert forall|i: int| 0 < i < pieces.len() implies #[trigger] pieces_touch(pieces, i) by {
        if i < old_pieces.len() {
            assert(pieces_touch(old_pieces, i));
        }
    }
    assert forall|k: int| 0 <= k < way.len() implies 2 <= #[trigger] way[k] < entries.len() by {
        if k < earlier.len() {
            assert(2 <= earlier[k] < entries.len());
        }
    }
}

/// The best way through a lattice that is not blocked covers the sentence.
pub proof fn lemma_best_nodes_chain(bytes: Seq<u8>, entries: Seq<Entry>)
    requires
        valid_utf8(bytes),
        is_lattice(bytes, entries),
        !blocked(bytes, entries),
    ensures
        is_chain(
            bytes,
            pieces_of(entries, best_nodes(bytes, entries)),
            bytes.len() as int,
        ),
        forall|k: int|
            0 <= k < best_nodes(bytes, entries).len() ==> 2 <= #[trigger] best_nodes(
                bytes,
                entries,
            )[k] < entries.len(),
{
    lemma_unblocked_left(bytes, entries, 1);
    let l = left(entries, 1)->0.node;
    if l != 0 {
        lemma_way_is_chain(bytes, entries, l);
    }
}

/// The lattice of a sentence.
pub struct Lattice<'a> {
    sentence: &'a str,
    len: usize,
    nodes: Vec<LatticeNode>,
    begin_nodes: Vec<Vec<usize>>,
    end_nodes: Vec<Vec<usize>>,
}

impl<'a> Lattice<'a> {
    /// The sentence.
    pub closed spec fn text(&self) -> Seq<char> {
        self.sentence@
    }

    /// What the nodes stand for.
    pub closed spec fn entries(&self) -> Seq<Entry> {
        self.nodes@.map_values(|node: LatticeNode| node.entry())
    }

    pub closed spec fn wf(&self) -> bool {
        let bytes = encode_utf8(self.text());
        &&& self.len == bytes.len()
        &&& self.nodes@.len() == self.entries().len()
        &&& is_lattice(bytes, self.entries())
        &&& self.begin_nodes@.len() == self.len + 1
        &&& self.end_nodes@.len() == self.len + 1
        &&& forall|p: int|
            0 <= p <= self.len ==> (#[trigger] self.begin_nodes@[p])@ == begins(
                self.entries(),
                p,
                self.entries().len() as int,
            )
        &&& forall|p: int|
            0 <= p <= self.len ==> (#[trigger] self.end_nodes@[p])@ == ends(
                self.entries(),
                p,
                self.entries().len() as int,
            )
        &&& forall|n: int| 0 <= n < self.nodes@.len() ==> (#[trigger] self.nodes@[n]).node_id == n
        &&& self.nodes@[0].prev is None
        &&& self.nodes@[0].backtrace_score.bits == 0
    }

    /// The nodes of a lattice stand for pieces of its sentence.
    pub proof fn lemma_is_lattice(&self)
        requires
            self.wf(),
        ensures
            is_lattice(encode_utf8(self.text()), self.entries()),
    {
    }

    /// A lattice with nodes for the beginning and the end of the sentence only.
    pub fn from(sentence: &'a str, bos_id: usize, eos_id: usize) -> (lattice: Lattice<'a>)
        ensures
            lattice.wf(),
            lattice.text() == sentence@,
            lattice.entries() == seq![
                Entry { id: bos_id, pos: 0, length: 0, score: Double { bits: 0 } },
                Entry {
                    id: eos_id,
                    pos: encode_utf8(sentence@).len() as int,
                    length: 0,
                    score: Double { bits: 0 },
                },
            ],
    {
        let len: usize = sentence.as_bytes().len();
        let ghost bytes = encode_utf8(sentence@);
        let mut begin_nodes: Vec<Vec<usize>> = empty_lists(len);
        let mut end_nodes: Vec<Vec<usize>> = empty_lists(len);
        let mut nodes: Vec<LatticeNode> = Vec::new();
        nodes.push(
            LatticeNode {
                id: bos_id,
                node_id: 0,
                pos: 0,
                length: 0,
                prev: None,
                backtrace_score: Double::zero(),
                score: Double::zero(),
            },
        );
        nodes.push(
            LatticeNode {
                id: eos_id,
                node_id: 1,
                pos: len,
                length: 0,
                prev: None,
                backtrace_score: Double::zero(),
                score: Double::zero(),
            },
        );
        begin_nodes[len].push(1);
        end_nodes[0].push(0);
        let lattice = Lattice { sentence, len, nodes, begin_nodes, end_nodes };
        proof {
            let entries = lattice.entries();
            reveal_with_fuel(begins, 3);
            reveal_with_fuel(ends, 3);
            assert(entries =~= seq![
                Entry { id: bos_id, pos: 0, length: 0, score: Double { bits: 0 } },
                Entry { id: eos_id, pos: len as int, length: 0, score: Double { bits: 0 } },
            ]);
            assert forall|p: int| 0 <= p <= len implies (#[trigger] lattice.begin_nodes@[p])@
                == begins(entries, p, 2) by {
                assert(lattice.begin_nodes@[p]@ =~= begins(entries, p, 2));
            }
            assert forall|p: int| 0 <= p <= len implies (#[trigger] lattice.end_nodes@[p])@ == ends(
                entries,
                p,
                2,
            ) by {
                assert(lattice.end_nodes@[p]@ =~= ends(entries, p, 2));
            }
        }
        lattice
    }

    /// How many bytes the sentence has.
    pub fn len(&self) -> (len: usize)
        requires
            self.wf(),
        ensures
            len == encode_utf8(self.text()).len(),
    {
        self.len
    }

    /// How many nodes the lattice has.
    pub fn count(&self) -> (count: usize)
        ensures
            count == self.entries().len(),
    {
        self.nodes.len()
    }

    /// The sentence.
    pub fn sentence(&self) -> (sentence: &'a str)
        ensures
            sentence@ == self.text(),
    {
        self.sentence
    }

    /// The nodes that begin at a byte, by their places in the lattice.
    pub fn begin_nodes(&self, pos: usize) -> (places: &Vec<usize>)
        requires
            self.wf(),
            pos <= encode_utf8(self.text()).len(),
        ensures
            places@ == begins(self.entries(), pos as int, self.entries().len() as int),
    {
        &self.begin_nodes[pos]
    }

    /// A node, by its place in the lattice.
    pub fn node(&self, place: usize) -> (node: &LatticeNode)
        requires
            self.wf(),
            place < self.entries().len(),
        ensures
            node.entry() == self.entries()[place as int],
            node.node_id == place,
    {
        &self.nodes[place]
    }

    /// Adds a node.
    pub fn insert(&mut self, pos: usize, length: usize, score: Double, id: usize)
        requires
            old(self).wf(),
            is_entry(
                encode_utf8(old(self).text()),
                Entry { id, pos: pos as int, length: length as int, score },
            ),
        ensures
            final(self).wf(),
            final(self).text() == old(self).text(),
            final(self).entries() == old(self).entries().push(
                Entry { id, pos: pos as int, length: length as int, score },
            ),
    {
        let node_id: usize = self.nodes.len();
        let ghost before = *self;
        let ghost added = Entry { id, pos: pos as int, length: length as int, score };
        self.begin_nodes[pos].push(node_id);
        self.end_nodes[pos + length].push(node_id);
        self.nodes.push(
            LatticeNode {
                id,
                node_id,
                pos,
                length,
                prev: None,
                backtrace_score: Double::zero(),
                score,
            },
        );
        proof {
            let entries = self.entries();
            let old_entries = before.entries();
            let n = old_entries.len() as int;
            assert(entries =~= old_entries.push(added));
            let total: usize = self.nodes.len();
            assert forall|p: int| 0 <= p <= self.len implies (#[trigger] self.begin_nodes@[p])@
                == begins(entries, p, n + 1) by {
                lemma_begins_extend(old_entries, added, p, n);
                let _ = before.begin_nodes@[p];
            }
            assert forall|p: int| 0 <= p <= self.len implies (#[trigger] self.end_nodes@[p])@
                == ends(entries, p, n + 1) by {
                lemma_ends_extend(old_entries, added, p, n);
                let _ = before.end_nodes@[p];
            }
            assert forall|k: int| 2 <= k < entries.len() implies is_entry(
                encode_utf8(self.text()),
                #[trigger] entries[k],
            ) by {
                if k < n {
                    assert(is_entry(encode_utf8(before.text()), old_entries[k]));
                }
            }
            assert forall|k: int| 0 <= k < self.nodes@.len() implies (
            #[trigger] self.nodes@[k]).node_id == k by {
                if k < n {
                    assert(before.nodes@[k].node_id == k);
                }
            }
        }
    }
}

/// `len + 1` empty lists.
pub(crate) fn empty_lists<T>(len: usize) -> (lists: Vec<Vec<T>>)
    ensures
        lists@.len() == len + 1,
        forall|i: int| 0 <= i <= len ==> (#[trigger] lists@[i])@ == Seq::<T>::empty(),
{
    let mut lists: Vec<Vec<T>> = Vec::new();
    lists.push(Vec::new());
    let mut i: usize = 0;
    while i < len
        invariant
            i <= len,
            lists@.len() == i + 1,
            forall|j: int| 0 <= j <= i ==> (#[trigger] lists@[j])@ == Seq::<T>::empty(),
        decreases len - i,
    {
        lists.push(Vec::new());
        i = i + 1;
    }
    lists
}

proof fn lemma_begins_extend(entries: Seq<Entry>, added: Entry, p: int, upto: int)
    requires
        upto <= entries.len(),
    ensures
        begins(entries.push(added), p, upto) == begins(entries, p, upto),
    decreases upto,
{
    if upto > 1 {
        lemma_begins_extend(entries, added, p, upto - 1);
    }
}

proof fn lemma_ends_extend(entries: Seq<Entry>, added: Entry, p: int, upto: int)
    requires
        upto <= entries.len(),
    ensures
        ends(entries.push(added), p, upto) == ends(entries, p, upto),
    decreases upto,
{
    if upto > 0 {
        lemma_ends_extend(entries, added, p, upto - 1);
    }
}

impl<'a> Lattice<'a> {
    /// The search has been at every node that begins before place `pos`.
    spec fn searched(&self, pos: int) -> bool {
        forall|n: int|
            1 <= n < self.nodes@.len() && self.nodes@[n].pos < pos ==> #[trigger] self.is_searched(
                n,
            )
    }

    /// The search has been at node `n`.
    spec fn is_searched(&self, n: int) -> bool {
        match left(self.entries(), n) {
            Some(choice) => {
                &&& self.nodes@[n].prev == Some(choice.node as usize)
                &&& self.nodes@[n].backtrace_score == choice.score
            },
            None => false,
        }
    }

    /// Finds the node before node `n` on the best way to it, where the nodes that can come
    /// before it have been searched.
    fn search(&mut self, n: usize)
        requires
            old(self).wf(),
            1 <= n < old(self).nodes@.len(),
            old(self).searched(old(self).nodes@[n as int].pos as int),
            before(old(self).entries(), n as int).len() > 0,
        ensures
            final(self).wf(),
            final(self).text() == old(self).text(),
            final(self).entries() == old(self).entries(),
            final(self).begin_nodes == old(self).begin_nodes,
            final(self).nodes@.len() == old(self).nodes@.len(),
            final(self).is_searched(n as int),
            forall|m: int|
                0 <= m < old(self).nodes@.len() && m != n ==> #[trigger] final(self).nodes@[m]
                    == old(self).nodes@[m],
    {
        let ghost entries = self.entries();
        let ghost bytes = encode_utf8(self.text());
        proof {
            lemma_before(bytes, entries, n as int);
            assert(entries[n as int] == self.nodes@[n as int].entry());
        }
        let pos: usize = self.nodes[n].pos;
        let score: Double = self.nodes[n].score;
        let mut best: Option<usize> = None;
        let mut best_score: Double = Double::zero();
        let mut k: usize = 0;
        while k < self.end_nodes[pos].len()
            invariant
                self.wf(),
                entries == self.entries(),
                bytes == encode_utf8(self.text()),
                1 <= n < self.nodes@.len(),
                pos == self.nodes@[n as int].pos,
                score == self.nodes@[n as int].score,
                pos == entries[n as int].pos,
                score == entries[n as int].score,
                pos <= self.len,
                self.end_nodes@[pos as int]@ == before(entries, n as int),
                k <= before(entries, n as int).len(),
                self.searched(pos as int),
                match left_among(entries, n as int, k as int) {
                    Some(choice) => {
                        &&& best == Some(choice.node as usize)
                        &&& best_score == choice.score
                    },
                    None => best is None,
                },
            decreases self.end_nodes@[pos as int]@.len() - k,
        {
            let l: usize = self.end_nodes[pos][k];
            proof {
                lemma_before(bytes, entries, n as int);
                assert(before(entries, n as int)[k as int] == l);
                assert(entries[l as int] == self.nodes@[l as int].entry());
                if l != 0 {
                    assert(self.is_searched(l as int));
                    assert(backtrace_score(entries, l as int)
                        == self.nodes@[l as int].backtrace_score);
                }
            }
            let candidate: Double = self.nodes[l].backtrace_score.add(&score);
            let ghost found = left_among(entries, n as int, k as int);
            proof {
                assert(left_among(entries, n as int, k + 1) == (if found is None
                    || candidate.exceeds(found->0.score) {
                    Some(Choice { node: l as int, score: candidate })
                } else {
                    found
                }));
            }
            let better: bool = match best {
                None => true,
                Some(_) => candidate.gt(&best_score),
            };
            if better {
                best = Some(l);
                best_score = candidate;
            }
            k = k + 1;
        }
        proof {
            lemma_left(bytes, entries, n as int, before(entries, n as int).len() as int);
        }
        let ghost old_nodes = self.nodes@;
        self.nodes[n].prev = best;
        self.nodes[n].backtrace_score = best_score;
        proof {
            assert(self.entries() =~= entries);
        }
    }

    /// The best way through the lattice: the places of its nodes. Empty where at some place
    /// between characters no node begins, or none ends.
    pub fn viterbi(&mut self) -> (way: Vec<usize>)
        requires
            old(self).wf(),
        ensures
            final(self).wf(),
            final(self).text() == old(self).text(),
            final(self).entries() == old(self).entries(),
            way@ == best_nodes(encode_utf8(old(self).text()), old(self).entries()),
    {
        let ghost entries = self.entries();
        let ghost text = self.text();
        let ghost bytes = encode_utf8(text);
        let sentence: &'a str = self.sentence;
        let text_bytes: &[u8] = sentence.as_bytes();
        let len: usize = self.len;
        let mut pos: usize = 0;
        let mut at_end: bool = false;
        proof {
            encode_utf8_valid_utf8(text);
            is_char_boundary_start_end_of_seq(bytes);
            lemma_boundary(bytes, 0);
            assert forall|n: int|
                1 <= n < self.nodes@.len() && self.nodes@[n].pos < 0 implies #[trigger] self.is_searched(
                n,
            ) by {}
        }
        while !at_end
            invariant
                entries == old(self).entries(),
                text == old(self).text(),
                self.wf(),
                self.entries() == entries,
                self.text() == text,
                bytes == encode_utf8(text),
                text_bytes@ == bytes,
                valid_utf8(bytes),
                len == self.len,
                len == bytes.len(),
                boundary(bytes, pos as int),
                !at_end ==> self.searched(pos as int),
                at_end ==> self.searched(len + 1),
                !at_end ==> forall|p: int| p < pos ==> !(#[trigger] blocked_at(bytes, entries, p)),
                at_end ==> forall|p: int| !(#[trigger] blocked_at(bytes, entries, p)),
            decreases len - pos, if at_end { 0int } else { 1int },
        {
            if self.begin_nodes[pos].len() == 0 || self.end_nodes[pos].len() == 0 {
                assert(blocked_at(bytes, entries, pos as int));
                return Vec::new();
            }
            let mut i: usize = 0;
            let ghost list = self.begin_nodes@[pos as int]@;
            proof {
                lemma_begins(entries, pos as int, entries.len() as int);
                assert(list == begins(entries, pos as int, entries.len() as int));
            }
            while i < self.begin_nodes[pos].len()
                invariant
                    self.wf(),
                    self.entries() == entries,
                    self.text() == text,
                    len == self.len,
                    len == bytes.len(),
                    bytes == encode_utf8(text),
                    pos <= len,
                    list == begins(entries, pos as int, entries.len() as int),
                    self.begin_nodes@[pos as int]@ == list,
                    self.end_nodes@[pos as int]@.len() > 0,
                    i <= list.len(),
                    self.searched(pos as int),
                    forall|j: int|
                        0 <= j < list.len() ==> 1 <= #[trigger] list[j] < entries.len()
                            && entries[list[j] as int].pos == pos,
                    forall|j: int| 0 <= j < i ==> self.is_searched(#[trigger] list[j] as int),
                decreases list.len() - i,
            {
                let n: usize = self.begin_nodes[pos][i];
                let ghost earlier = *self;
                proof {
                    assert(list[i as int] == n);
                    assert(entries[n as int] == self.nodes@[n as int].entry());
                    assert(self.end_nodes@[pos as int]@ == before(entries, n as int));
                }
                self.search(n);
                proof {
                    assert forall|m: int|
                        1 <= m < self.nodes@.len() && self.nodes@[m].pos < pos implies #[trigger] self.is_searched(
                        m,
                    ) by {
                        assert(entries[m] == self.nodes@[m].entry());
                        assert(entries[m] == earlier.nodes@[m].entry());
                        assert(earlier.is_searched(m));
                        assert(self.nodes@[m] == earlier.nodes@[m]);
                    }
                    assert forall|j: int| 0 <= j < i + 1 implies self.is_searched(
                        #[trigger] list[j] as int,
                    ) by {
                        if list[j] != n {
                            assert(earlier.is_searched(list[j] as int));
                            assert(self.nodes@[list[j] as int] == earlier.nodes@[list[j] as int]);
                        }
                    }
                    assert(self.end_nodes@[pos as int]@ == before(entries, n as int));
                }
                i = i + 1;
            }
            proof {
                assert forall|n: int|
                    1 <= n < self.nodes@.len() && self.nodes@[n].pos <= pos implies #[trigger] self.is_searched(
                    n,
                ) by {
                    assert(entries[n] == self.nodes@[n].entry());
                    if self.nodes@[n].pos == pos {
                        assert(entries[n as usize as int].pos == pos);
                        assert(list.contains(n as usize));
                        let j = choose|j: int| 0 <= j < list.len() && list[j] == n;
                        assert(self.is_searched(list[j] as int));
                    }
                }
            }
            if pos < len {
                proof {
                    lemma_char_step(bytes, pos as int);
                }
                let step: usize = char_len_at(text_bytes, pos);
                proof {
                    assert forall|n: int|
                        1 <= n < self.nodes@.len() && self.nodes@[n].pos < pos + step implies #[trigger] self.is_searched(
                        n,
                    ) by {
                        assert(entries[n] == self.nodes@[n].entry());
                        if n >= 2 {
                            assert(is_entry(bytes, entries[n]));
                            if self.nodes@[n].pos > pos {
                                assert(!boundary(bytes, entries[n].pos));
                            }
                        }
                    }
                    assert forall|p: int| p < pos + step implies !(#[trigger] blocked_at(
                        bytes,
                        entries,
                        p,
                    )) by {}
                }
                pos = pos + step;
            } else {
                at_end = true;
                proof {
                    assert forall|p: int| !(#[trigger] blocked_at(bytes, entries, p)) by {}
                }
            }
        }
        proof {
            lemma_unblocked_left(bytes, entries, 1);
            assert(entries[1] == self.nodes@[1].entry());
            assert(self.is_searched(1));
        }
        let mut backwards: Vec<usize> = Vec::new();
        let ghost goal = best_nodes(bytes, entries);
        let mut at: usize = match self.nodes[1].prev {
            Some(l) => l,
            None => 0,
        };
        while at != 0
            invariant
                self.wf(),
                self.entries() == entries,
                self.text() == text,
                bytes == encode_utf8(text),
                valid_utf8(bytes),
                len == self.len,
                len == bytes.len(),
                self.searched(len + 1),
                !blocked(bytes, entries),
                at == 0 || 2 <= at < entries.len(),
                (if at == 0 {
                    Seq::<usize>::empty()
                } else {
                    way_to(entries, at as int)
                }) + backwards@.reverse() == goal,
            decreases entries[at as int].pos + if at == 0 { 0int } else { 1int },
        {
            proof {
                lemma_unblocked_left(bytes, entries, at as int);
                assert(entries[at as int] == self.nodes@[at as int].entry());
                assert(is_entry(bytes, entries[at as int]));
                assert(self.is_searched(at as int));
            }
            let ghost earlier = backwards@;
            backwards.push(at);
            let previous: usize = match self.nodes[at].prev {
                Some(l) => l,
                None => 0,
            };
            proof {
                let head = if previous == 0 {
                    Seq::<usize>::empty()
                } else {
                    way_to(entries, previous as int)
                };
                assert(way_to(entries, at as int) == head.push(at));
                assert(head + backwards@.reverse() =~= head.push(at) + earlier.reverse());
            }
            at = previous;
        }
        let mut way: Vec<usize> = Vec::new();
        let mut rest: usize = backwards.len();
        while rest > 0
            invariant
                rest <= backwards@.len(),
                way@ =~= backwards@.reverse().take(backwards@.len() - rest),
            decreases rest,
        {
            rest = rest - 1;
            way.push(backwards[rest]);
        }
        assert(way@ =~= goal);
        way
    }

    /// The pieces of the nodes at some places.
    pub(crate) fn pieces(&self, places: &Vec<usize>) -> (pieces: Vec<Piece>)
        requires
            self.wf(),
            forall|k: int| 0 <= k < places@.len() ==> 2 <= #[trigger] places@[k] < self.entries().len(),
        ensures
            pieces@ == pieces_of(self.entries(), places@),
    {
        let mut pieces: Vec<Piece> = Vec::new();
        let mut k: usize = 0;
        while k < places.len()
            invariant
                self.wf(),
                forall|k: int|
                    0 <= k < places@.len() ==> 2 <= #[trigger] places@[k] < self.entries().len(),
                k <= places@.len(),
                pieces@ =~= pieces_of(self.entries(), places@).take(k as int),
            decreases places.len() - k,
        {
            let place: usize = places[k];
            proof {
                assert(self.entries()[place as int] == self.nodes@[place as int].entry());
                assert(is_entry(encode_utf8(self.text()), self.entries()[place as int]));
            }
            let node: LatticeNode = self.nodes[place];
            pieces.push(Piece { start: node.pos, end: node.pos + node.length, id: node.id });
            k = k + 1;
        }
        pieces
    }

    /// The text of a node.
    pub fn piece(&self, place: usize) -> (text: String)
        requires
            self.wf(),
            2 <= place < self.entries().len(),
        ensures
            text@ == crate::sentence::piece_text(
                encode_utf8(self.text()),
                self.entries()[place as int].pos,
                self.entries()[place as int].end(),
            ),
    {
        proof {
            assert(self.entries()[place as int] == self.nodes@[place as int].entry());
            assert(is_entry(encode_utf8(self.text()), self.entries()[place as int]));
        }
        let pos: usize = self.nodes[place].pos;
        let length: usize = self.nodes[place].length;
        crate::sentence::piece(self.sentence, pos, pos + length).to_owned()
    }

    /// The tokens of the best way; neighbouring pieces with the id `fuse` form one token.
    pub(crate) fn tokens_of_way(&self, way: &Vec<usize>, fuse: Option<usize>) -> (tokens: Vec<String>)
        requires
            self.wf(),
            way@ == best_nodes(encode_utf8(self.text()), self.entries()),
        ensures
            texts_of(tokens@) == tokens_of(
                self.text(),
                pieces_of(self.entries(), way@),
                fuse,
            ),
    {
        let ghost bytes = encode_utf8(self.text());
        proof {
            encode_utf8_valid_utf8(self.text());
        }
        if way.len() == 0 {
            let tokens: Vec<String> = Vec::new();
            assert(texts_of(tokens@) =~= tokens_of(
                self.text(),
                pieces_of(self.entries(), way@),
                fuse,
            ));
            return tokens;
        }
        proof {
            lemma_best_nodes_chain(bytes, self.entries());
        }
        let pieces: Vec<Piece> = self.pieces(way);
        build_tokens(self.sentence, &pieces, fuse)
    }

    /// The tokens of the best way through the lattice.
    pub fn tokens(&mut self) -> (tokens: Vec<String>)
        requires
            old(self).wf(),
        ensures
            final(self).wf(),
            final(self).text() == old(self).text(),
            final(self).entries() == old(self).entries(),
            texts_of(tokens@) == tokens_of(
                old(self).text(),
                pieces_of(
                    old(self).entries(),
                    best_nodes(encode_utf8(old(self).text()), old(self).entries()),
                ),
                None,
            ),
    {
        let way: Vec<usize> = self.viterbi();
        self.tokens_of_way(&way, None)
    }
}

} // verus!
