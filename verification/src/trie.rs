//! A trie over bytes, for finding every token that begins at a place in a text.

use vstd::prelude::*;

verus! {

/// A node of a trie: whether a word ends there, and its children by the byte that leads to them.
pub struct TrieNode {
    is_leaf: bool,
    children: Vec<(u8, usize)>,
}

/// A set of words over bytes. Node 0 is the root; `paths` gives the bytes that lead from the
/// root to each node.
pub struct Trie {
    nodes: Vec<TrieNode>,
    paths: Ghost<Seq<Seq<u8>>>,
}

/// The lengths, ascending, from 1 to `upto`, of those prefixes of `input` that are in `words`.
pub open spec fn matching_lengths(words: Set<Seq<u8>>, input: Seq<u8>, upto: nat) -> Seq<usize>
    decreases upto,
{
    if upto == 0 {
        seq![]
    } else {
        let shorter = matching_lengths(words, input, (upto - 1) as nat);
        if words.contains(input.take(upto as int)) {
            shorter.push(upto as usize)
        } else {
            shorter
        }
    }
}

impl Trie {
    pub closed spec fn wf(&self) -> bool {
        &&& self.paths@.len() == self.nodes@.len()
        &&& self.nodes@.len() > 0
        &&& self.paths@[0] == Seq::<u8>::empty()
        &&& forall|i: int, c: int| self.is_slot(i, c) ==> #[trigger] self.edge(i, c)
        &&& forall|i: int, j: int|
            #![trigger self.paths@[i], self.paths@[j]]
            0 <= i < self.nodes@.len() && 0 <= j < self.nodes@.len() && self.paths@[i]
                == self.paths@[j] ==> i == j
        &&& forall|j: int| 0 < j < self.nodes@.len() ==> #[trigger] self.has_parent(j)
    }

    /// Node `i` has a child at place `c`.
    spec fn is_slot(&self, i: int, c: int) -> bool {
        0 <= i < self.nodes@.len() && 0 <= c < self.nodes@[i].children@.len()
    }

    /// The child `c` of node `i` is a node, reached by one more byte.
    spec fn edge(&self, i: int, c: int) -> bool {
        let (label, child) = self.nodes@[i].children@[c];
        child < self.nodes@.len() && self.paths@[child as int] == self.paths@[i].push(label)
    }

    /// Node `j` is the child `c` of node `i`.
    spec fn is_child(&self, i: int, c: int, j: int) -> bool {
        self.is_slot(i, c) && self.nodes@[i].children@[c].1 == j
    }

    /// Some node has node `j` as a child.
    spec fn has_parent(&self, j: int) -> bool {
        exists|i: int, c: int| self.is_child(i, c, j)
    }

    /// Node `j` is reached by the bytes `path`.
    spec fn reaches(&self, j: int, path: Seq<u8>) -> bool {
        0 <= j < self.nodes@.len() && self.paths@[j] == path
    }

    /// The words of the trie.
    pub closed spec fn words(&self) -> Set<Seq<u8>> {
        Set::new(
            |word: Seq<u8>|
                exists|j: int| #[trigger] self.reaches(j, word) && self.nodes@[j].is_leaf,
        )
    }

    /// A trie without words.
    pub fn new() -> (trie: Trie)
        ensures
            trie.wf(),
            trie.words() == Set::<Seq<u8>>::empty(),
    {
        let mut nodes: Vec<TrieNode> = Vec::new();
        nodes.push(TrieNode { is_leaf: false, children: Vec::new() });
        let ghost paths = Seq::<Seq<u8>>::empty().push(Seq::<u8>::empty());
        let trie = Trie { nodes, paths: Ghost(paths) };
        assert(trie.words() =~= Set::<Seq<u8>>::empty());
        trie
    }

    /// A copy with the same words.
    pub fn copy(&self) -> (trie: Trie)
        ensures
            self.wf() ==> trie.wf(),
            trie.words() == self.words(),
    {
        let mut nodes: Vec<TrieNode> = Vec::new();
        let mut i: usize = 0;
        while i < self.nodes.len()
            invariant
                i <= self.nodes@.len(),
                nodes@.len() == i,
                forall|j: int|
                    0 <= j < i ==> (#[trigger] nodes@[j]).is_leaf == self.nodes@[j].is_leaf
                        && nodes@[j].children@ == self.nodes@[j].children@,
            decreases self.nodes.len() - i,
        {
            let node: &TrieNode = &self.nodes[i];
            let mut children: Vec<(u8, usize)> = Vec::new();
            let mut c: usize = 0;
            while c < node.children.len()
                invariant
                    c <= node.children@.len(),
                    children@ =~= node.children@.take(c as int),
                decreases node.children.len() - c,
            {
                children.push(node.children[c]);
                c = c + 1;
            }
            assert(children@ =~= node.children@);
            nodes.push(TrieNode { is_leaf: node.is_leaf, children });
            i = i + 1;
        }
        let trie = Trie { nodes, paths: self.paths };
        proof {
            if self.wf() {
                assert forall|i: int, c: int| trie.is_slot(i, c) implies #[trigger] trie.edge(
                    i,
                    c,
                ) by {
                    assert(self.is_slot(i, c));
                    assert(self.edge(i, c));
                }
                assert forall|j: int| 0 < j < trie.nodes@.len() implies #[trigger] trie.has_parent(
                    j,
                ) by {
                    assert(self.has_parent(j));
                    let (i, c) = choose|i: int, c: int| self.is_child(i, c, j);
                    assert(trie.is_child(i, c, j));
                }
            }
            assert forall|word: Seq<u8>| trie.words().contains(word) == self.words().contains(word) by {
                if self.words().contains(word) {
                    let j = choose|j: int| #[trigger]
                        self.reaches(j, word) && self.nodes@[j].is_leaf;
                    assert(trie.reaches(j, word) && trie.nodes@[j].is_leaf);
                }
                if trie.words().contains(word) {
                    let j = choose|j: int| #[trigger]
                        trie.reaches(j, word) && trie.nodes@[j].is_leaf;
                    assert(self.reaches(j, word) && self.nodes@[j].is_leaf);
                }
            }
            assert(trie.words() =~= self.words());
        }
        trie
    }

    /// The child of a node for a byte.
    fn child(&self, node: usize, label: u8) -> (found: Option<usize>)
        requires
            self.wf(),
            node < self.nodes@.len(),
        ensures
            match found {
                Some(child) => self.reaches(child as int, self.paths@[node as int].push(label)),
                None => forall|j: int| !self.reaches(j, self.paths@[node as int].push(label)),
            },
            found is None ==> forall|c: int|
                0 <= c < self.nodes@[node as int].children@.len()
                    ==> (#[trigger] self.nodes@[node as int].children@[c]).0 != label,
    {
        let children: &Vec<(u8, usize)> = &self.nodes[node].children;
        let mut c: usize = 0;
        while c < children.len()
            invariant
                self.wf(),
                node < self.nodes@.len(),
                children@ == self.nodes@[node as int].children@,
                c <= children@.len(),
                forall|d: int| 0 <= d < c ==> (#[trigger] children@[d]).0 != label,
            decreases children.len() - c,
        {
            if children[c].0 == label {
                assert(self.is_slot(node as int, c as int));
                assert(self.edge(node as int, c as int));
                return Some(children[c].1);
            }
            c = c + 1;
        }
        proof {
            let path = self.paths@[node as int].push(label);
            assert forall|j: int| !self.reaches(j, path) by {
                if self.reaches(j, path) {
                    assert(path.len() > 0);
                    assert(j > 0);
                    assert(self.has_parent(j));
                    let (i, d) = choose|i: int, d: int| self.is_child(i, d, j);
                    assert(self.edge(i, d));
                    assert(self.paths@[i] == self.paths@[node as int]) by {
                        assert(self.paths@[i].push(self.nodes@[i].children@[d].0).drop_last()
                            =~= self.paths@[i]);
                        assert(path.drop_last() =~= self.paths@[node as int]);
                    }
                    assert(path.last() == label);
                    assert(self.paths@[i].push(self.nodes@[i].children@[d].0).last()
                        == self.nodes@[i].children@[d].0);
                }
            }
        }
        None
    }

    /// Adds a word.
    pub fn push(&mut self, word: &[u8])
        requires
            old(self).wf(),
        ensures
            final(self).wf(),
            final(self).words() == old(self).words().insert(word@),
    {
        let mut node: usize = 0;
        let mut i: usize = 0;
        assert(word@.take(0) =~= Seq::<u8>::empty());
        while i < word.len()
            invariant
                self.wf(),
                self.words() == old(self).words(),
                i <= word@.len(),
                self.reaches(node as int, word@.take(i as int)),
            decreases word.len() - i,
        {
            let label: u8 = word[i];
            assert(word@.take(i as int).push(label) =~= word@.take(i + 1));
            match self.child(node, label) {
                Some(child) => {
                    node = child;
                },
                None => {
                    let fresh: usize = self.nodes.len();
                    let ghost before = *self;
                    self.nodes[node].children.push((label, fresh));
                    self.nodes.push(TrieNode { is_leaf: false, children: Vec::new() });
                    self.paths = Ghost(self.paths@.push(self.paths@[node as int].push(label)));
                    proof {
                        lemma_grown(before, *self, node as int, label);
                    }
                    node = fresh;
                },
            }
            i = i + 1;
        }
        assert(word@.take(i as int) =~= word@);
        let ghost before = *self;
        self.nodes[node].is_leaf = true;
        proof {
            lemma_marked(before, *self, node as int);
        }
    }

    /// The lengths of the words that `input` has, from byte `from` on, as prefixes; ascending.
    pub fn common_prefix_search(&self, input: &[u8], from: usize) -> (lengths: Vec<usize>)
        requires
            self.wf(),
            from <= input@.len(),
        ensures
            lengths@ == matching_lengths(
                self.words(),
                input@.skip(from as int),
                (input@.len() - from) as nat,
            ),
    {
        let mut lengths: Vec<usize> = Vec::new();
        let mut node: usize = 0;
        let mut n: usize = 0;
        let ghost rest = input@.skip(from as int);
        assert(rest.take(0) =~= Seq::<u8>::empty());
        while n < input.len() - from
            invariant
                self.wf(),
                from <= input@.len(),
                rest == input@.skip(from as int),
                n <= rest.len(),
                self.reaches(node as int, rest.take(n as int)),
                lengths@ == matching_lengths(self.words(), rest, n as nat),
            decreases input.len() - from - n,
        {
            let label: u8 = input[from + n];
            assert(rest.take(n as int).push(label) =~= rest.take(n + 1));
            match self.child(node, label) {
                None => {
                    proof {
                        lemma_no_longer_match(*self, rest, n as nat, rest.len());
                    }
                    return lengths;
                },
                Some(child) => {
                    node = child;
                    n = n + 1;
                    if self.nodes[node].is_leaf {
                        assert(self.words().contains(rest.take(n as int)));
                        lengths.push(n);
                    } else {
                        proof {
                            if self.words().contains(rest.take(n as int)) {
                                let j = choose|j: int| #[trigger]
                                    self.reaches(j, rest.take(n as int))
                                        && self.nodes@[j].is_leaf;
                                assert(self.paths@[j] == self.paths@[node as int]);
                            }
                        }
                    }
                },
            }
        }
        lengths
    }
}

/// A trie that has gained one child without a word.
proof fn lemma_grown(before: Trie, after: Trie, node: int, label: u8)
    requires
        before.wf(),
        0 <= node < before.nodes@.len(),
        before.nodes@.len() <= usize::MAX,
        forall|j: int| !before.reaches(j, before.paths@[node].push(label)),
        after.nodes@.len() == before.nodes@.len() + 1,
        after.paths@ == before.paths@.push(before.paths@[node].push(label)),
        after.nodes@[node].children@ == before.nodes@[node].children@.push(
            (label, before.nodes@.len() as usize),
        ),
        after.nodes@[node].is_leaf == before.nodes@[node].is_leaf,
        forall|i: int|
            0 <= i < before.nodes@.len() && i != node ==> after.nodes@[i] == before.nodes@[i],
        after.nodes@[before.nodes@.len() as int].children@.len() == 0,
        !after.nodes@[before.nodes@.len() as int].is_leaf,
    ensures
        after.wf(),
        after.words() == before.words(),
        after.reaches(before.nodes@.len() as int, before.paths@[node].push(label)),
{
    let fresh = before.nodes@.len() as int;
    let path = before.paths@[node].push(label);
    assert forall|i: int, c: int| after.is_slot(i, c) implies #[trigger] after.edge(i, c) by {
        if i < fresh && c < before.nodes@[i].children@.len() {
            assert(before.is_slot(i, c) && before.edge(i, c));
            assert(after.nodes@[i].children@[c] == before.nodes@[i].children@[c]);
        }
    }
    assert forall|i: int, j: int|
        #![trigger after.paths@[i], after.paths@[j]]
        0 <= i < after.nodes@.len() && 0 <= j < after.nodes@.len() && after.paths@[i]
            == after.paths@[j] implies i == j by {
        if i < fresh && j < fresh {
            assert(before.paths@[i] == before.paths@[j]);
        } else if i < fresh {
            assert(!before.reaches(i, path));
        } else if j < fresh {
            assert(!before.reaches(j, path));
        }
    }
    assert forall|j: int| 0 < j < after.nodes@.len() implies #[trigger] after.has_parent(j) by {
        if j < fresh {
            assert(before.has_parent(j));
            let (i, c) = choose|i: int, c: int| before.is_child(i, c, j);
            assert(after.is_child(i, c, j));
        } else {
            let c = before.nodes@[node].children@.len() as int;
            assert(after.is_child(node, c, j));
        }
    }
    assert(after.words() =~= before.words()) by {
        assert forall|word: Seq<u8>| after.words().contains(word) implies before.words().contains(
            word,
        ) by {
            let j = choose|j: int| #[trigger] after.reaches(j, word) && after.nodes@[j].is_leaf;
            assert(before.reaches(j, word) && before.nodes@[j].is_leaf);
        }
        assert forall|word: Seq<u8>| before.words().contains(word) implies after.words().contains(
            word,
        ) by {
            let j = choose|j: int| #[trigger] before.reaches(j, word) && before.nodes@[j].is_leaf;
            assert(after.reaches(j, word) && after.nodes@[j].is_leaf);
        }
    }
}

/// A trie in which one more node ends a word.
proof fn lemma_marked(before: Trie, after: Trie, node: int)
    requires
        before.wf(),
        0 <= node < before.nodes@.len(),
        after.nodes@.len() == before.nodes@.len(),
        after.paths@ == before.paths@,
        after.nodes@[node].children@ == before.nodes@[node].children@,
        after.nodes@[node].is_leaf,
        forall|i: int|
            0 <= i < before.nodes@.len() && i != node ==> after.nodes@[i] == before.nodes@[i],
    ensures
        after.wf(),
        after.words() == before.words().insert(before.paths@[node]),
{
    assert(forall|i: int|
        0 <= i < before.nodes@.len() ==> #[trigger] after.nodes@[i].children@
            == before.nodes@[i].children@);
    assert forall|i: int, c: int| after.is_slot(i, c) implies #[trigger] after.edge(i, c) by {
        assert(before.is_slot(i, c) && before.edge(i, c));
    }
    assert forall|j: int| 0 < j < after.nodes@.len() implies #[trigger] after.has_parent(j) by {
        assert(before.has_parent(j));
        let (i, c) = choose|i: int, c: int| before.is_child(i, c, j);
        assert(after.is_child(i, c, j));
    }
    let added = before.paths@[node];
    assert(after.words() =~= before.words().insert(added)) by {
        assert forall|word: Seq<u8>| after.words().contains(word) implies before.words().insert(
            added,
        ).contains(word) by {
            let j = choose|j: int| #[trigger] after.reaches(j, word) && after.nodes@[j].is_leaf;
            if j != node {
                assert(before.reaches(j, word) && before.nodes@[j].is_leaf);
            }
        }
        assert forall|word: Seq<u8>|
            before.words().insert(added).contains(word) implies after.words().contains(word) by {
            if word == added {
                assert(after.reaches(node, word));
            } else {
                let j = choose|j: int| #[trigger]
                    before.reaches(j, word) && before.nodes@[j].is_leaf;
                assert(after.reaches(j, word) && after.nodes@[j].is_leaf);
            }
        }
    }
}

/// Where no node is reached by one more byte, no longer prefix is a word.
proof fn lemma_no_longer_match(trie: Trie, input: Seq<u8>, n: nat, upto: nat)
    requires
        trie.wf(),
        n < input.len(),
        n <= upto <= input.len(),
        forall|j: int| !(#[trigger] trie.reaches(j, input.take(n as int + 1))),
    ensures
        matching_lengths(trie.words(), input, upto) == matching_lengths(trie.words(), input, n),
        upto > n ==> forall|j: int| !trie.reaches(j, input.take(upto as int)),
    decreases upto,
{
    if upto > n {
        lemma_no_longer_match(trie, input, n, (upto - 1) as nat);
        let path = input.take(upto as int);
        assert forall|j: int| !trie.reaches(j, path) by {
            if upto > n + 1 && trie.reaches(j, path) {
                assert(path.len() > 0);
                assert(j > 0);
                assert(trie.has_parent(j));
                let (i, c) = choose|i: int, c: int| trie.is_child(i, c, j);
                assert(trie.edge(i, c));
                assert(trie.paths@[i] =~= input.take(upto - 1)) by {
                    assert(trie.paths@[i].push(trie.nodes@[i].children@[c].0).drop_last()
                        =~= trie.paths@[i]);
                    assert(path.drop_last() =~= input.take(upto - 1));
                }
                assert(trie.reaches(i, input.take(upto - 1)));
            }
        }
    }
}

} // verus!
