use vstd::prelude::*;
use crate::alphabet::{code, in_alphabet, symbol_index, ALPHABET_SIZE};
use crate::matching::{as_ints, indices_of, is_proper_suffix, is_suffix};
use crate::node::Node;

verus! {

/// `paths[f]` is the longest of the paths that end `paths[i]` and are shorter
/// than it.
pub open spec fn longest_proper_suffix_at(paths: Seq<Seq<char>>, i: int, f: int) -> bool {
    &&& 0 <= f < paths.len()
    &&& is_proper_suffix(paths[f], paths[i])
    &&& forall|g: int|
        0 <= g < paths.len() && is_proper_suffix(#[trigger] paths[g], paths[i]) ==> paths[g].len()
            <= paths[f].len()
}

/// `paths[i]` is the longest of the paths that end `s`.
pub open spec fn longest_suffix_at(paths: Seq<Seq<char>>, i: int, s: Seq<char>) -> bool {
    &&& 0 <= i < paths.len()
    &&& is_suffix(paths[i], s)
    &&& forall|g: int|
        0 <= g < paths.len() && is_suffix(#[trigger] paths[g], s) ==> paths[g].len()
            <= paths[i].len()
}

/// The automaton: its nodes in one arena, the root at index 0, and the
/// patterns in the order they were added.
pub struct Trie {
    /// The nodes; a node is named by its place here.
    pub nodes: Vec<Node>,
    /// The patterns; a pattern's index is its place here.
    pub words: Vec<String>,
    /// For each pattern the node at which it ends.
    pub ends: Vec<usize>,
    /// For each node the symbols read from the root to reach it.
    pub paths: Ghost<Seq<Seq<char>>>,
    /// For each node but the root the node one symbol above it.
    pub parents: Ghost<Seq<int>>,
}

impl Trie {
    /// The patterns as sequences of symbols, by index.
    pub open spec fn patterns(&self) -> Seq<Seq<char>> {
        Seq::new(self.words@.len(), |j: int| self.words@[j]@)
    }

    /// The number of nodes.
    pub open spec fn size(&self) -> int {
        self.nodes@.len() as int
    }

    /// The slot in which node `i` hangs below its parent: the code point of
    /// the last symbol of its path.
    pub open spec fn slot(&self, i: int) -> int {
        code(self.paths@[i].last()) as int
    }

    /// The node reached from node `i` by symbol `s`, if any.
    pub open spec fn child(&self, i: int, s: int) -> Option<usize> {
        self.nodes@[i].child_at(s)
    }

    /// Some node stands for `s`.
    pub open spec fn has_path(&self, s: Seq<char>) -> bool {
        exists|i: int| 0 <= i < self.paths@.len() && #[trigger] self.paths@[i] == s
    }

    /// Node `i` hangs one symbol below its parent, in the slot of that symbol.
    pub open spec fn hangs(&self, i: int) -> bool {
        let p = self.parents@[i];
        let w = self.paths@[i];
        &&& 0 <= p < i
        &&& w.len() > 0
        &&& w.drop_last() == self.paths@[p]
        &&& in_alphabet(w.last())
        &&& self.child(p, self.slot(i)) matches Some(c) && c == i
        &&& self.nodes@[i].value == Some(w.last())
    }

    /// What stands in slot `s` of node `i`, if anything, is a node that
    /// hangs below `i` in that slot.
    pub open spec fn edge_ok(&self, i: int, s: int) -> bool {
        self.child(i, s) matches Some(c) ==> 0 < c < self.size() && self.parents@[c as int] == i
            && self.slot(c as int) == s
    }

    /// The nodes form a prefix tree: each node stands for one sequence of
    /// symbols, no two for the same, and each edge adds its slot's symbol.
    pub open spec fn wf_shape(&self) -> bool {
        &&& self.size() >= 1
        &&& self.paths@.len() == self.size()
        &&& self.parents@.len() == self.size()
        &&& self.paths@[0] == Seq::<char>::empty()
        &&& self.nodes@[0].value is None
        &&& forall|i: int|
            0 <= i < self.size() ==> (#[trigger] self.nodes@[i]).children@.len() == ALPHABET_SIZE
        &&& forall|i: int| 0 < i < self.size() ==> #[trigger] self.hangs(i)
        &&& forall|i: int, s: int|
            0 <= i < self.size() && 0 <= s < ALPHABET_SIZE && (#[trigger] self.child(i, s)) is Some
                ==> self.edge_ok(i, s)
        &&& forall|a: int, b: int|
            #![trigger self.paths@[a], self.paths@[b]]
            0 <= a < self.size() && 0 <= b < self.size() && self.paths@[a] == self.paths@[b] ==> a
                == b
    }

    /// Every pattern ends at a node, and each node lists the patterns that
    /// end at it.
    pub open spec fn wf_patterns(&self) -> bool {
        &&& self.ends@.len() == self.words@.len()
        &&& forall|j: int|
            0 <= j < self.words@.len() ==> (#[trigger] self.ends@[j]) < self.size()
                && self.paths@[self.ends@[j] as int] == self.words@[j]@
        &&& forall|i: int|
            0 <= i < self.size() ==> as_ints((#[trigger] self.nodes@[i]).output@) == indices_of(
                self.patterns(),
                self.paths@[i],
            )
    }

    /// The invariant of the automaton, links aside.
    pub open spec fn wf(&self) -> bool {
        self.wf_shape() && self.wf_patterns()
    }

    /// Node `f` stands for the longest proper suffix of node `i`'s path that
    /// the tree holds.
    pub open spec fn is_link(&self, i: int, f: int) -> bool {
        longest_proper_suffix_at(self.paths@, i, f)
    }

    /// Node `i` has its failure link, and the link is right.
    pub open spec fn resolved(&self, i: int) -> bool {
        self.nodes@[i].link matches Some(f) && self.is_link(i, f as int)
    }

    /// The root has no failure link, and every other node at most `d` symbols
    /// below the root has its own.
    pub open spec fn linked_below(&self, d: nat) -> bool {
        &&& self.nodes@[0].link is None
        &&& forall|i: int|
            0 < i < self.size() && self.paths@[i].len() <= d ==> #[trigger] self.resolved(i)
    }

    /// Node `i` stands for the longest ending of `s` that the tree holds.
    pub open spec fn is_longest_suffix(&self, i: int, s: Seq<char>) -> bool {
        longest_suffix_at(self.paths@, i, s)
    }

    /// Every node but the root has its failure link.
    pub open spec fn linked(&self) -> bool {
        &&& self.nodes@[0].link is None
        &&& forall|i: int| 0 < i < self.size() ==> #[trigger] self.resolved(i)
    }

    /// An automaton without patterns.
    pub fn new() -> (trie: Trie)
        ensures
            trie.wf(),
            trie.linked(),
            trie.size() == 1,
            trie.patterns() == Seq::<Seq<char>>::empty(),
    {
        let mut nodes: Vec<Node> = Vec::new();
        nodes.push(Node::default());
        let ghost paths = Seq::<Seq<char>>::empty().push(Seq::<char>::empty());
        let ghost parents = Seq::<int>::empty().push(0int);
        let trie = Trie {
            nodes,
            words: Vec::new(),
            ends: Vec::new(),
            paths: Ghost(paths),
            parents: Ghost(parents),
        };
        assert(trie.patterns() =~= Seq::<Seq<char>>::empty());
        assert(as_ints(trie.nodes@[0].output@) =~= indices_of(trie.patterns(), trie.paths@[0]));
        trie
    }

    /// The slot of `ch` in a node's table of children: its code point.
    pub fn char_as_idx(&self, ch: char) -> (idx: usize)
        ensures
            idx == code(ch),
            idx < ALPHABET_SIZE <==> in_alphabet(ch),
    {
        symbol_index(ch)
    }
}

} // verus!
