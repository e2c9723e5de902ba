use vstd::prelude::*;
use crate::alphabet::ALPHABET_SIZE;

verus! {

/// One state of the automaton: a prefix of one or more patterns.
#[derive(Debug)]
pub struct Node {
    /// One slot per symbol: the node reached by reading that symbol, or `0`
    /// where there is none. The root, node `0`, is nobody's child.
    pub children: Vec<usize>,
    /// Indices of the patterns that end exactly here, ascending.
    pub output: Vec<usize>,
    /// The symbol on the edge into this node; `None` at the root.
    pub value: Option<char>,
    /// The node of the longest proper suffix of this node's path; `None` at
    /// the root and until the links are computed.
    pub link: Option<usize>,
}

impl Node {
    /// A node without children, patterns or link.
    pub open spec fn is_blank(&self) -> bool {
        &&& self.children@ == Seq::new(ALPHABET_SIZE as nat, |s: int| 0usize)
        &&& self.output@ == Seq::<usize>::empty()
        &&& self.link is None
    }

    /// The node in slot `s`, if there is one.
    pub open spec fn child_at(&self, s: int) -> Option<usize> {
        if self.children@[s] == 0 {
            None
        } else {
            Some(self.children@[s])
        }
    }

    /// The node reached by the symbol of slot `idx`, if there is one.
    pub fn child(&self, idx: usize) -> (c: Option<usize>)
        requires
            idx < self.children@.len(),
        ensures
            c == self.child_at(idx as int),
    {
        let c = self.children[idx];
        if c == 0 {
            None
        } else {
            Some(c)
        }
    }

    /// A node for the symbol `value`, without children, patterns or link.
    pub fn new(value: char) -> (node: Node)
        ensures
            node.is_blank(),
            node.value == Some(value),
    {
        let node = Node {
            children: vec![0; ALPHABET_SIZE],
            output: Vec::new(),
            link: None,
            value: Some(value),
        };
        assert(node.children@ =~= Seq::new(ALPHABET_SIZE as nat, |s: int| 0usize));
        node
    }
}

impl Default for Node {
    fn default() -> (node: Node)
        ensures
            node.is_blank(),
            node.value is None,
    {
        let node = Node {
            children: vec![0; ALPHABET_SIZE],
            output: Vec::new(),
            link: None,
            value: None,
        };
        assert(node.children@ =~= Seq::new(ALPHABET_SIZE as nat, |s: int| 0usize));
        node
    }
}

} // verus!
