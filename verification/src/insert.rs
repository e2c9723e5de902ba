use vstd::prelude::*;
use crate::alphabet::{
    all_in_alphabet, code, in_alphabet, lemma_code_injective, symbol_index, ALPHABET_SIZE,
};
use crate::matching::{as_ints, indices_of, lemma_indices_of_absent, lemma_indices_of_push};
use crate::node::Node;
use crate::trie::Trie;

verus! {

/// A pattern was refused: it holds a symbol that no node can branch on.
#[derive(Debug, Clone, Copy, PartialEq, Eq)]
pub struct OutOfAlphabet {
    /// The first such symbol of the pattern.
    pub symbol: char,
}

/// `c` is the first symbol of `s` outside the alphabet.
pub open spec fn is_first_outside(s: Seq<char>, c: char) -> bool {
    exists|i: int|
        0 <= i < s.len() && #[trigger] s[i] == c && !in_alphabet(c) && all_in_alphabet(s.take(i))
}

/// The first symbol of `word` outside the alphabet, if there is one.
pub fn first_outside(word: &str) -> (found: Option<char>)
    ensures
        found is None <==> all_in_alphabet(word@),
        found matches Some(c) ==> is_first_outside(word@, c),
{
    for ch in it: word.chars()
        invariant
            it.seq() == word@,
            all_in_alphabet(word@.take(it.index())),
    {
        let ghost k = it.index();
        if symbol_index(ch) >= ALPHABET_SIZE {
            assert(word@[k] == ch);
            assert(!in_alphabet(word@[k]));
            return Some(ch);
        }
        assert forall|i: int| 0 <= i < k + 1 implies in_alphabet(
            #[trigger] word@.take(k + 1)[i],
        ) by {
            if i < k {
                assert(word@.take(k)[i] == word@[i]);
            }
        }
    }
    assert(word@.take(word@.len() as int) =~= word@);
    None
}

impl Trie {
    /// `self` grew out of `other`: the nodes of `other` are there, each with
    /// its path and its link, and the nodes that came after them have no link.
    pub open spec fn extends(&self, other: &Trie) -> bool {
        &&& other.size() <= self.size()
        &&& self.paths@.take(other.size()) == other.paths@
        &&& forall|i: int|
            0 <= i < other.size() ==> (#[trigger] self.nodes@[i]).link == other.nodes@[i].link
        &&& forall|i: int|
            other.size() <= i < self.size() ==> (#[trigger] self.nodes@[i]).link is None
    }

    /// Hangs a new node below `parent`, in the free slot of `ch`.
    pub fn add_child(&mut self, parent: usize, ch: char) -> (id: usize)
        requires
            old(self).wf(),
            parent < old(self).size(),
            in_alphabet(ch),
            old(self).child(parent as int, code(ch) as int) is None,
        ensures
            final(self).wf(),
            id == old(self).size(),
            final(self).size() == old(self).size() + 1,
            final(self).paths@ == old(self).paths@.push(old(self).paths@[parent as int].push(ch)),
            final(self).parents@ == old(self).parents@.push(parent as int),
            final(self).words == old(self).words,
            final(self).ends == old(self).ends,
            final(self).child(parent as int, code(ch) as int) == Some(id),
            final(self).nodes@[id as int].is_blank(),
            final(self).extends(old(self)),
            forall|i: int, s: int|
                0 <= i < old(self).size() && 0 <= s < ALPHABET_SIZE && !(i == parent && s == code(
                    ch,
                )) ==> #[trigger] final(self).child(i, s) == old(self).child(i, s),
            forall|i: int|
                0 <= i < old(self).size() ==> (#[trigger] final(self).nodes@[i]).output == old(
                    self,
                ).nodes@[i].output,
    {
        let id = self.nodes.len();
        let idx = self.char_as_idx(ch);
        self.nodes.push(Node::new(ch));
        self.nodes[parent].children[idx] = id;
        let ghost path = old(self).paths@[parent as int].push(ch);
        proof {
            self.paths = Ghost(self.paths@.push(path));
            self.parents = Ghost(self.parents@.push(parent as int));
        }
        proof {
            let n = old(self).size();
            assert(self.paths@.take(n) =~= old(self).paths@);
            assert(path.drop_last() =~= old(self).paths@[parent as int]);
            assert(self.patterns() =~= old(self).patterns());
            // no node stood for the new path
            assert forall|m: int| 0 <= m < n implies old(self).paths@[m] != path by {
                if old(self).paths@[m] == path {
                    assert(m != 0);
                    assert(old(self).hangs(m));
                    let p = old(self).parents@[m];
                    assert(old(self).paths@[p] == old(self).paths@[parent as int]);
                    assert(p == parent);
                }
            }
            assert forall|i: int| 0 < i < self.size() implies #[trigger] self.hangs(i) by {
                if i < n {
                    assert(old(self).hangs(i));
                }
            }
            assert forall|i: int, s: int|
                0 <= i < self.size() && 0 <= s < ALPHABET_SIZE implies #[trigger] self.edge_ok(
                i,
                s,
            ) by {
                if i < n && !(i == parent && s == idx) {
                    assert(self.child(i, s) == old(self).child(i, s));
                }
            }
            assert(self.wf_shape());
            assert forall|j: int| 0 <= j < self.patterns().len() implies self.patterns()[j]
                != path by {
                assert(old(self).paths@[old(self).ends@[j] as int] == old(self).words@[j]@);
            }
            lemma_indices_of_absent(self.patterns(), path);
            assert forall|i: int| 0 <= i < self.size() implies as_ints(
                (#[trigger] self.nodes@[i]).output@,
            ) == indices_of(self.patterns(), self.paths@[i]) by {
                if i < n {
                    assert(self.nodes@[i].output == old(self).nodes@[i].output);
                } else {
                    assert(as_ints(self.nodes@[i].output@) =~= Seq::<int>::empty());
                }
            }
        }
        id
    }

    /// Registers `word` as the next pattern and returns its index. A word
    /// with a symbol outside the alphabet is refused and changes nothing.
    pub fn add_word(&mut self, word: &str) -> (res: Result<usize, OutOfAlphabet>)
        requires
            old(self).wf(),
        ensures
            final(self).wf(),
            match res {
                Ok(index) => {
                    &&& all_in_alphabet(word@)
                    &&& index == old(self).patterns().len()
                    &&& final(self).patterns() == old(self).patterns().push(word@)
                    &&& final(self).extends(old(self))
                    &&& forall|s: Seq<char>| #[trigger]
                        final(self).has_path(s) <==> old(self).has_path(s) || s.is_prefix_of(word@)
                },
                Err(e) => {
                    &&& is_first_outside(word@, e.symbol)
                    &&& *final(self) == *old(self)
                },
            },
    {
        if let Some(symbol) = first_outside(word) {
            return Err(OutOfAlphabet { symbol });
        }
        let mut current: usize = 0;
        proof {
            assert(self.paths@.take(self.size()) =~= self.paths@);
            assert forall|s: Seq<char>| #[trigger]
                self.has_path(s) <==> old(self).has_path(s) || (s.len() <= 0 && s.is_prefix_of(
                    word@,
                )) by {
                if s.len() <= 0 && s.is_prefix_of(word@) {
                    assert(self.paths@[0] =~= s);
                }
            }
        }
        for ch in it: word.chars()
            invariant
                it.seq() == word@,
                all_in_alphabet(word@),
                self.wf(),
                current < self.size(),
                self.paths@[current as int] == word@.take(it.index()),
                self.words == old(self).words,
                self.ends == old(self).ends,
                self.extends(old(self)),
                forall|s: Seq<char>| #[trigger]
                    self.has_path(s) <==> old(self).has_path(s) || (s.len() <= it.index()
                        && s.is_prefix_of(word@)),
        {
            let ghost k = it.index();
            let ghost before = *self;
            let idx = self.char_as_idx(ch);
            assert(in_alphabet(word@[k]));
            let next = match self.nodes[current].child(idx) {
                Some(child) => child,
                None => self.add_child(current, ch),
            };
            proof {
                assert(self.child(current as int, idx as int) == Some(next));
                assert(self.hangs(next as int));
                assert(self.paths@[next as int] =~= word@.take(k + 1)) by {
                    let w = self.paths@[next as int];
                    assert(w.drop_last() == word@.take(k));
                    lemma_code_injective(w.last(), ch);
                    assert(w =~= w.drop_last().push(w.last()));
                }
                assert(self.paths@.take(old(self).size()) =~= old(self).paths@) by {
                    assert(before.paths@.take(old(self).size()) == old(self).paths@);
                }
                assert forall|s: Seq<char>| #[trigger]
                    self.has_path(s) <==> old(self).has_path(s) || (s.len() <= k + 1
                        && s.is_prefix_of(word@)) by {
                    if self.has_path(s) {
                        let i = choose|i: int| 0 <= i < self.paths@.len() && self.paths@[i] == s;
                        if i < before.size() {
                            assert(before.paths@[i] == s);
                            assert(before.has_path(s));
                        } else {
                            assert(s == word@.take(k + 1));
                        }
                    }
                    if before.has_path(s) {
                        let i = choose|i: int|
                            0 <= i < before.paths@.len() && before.paths@[i] == s;
                        assert(self.paths@[i] == s);
                    }
                    if s.len() == k + 1 && s.is_prefix_of(word@) {
                        assert(s =~= word@.take(k + 1));
                        assert(self.paths@[next as int] == s);
                    }
                }
            }
            current = next;
        }
        assert(word@.take(word@.len() as int) =~= word@);
        let index = self.words.len();
        let ghost before = *self;
        self.words.push(word.to_owned());
        self.ends.push(current);
        self.nodes[current].output.push(index);
        proof {
            assert(self.patterns() =~= before.patterns().push(word@));
            assert(before.patterns() =~= old(self).patterns());
            assert(self.paths@ == before.paths@);
            assert forall|s: Seq<char>| #[trigger]
                self.has_path(s) <==> old(self).has_path(s) || s.is_prefix_of(word@) by {
                assert(self.has_path(s) == before.has_path(s));
                assert(before.has_path(s) <==> old(self).has_path(s) || (s.len() <= word@.len()
                    && s.is_prefix_of(word@)));
            }
            assert forall|i: int| 0 < i < self.size() implies #[trigger] self.hangs(i) by {
                assert(before.hangs(i));
            }
            assert forall|i: int, s: int|
                0 <= i < self.size() && 0 <= s < ALPHABET_SIZE implies #[trigger] self.edge_ok(
                i,
                s,
            ) by {
                assert(self.child(i, s) == before.child(i, s));
            }
            assert(self.wf_shape());
            assert forall|i: int| 0 <= i < self.size() implies as_ints(
                (#[trigger] self.nodes@[i]).output@,
            ) == indices_of(self.patterns(), self.paths@[i]) by {
                lemma_indices_of_push(before.patterns(), word@, self.paths@[i]);
                if i == current {
                    assert(as_ints(self.nodes@[i].output@) =~= as_ints(
                        before.nodes@[i].output@,
                    ).push(index as int));
                } else {
                    assert(self.nodes@[i].output == before.nodes@[i].output);
                }
            }
        }
        Ok(index)
    }
}

} // verus!
