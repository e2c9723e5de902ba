use vstd::prelude::*;
use crate::alphabet::{
    code, in_alphabet, lemma_code_injective, lemma_symbol_code, symbol, ALPHABET_SIZE,
};
use crate::matching::{
    as_ints, emissions, emissions_upto, hits_at, indices_of, is_proper_suffix, is_suffix,
    lemma_as_ints_add, lemma_emissions_valid, lemma_suffix_drop_last, lemma_suffix_hits_skip,
    lemma_suffix_hits_within, lemma_suffix_of_suffix, lemma_suffix_push, lemma_suffix_trans,
    suffix_hits, tail,
};
use crate::trie::Trie;

verus! {

impl Trie {
    /// The step of the automaton on the symbol of slot `idx`: from
    /// `current_node` up the failure links to the first node with a child in
    /// that slot, and down to the child; to the root where there is none.
    /// The node reached stands for the longest ending of the old path
    /// followed by the symbol.
    pub fn follow_suffix_links(&self, current_node: &mut usize, idx: usize)
        requires
            self.wf(),
            *old(current_node) < self.size(),
            idx < ALPHABET_SIZE,
            self.linked_below(self.paths@[*old(current_node) as int].len()),
        ensures
            self.is_longest_suffix(
                *final(current_node) as int,
                self.paths@[*old(current_node) as int].push(symbol(idx as int)),
            ),
    {
        let ghost from = self.paths@[*old(current_node) as int];
        let ghost ch = symbol(idx as int);
        proof {
            lemma_symbol_code(idx as int);
            assert(from =~= tail(from, from.len() as int));
        }
        let mut node = *current_node;
        loop
            invariant
                self.wf(),
                idx < ALPHABET_SIZE,
                code(ch) == idx,
                node < self.size(),
                is_suffix(self.paths@[node as int], from),
                self.linked_below(from.len()),
                forall|m: int|
                    0 <= m < self.size() && is_suffix(#[trigger] self.paths@[m], from)
                        && self.child(m, idx as int) is Some ==> self.paths@[m].len()
                        <= self.paths@[node as int].len(),
            ensures
                self.is_longest_suffix(*current_node as int, from.push(ch)),
            decreases self.paths@[node as int].len(),
        {
            if let Some(next) = self.nodes[node].child(idx) {
                *current_node = next;
                proof {
                    assert(self.child(node as int, idx as int) == Some(next));
                    assert(self.hangs(next as int));
                    let w = self.paths@[next as int];
                    lemma_code_injective(w.last(), ch);
                    assert(w =~= self.paths@[node as int].push(ch));
                    lemma_suffix_push(self.paths@[node as int], from, ch);
                    assert forall|g: int|
                        0 <= g < self.size() && is_suffix(
                            #[trigger] self.paths@[g],
                            from.push(ch),
                        ) implies self.paths@[g].len() <= w.len() by {
                        self.lemma_parent_ends(g, from, ch);
                    }
                }
                break;
            }
            if let Some(link) = self.nodes[node].link {
                proof {
                    assert(node != 0);
                    assert(self.resolved(node as int));
                    assert forall|m: int|
                        0 <= m < self.size() && is_suffix(#[trigger] self.paths@[m], from)
                            && self.child(m, idx as int) is Some implies self.paths@[m].len()
                            <= self.paths@[link as int].len() by {
                        assert(m != node);
                        lemma_suffix_of_suffix(self.paths@[m], self.paths@[node as int], from);
                    }
                    lemma_suffix_trans(
                        self.paths@[link as int],
                        self.paths@[node as int],
                        from,
                    );
                }
                node = link;
            } else {
                *current_node = node;
                proof {
                    if node != 0 {
                        assert(self.resolved(node as int));
                    }
                    assert(self.paths@[0] =~= tail(from.push(ch), 0));
                    assert forall|g: int|
                        0 <= g < self.size() && is_suffix(
                            #[trigger] self.paths@[g],
                            from.push(ch),
                        ) implies self.paths@[g].len() <= 0 by {
                        self.lemma_parent_ends(g, from, ch);
                        if self.paths@[g].len() > 0 {
                            let p = self.parents@[g];
                            assert(self.paths@[p].len() == 0);
                            assert(self.paths@[p] =~= self.paths@[0]);
                            assert(p == 0);
                        }
                    }
                }
                break;
            }
        }
    }

    /// A node whose path is a non-empty ending of `s.push(ch)` hangs in the
    /// slot of `ch` below a node whose path ends `s`.
    pub proof fn lemma_parent_ends(&self, g: int, s: Seq<char>, ch: char)
        requires
            self.wf(),
            0 <= g < self.size(),
            is_suffix(self.paths@[g], s.push(ch)),
        ensures
            self.paths@[g].len() > 0 ==> {
                let p = self.parents@[g];
                &&& 0 <= p < self.size()
                &&& self.paths@[p].len() + 1 == self.paths@[g].len()
                &&& is_suffix(self.paths@[p], s)
                &&& self.child(p, code(ch) as int) matches Some(c) && c == g
            },
    {
        if self.paths@[g].len() > 0 {
            if g == 0 {
                assert(self.paths@[0].len() == 0);
            }
            assert(self.hangs(g));
            lemma_suffix_drop_last(self.paths@[g], s, ch);
        }
    }

    /// No pattern equals an ending of node `at`'s path that is longer than
    /// the path of its link `l` and shorter than its own.
    pub proof fn lemma_between_links(&self, at: int, l: int, len: int, j: int)
        requires
            self.wf(),
            0 <= at < self.size(),
            self.is_link(at, l),
            self.paths@[l].len() < len < self.paths@[at].len(),
            0 <= j < self.patterns().len(),
        ensures
            self.patterns()[j] != tail(self.paths@[at], len),
    {
        let e = self.ends@[j] as int;
        assert(self.paths@[e] == self.words@[j]@);
        if self.patterns()[j] == tail(self.paths@[at], len) {
            assert(is_proper_suffix(self.paths@[e], self.paths@[at])) by {
                assert(tail(self.paths@[at], len) =~= tail(
                    self.paths@[at],
                    tail(self.paths@[at], len).len() as int,
                ));
            }
        }
    }

    /// No pattern equals an ending of `s` that is longer than the longest
    /// ending of `s` in the tree.
    pub proof fn lemma_beyond_longest(&self, at: int, s: Seq<char>, len: int, j: int)
        requires
            self.wf(),
            self.is_longest_suffix(at, s),
            self.paths@[at].len() < len <= s.len(),
            0 <= j < self.patterns().len(),
        ensures
            self.patterns()[j] != tail(s, len),
    {
        let e = self.ends@[j] as int;
        assert(self.paths@[e] == self.words@[j]@);
        if self.patterns()[j] == tail(s, len) {
            assert(is_suffix(self.paths@[e], s)) by {
                assert(tail(s, len) =~= tail(s, tail(s, len).len() as int));
            }
        }
    }

    /// Appends to `emitted` what is reported at `node`: the patterns that
    /// end at `node`, then those at its link, and so on up to the root.
    pub fn collect_outputs(&self, node: usize, emitted: &mut Vec<usize>)
        requires
            self.wf(),
            self.linked(),
            node < self.size(),
        ensures
            as_ints(final(emitted)@) == as_ints(old(emitted)@) + suffix_hits(
                self.patterns(),
                self.paths@[node as int],
                self.paths@[node as int].len(),
            ),
    {
        let ghost pats = self.patterns();
        let ghost whole = self.paths@[node as int];
        let ghost total = as_ints(old(emitted)@) + suffix_hits(pats, whole, whole.len());
        let mut at = node;
        proof {
            assert(whole =~= tail(whole, whole.len() as int));
        }
        loop
            invariant_except_break
                as_ints(emitted@) + suffix_hits(pats, whole, self.paths@[at as int].len())
                    == total,
            invariant
                self.wf(),
                self.linked(),
                pats == self.patterns(),
                node < self.size(),
                whole == self.paths@[node as int],
                at < self.size(),
                is_suffix(self.paths@[at as int], whole),
            ensures
                as_ints(emitted@) == total,
            decreases self.paths@[at as int].len(),
        {
            let ghost base = emitted@;
            let ghost d = self.paths@[at as int].len();
            let output = &self.nodes[at].output;
            let mut i: usize = 0;
            while i < output.len()
                invariant
                    i <= output.len(),
                    emitted@ == base + output@.take(i as int),
                decreases output.len() - i,
            {
                emitted.push(output[i]);
                assert(emitted@ =~= base + output@.take(i + 1));
                i += 1;
            }
            proof {
                assert(output@.take(output@.len() as int) =~= output@);
                lemma_as_ints_add(base, output@);
                assert(as_ints(output@) == indices_of(pats, tail(whole, d as int)));
            }
            if let Some(link) = self.nodes[at].link {
                proof {
                    assert(at != 0);
                    assert(self.resolved(at as int));
                    let dl = self.paths@[link as int].len();
                    lemma_suffix_trans(self.paths@[link as int], self.paths@[at as int], whole);
                    assert forall|len: int, j: int|
                        dl < len <= d - 1 && 0 <= j < pats.len() implies #[trigger] pats[j]
                        != #[trigger] tail(whole, len) by {
                        self.lemma_between_links(at as int, link as int, len, j);
                        assert(tail(whole, len) =~= tail(self.paths@[at as int], len));
                    }
                    lemma_suffix_hits_skip(pats, whole, (d - 1) as nat, dl);
                    assert(as_ints(emitted@) + suffix_hits(pats, whole, dl) =~= total);
                }
                at = link;
            } else {
                proof {
                    if at != 0 {
                        assert(self.resolved(at as int));
                    }
                    assert(d == 0);
                }
                break;
            }
        }
    }

    /// One step of the scan on the symbol `ch`: a cursor on the longest
    /// ending of what was read moves to the longest ending of that followed
    /// by `ch`. A symbol outside the alphabet leads to the root.
    pub fn advance(&self, current_node: &mut usize, ch: char)
        requires
            self.wf(),
            self.linked(),
            *old(current_node) < self.size(),
        ensures
            *final(current_node) < self.size(),
            !in_alphabet(ch) ==> *final(current_node) == 0,
            forall|read: Seq<char>| #[trigger]
                self.is_longest_suffix(*old(current_node) as int, read)
                    ==> self.is_longest_suffix(*final(current_node) as int, read.push(ch)),
    {
        let ghost from = self.paths@[*old(current_node) as int];
        let idx = self.char_as_idx(ch);
        if idx < ALPHABET_SIZE {
            self.follow_suffix_links(current_node, idx);
            proof {
                let to = *current_node as int;
                lemma_symbol_code(idx as int);
                lemma_code_injective(symbol(idx as int), ch);
                assert forall|read: Seq<char>| #[trigger]
                    self.is_longest_suffix(
                        *old(current_node) as int,
                        read,
                    ) implies self.is_longest_suffix(to, read.push(ch)) by {
                    lemma_suffix_push(from, read, ch);
                    lemma_suffix_trans(self.paths@[to], from.push(ch), read.push(ch));
                    assert forall|g: int|
                        0 <= g < self.paths@.len() && is_suffix(
                            #[trigger] self.paths@[g],
                            read.push(ch),
                        ) implies self.paths@[g].len() <= self.paths@[to].len() by {
                        if self.paths@[g].len() > 0 {
                            self.lemma_parent_ends(g, read, ch);
                            let p = self.parents@[g];
                            lemma_suffix_of_suffix(self.paths@[p], from, read);
                            lemma_suffix_push(self.paths@[p], from, ch);
                            assert(self.hangs(g));
                            assert(self.paths@[g] =~= self.paths@[p].push(ch));
                        }
                    }
                }
            }
        } else {
            *current_node = 0;
            proof {
                assert forall|read: Seq<char>| #[trigger]
                    self.is_longest_suffix(
                        *old(current_node) as int,
                        read,
                    ) implies self.is_longest_suffix(0, read.push(ch)) by {
                    assert(self.paths@[0] =~= tail(read.push(ch), 0));
                    assert forall|g: int|
                        0 <= g < self.paths@.len() && is_suffix(
                            #[trigger] self.paths@[g],
                            read.push(ch),
                        ) implies self.paths@[g].len() <= 0 by {
                        if self.paths@[g].len() > 0 {
                            self.lemma_parent_ends(g, read, ch);
                            assert(self.hangs(g));
                        }
                    }
                }
            }
        }
    }

    /// Scans `text` once and returns the index of every pattern reported,
    /// in the order of reporting: after each symbol, for every ending of the
    /// text read so far, longest first, the patterns equal to it.
    pub fn search_internal(&self, text: &str) -> (emitted: Vec<usize>)
        requires
            self.wf(),
            self.linked(),
        ensures
            as_ints(emitted@) == emissions(self.patterns(), text@),
            forall|i: int| 0 <= i < emitted.len() ==> (#[trigger] emitted[i]) < self.words.len(),
    {
        let mut emitted: Vec<usize> = Vec::new();
        let mut current: usize = 0;
        proof {
            assert(self.paths@[0] =~= tail(text@.take(0), 0));
            assert(as_ints(emitted@) =~= emissions_upto(self.patterns(), text@, 0));
        }
        for ch in it: text.chars()
            invariant
                it.seq() == text@,
                self.wf(),
                self.linked(),
                self.is_longest_suffix(current as int, text@.take(it.index())),
                as_ints(emitted@) == emissions_upto(self.patterns(), text@, it.index() as nat),
        {
            let ghost k = it.index();
            let ghost read = text@.take(k + 1);
            assert(text@.take(k).push(ch) =~= read);
            self.advance(&mut current, ch);
            self.collect_outputs(current, &mut emitted);
            proof {
                let pats = self.patterns();
                let at = self.paths@[current as int];
                assert forall|len: int, j: int|
                    at.len() < len <= read.len() && 0 <= j < pats.len() implies #[trigger] pats[j]
                    != #[trigger] tail(read, len) by {
                    self.lemma_beyond_longest(current as int, read, len, j);
                }
                lemma_suffix_hits_skip(pats, read, read.len(), at.len());
                lemma_suffix_hits_within(pats, at, read, at.len());
                assert(hits_at(pats, text@, (k + 1) as nat) == suffix_hits(pats, at, at.len()));
            }
        }
        proof {
            assert(text@.take(text@.len() as int) =~= text@);
            lemma_emissions_valid(self.patterns(), text@, text@.len());
            assert forall|i: int| 0 <= i < emitted.len() implies (#[trigger] emitted[i])
                < self.words.len() by {
                assert(as_ints(emitted@)[i] == emitted[i]);
            }
        }
        emitted
    }
}

} // verus!
