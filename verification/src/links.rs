use std::collections::VecDeque;
use vstd::prelude::*;
use vstd::set_lib::{lemma_int_range, lemma_len_subset, set_int_range};
use crate::alphabet::{lemma_code_injective, lemma_symbol_code, symbol, ALPHABET_SIZE};
use crate::matching::{
    as_ints, is_proper_suffix, lemma_suffix_of_suffix, lemma_suffix_push, lemma_suffix_trans, tail,
};
use crate::trie::Trie;

verus! {

/// `p` is among the first `head` entries of `order`.
pub open spec fn is_done(order: Seq<int>, head: int, p: int) -> bool {
    exists|k: int| 0 <= k < head && k < order.len() && #[trigger] order[k] == p
}

/// A sequence of distinct numbers from `1` to `n - 1` has fewer than `n` entries.
pub proof fn lemma_distinct_bound(order: Seq<int>, n: int)
    requires
        n >= 1,
        order.no_duplicates(),
        forall|k: int| 0 <= k < order.len() ==> 0 < #[trigger] order[k] < n,
    ensures
        order.len() < n,
{
    order.unique_seq_to_set();
    lemma_int_range(1, n);
    assert(order.to_set().subset_of(set_int_range(1, n))) by {
        assert forall|x: int| order.to_set().contains(x) implies set_int_range(1, n).contains(
            x,
        ) by {
            let k = choose|k: int| 0 <= k < order.len() && order[k] == x;
            assert(0 < order[k] < n);
        }
    }
    lemma_len_subset(order.to_set(), set_int_range(1, n));
}

impl Trie {
    /// `self` and `other` differ at most in their failure links.
    pub open spec fn same_but_links(&self, other: &Trie) -> bool {
        &&& self.nodes@.len() == other.nodes@.len()
        &&& forall|i: int|
            0 <= i < self.nodes@.len() ==> {
                &&& (#[trigger] self.nodes@[i]).children == other.nodes@[i].children
                &&& self.nodes@[i].output == other.nodes@[i].output
                &&& self.nodes@[i].value == other.nodes@[i].value
            }
        &&& self.words == other.words
        &&& self.ends == other.ends
        &&& self.paths == other.paths
        &&& self.parents == other.parents
    }

    /// Well-formedness does not depend on the failure links.
    pub proof fn lemma_same_but_links_wf(&self, other: &Trie)
        requires
            other.wf(),
            self.same_but_links(other),
        ensures
            self.wf(),
    {
        assert forall|i: int| 0 < i < self.size() implies #[trigger] self.hangs(i) by {
            assert(other.hangs(i));
        }
        assert forall|i: int, s: int|
                0 <= i < self.size() && 0 <= s < ALPHABET_SIZE implies #[trigger] self.edge_ok(
                i,
                s,
            ) by {
            assert(self.child(i, s) == other.child(i, s));
        }
        assert(self.patterns() =~= other.patterns());
    }

    /// Sets the failure link of node `i` and nothing else.
    pub fn set_link(&mut self, i: usize, link: Option<usize>)
        requires
            i < old(self).size(),
        ensures
            final(self).same_but_links(old(self)),
            final(self).nodes@[i as int].link == link,
            forall|j: int|
                0 <= j < old(self).size() && j != i ==> (#[trigger] final(self).nodes@[j]).link
                    == old(self).nodes@[j].link,
    {
        self.nodes[i].link = link;
    }

    /// Node `i` hangs below the root, below one of the first `head` entries
    /// of `order`, or below entry `head` in a slot before `s`.
    pub open spec fn covered(&self, order: Seq<int>, head: int, s: int, i: int) -> bool {
        let p = self.parents@[i];
        ||| p == 0
        ||| is_done(order, head, p)
        ||| (head < order.len() && p == order[head] && self.slot(i) < s)
    }

    /// The state of the pass over the root's slots: `order` holds the nodes
    /// in the slots before `s`, each with its link.
    pub open spec fn root_pass(&self, order: Seq<int>, s: int) -> bool {
        &&& self.nodes@[0].link is None
        &&& order.no_duplicates()
        &&& forall|k: int|
            0 <= k < order.len() ==> {
                &&& 0 < #[trigger] order[k] < self.size()
                &&& self.resolved(order[k])
                &&& self.parents@[order[k]] == 0
                &&& self.slot(order[k]) < s
            }
        &&& forall|i: int|
            0 < i < self.size() && #[trigger] self.parents@[i] == 0 && self.slot(i) < s
                ==> order.contains(i)
    }

    /// The state of the breadth-first pass: `order` holds the nodes met so
    /// far, each with its link and none twice, by growing depth; its first
    /// `head` entries have all their children in `order`, entry `head` those
    /// in the slots before `s`.
    pub open spec fn pass(&self, order: Seq<int>, head: int, s: int) -> bool {
        &&& 0 <= head <= order.len()
        &&& 0 <= s <= ALPHABET_SIZE
        &&& self.nodes@[0].link is None
        &&& order.no_duplicates()
        &&& forall|k: int| 0 <= k < order.len() ==> 0 < #[trigger] order[k] < self.size()
        &&& forall|k: int| 0 <= k < order.len() ==> self.resolved(#[trigger] order[k])
        &&& forall|a: int, b: int|
            0 <= a <= b < order.len() ==> self.paths@[#[trigger] order[a]].len()
                <= self.paths@[#[trigger] order[b]].len()
        &&& forall|i: int|
            0 < i < self.size() && #[trigger] self.covered(order, head, s, i) ==> order.contains(i)
        &&& forall|k: int|
            0 <= k < order.len() ==> self.covered(order, head, s, #[trigger] order[k])
        &&& head < order.len() ==> {
            &&& forall|i: int|
                0 < i < self.size() && (#[trigger] self.paths@[i]).len()
                    <= self.paths@[order[head]].len() ==> order.contains(i)
            &&& forall|k: int|
                0 <= k < order.len() ==> self.paths@[#[trigger] order[k]].len()
                    <= self.paths@[order[head]].len() + 1
        }
    }

    /// A node just below the root links to the root.
    pub proof fn lemma_root_child_link(&self, c: int)
        requires
            self.wf(),
            0 < c < self.size(),
            self.parents@[c] == 0,
        ensures
            self.is_link(c, 0),
            self.paths@[c].len() == 1,
    {
        assert(self.hangs(c));
        assert(self.paths@[c].drop_last().len() == 0);
        assert(self.paths@[0] =~= tail(self.paths@[c], 0));
    }

    /// The link of a child: one step of the automaton from the link of its
    /// parent, on the symbol of its slot.
    pub proof fn lemma_child_link(&self, u: int, l: int, s: int, c: int, t: int)
        requires
            self.wf(),
            0 < u < self.size(),
            0 <= s < ALPHABET_SIZE,
            self.child(u, s) matches Some(x) && x == c,
            0 <= c < self.size(),
            self.is_link(u, l),
            self.is_longest_suffix(t, self.paths@[l].push(symbol(s))),
        ensures
            self.is_link(c, t),
    {
        let ch = symbol(s);
        lemma_symbol_code(s);
        assert(self.hangs(c));
        let pu = self.paths@[u];
        let pl = self.paths@[l];
        let pc = self.paths@[c];
        lemma_code_injective(pc.last(), ch);
        assert(pc =~= pu.push(ch));
        lemma_suffix_push(pl, pu, ch);
        lemma_suffix_trans(self.paths@[t], pl.push(ch), pc);
        assert forall|g: int|
            0 <= g < self.paths@.len() && is_proper_suffix(
                #[trigger] self.paths@[g],
                pc,
            ) implies self.paths@[g].len() <= self.paths@[t].len() by {
            let pg = self.paths@[g];
            if pg.len() > 0 {
                self.lemma_parent_ends(g, pu, ch);
                let p = self.parents@[g];
                let pp = self.paths@[p];
                assert(is_proper_suffix(pp, pu));
                lemma_suffix_of_suffix(pp, pl, pu);
                lemma_suffix_push(pp, pl, ch);
                assert(self.hangs(g));
                assert(pg =~= pp.push(ch));
            }
        }
    }

    /// When the root's slots are done, the breadth-first pass can start.
    pub proof fn lemma_root_pass_done(&self, order: Seq<int>)
        requires
            self.wf(),
            self.root_pass(order, ALPHABET_SIZE as int),
        ensures
            self.pass(order, 0, 0),
    {
        assert forall|k: int| 0 <= k < order.len() implies self.paths@[#[trigger] order[k]].len()
            == 1 by {
            self.lemma_root_child_link(order[k]);
        }
        assert forall|i: int|
            0 < i < self.size() && #[trigger] self.covered(order, 0, 0, i) implies order.contains(
            i,
        ) by {
            assert(self.hangs(i));
        }
        if 0 < order.len() {
            assert forall|i: int|
                0 < i < self.size() && (#[trigger] self.paths@[i]).len()
                    <= self.paths@[order[0]].len() implies order.contains(i) by {
                assert(self.hangs(i));
                let p = self.parents@[i];
                assert(self.paths@[p].len() == 0);
                assert(self.paths@[p] =~= self.paths@[0]);
                assert(p == 0);
            }
        }
    }

    /// A free slot of the entry at `head` is done at once.
    pub proof fn lemma_pass_skip(&self, order: Seq<int>, head: int, s: int)
        requires
            self.wf(),
            self.pass(order, head, s),
            head < order.len(),
            s < ALPHABET_SIZE,
            self.child(order[head], s) is None,
        ensures
            self.pass(order, head, s + 1),
    {
        assert forall|i: int|
            0 < i < self.size() && #[trigger] self.covered(
                order,
                head,
                s + 1,
                i,
            ) implies order.contains(i) by {
            assert(self.hangs(i));
            assert(self.covered(order, head, s, i));
        }
        assert forall|k: int| 0 <= k < order.len() implies self.covered(
            order,
            head,
            s + 1,
            #[trigger] order[k],
        ) by {
            assert(self.covered(order, head, s, order[k]));
        }
    }

    /// The child in slot `s` of the entry at `head`, once it has its link,
    /// joins `order`. `before` is the automaton before the link was set.
    pub proof fn lemma_pass_push(&self, before: &Trie, order: Seq<int>, head: int, s: int, c: int)
        requires
            before.wf(),
            before.pass(order, head, s),
            head < order.len(),
            s < ALPHABET_SIZE,
            before.child(order[head], s) matches Some(x) && x == c,
            0 <= c < before.size(),
            self.same_but_links(before),
            self.resolved(c),
            forall|j: int|
                0 <= j < before.size() && j != c ==> (#[trigger] self.nodes@[j]).link
                    == before.nodes@[j].link,
        ensures
            self.wf(),
            self.pass(order.push(c), head, s + 1),
    {
        self.lemma_same_but_links_wf(before);
        let u = order[head];
        let after = order.push(c);
        assert(before.hangs(c));
        assert(self.hangs(c));
        assert(self.parents@[c] == u && self.slot(c) == s);
        // the child is new to the order
        assert forall|k: int| 0 <= k < order.len() implies #[trigger] order[k] != c by {
            if order[k] == c {
                assert(before.covered(order, head, s, order[k]));
                if is_done(order, head, u) {
                    let k2 = choose|k2: int| 0 <= k2 < head && k2 < order.len() && order[k2] == u;
                    assert(order[k2] == order[head]);
                }
            }
        }
        assert(after.no_duplicates());
        assert(c != 0);
        assert forall|k: int| 0 <= k < after.len() implies self.resolved(#[trigger] after[k]) by {
            if k < order.len() {
                assert(before.resolved(order[k]));
                assert(self.nodes@[order[k]].link == before.nodes@[order[k]].link);
            }
        }
        assert(self.paths@[c].len() == self.paths@[u].len() + 1) by {
            assert(self.paths@[c].drop_last().len() == self.paths@[u].len());
        }
        assert forall|a: int, b: int|
            0 <= a <= b < after.len() implies self.paths@[#[trigger] after[a]].len()
            <= self.paths@[#[trigger] after[b]].len() by {
            if b < order.len() {
                assert(after[a] == order[a] && after[b] == order[b]);
            } else if a < order.len() {
                assert(after[a] == order[a]);
            }
        }
        assert forall|i: int|
            0 < i < self.size() && #[trigger] self.covered(
                after,
                head,
                s + 1,
                i,
            ) implies after.contains(i) by {
            let p = self.parents@[i];
            assert(self.hangs(i));
            if p == 0 || is_done(order, head, p) || (p == u && self.slot(i) < s) {
                assert(before.covered(order, head, s, i));
                assert(order.contains(i));
                let k = choose|k: int| 0 <= k < order.len() && order[k] == i;
                assert(after[k] == i);
            } else if is_done(after, head, p) {
                let k = choose|k: int| 0 <= k < head && k < after.len() && after[k] == p;
                assert(order[k] == p);
                assert(false);
            } else {
                assert(p == u && self.slot(i) == s);
                assert(self.child(u, s) == before.child(u, s));
                assert(i == c);
                assert(after[order.len() as int] == c);
            }
        }
        assert forall|k: int| 0 <= k < after.len() implies self.covered(
            after,
            head,
            s + 1,
            #[trigger] after[k],
        ) by {
            if k < order.len() {
                assert(before.covered(order, head, s, order[k]));
                let p = self.parents@[order[k]];
                if is_done(order, head, p) {
                    let k2 = choose|k2: int| 0 <= k2 < head && k2 < order.len() && order[k2] == p;
                    assert(after[k2] == p);
                }
            } else {
                assert(after[head] == u);
            }
        }
        assert(after[head] == u);
        assert forall|i: int|
            0 < i < self.size() && (#[trigger] self.paths@[i]).len()
                <= self.paths@[after[head]].len() implies after.contains(i) by {
            assert(order.contains(i));
            let k = choose|k: int| 0 <= k < order.len() && order[k] == i;
            assert(after[k] == i);
        }
        assert forall|k: int| 0 <= k < after.len() implies self.paths@[#[trigger] after[k]].len()
            <= self.paths@[after[head]].len() + 1 by {
            if k < order.len() {
                assert(after[k] == order[k]);
            }
        }
    }

    /// When all slots of the entry at `head` are done, the pass moves on to
    /// the next entry.
    pub proof fn lemma_pass_next(&self, order: Seq<int>, head: int)
        requires
            self.wf(),
            self.pass(order, head, ALPHABET_SIZE as int),
            head < order.len(),
        ensures
            self.pass(order, head + 1, 0),
    {
        let u = order[head];
        assert forall|i: int|
            0 < i < self.size() && #[trigger] self.covered(
                order,
                head + 1,
                0,
                i,
            ) implies order.contains(i) by {
            let p = self.parents@[i];
            assert(self.hangs(i));
            if p != 0 {
                let k = choose|k: int| 0 <= k < head + 1 && k < order.len() && order[k] == p;
                if k < head {
                    assert(is_done(order, head, p));
                }
            }
            assert(self.covered(order, head, ALPHABET_SIZE as int, i));
        }
        assert forall|k: int| 0 <= k < order.len() implies self.covered(
            order,
            head + 1,
            0,
            #[trigger] order[k],
        ) by {
            assert(self.covered(order, head, ALPHABET_SIZE as int, order[k]));
            let p = self.parents@[order[k]];
            if p != 0 {
                if is_done(order, head, p) {
                    let k2 = choose|k2: int| 0 <= k2 < head && k2 < order.len() && order[k2] == p;
                    assert(order[k2] == p);
                } else {
                    assert(order[head] == p);
                }
                assert(is_done(order, head + 1, p));
            }
        }
        if head + 1 < order.len() {
            let v = order[head + 1];
            let d = self.paths@[u].len();
            assert(self.paths@[v].len() <= d + 1);
            assert(d <= self.paths@[v].len());
            assert forall|i: int|
                0 < i < self.size() && (#[trigger] self.paths@[i]).len()
                    <= self.paths@[v].len() implies order.contains(i) by {
                if self.paths@[i].len() > d {
                    assert(self.hangs(i));
                    let p = self.parents@[i];
                    assert(self.paths@[p].len() == d) by {
                        assert(self.paths@[i].drop_last().len() == self.paths@[i].len() - 1);
                    }
                    if p != 0 {
                        assert(order.contains(p));
                        let k = choose|k: int| 0 <= k < order.len() && order[k] == p;
                        if k > head {
                            assert(self.paths@[v].len() <= self.paths@[order[k]].len());
                        }
                        assert(is_done(order, head + 1, p));
                    }
                    assert(self.covered(order, head + 1, 0, i));
                }
            }
            assert forall|k: int|
                0 <= k < order.len() implies self.paths@[#[trigger] order[k]].len()
                <= self.paths@[v].len() + 1 by {}
        }
    }

    /// When every entry of `order` is done, every node but the root is in it.
    pub proof fn lemma_pass_reaches(&self, order: Seq<int>, i: int)
        requires
            self.wf(),
            self.pass(order, order.len() as int, 0),
            0 < i < self.size(),
        ensures
            order.contains(i),
        decreases i,
    {
        let p = self.parents@[i];
        assert(self.hangs(i));
        if p != 0 {
            self.lemma_pass_reaches(order, p);
            let k = choose|k: int| 0 <= k < order.len() && order[k] == p;
            assert(is_done(order, order.len() as int, p));
        }
        assert(self.covered(order, order.len() as int, 0, i));
    }

    /// Computes the failure link of every node, breadth-first from the root:
    /// the nodes just below the root link to the root, every other node to
    /// the node that one step of the automaton reaches from its parent's
    /// link on the symbol of its own slot. A child in the slot of a symbol
    /// carries that symbol, so the slot is looked up directly.
    pub fn set_suffix_links(&mut self)
        requires
            old(self).wf(),
        ensures
            final(self).wf(),
            final(self).linked(),
            final(self).same_but_links(old(self)),
    {
        let mut queue: VecDeque<usize> = VecDeque::new();
        let ghost mut order: Seq<int> = Seq::empty();
        self.set_link(0, None);
        proof {
            self.lemma_same_but_links_wf(old(self));
        }
        let mut s: usize = 0;
        while s < ALPHABET_SIZE
            invariant
                s <= ALPHABET_SIZE,
                self.wf(),
                self.same_but_links(old(self)),
                self.root_pass(order, s as int),
                as_ints(queue@) =~= order,
            decreases ALPHABET_SIZE - s,
        {
            if let Some(c) = self.nodes[0].child(s) {
                let ghost before = *self;
                self.set_link(c, Some(0));
                queue.push_back(c);
                proof {
                    assert(before.child(0, s as int) == Some(c));
                    self.lemma_same_but_links_wf(&before);
                    self.lemma_root_child_link(c as int);
                    assert(self.hangs(c as int));
                    let after = order.push(c as int);
                    assert forall|k: int| 0 <= k < order.len() implies #[trigger] order[k]
                        != c by {}
                    assert forall|k: int| 0 <= k < after.len() implies self.resolved(
                        #[trigger] after[k],
                    ) by {
                        if k < order.len() {
                            assert(before.resolved(order[k]));
                            assert(self.nodes@[order[k]].link == before.nodes@[order[k]].link);
                        }
                    }
                    assert forall|i: int|
                        0 < i < self.size() && #[trigger] self.parents@[i] == 0 && self.slot(i) < s
                            + 1 implies after.contains(i) by {
                        assert(self.hangs(i));
                        if self.slot(i) < s {
                            assert(order.contains(i));
                            let k = choose|k: int| 0 <= k < order.len() && order[k] == i;
                            assert(after[k] == i);
                        } else {
                            assert(self.child(0, s as int) == before.child(0, s as int));
                            assert(i == c);
                            assert(after[order.len() as int] == c);
                        }
                    }
                    order = after;
                    assert(as_ints(queue@) =~= order);
                }
            } else {
                proof {
                    assert forall|i: int|
                        0 < i < self.size() && #[trigger] self.parents@[i] == 0 && self.slot(i) < s
                            + 1 implies order.contains(i) by {
                        assert(self.hangs(i));
                    }
                }
            }
            s += 1;
        }
        let ghost mut head: int = 0;
        proof {
            self.lemma_root_pass_done(order);
            assert(order.skip(0) =~= order);
        }
        while queue.len() > 0
            invariant
                self.wf(),
                self.same_but_links(old(self)),
                self.pass(order, head, 0),
                as_ints(queue@) =~= order.skip(head),
            decreases self.size() - head,
        {
            proof {
                lemma_distinct_bound(order, self.size());
            }
            let ghost waiting = queue@;
            let u = queue.pop_front().unwrap();
            proof {
                assert(as_ints(waiting).len() == order.skip(head).len());
                assert(as_ints(waiting)[0] == waiting[0] as int);
                assert(order.skip(head)[0] == order[head]);
                assert forall|j: int| 0 <= j < queue@.len() implies as_ints(queue@)[j]
                    == order.skip(head + 1)[j] by {
                    assert(as_ints(waiting)[j + 1] == waiting[j + 1] as int);
                    assert(order.skip(head)[j + 1] == order[head + 1 + j]);
                }
                assert(as_ints(queue@) =~= order.skip(head + 1));
            }
            let mut s: usize = 0;
            while s < ALPHABET_SIZE
                invariant
                    s <= ALPHABET_SIZE,
                    self.wf(),
                    self.same_but_links(old(self)),
                    self.pass(order, head, s as int),
                    head < order.len(),
                    u == order[head],
                    as_ints(queue@) =~= order.skip(head + 1),
                decreases ALPHABET_SIZE - s,
            {
                if let Some(c) = self.nodes[u].child(s) {
                    let ghost before = *self;
                    assert(self.resolved(u as int));
                    let mut target = self.nodes[u].link.unwrap();
                    let ghost l = target as int;
                    proof {
                        assert forall|i: int|
                            0 < i < self.size() && self.paths@[i].len()
                                <= self.paths@[l].len() implies #[trigger] self.resolved(i) by {
                            assert(order.contains(i));
                        }
                    }
                    self.follow_suffix_links(&mut target, s);
                    proof {
                        assert(self.child(u as int, s as int) == Some(c));
                        self.lemma_child_link(u as int, l, s as int, c as int, target as int);
                    }
                    self.set_link(c, Some(target));
                    let ghost waiting = queue@;
                    queue.push_back(c);
                    proof {
                        self.lemma_pass_push(&before, order, head, s as int, c as int);
                        assert(as_ints(waiting.push(c)) =~= as_ints(waiting).push(c as int));
                        assert(order.push(c as int).skip(head + 1) =~= order.skip(head + 1).push(
                            c as int,
                        ));
                        order = order.push(c as int);
                    }
                } else {
                    proof {
                        self.lemma_pass_skip(order, head, s as int);
                    }
                }
                s += 1;
            }
            proof {
                self.lemma_pass_next(order, head);
                head = head + 1;
            }
        }
        proof {
            assert(head == order.len()) by {
                assert(as_ints(queue@).len() == order.skip(head).len());
            }
            assert forall|i: int| 0 < i < self.size() implies #[trigger] self.resolved(i) by {
                self.lemma_pass_reaches(order, i);
            }
        }
    }
}

} // verus!
