use std::collections::{HashMap, HashSet};
use vstd::prelude::*;
use vstd::std_specs::hash::group_hash_axioms;
use crate::laws::{lemma_count_in_emissions, lemma_reported_iff};
use crate::matching::{
    as_ints, count_of, emissions, end_count, ends_within, first_seen, keys_of, lemma_count_of,
    lemma_first_seen_contains, lemma_first_seen_distinct, multiplicity, reported, views_of,
    words_at,
};
use crate::trie::Trie;

verus! {

broadcast use group_hash_axioms;

impl Trie {
    /// The node at which the pattern named by entry `k` of `emitted` ends.
    pub open spec fn end_of(&self, emitted: Seq<usize>, k: int) -> usize {
        self.ends@[emitted[k] as int]
    }

    /// Two reported patterns are the same string exactly if they end at the
    /// same node.
    pub proof fn lemma_same_word_same_end(&self, a: int, b: int)
        requires
            self.wf(),
            0 <= a < self.patterns().len(),
            0 <= b < self.patterns().len(),
        ensures
            self.patterns()[a] == self.patterns()[b] <==> self.ends@[a] == self.ends@[b],
    {
        assert(self.paths@[self.ends@[a] as int] == self.words@[a]@);
        assert(self.paths@[self.ends@[b] as int] == self.words@[b]@);
    }

    /// The patterns that stand in `text`: each string once, in the order in
    /// which the scan first reports it.
    pub fn search(&self, text: &str) -> (found: Vec<String>)
        requires
            self.wf(),
            self.linked(),
        ensures
            views_of(found@) == first_seen(reported(self.patterns(), text@)),
            views_of(found@).no_duplicates(),
            forall|w: Seq<char>| #[trigger]
                views_of(found@).contains(w) <==> self.patterns().contains(w) && ends_within(
                    w,
                    text@,
                ),
    {
        let emitted = self.search_internal(text);
        let ghost pats = self.patterns();
        let ghost all = reported(pats, text@);
        let mut seen: HashSet<usize> = HashSet::new();
        let mut found: Vec<String> = Vec::new();
        let mut i: usize = 0;
        proof {
            assert(views_of(found@) =~= first_seen(all.take(0)));
        }
        while i < emitted.len()
            invariant
                self.wf(),
                i <= emitted.len(),
                pats == self.patterns(),
                as_ints(emitted@) == emissions(pats, text@),
                all == words_at(pats, as_ints(emitted@)),
                forall|k: int| 0 <= k < emitted.len() ==> (#[trigger] emitted@[k]) < pats.len(),
                views_of(found@) == first_seen(all.take(i as int)),
                forall|n: usize|
                    seen@.contains(n) <==> exists|k: int|
                        0 <= k < i && #[trigger] self.end_of(emitted@, k) == n,
            decreases emitted.len() - i,
        {
            let index = emitted[i];
            proof {
                assert(as_ints(emitted@)[i as int] == index);
            }
            let node = self.ends[index];
            let ghost before = all.take(i as int);
            let fresh = seen.insert(node);
            proof {
                assert(all.take(i + 1).drop_last() =~= before);
                assert(all.take(i + 1).last() == pats[index as int]);
                assert(before.contains(pats[index as int]) <==> !fresh) by {
                    if before.contains(pats[index as int]) {
                        let k = choose|k: int|
                            0 <= k < before.len() && before[k] == pats[index as int];
                        assert(as_ints(emitted@)[k] == emitted@[k]);
                        self.lemma_same_word_same_end(emitted@[k] as int, index as int);
                        assert(self.end_of(emitted@, k) == node);
                    }
                    if !fresh {
                        let k = choose|k: int| 0 <= k < i && self.end_of(emitted@, k) == node;
                        assert(as_ints(emitted@)[k] == emitted@[k]);
                        self.lemma_same_word_same_end(emitted@[k] as int, index as int);
                        assert(before[k] == pats[index as int]);
                    }
                }
                assert forall|n: usize|
                    seen@.contains(n) <==> exists|k: int|
                        0 <= k < i + 1 && #[trigger] self.end_of(emitted@, k) == n by {
                    if seen@.contains(n) {
                        if n == node {
                            assert(self.end_of(emitted@, i as int) == n);
                        } else {
                            let k = choose|k: int| 0 <= k < i && self.end_of(emitted@, k) == n;
                            assert(self.end_of(emitted@, k) == n);
                        }
                    }
                }
            }
            if fresh {
                let ghost held = found@;
                found.push(self.words[index].clone());
                proof {
                    assert(views_of(found@) =~= views_of(held).push(pats[index as int]));
                }
            }
            i += 1;
        }
        proof {
            assert(all.take(emitted.len() as int) =~= all);
            lemma_first_seen_distinct(all);
            assert forall|w: Seq<char>| #[trigger]
                views_of(found@).contains(w) <==> pats.contains(w) && ends_within(w, text@) by {
                lemma_reported_iff(pats, text@, w);
            }
        }
        found
    }

    /// For each pattern that stands in `text`, in the order in which the
    /// scan first reports it, the string and the number of times it is
    /// reported: once for each place where it ends in `text` and each index
    /// under which it was added.
    pub fn search_occurences(&self, text: &str) -> (counts: Vec<(String, usize)>)
        requires
            self.wf(),
            self.linked(),
        ensures
            keys_of(counts@) == first_seen(reported(self.patterns(), text@)),
            keys_of(counts@).no_duplicates(),
            forall|w: Seq<char>| #[trigger]
                keys_of(counts@).contains(w) <==> self.patterns().contains(w) && ends_within(
                    w,
                    text@,
                ),
            forall|p: int|
                0 <= p < counts.len() ==> (#[trigger] counts[p]).1 == count_of(
                    reported(self.patterns(), text@),
                    counts[p].0@,
                ),
            forall|p: int|
                0 <= p < counts.len() ==> (#[trigger] counts[p]).1 == multiplicity(
                    self.patterns(),
                    counts[p].0@,
                ) * end_count(counts[p].0@, text@, text@.len()),
    {
        let emitted = self.search_internal(text);
        let ghost pats = self.patterns();
        let ghost all = reported(pats, text@);
        let mut places: HashMap<usize, usize> = HashMap::new();
        let mut counts: Vec<(String, usize)> = Vec::new();
        let mut i: usize = 0;
        proof {
            assert(keys_of(counts@) =~= first_seen(all.take(0)));
        }
        while i < emitted.len()
            invariant
                self.wf(),
                i <= emitted.len(),
                pats == self.patterns(),
                as_ints(emitted@) == emissions(pats, text@),
                all == words_at(pats, as_ints(emitted@)),
                forall|k: int| 0 <= k < emitted.len() ==> (#[trigger] emitted@[k]) < pats.len(),
                keys_of(counts@) == first_seen(all.take(i as int)),
                forall|p: int|
                    0 <= p < counts.len() ==> (#[trigger] counts[p]).1 == count_of(
                        all.take(i as int),
                        counts[p].0@,
                    ),
                forall|n: usize|
                    places@.contains_key(n) <==> exists|k: int|
                        0 <= k < i && #[trigger] self.end_of(emitted@, k) == n,
                forall|n: usize| #[trigger]
                    places@.contains_key(n) ==> places@[n] < counts.len() && n < self.size()
                        && counts[places@[n] as int].0@ == self.paths@[n as int],
            decreases emitted.len() - i,
        {
            let index = emitted[i];
            proof {
                assert(as_ints(emitted@)[i as int] == index);
            }
            let node = self.ends[index];
            let ghost word = pats[index as int];
            let ghost before = all.take(i as int);
            let ghost held = counts@;
            proof {
                assert(self.paths@[node as int] == word);
                assert(all.take(i + 1).drop_last() =~= before);
                assert(all.take(i + 1).last() == word);
                lemma_first_seen_distinct(before);
                assert(before.contains(word) <==> places@.contains_key(node)) by {
                    if before.contains(word) {
                        let k = choose|k: int| 0 <= k < before.len() && before[k] == word;
                        assert(as_ints(emitted@)[k] == emitted@[k]);
                        self.lemma_same_word_same_end(emitted@[k] as int, index as int);
                        assert(self.end_of(emitted@, k) == node);
                    }
                    if places@.contains_key(node) {
                        let k = choose|k: int| 0 <= k < i && self.end_of(emitted@, k) == node;
                        assert(as_ints(emitted@)[k] == emitted@[k]);
                        self.lemma_same_word_same_end(emitted@[k] as int, index as int);
                        assert(before[k] == word);
                    }
                }
                assert forall|p: int| 0 <= p < held.len() implies before.contains(
                    #[trigger] held[p].0@,
                ) by {
                    assert(keys_of(held)[p] == held[p].0@);
                    lemma_first_seen_contains(before, held[p].0@);
                }
            }
            match places.get(&node) {
                Some(place) => {
                    let place = *place;
                    proof {
                        lemma_count_of(before, word);
                    }
                    counts[place].1 += 1;
                    proof {
                        assert(keys_of(counts@) =~= keys_of(held));
                        assert forall|p: int| 0 <= p < counts.len() implies (
                        #[trigger] counts[p]).1 == count_of(all.take(i + 1), counts[p].0@) by {
                            if p != place {
                                assert(keys_of(held)[p] == held[p].0@);
                                assert(keys_of(held)[place as int] == word);
                            }
                        }
                    }
                },
                None => {
                    places.insert(node, counts.len());
                    counts.push((self.words[index].clone(), 1));
                    proof {
                        lemma_count_of(before, word);
                        assert(keys_of(counts@) =~= keys_of(held).push(word));
                        assert forall|p: int| 0 <= p < counts.len() implies (
                        #[trigger] counts[p]).1 == count_of(all.take(i + 1), counts[p].0@) by {
                            if p < held.len() {
                                assert(counts[p] == held[p]);
                            }
                        }
                    }
                },
            }
            proof {
                assert forall|n: usize|
                    places@.contains_key(n) <==> exists|k: int|
                        0 <= k < i + 1 && #[trigger] self.end_of(emitted@, k) == n by {
                    if places@.contains_key(n) {
                        if n == node {
                            assert(self.end_of(emitted@, i as int) == n);
                        } else {
                            let k = choose|k: int| 0 <= k < i && self.end_of(emitted@, k) == n;
                            assert(self.end_of(emitted@, k) == n);
                        }
                    }
                }
            }
            i += 1;
        }
        proof {
            assert(all.take(emitted.len() as int) =~= all);
            lemma_first_seen_distinct(all);
            assert forall|w: Seq<char>| #[trigger]
                keys_of(counts@).contains(w) <==> pats.contains(w) && ends_within(w, text@) by {
                lemma_reported_iff(pats, text@, w);
            }
            assert forall|p: int| 0 <= p < counts.len() implies (#[trigger] counts[p]).1
                == multiplicity(pats, counts[p].0@) * end_count(
                counts[p].0@,
                text@,
                text@.len(),
            ) by {
                lemma_count_in_emissions(pats, text@, text@.len(), counts[p].0@);
            }
        }
        counts
    }
}

} // verus!
